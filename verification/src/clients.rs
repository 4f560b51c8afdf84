//! Denylists of BitTorrent client identification strings.
//!
//! Two fixed lists drive the context-free classification rules: known
//! leech clients, matched against the whole identification string, and
//! known buggy or ancient client lines, matched as version prefixes.

use vstd::prelude::*;

verus! {

use crate::text::spec_starts_with;
use crate::text::str_eq;
use crate::text::str_starts_with;

/// The identification string names a known leech client exactly.
pub open spec fn is_leech_client(c: Seq<char>) -> bool {
    ||| c == "-XL"@
    ||| c == "Xunlei"@
    ||| c == "XunLei"@
    ||| c == "7."@
    ||| c == "aria2"@
    ||| c == "Xfplay"@
    ||| c == "dandanplay"@
    ||| c == "FDM"@
    ||| c == "go.torrent"@
    ||| c == "Mozilla"@
    ||| c == "github.com/anacrolix/torrent (devel) (anacrolix/torrent unknown)"@
    ||| c == "dt/torrent/"@
    ||| c == "Taipei-Torrent dev"@
    ||| c == "trafficConsume"@
    ||| c == "hp/torrent/"@
    ||| c == "BitComet 1.92"@
    ||| c == "BitComet 1.98"@
    ||| c == "xm/torrent/"@
    ||| c == "flashget"@
    ||| c == "FlashGet"@
    ||| c == "StellarPlayer"@
    ||| c == "Gopeed"@
    ||| c == "MediaGet"@
    ||| c == "aD/"@
    ||| c == "ADM"@
    ||| c == "coc_coc_browser"@
    ||| c == "FileCroc"@
    ||| c == "filecxx"@
    ||| c == "Folx"@
    ||| c == "seanime (devel) (anacrolix/torrent"@
    ||| c == "HitomiDownloader"@
    ||| c == "gateway (devel) (anacrolix/torrent"@
    ||| c == "offline-download (devel) (anacrolix/torrent"@
    ||| c == "QQDownload"@
}

/// The identification string begins with the version prefix of a known
/// buggy or ancient client line.
pub open spec fn is_ancient_client(c: Seq<char>) -> bool {
    ||| spec_starts_with(c, "TorrentStorm"@)
    ||| spec_starts_with(c, "Azureus 1."@)
    ||| spec_starts_with(c, "Azureus 2."@)
    ||| spec_starts_with(c, "Azureus 3."@)
    ||| spec_starts_with(c, "Deluge 0."@)
    ||| spec_starts_with(c, "Deluge 1.0"@)
    ||| spec_starts_with(c, "Deluge 1.1"@)
    ||| spec_starts_with(c, "qBittorrent 0."@)
    ||| spec_starts_with(c, "qBittorrent 1."@)
    ||| spec_starts_with(c, "qBittorrent 2."@)
    ||| spec_starts_with(c, "Transmission 0."@)
    ||| spec_starts_with(c, "Transmission 1."@)
    ||| spec_starts_with(c, "BitComet 0."@)
    ||| spec_starts_with(c, "µTorrent 1."@)
    ||| spec_starts_with(c, "uTorrent 1."@)
    ||| spec_starts_with(c, "μTorrent 1."@)
}

/// The identification string matches either denylist.
pub open spec fn matches_denylist(c: Seq<char>) -> bool {
    is_leech_client(c) || is_ancient_client(c)
}

/// Decides whether the identification string names a known leech client.
pub fn client_is_leech(c: &str) -> (r: bool)
    ensures
        r == is_leech_client(c@),
{
    str_eq(c, "-XL") || str_eq(c, "Xunlei") || str_eq(c, "XunLei") || str_eq(c, "7.") || str_eq(
        c,
        "aria2",
    ) || str_eq(c, "Xfplay") || str_eq(c, "dandanplay") || str_eq(c, "FDM") || str_eq(
        c,
        "go.torrent",
    ) || str_eq(c, "Mozilla") || str_eq(
        c,
        "github.com/anacrolix/torrent (devel) (anacrolix/torrent unknown)",
    ) || str_eq(c, "dt/torrent/") || str_eq(c, "Taipei-Torrent dev") || str_eq(c, "trafficConsume")
        || str_eq(c, "hp/torrent/") || str_eq(c, "BitComet 1.92") || str_eq(c, "BitComet 1.98")
        || str_eq(c, "xm/torrent/") || str_eq(c, "flashget") || str_eq(c, "FlashGet") || str_eq(
        c,
        "StellarPlayer",
    ) || str_eq(c, "Gopeed") || str_eq(c, "MediaGet") || str_eq(c, "aD/") || str_eq(c, "ADM")
        || str_eq(c, "coc_coc_browser") || str_eq(c, "FileCroc") || str_eq(c, "filecxx") || str_eq(
        c,
        "Folx",
    ) || str_eq(c, "seanime (devel) (anacrolix/torrent") || str_eq(c, "HitomiDownloader")
        || str_eq(c, "gateway (devel) (anacrolix/torrent") || str_eq(
        c,
        "offline-download (devel) (anacrolix/torrent",
    ) || str_eq(c, "QQDownload")
}

/// Decides whether the identification string begins with a known buggy or
/// ancient client version prefix.
pub fn client_is_ancient(c: &str) -> (r: bool)
    ensures
        r == is_ancient_client(c@),
{
    str_starts_with(c, "TorrentStorm") || str_starts_with(c, "Azureus 1.") || str_starts_with(
        c,
        "Azureus 2.",
    ) || str_starts_with(c, "Azureus 3.") || str_starts_with(c, "Deluge 0.") || str_starts_with(
        c,
        "Deluge 1.0",
    ) || str_starts_with(c, "Deluge 1.1") || str_starts_with(c, "qBittorrent 0.")
        || str_starts_with(c, "qBittorrent 1.") || str_starts_with(c, "qBittorrent 2.")
        || str_starts_with(c, "Transmission 0.") || str_starts_with(c, "Transmission 1.")
        || str_starts_with(c, "BitComet 0.") || str_starts_with(c, "µTorrent 1.")
        || str_starts_with(c, "uTorrent 1.") || str_starts_with(c, "μTorrent 1.")
}

/// Decides whether the identification string matches either denylist.
pub fn client_matches_denylist(c: &str) -> (r: bool)
    ensures
        r == matches_denylist(c@),
{
    client_is_leech(c) || client_is_ancient(c)
}

} // verus!
