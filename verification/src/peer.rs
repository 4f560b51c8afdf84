//! Peers as the monitor sees them.

use vstd::prelude::*;
use crate::PROGRESS_SCALE;

verus! {

/// One observation of a peer in a torrent's swarm: its address, its
/// cumulative upload in bytes, its reported progress as parts per million
/// of the torrent, and its client identification string.
pub struct Peer {
    pub ip: String,
    pub port: u16,
    pub uploaded: u64,
    pub progress: u64,
    pub client: String,
}

/// Mathematical shape of a peer observation.
pub struct PeerData {
    pub ip: Seq<char>,
    pub port: int,
    pub uploaded: int,
    pub progress: int,
    pub client: Seq<char>,
}

impl View for Peer {
    type V = PeerData;

    open spec fn view(&self) -> PeerData {
        PeerData {
            ip: self.ip@,
            port: self.port as int,
            uploaded: self.uploaded as int,
            progress: self.progress as int,
            client: self.client@,
        }
    }
}

impl PeerData {
    /// The reported progress is a valid fraction of the torrent.
    pub open spec fn wf(self) -> bool {
        0 <= self.progress <= PROGRESS_SCALE
    }
}

impl Peer {
    /// The reported progress is a valid fraction of the torrent.
    pub open spec fn wf(&self) -> bool {
        self@.wf()
    }
}

} // verus!
