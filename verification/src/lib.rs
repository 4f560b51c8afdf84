//! Swarm reconciliation and ban-classification engine for a qBittorrent
//! leech-banning monitor.
//!
//! The library holds the stateful core of the monitor: the peer state store
//! that is diffed against each fresh swarm snapshot, the two-stage
//! classification rules that decide whether a peer is banned, the per-network
//! ban counters, and the daily reset schedule. Transport, JSON decoding and
//! command-line handling live outside the library and hand it plain values.
//!
//! Peer progress is carried as an integer number of parts per million of the
//! torrent, so every rule is stated and checked in exact integer arithmetic.

use vstd::prelude::*;

pub mod classify;
pub mod clients;
pub mod clock;
mod config;
pub mod net;
pub mod peer;
pub mod store;
pub mod text;
pub mod version;

pub use config::Cli;

verus! {

/// One million: the denominator of the fixed-point progress representation.
pub const PROGRESS_SCALE: u64 = 1_000_000;

/// Checks that a progress value is a valid fraction of the torrent,
/// i.e. lies between zero and one.
pub fn progress_in_range(progress: u64) -> (r: bool)
    ensures
        r == (progress <= PROGRESS_SCALE),
{
    progress <= PROGRESS_SCALE
}

} // verus!
