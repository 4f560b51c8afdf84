//! Runtime configuration handed to the monitor.

use vstd::prelude::*;

verus! {

/// Connection settings for the local qBittorrent control endpoint: the WebUI
/// port and the polling interval in seconds between monitoring cycles.
#[derive(Clone, Copy, Debug)]
pub struct Cli {
    pub port: u16,
    pub interval: u64,
}

} // verus!
