//! Where the running daemon is: the discovery record it writes to
//! `~/.pixel-agents/daemon.json`.

use vstd::prelude::*;

use crate::text::str_eq;

verus! {

/// The daemon's discovery record.
#[derive(Debug, Clone)]
pub struct DaemonDiscovery {
    pub socket_path: String,
    pub token: String,
    pub boot_id: String,
    pub pid: u32,
    pub version: String,
    pub hook_port: Option<u16>,
}

impl DaemonDiscovery {
    /// Whether a handshake acknowledgement's boot id is the one the record
    /// names, i.e. the socket reached the daemon that wrote the record.
    pub fn boot_matches(&self, ack_boot_id: &str) -> (r: bool)
        ensures
            r == (self.boot_id@ == ack_boot_id@),
    {
        str_eq(self.boot_id.as_str(), ack_boot_id)
    }
}

} // verus!
