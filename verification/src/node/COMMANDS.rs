use vstd::prelude::*;

verus! {

/// Version handshake message.
pub const VERSION: &'static str = "VERSION";

/// Version acknowledgment.
pub const VERACK: &'static str = "VERACK";

/// Keep-alive ping.
pub const PING: &'static str = "PING";

/// Response to a ping.
pub const PONG: &'static str = "PONG";

/// Asks a peer for the addresses it knows.
pub const ADDR: &'static str = "ADDR";

/// Carries known addresses to a peer that asked for them.
pub const GETADDR: &'static str = "GETADDR";

} // verus!
