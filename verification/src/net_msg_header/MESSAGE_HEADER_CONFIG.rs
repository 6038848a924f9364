use vstd::prelude::*;

verus! {

/// Network magic bytes that open every message.
pub const MESSAGE_START: [u8; 4] = [0xFF, 0xFF, 0xFF, 0xF1];

/// Payload size of a header made without one.
pub const MESSAGE_SIZE: u32 = 0;

/// Length of the command field.
pub const MESSAGE_HEADER_COMMAND_SIZE: usize = 12;

/// Length of a header on the wire: magic, command, payload size.
pub const MESSAGE_HEADER_SIZE: usize = 20;

} // verus!
