//! Bits of the packet `flags` byte.

use vstd::prelude::*;

verus! {

/// A recipient eph id follows the sender (set from `Packet::recipient` at encode time).
pub const HAS_RECIPIENT: u8 = 0b0000_0001;

/// The payload is LZ4-compressed.
pub const COMPRESSED: u8 = 0b0000_0010;

/// Reserved for a future post-quantum handshake; must be zero for now.
pub const RESERVED_PQ: u8 = 0b0000_0100;

} // verus!
