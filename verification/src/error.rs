//! Crate-wide error types.

use vstd::prelude::*;

verus! {

/// Errors from decoding untrusted bytes off the wire. Decoding never panics: every malformed input
/// maps to one of these.
#[derive(Debug, Clone, Copy, PartialEq, Eq, Structural)]
pub enum WireError {
    /// The buffer ends before `need` bytes; it holds `have`.
    Short { need: usize, have: usize },
    /// The version byte is not the supported protocol version.
    BadVersion(u8),
    /// The declared payload plus the signature trailer does not fit in what remains.
    BadLength { declared: usize, remaining: usize },
    /// Bytes remain after the signature trailer.
    Trailing(usize),
    /// The signature does not verify under the claimed key.
    BadSignature,
}

/// Errors from link-layer framing.
#[derive(Debug, Clone, Copy, PartialEq, Eq, Structural)]
pub enum FragError {
    /// The link MTU cannot carry a fragment header plus any payload.
    MtuTooSmall(usize),
    /// A fragment index that is not below its total, or a zero or changing total.
    BadIndex { index: u16, total: u16 },
    /// A message would exceed the reassembly cap.
    TooLarge { cap: usize },
}

/// The crate-wide error.
#[derive(Debug, Clone, PartialEq, Eq)]
pub enum Error {
    Wire(WireError),
    Frag(FragError),
    Identity(String),
    Compress(String),
    RateLimited,
    Store(String),
    Noise(String),
}

} // verus!
