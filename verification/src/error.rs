use vstd::prelude::*;

verus! {

/// What can go wrong while compressing or decompressing.
#[derive(Debug, Clone, Copy)]
pub enum Error {
    /// The output buffer has no room for what must be written next.
    OutputFull,
    /// The input ended before a complete item could be read.
    InputExhausted,
    /// A configuration parameter is not acceptable; the text says which.
    InvalidConfig(&'static str),
    /// An input byte has bits set above the configured literal width.
    ExcessBits,
    /// The window storage cannot hold the requested number of bytes.
    BufferTooSmall,
}

} // verus!
