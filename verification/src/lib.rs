//! A streaming, low-memory, dictionary-based lossless codec.
//!
//! A [`Compressor`] turns bytes into a stream of tokens: literals, and
//! matches that copy from a sliding window of the most recent bytes. A
//! [`Decompressor`] turns the stream back into the bytes. Both work on
//! buffers of any size and keep what does not fit for the next call.
pub mod error;
pub mod config;
pub mod header;
pub mod bits;
pub mod bitqueue;
pub mod code;
pub mod ring;
pub mod token;
pub mod dictionary;
pub mod window;
pub mod lookahead;
pub mod search;
pub mod stream;
pub mod start;
pub mod compressor;
pub mod decompressor;
pub mod laws;

pub use crate::error::Error;
pub use crate::config::Config;
pub use crate::compressor::{Compressor, Compressor256, Compressor512, Compressor1K, Compressor2K, Compressor4K};
pub use crate::decompressor::{Decompressor, Decompressor256, Decompressor512, Decompressor1K, Decompressor2K, Decompressor4K};
