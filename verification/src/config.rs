//! The parameters of a stream and the byte that announces them.
use vstd::prelude::*;
use vstd::arithmetic::power2::{pow2, lemma2_to64, lemma_pow2_unfold, lemma_pow2_strictly_increases};
use crate::error::Error;

verus! {

/// Parameters shared by a compressor and the decompressor that reads its stream.
///
/// By default the window has 10 bits (1 KiB), literals have 8 bits, and
/// neither lazy matching nor a custom dictionary is used.
#[derive(Clone, Copy, Debug, PartialEq, Eq, Structural)]
pub struct Config {
    /// Window size in bits (8-15); the window holds `2^window_bits` bytes.
    pub window_bits: u8,
    /// Literal width in bits (5-8); no input byte may use more.
    pub literal_bits: u8,
    /// Whether the compressor may pass over a match for a longer one that
    /// starts a byte later. It is a hint that leaves no trace in the stream
    /// format; the compressor of this crate always takes the first match,
    /// so that a stream depends on the data alone.
    pub lazy_matching: bool,
    /// Whether the window starts from caller-supplied bytes.
    pub use_custom_dictionary: bool,
}

impl Default for Config {
    fn default() -> (c: Self)
        ensures
            c == (Config {
                window_bits: 10,
                literal_bits: 8,
                lazy_matching: false,
                use_custom_dictionary: false,
            }),
    {
        Config { window_bits: 10, literal_bits: 8, lazy_matching: false, use_custom_dictionary: false }
    }
}

impl Config {
    /// Both widths lie in their accepted ranges.
    pub open spec fn valid(&self) -> bool {
        &&& 8 <= self.window_bits <= 15
        &&& 5 <= self.literal_bits <= 8
    }

    /// The default configuration.
    pub fn new() -> (c: Self)
        ensures
            c == (Config {
                window_bits: 10,
                literal_bits: 8,
                lazy_matching: false,
                use_custom_dictionary: false,
            }),
            c.valid(),
    {
        Config { window_bits: 10, literal_bits: 8, lazy_matching: false, use_custom_dictionary: false }
    }

    /// Sets the window size in bits (8-15).
    pub fn window_bits(self, bits: u8) -> (r: Result<Self, Error>)
        ensures
            8 <= bits <= 15 ==> r == Ok::<Self, Error>(Config { window_bits: bits, ..self }),
            !(8 <= bits <= 15) ==> r == Err::<Self, Error>(
                Error::InvalidConfig("Window bits must be 8-15"),
            ),
    {
        if bits < 8 || bits > 15 {
            return Err(Error::InvalidConfig("Window bits must be 8-15"));
        }
        let mut c = self;
        c.window_bits = bits;
        Ok(c)
    }

    /// Sets the literal width in bits (5-8).
    pub fn literal_bits(self, bits: u8) -> (r: Result<Self, Error>)
        ensures
            5 <= bits <= 8 ==> r == Ok::<Self, Error>(Config { literal_bits: bits, ..self }),
            !(5 <= bits <= 8) ==> r == Err::<Self, Error>(
                Error::InvalidConfig("Literal bits must be 5-8"),
            ),
    {
        if bits < 5 || bits > 8 {
            return Err(Error::InvalidConfig("Literal bits must be 5-8"));
        }
        let mut c = self;
        c.literal_bits = bits;
        Ok(c)
    }

    /// Says whether lazy matching is wanted.
    pub fn lazy_matching(self, enabled: bool) -> (c: Self)
        ensures
            c == (Config { lazy_matching: enabled, ..self }),
    {
        let mut c = self;
        c.lazy_matching = enabled;
        c
    }

    /// Says whether the window starts from a dictionary that the caller supplies.
    pub fn custom_dictionary(self, enabled: bool) -> (c: Self)
        ensures
            c == (Config { use_custom_dictionary: enabled, ..self }),
    {
        let mut c = self;
        c.use_custom_dictionary = enabled;
        c
    }

    /// Whether both widths lie in their accepted ranges.
    pub fn is_valid(&self) -> (b: bool)
        ensures
            b == self.valid(),
    {
        8 <= self.window_bits && self.window_bits <= 15 && 5 <= self.literal_bits
            && self.literal_bits <= 8
    }

    /// Window size in bytes: `2^window_bits`.
    pub fn window_size(&self) -> (n: usize)
        requires
            self.window_bits < 32,
        ensures
            n == pow2(self.window_bits as nat),
            n > 0,
    {
        let mut n: usize = 1;
        let mut i: u8 = 0;
        proof {
            lemma2_to64();
        }
        while i < self.window_bits
            invariant
                i <= self.window_bits < 32,
                n == pow2(i as nat),
                n > 0,
            decreases self.window_bits - i,
        {
            proof {
                lemma_pow2_unfold((i + 1) as nat);
                lemma_pow2_strictly_increases((i + 1) as nat, 32);
                lemma2_to64();
            }
            n = n * 2;
            i = i + 1;
        }
        n
    }

    /// The least match length worth a token under this configuration.
    pub fn min_match(&self) -> (m: usize)
        ensures
            m == crate::token::min_match(*self),
    {
        if 2 * (self.literal_bits as u32) > self.window_bits as u32 {
            2
        } else {
            3
        }
    }
}

} // verus!
