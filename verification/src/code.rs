//! The prefix code for match lengths.
//!
//! Fourteen symbols stand for the match lengths, shortest first; a fifteenth
//! marks a flush. No code word is the beginning of another, and every string
//! of eight bits begins with exactly one of them.
use vstd::prelude::*;
use vstd::arithmetic::power2::{pow2, lemma2_to64};

verus! {

/// Number of symbols that stand for a match length.
pub const LENGTH_SYMBOLS: u8 = 14;

/// The symbol that marks a flush.
pub const FLUSH_SYMBOL: u8 = 14;

/// Length in bits of the longest code word.
pub const MAX_CODE_BITS: u32 = 8;

/// Length in bits of the code word of `sym`.
pub open spec fn code_len(sym: nat) -> nat {
    if sym == 0 {
        1
    } else if sym == 1 {
        2
    } else if sym == 2 || sym == 3 {
        4
    } else if sym == 4 {
        5
    } else if sym == 5 || sym == 6 || sym == 7 || sym == 13 {
        6
    } else if sym == 8 || sym == 9 {
        7
    } else {
        8
    }
}

/// The code word of `sym`, as the number its bits spell.
pub open spec fn code_word(sym: nat) -> nat {
    if sym == 0 {
        0x0
    } else if sym == 1 {
        0x3
    } else if sym == 2 {
        0x8
    } else if sym == 3 {
        0xb
    } else if sym == 4 {
        0x14
    } else if sym == 5 {
        0x24
    } else if sym == 6 {
        0x26
    } else if sym == 7 {
        0x2b
    } else if sym == 8 {
        0x4b
    } else if sym == 9 {
        0x54
    } else if sym == 10 {
        0x94
    } else if sym == 11 {
        0x95
    } else if sym == 12 {
        0xaa
    } else if sym == 13 {
        0x27
    } else {
        0xab
    }
}

/// Whether the eight bits that spell `v` begin with the code word of `sym`.
pub open spec fn begins_with_code(v: nat, sym: nat) -> bool {
    v / pow2((8 - code_len(sym)) as nat) == code_word(sym)
}

/// The symbol whose code word begins the eight bits that spell `v`.
pub open spec fn symbol_of(v: nat) -> nat {
    if v < 0x80 {
        0
    } else if v >= 0xc0 {
        1
    } else if v < 0x90 {
        2
    } else if v >= 0xb0 {
        3
    } else if 0xa0 <= v < 0xa8 {
        4
    } else if 0x90 <= v < 0x94 {
        5
    } else if 0x98 <= v < 0x9c {
        6
    } else if 0xac <= v {
        7
    } else if 0x96 <= v < 0x98 {
        8
    } else if 0xa8 <= v < 0xaa {
        9
    } else if v == 0x94 {
        10
    } else if v == 0x95 {
        11
    } else if v == 0xaa {
        12
    } else if 0x9c <= v < 0xa0 {
        13
    } else {
        14
    }
}

/// The weight of the first bit after the code word of `sym` in a string of eight.
pub open spec fn code_shift(sym: nat) -> nat {
    if sym == 0 {
        128
    } else if sym == 1 {
        64
    } else if sym == 2 || sym == 3 {
        16
    } else if sym == 4 {
        8
    } else if sym == 5 || sym == 6 || sym == 7 || sym == 13 {
        4
    } else if sym == 8 || sym == 9 {
        2
    } else {
        1
    }
}

proof fn lemma_code_shift(sym: nat)
    ensures
        pow2((8 - code_len(sym)) as nat) == code_shift(sym),
{
    lemma2_to64();
}

/// Every code word fits in its length, and no length exceeds eight bits.
pub proof fn lemma_code_fits(sym: nat)
    requires
        sym <= 14,
    ensures
        1 <= code_len(sym) <= 8,
        code_word(sym) < pow2(code_len(sym)),
{
    lemma2_to64();
}

/// The code is a prefix code that leaves no string of eight bits out:
/// `symbol_of(v)` is the one symbol whose code word begins `v`.
pub proof fn lemma_symbol_of_unique(v: nat, sym: nat)
    requires
        v < 256,
        sym <= 14,
    ensures
        symbol_of(v) <= 14,
        begins_with_code(v, sym) <==> symbol_of(v) == sym,
{
    lemma_code_shift(sym);
    let d = code_shift(sym);
    assert(begins_with_code(v, sym) <==> code_word(sym) * d <= v < (code_word(sym) + 1) * d) by {
        assert(v / d == code_word(sym) <==> code_word(sym) * d <= v < (code_word(sym) + 1) * d)
            by (nonlinear_arith)
            requires
                d > 0,
        ;
    }
}

/// A code word followed by any bits that fill it up to eight decodes to its symbol.
pub proof fn lemma_symbol_of_code(sym: nat, low: nat)
    requires
        sym <= 14,
        low < pow2((8 - code_len(sym)) as nat),
    ensures
        code_word(sym) * pow2((8 - code_len(sym)) as nat) + low < 256,
        symbol_of(code_word(sym) * pow2((8 - code_len(sym)) as nat) + low) == sym,
{
    lemma_code_shift(sym);
}

/// The code word of `sym` and its length in bits.
pub fn encode_symbol(sym: u8) -> (r: (u32, u32))
    requires
        sym <= 14,
    ensures
        r.0 == code_word(sym as nat),
        r.1 == code_len(sym as nat),
{
    match sym {
        0 => (0x0, 1),
        1 => (0x3, 2),
        2 => (0x8, 4),
        3 => (0xb, 4),
        4 => (0x14, 5),
        5 => (0x24, 6),
        6 => (0x26, 6),
        7 => (0x2b, 6),
        8 => (0x4b, 7),
        9 => (0x54, 7),
        10 => (0x94, 8),
        11 => (0x95, 8),
        12 => (0xaa, 8),
        13 => (0x27, 6),
        _ => (0xab, 8),
    }
}

/// The symbol whose code word begins the eight bits that spell `v`.
pub fn decode_symbol(v: u32) -> (sym: u8)
    requires
        v < 256,
    ensures
        sym == symbol_of(v as nat),
        sym <= 14,
{
    if v < 0x80 {
        0
    } else if v >= 0xc0 {
        1
    } else if v < 0x90 {
        2
    } else if v >= 0xb0 {
        3
    } else if 0xa0 <= v && v < 0xa8 {
        4
    } else if v < 0x94 {
        5
    } else if 0x98 <= v && v < 0x9c {
        6
    } else if 0xac <= v {
        7
    } else if 0x96 <= v && v < 0x98 {
        8
    } else if 0xa8 <= v && v < 0xaa {
        9
    } else if v == 0x94 {
        10
    } else if v == 0x95 {
        11
    } else if v == 0xaa {
        12
    } else if 0x9c <= v && v < 0xa0 {
        13
    } else {
        14
    }
}

} // verus!
