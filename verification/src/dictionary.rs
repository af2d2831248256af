//! The built-in dictionary: the bytes a window holds before any data.
use vstd::prelude::*;

verus! {

/// Where the pseudo-random sequence behind the dictionary starts.
pub const DICTIONARY_SEED: u32 = 3758097560;

/// One step of the pseudo-random sequence.
pub open spec fn scramble(x: u32) -> u32 {
    let a = x ^ (x << 13);
    let b = a ^ (a >> 17);
    b ^ (b << 5)
}

/// The `k`-th number of the pseudo-random sequence.
pub open spec fn word_at(k: nat) -> u32
    decreases k,
{
    if k == 0 {
        DICTIONARY_SEED
    } else {
        scramble(word_at((k - 1) as nat))
    }
}

/// `x` without its `j` lowest hexadecimal digits.
pub open spec fn drop_nibbles(x: nat, j: nat) -> nat
    decreases j,
{
    if j == 0 {
        x
    } else {
        drop_nibbles(x, (j - 1) as nat) / 16
    }
}

/// The sixteen bytes the dictionary is made of.
pub open spec fn common_byte(i: nat) -> u8 {
    if i == 0 {
        0x20
    } else if i == 1 {
        0x00
    } else if i == 2 {
        0x30
    } else if i == 3 {
        0x65
    } else if i == 4 {
        0x69
    } else if i == 5 {
        0x3e
    } else if i == 6 {
        0x74
    } else if i == 7 {
        0x6f
    } else if i == 8 {
        0x3c
    } else if i == 9 {
        0x61
    } else if i == 10 {
        0x6e
    } else if i == 11 {
        0x73
    } else if i == 12 {
        0x0a
    } else if i == 13 {
        0x72
    } else if i == 14 {
        0x2f
    } else {
        0x2e
    }
}

/// The byte at index `i` of the dictionary: each number of the sequence
/// gives eight bytes, one for each of its hexadecimal digits, lowest first.
pub open spec fn dictionary_byte(i: nat) -> u8 {
    common_byte(drop_nibbles(word_at(i / 8 + 1) as nat, i % 8) % 16)
}

/// The first `n` bytes of the dictionary.
pub open spec fn dictionary(n: nat) -> Seq<u8> {
    Seq::new(n, |i: int| dictionary_byte(i as nat))
}

/// A shorter dictionary is the beginning of a longer one.
pub proof fn lemma_dictionary_prefix(n: nat, m: nat)
    requires
        n <= m,
    ensures
        dictionary(m).take(n as int) == dictionary(n),
{
    assert(dictionary(m).take(n as int) =~= dictionary(n));
}

/// One step of the pseudo-random sequence.
pub fn next_word(x: u32) -> (r: u32)
    ensures
        r == scramble(x),
{
    let a = x ^ (x << 13);
    let b = a ^ (a >> 17);
    b ^ (b << 5)
}

/// One of the sixteen bytes the dictionary is made of.
pub fn pick_common(i: u32) -> (b: u8)
    requires
        i < 16,
    ensures
        b == common_byte(i as nat),
{
    match i {
        0 => 0x20,
        1 => 0x00,
        2 => 0x30,
        3 => 0x65,
        4 => 0x69,
        5 => 0x3e,
        6 => 0x74,
        7 => 0x6f,
        8 => 0x3c,
        9 => 0x61,
        10 => 0x6e,
        11 => 0x73,
        12 => 0x0a,
        13 => 0x72,
        14 => 0x2f,
        _ => 0x2e,
    }
}

} // verus!
