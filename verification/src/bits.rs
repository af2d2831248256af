//! Bit strings and the numbers they spell, most significant bit first.
use vstd::prelude::*;
use vstd::arithmetic::power2::{pow2, lemma_pow2_pos, lemma_pow2_unfold};

verus! {

/// The `n` low binary digits of `v`, most significant first.
pub open spec fn bits_of(v: nat, n: nat) -> Seq<bool>
    decreases n,
{
    if n == 0 {
        Seq::empty()
    } else {
        bits_of(v / 2, (n - 1) as nat).push(v % 2 == 1)
    }
}

/// The number that the digits of `s` spell, most significant first.
pub open spec fn value_of(s: Seq<bool>) -> nat
    decreases s.len(),
{
    if s.len() == 0 {
        0
    } else {
        2 * value_of(s.drop_last()) + (if s.last() { 1nat } else { 0nat })
    }
}

/// The bits of a byte string: eight per byte, in order.
pub open spec fn bytes_bits(s: Seq<u8>) -> Seq<bool>
    decreases s.len(),
{
    if s.len() == 0 {
        Seq::empty()
    } else {
        bytes_bits(s.drop_last()) + bits_of(s.last() as nat, 8)
    }
}

/// `n` copies of the bit `b`.
pub open spec fn repeat_bit(b: bool, n: nat) -> Seq<bool> {
    Seq::new(n, |i: int| b)
}

/// A number spelled with `n` digits takes `n` bits.
pub proof fn lemma_bits_of_len(v: nat, n: nat)
    ensures
        bits_of(v, n).len() == n,
    decreases n,
{
    if n > 0 {
        lemma_bits_of_len(v / 2, (n - 1) as nat);
    }
}

/// A string of `n` bits spells a number below `2^n`.
pub proof fn lemma_value_bound(s: Seq<bool>)
    ensures
        value_of(s) < pow2(s.len()),
    decreases s.len(),
{
    if s.len() == 0 {
        lemma_pow2_pos(0);
    } else {
        lemma_value_bound(s.drop_last());
        lemma_pow2_unfold(s.len());
    }
}

/// Spelling a number and reading it back gives the number, if it fits.
pub proof fn lemma_value_of_bits(v: nat, n: nat)
    requires
        v < pow2(n),
    ensures
        value_of(bits_of(v, n)) == v,
    decreases n,
{
    if n == 0 {
        assert(pow2(0) == 1) by { vstd::arithmetic::power2::lemma2_to64(); }
    } else {
        lemma_pow2_unfold(n);
        lemma_value_of_bits(v / 2, (n - 1) as nat);
        let s = bits_of(v, n);
        assert(s.drop_last() =~= bits_of(v / 2, (n - 1) as nat));
        assert(s.last() == (v % 2 == 1));
        lemma_bits_of_len(v, n);
    }
}

/// Reading a bit string and spelling the number again gives the string.
pub proof fn lemma_bits_of_value(s: Seq<bool>)
    ensures
        bits_of(value_of(s), s.len()) == s,
    decreases s.len(),
{
    if s.len() > 0 {
        lemma_bits_of_value(s.drop_last());
        let v = value_of(s);
        assert(v / 2 == value_of(s.drop_last()));
        assert((v % 2 == 1) == s.last());
        assert(bits_of(v, s.len()) =~= s);
    } else {
        assert(bits_of(value_of(s), s.len()) =~= s);
    }
}

/// The digits of `a * 2^m + b` are those of `a` followed by the `m` digits of `b`.
pub proof fn lemma_bits_concat(a: nat, n: nat, b: nat, m: nat)
    requires
        b < pow2(m),
    ensures
        bits_of(a * pow2(m) + b, n + m) == bits_of(a, n) + bits_of(b, m),
    decreases m,
{
    if m == 0 {
        assert(pow2(0) == 1) by { vstd::arithmetic::power2::lemma2_to64(); }
        assert(a * 1 == a);
        assert(bits_of(a, n) + bits_of(b, 0) =~= bits_of(a, n));
    } else {
        lemma_pow2_unfold(m);
        let h = pow2((m - 1) as nat);
        let x = a * pow2(m) + b;
        assert(a * pow2(m) == 2 * (a * h)) by (nonlinear_arith)
            requires
                pow2(m) == 2 * h,
        ;
        assert(x / 2 == a * h + b / 2);
        assert(x % 2 == b % 2);
        lemma_bits_concat(a, n, b / 2, (m - 1) as nat);
        assert(bits_of(x, n + m) =~= bits_of(a, n) + bits_of(b, m));
    }
}

/// The number spelled by `a + b` is that of `a`, shifted past `b`, plus that of `b`.
pub proof fn lemma_value_concat(a: Seq<bool>, b: Seq<bool>)
    ensures
        value_of(a + b) == value_of(a) * pow2(b.len()) + value_of(b),
    decreases b.len(),
{
    if b.len() == 0 {
        assert(pow2(0) == 1) by { vstd::arithmetic::power2::lemma2_to64(); }
        assert(a + b =~= a);
        assert(value_of(a) * 1 == value_of(a));
    } else {
        lemma_value_concat(a, b.drop_last());
        lemma_pow2_unfold(b.len());
        assert((a + b).drop_last() =~= a + b.drop_last());
        assert((a + b).last() == b.last());
        let h = pow2((b.len() - 1) as nat);
        let va = value_of(a);
        assert(2 * (va * h) == va * (2 * h)) by (nonlinear_arith);
    }
}

/// The bits of two byte strings laid end to end.
pub proof fn lemma_bytes_bits_concat(a: Seq<u8>, b: Seq<u8>)
    ensures
        bytes_bits(a + b) == bytes_bits(a) + bytes_bits(b),
    decreases b.len(),
{
    if b.len() == 0 {
        assert(a + b =~= a);
        assert(bytes_bits(a) + bytes_bits(b) =~= bytes_bits(a));
    } else {
        lemma_bytes_bits_concat(a, b.drop_last());
        assert((a + b).drop_last() =~= a + b.drop_last());
        assert((a + b).last() == b.last());
        assert(bytes_bits(a + b) =~= bytes_bits(a) + bytes_bits(b));
    }
}

/// A byte string has eight bits per byte.
pub proof fn lemma_bytes_bits_len(s: Seq<u8>)
    ensures
        bytes_bits(s).len() == 8 * s.len(),
    decreases s.len(),
{
    if s.len() > 0 {
        lemma_bytes_bits_len(s.drop_last());
        lemma_bits_of_len(s.last() as nat, 8);
    }
}

/// The number below `2^n` whose `n` digits are all one.
pub proof fn lemma_all_ones(n: nat)
    ensures
        pow2(n) >= 1,
        bits_of((pow2(n) - 1) as nat, n) == repeat_bit(true, n),
    decreases n,
{
    lemma_pow2_pos(n);
    if n == 0 {
        assert(bits_of(0, 0) =~= repeat_bit(true, 0));
    } else {
        lemma_pow2_unfold(n);
        lemma_all_ones((n - 1) as nat);
        let v = (pow2(n) - 1) as nat;
        let h = pow2((n - 1) as nat);
        assert(v == 2 * (h - 1) + 1);
        assert(v / 2 == h - 1);
        assert(v % 2 == 1);
        lemma_bits_of_len((h - 1) as nat, (n - 1) as nat);
        assert(bits_of(v, n) =~= repeat_bit(true, n));
    }
}

/// Bytes written in two goes, the second right behind the first, are the
/// bits of the first followed by the bits of the second.
pub proof fn lemma_join_writes(mid: Seq<u8>, fin: Seq<u8>, at: int, w1: int, w2: int)
    requires
        0 <= at,
        0 <= w1,
        0 <= w2,
        at + w1 + w2 <= fin.len(),
        mid.len() == fin.len(),
        forall|i: int| 0 <= i < fin.len() && !(at + w1 <= i < at + w1 + w2) ==> fin[i] == mid[i],
    ensures
        bytes_bits(fin.subrange(at, at + w1 + w2)) == bytes_bits(mid.subrange(at, at + w1)) + bytes_bits(
            fin.subrange(at + w1, at + w1 + w2),
        ),
{
    let head = fin.subrange(at, at + w1);
    let part = fin.subrange(at + w1, at + w1 + w2);
    assert(head =~= mid.subrange(at, at + w1));
    assert(fin.subrange(at, at + w1 + w2) =~= head + part);
    lemma_bytes_bits_concat(head, part);
}

/// Where `written` is the beginning of the bits `whole`, and either nothing
/// is left or the room is used up, `written` is as much of `whole` as the
/// room allows.
pub proof fn lemma_written_first(whole: Seq<bool>, written: Seq<u8>, rest: Seq<bool>, room: nat)
    requires
        whole == bytes_bits(written) + rest,
        written.len() <= room,
        rest.len() == 0 || written.len() == room,
    ensures
        written.len() == if room < whole.len() / 8 { room } else { whole.len() / 8 },
        bytes_bits(written) == whole.take(8 * written.len() as int),
        rest == whole.skip(8 * written.len() as int),
{
    lemma_bytes_bits_len(written);
    assert(whole.take(8 * written.len() as int) =~= bytes_bits(written));
    assert(whole.skip(8 * written.len() as int) =~= rest);
}

/// Bits drained before and after `more` joined them: `w1` bytes of `held`
/// alone, then `w2` bytes of what was left with `more` behind it.
pub proof fn lemma_two_drains(held: Seq<bool>, more: Seq<bool>, w1: int, w2: int)
    requires
        0 <= w1,
        0 <= w2,
        8 * w1 <= held.len(),
        8 * w2 <= held.len() - 8 * w1 + more.len(),
    ensures
        (held + more).take(8 * (w1 + w2)) == held.take(8 * w1) + (held.skip(8 * w1) + more).take(8 * w2),
        (held + more).skip(8 * (w1 + w2)) == (held.skip(8 * w1) + more).skip(8 * w2),
{
    assert((held + more).take(8 * (w1 + w2)) =~= held.take(8 * w1) + (held.skip(8 * w1) + more).take(
        8 * w2,
    ));
    assert((held + more).skip(8 * (w1 + w2)) =~= (held.skip(8 * w1) + more).skip(8 * w2));
}

/// `2^n` as a machine word.
pub fn pow2_u32(n: u32) -> (r: u32)
    requires
        n <= 31,
    ensures
        r == pow2(n as nat),
        r >= 1,
{
    let mut r: u32 = 1;
    let mut i: u32 = 0;
    proof {
        vstd::arithmetic::power2::lemma2_to64();
    }
    while i < n
        invariant
            i <= n <= 31,
            r == pow2(i as nat),
            r >= 1,
        decreases n - i,
    {
        proof {
            lemma_pow2_unfold((i + 1) as nat);
            vstd::arithmetic::power2::lemma_pow2_strictly_increases((i + 1) as nat, 32);
            vstd::arithmetic::power2::lemma2_to64();
        }
        r = r * 2;
        i = i + 1;
    }
    r
}

} // verus!
