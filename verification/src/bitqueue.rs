//! A short first-in, first-out queue of bits held in one machine word.
use vstd::prelude::*;
use vstd::arithmetic::power2::{pow2, lemma_pow2_pos, lemma_pow2_adds, lemma_pow2_strictly_increases};
use crate::bits::{bits_of, value_of, bytes_bits, pow2_u32, lemma_bits_concat, lemma_bits_of_len, lemma_value_of_bits, lemma_bits_of_value};

verus! {

/// The most bits a queue can hold.
pub const QUEUE_CAPACITY: u32 = 31;

/// Bits in flight between a byte stream and the variable-length codes in it.
///
/// New bits join at the back; the oldest bit is at the front.
pub struct BitQueue {
    acc: u32,
    count: u32,
}

/// A word below `2^len` splits into its `n` leading digits and the rest.
pub proof fn lemma_split_word(acc: nat, len: nat, n: nat)
    requires
        n <= len,
        acc < pow2(len),
    ensures
        acc / pow2((len - n) as nat) < pow2(n),
        acc % pow2((len - n) as nat) < pow2((len - n) as nat),
        bits_of(acc, len) == bits_of(acc / pow2((len - n) as nat), n) + bits_of(
            acc % pow2((len - n) as nat),
            (len - n) as nat,
        ),
{
    let k = (len - n) as nat;
    let p = pow2(k);
    lemma_pow2_pos(k);
    lemma_pow2_adds(n, k);
    let q = acc / p;
    let r = acc % p;
    assert(acc == p * q + r) by {
        vstd::arithmetic::div_mod::lemma_fundamental_div_mod(acc as int, p as int);
    }
    assert(0 <= r < p) by {
        vstd::arithmetic::div_mod::lemma_mod_bound(acc as int, p as int);
    }
    assert(q < pow2(n)) by (nonlinear_arith)
        requires
            acc == p * q + r,
            0 <= r,
            p > 0,
            acc < pow2(n) * p,
    ;
    assert(q * p + r == acc) by (nonlinear_arith)
        requires
            acc == p * q + r,
    ;
    lemma_bits_concat(q, n, r, k);
}

impl BitQueue {
    /// The word holds no digit beyond the counted ones.
    pub closed spec fn wf(&self) -> bool {
        &&& self.count <= QUEUE_CAPACITY
        &&& (self.acc as nat) < pow2(self.count as nat)
    }

    /// The queued bits, oldest first.
    pub closed spec fn view(&self) -> Seq<bool> {
        bits_of(self.acc as nat, self.count as nat)
    }

    /// A queue never holds more bits than its capacity.
    pub proof fn lemma_view_len(&self)
        requires
            self.wf(),
        ensures
            self@.len() <= QUEUE_CAPACITY,
    {
        lemma_bits_of_len(self.acc as nat, self.count as nat);
    }

    /// An empty queue.
    pub fn new() -> (q: Self)
        ensures
            q.wf(),
            q@ == Seq::<bool>::empty(),
    {
        proof {
            lemma_pow2_pos(0);
        }
        BitQueue { acc: 0, count: 0 }
    }

    /// How many bits are queued.
    pub fn len(&self) -> (n: u32)
        requires
            self.wf(),
        ensures
            n == self@.len(),
            n <= QUEUE_CAPACITY,
    {
        proof {
            lemma_bits_of_len(self.acc as nat, self.count as nat);
        }
        self.count
    }

    /// Appends the `n` low digits of `v`, most significant first.
    pub fn push(&mut self, v: u32, n: u32)
        requires
            old(self).wf(),
            old(self)@.len() + n <= QUEUE_CAPACITY,
            (v as nat) < pow2(n as nat),
        ensures
            final(self).wf(),
            final(self)@ == old(self)@ + bits_of(v as nat, n as nat),
    {
        proof {
            lemma_bits_of_len(self.acc as nat, self.count as nat);
        }
        let p = pow2_u32(n);
        proof {
            let a = self.acc as nat;
            let c = self.count as nat;
            lemma_pow2_adds(c, n as nat);
            lemma_bits_concat(a, c, v as nat, n as nat);
            assert(a * pow2(n as nat) + v < pow2(c) * pow2(n as nat)) by (nonlinear_arith)
                requires
                    a < pow2(c),
                    (v as nat) < pow2(n as nat),
            ;
            if c + n < 32 {
                lemma_pow2_strictly_increases(c + n as nat, 32);
            }
            vstd::arithmetic::power2::lemma2_to64();
            assert(a * pow2(n as nat) >= 0) by (nonlinear_arith);
        }
        self.acc = self.acc * p + v;
        self.count = self.count + n;
    }

    /// The number spelled by the `n` oldest bits.
    pub fn peek(&self, n: u32) -> (v: u32)
        requires
            self.wf(),
            n <= self@.len(),
        ensures
            v == value_of(self@.take(n as int)),
            (v as nat) < pow2(n as nat),
    {
        proof {
            lemma_bits_of_len(self.acc as nat, self.count as nat);
        }
        let p = pow2_u32(self.count - n);
        proof {
            let a = self.acc as nat;
            let c = self.count as nat;
            lemma_split_word(a, c, n as nat);
            let k = (c - n) as nat;
            lemma_bits_of_len(a / pow2(k), n as nat);
            assert(self@.take(n as int) =~= bits_of(a / pow2(k), n as nat));
            lemma_value_of_bits(a / pow2(k), n as nat);
        }
        self.acc / p
    }

    /// Drops the `n` oldest bits.
    pub fn skip(&mut self, n: u32)
        requires
            old(self).wf(),
            n <= old(self)@.len(),
        ensures
            final(self).wf(),
            final(self)@ == old(self)@.skip(n as int),
    {
        proof {
            lemma_bits_of_len(self.acc as nat, self.count as nat);
        }
        let p = pow2_u32(self.count - n);
        proof {
            let a = self.acc as nat;
            let c = self.count as nat;
            lemma_split_word(a, c, n as nat);
            let k = (c - n) as nat;
            lemma_bits_of_len(a / pow2(k), n as nat);
            assert(self@.skip(n as int) =~= bits_of(a % pow2(k), k));
        }
        self.acc = self.acc % p;
        self.count = self.count - n;
    }

    /// Moves whole bytes from the front of the queue into `out`, from index
    /// `at` on, as long as the queue holds eight bits and `out` has room.
    /// Returns the number of bytes moved.
    pub fn drain_into(&mut self, out: &mut [u8], at: usize) -> (w: usize)
        requires
            old(self).wf(),
            at <= old(out)@.len(),
        ensures
            final(self).wf(),
            final(out)@.len() == old(out)@.len(),
            w == if old(out)@.len() - at < old(self)@.len() / 8 {
                old(out)@.len() - at
            } else {
                old(self)@.len() as int / 8
            },
            final(self)@ == old(self)@.skip(8 * w),
            bytes_bits(final(out)@.subrange(at as int, at + w)) == old(self)@.take(8 * w),
            forall|i: int|
                0 <= i < old(out)@.len() && !(at <= i < at + w) ==> final(out)@[i] == old(out)@[i],
    {
        let mut w: usize = 0;
        let ghost q0 = self@;
        proof {
            self.lemma_view_len();
            assert(self@.skip(0) =~= self@);
            assert(out@.subrange(at as int, at as int) =~= Seq::<u8>::empty());
            assert(q0.take(0) =~= Seq::<bool>::empty());
        }
        while self.len() >= 8 && w < out.len() - at
            invariant
                self.wf(),
                out@.len() == old(out)@.len(),
                at <= out@.len(),
                q0 == old(self)@,
                q0.len() <= 31,
                8 * w <= q0.len(),
                at + w <= out@.len(),
                self@ == q0.skip(8 * w),
                bytes_bits(out@.subrange(at as int, at + w)) == q0.take(8 * w),
                forall|i: int|
                    0 <= i < old(out)@.len() && !(at <= i < at + w) ==> out@[i] == old(out)@[i],
            decreases q0.len() - 8 * w,
        {
            let v = self.peek(8);
            let ghost before = out@.subrange(at as int, at + w);
            let ghost front = self@.take(8);
            proof {
                vstd::arithmetic::power2::lemma2_to64();
                lemma_bits_of_value(front);
            }
            out[at + w] = v as u8;
            self.skip(8);
            proof {
                let after = out@.subrange(at as int, at + w + 1);
                assert(after.drop_last() =~= before);
                assert(after.last() == v as u8);
                assert(q0.take(8 * w) + front =~= q0.take(8 * (w + 1)));
                assert(self@ =~= q0.skip(8 * (w + 1)));
            }
            w = w + 1;
        }
        w
    }
}

} // verus!
