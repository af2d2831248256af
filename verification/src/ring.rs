//! The sliding window as a mathematical object: a ring of bytes and a cursor.
use vstd::prelude::*;

verus! {

/// A window's contents and the index at which the next byte will be stored.
pub struct Ring {
    pub bytes: Seq<u8>,
    pub pos: nat,
}

impl Ring {
    /// The ring is not empty and the cursor points into it.
    pub open spec fn wf(self) -> bool {
        self.pos < self.bytes.len()
    }

    /// Number of bytes the ring holds.
    pub open spec fn size(self) -> nat {
        self.bytes.len()
    }

    /// Index of the byte stored `offset + 1` positions before the cursor.
    pub open spec fn back_index(self, offset: nat) -> int {
        (self.pos + self.size() - 1 - offset) % (self.size() as int)
    }

    /// The byte stored `offset + 1` positions before the cursor.
    pub open spec fn back(self, offset: nat) -> u8 {
        self.bytes[self.back_index(offset)]
    }

    /// The ring after storing `b` at the cursor and moving the cursor on.
    pub open spec fn push(self, b: u8) -> Ring {
        Ring { bytes: self.bytes.update(self.pos as int, b), pos: (self.pos + 1) % self.size() }
    }

    /// The ring after storing the bytes of `s`, one after the other.
    pub open spec fn push_all(self, s: Seq<u8>) -> Ring
        decreases s.len(),
    {
        if s.len() == 0 {
            self
        } else {
            self.push(s[0]).push_all(s.skip(1))
        }
    }

    /// The `n` bytes that a copy from `offset` produces, one at a time: each
    /// byte is stored before the next is read, so a copy may read what it wrote.
    pub open spec fn copied(self, offset: nat, n: nat) -> Seq<u8>
        decreases n,
    {
        if n == 0 {
            Seq::empty()
        } else {
            seq![self.back(offset)] + self.push(self.back(offset)).copied(offset, (n - 1) as nat)
        }
    }
}

/// Storing a byte keeps the ring well formed and its size.
pub proof fn lemma_push_wf(r: Ring, b: u8)
    requires
        r.wf(),
    ensures
        r.push(b).wf(),
        r.push(b).size() == r.size(),
{
}

/// Storing bytes keeps the ring well formed and its size.
pub proof fn lemma_push_all_wf(r: Ring, s: Seq<u8>)
    requires
        r.wf(),
    ensures
        r.push_all(s).wf(),
        r.push_all(s).size() == r.size(),
    decreases s.len(),
{
    if s.len() > 0 {
        lemma_push_all_wf(r.push(s[0]), s.skip(1));
    }
}

/// Storing one more byte after `s` is storing `s` with that byte appended.
pub proof fn lemma_push_all_push(r: Ring, s: Seq<u8>, b: u8)
    requires
        r.wf(),
    ensures
        r.push_all(s).push(b) == r.push_all(s.push(b)),
    decreases s.len(),
{
    if s.len() == 0 {
        assert(s.push(b).skip(1) =~= Seq::<u8>::empty());
        assert(r.push_all(s.push(b)) == r.push(b).push_all(Seq::<u8>::empty()));
    } else {
        lemma_push_all_push(r.push(s[0]), s.skip(1), b);
        assert(s.push(b).skip(1) =~= s.skip(1).push(b));
        assert(s.push(b)[0] == s[0]);
    }
}

/// Storing `a + b` is storing `a` and then `b`.
pub proof fn lemma_push_all_concat(r: Ring, a: Seq<u8>, b: Seq<u8>)
    requires
        r.wf(),
    ensures
        r.push_all(a + b) == r.push_all(a).push_all(b),
    decreases a.len(),
{
    if a.len() == 0 {
        assert(a + b =~= b);
    } else {
        lemma_push_all_concat(r.push(a[0]), a.skip(1), b);
        assert((a + b).skip(1) =~= a.skip(1) + b);
        assert((a + b)[0] == a[0]);
    }
}

/// The byte just stored is the nearest one behind the cursor; the others
/// have moved one step further back.
pub proof fn lemma_push_back(r: Ring, b: u8, offset: nat)
    requires
        r.wf(),
        offset < r.size(),
    ensures
        offset == 0 ==> r.push(b).back(offset) == b,
        offset > 0 ==> r.push(b).back(offset) == r.back((offset - 1) as nat),
{
    let n = r.size() as int;
    let p = r.pos as int;
    let q = r.push(b).pos as int;
    assert(q == if p + 1 == n { 0 } else { p + 1 }) by {
        lemma_cursor_step(p, n);
    }
    if offset == 0 {
        assert((q + n - 1) % n == p) by {
            if p + 1 == n {
                assert((n - 1) % n == n - 1) by { vstd::arithmetic::div_mod::lemma_small_mod((n - 1) as nat, n as nat); }
            } else {
                lemma_mod_wrap(p, n);
            }
        }
    } else {
        let o = offset as int;
        if p + 1 == n {
            // q == 0
            assert(q + n - 1 - o == p + n - 1 - (o - 1) - n);
            lemma_mod_shift(p + n - 1 - (o - 1) - n, n);
        } else {
            assert(q + n - 1 - o == p + n - 1 - (o - 1));
        }
        let i = r.back_index((offset - 1) as nat);
        assert(r.push(b).back_index(offset) == i);
        assert(i != p) by {
            // i == (p + n - o) % n with 0 < o < n
            if o <= p {
                assert(p + n - o == (p - o) + n);
                lemma_mod_shift(p - o, n);
                vstd::arithmetic::div_mod::lemma_small_mod((p - o) as nat, n as nat);
            } else {
                vstd::arithmetic::div_mod::lemma_small_mod((p + n - o) as nat, n as nat);
            }
        }
    }
}

/// `(x + n) % n == x % n`.
pub proof fn lemma_mod_shift(x: int, n: int)
    requires
        n > 0,
    ensures
        (x + n) % n == x % n,
{
    vstd::arithmetic::div_mod::lemma_mod_add_multiples_vanish(x, n);
}

/// Moving a cursor one step on in a ring of `n` places.
pub proof fn lemma_cursor_step(p: int, n: int)
    requires
        0 <= p < n,
    ensures
        (p + 1) % n == if p + 1 == n { 0 } else { p + 1 },
{
    if p + 1 == n {
        vstd::arithmetic::div_mod::lemma_mod_self_0(n);
    } else {
        vstd::arithmetic::div_mod::lemma_small_mod((p + 1) as nat, n as nat);
    }
}

proof fn lemma_mod_wrap(p: int, n: int)
    requires
        0 <= p < n,
    ensures
        (p + n) % n == p,
{
    lemma_mod_shift(p, n);
    vstd::arithmetic::div_mod::lemma_small_mod(p as nat, n as nat);
}

/// A copy stores exactly the bytes it produces.
pub open spec fn after_copy(r: Ring, offset: nat, n: nat) -> Ring {
    r.push_all(r.copied(offset, n))
}

/// A copy of `n` bytes produces `n` bytes.
pub proof fn lemma_copied_len(r: Ring, offset: nat, n: nat)
    ensures
        r.copied(offset, n).len() == n,
    decreases n,
{
    if n > 0 {
        lemma_copied_len(r.push(r.back(offset)), offset, (n - 1) as nat);
    }
}

/// A copy of `n + 1` bytes is a copy of `n` bytes followed by one more byte,
/// read from the ring as the first `n` left it.
pub proof fn lemma_copied_step(r: Ring, offset: nat, n: nat)
    requires
        r.wf(),
    ensures
        r.copied(offset, n + 1) == r.copied(offset, n).push(after_copy(r, offset, n).back(offset)),
    decreases n,
{
    if n == 0 {
        assert(r.copied(offset, 0) =~= Seq::<u8>::empty());
        assert(r.push(r.back(offset)).copied(offset, 0) =~= Seq::<u8>::empty());
        assert(r.copied(offset, 1) =~= seq![r.back(offset)]);
        assert(r.copied(offset, 1) =~= r.copied(offset, 0).push(r.back(offset)));
    } else {
        let b = r.back(offset);
        let r1 = r.push(b);
        lemma_copied_step(r1, offset, (n - 1) as nat);
        let tail = r1.copied(offset, (n - 1) as nat);
        assert(r.copied(offset, n) == seq![b] + tail);
        assert((seq![b] + tail).skip(1) =~= tail);
        assert(after_copy(r, offset, n) == after_copy(r1, offset, (n - 1) as nat));
        assert(r.copied(offset, n + 1) == seq![b] + r1.copied(offset, n));
        assert(seq![b] + tail.push(after_copy(r1, offset, (n - 1) as nat).back(offset)) =~= (seq![b]
            + tail).push(after_copy(r1, offset, (n - 1) as nat).back(offset)));
    }
}

/// A copy of `k` bytes is a copy of `w` bytes followed by a copy of the
/// other `k - w`, read from the ring as the first left it.
pub proof fn lemma_copy_split(r: Ring, offset: nat, k: nat, w: nat)
    requires
        r.wf(),
        w <= k,
    ensures
        r.copied(offset, k) == r.copied(offset, w) + after_copy(r, offset, w).copied(
            offset,
            (k - w) as nat,
        ),
        after_copy(r, offset, k) == after_copy(after_copy(r, offset, w), offset, (k - w) as nat),
    decreases w,
{
    if w == 0 {
        assert(r.copied(offset, 0) =~= Seq::<u8>::empty());
        assert(r.copied(offset, k) =~= r.copied(offset, 0) + r.copied(offset, k));
    } else {
        let b = r.back(offset);
        let r1 = r.push(b);
        lemma_copy_split(r1, offset, (k - 1) as nat, (w - 1) as nat);
        let short = r1.copied(offset, (w - 1) as nat);
        let long = r1.copied(offset, (k - 1) as nat);
        assert((seq![b] + short).skip(1) =~= short);
        assert((seq![b] + long).skip(1) =~= long);
        assert(after_copy(r, offset, w) == after_copy(r1, offset, (w - 1) as nat));
        assert(after_copy(r, offset, k) == after_copy(r1, offset, (k - 1) as nat));
        assert(r.copied(offset, k) =~= r.copied(offset, w) + after_copy(r, offset, w).copied(
            offset,
            (k - w) as nat,
        ));
    }
}

} // verus!
