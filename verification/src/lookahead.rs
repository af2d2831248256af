//! The compressor's staging area: up to sixteen bytes not yet encoded.
use vstd::prelude::*;

verus! {

/// The most bytes the staging area holds.
pub const LOOKAHEAD_CAPACITY: usize = 16;

/// A ring of up to sixteen bytes, oldest first.
pub struct Lookahead {
    data: [u8; 16],
    head: usize,
    len: usize,
}

impl Lookahead {
    /// The ring holds no more bytes than it has places.
    pub closed spec fn wf(&self) -> bool {
        &&& self.head < LOOKAHEAD_CAPACITY
        &&& self.len <= LOOKAHEAD_CAPACITY
    }

    /// The staged bytes, oldest first.
    pub closed spec fn view(&self) -> Seq<u8> {
        Seq::new(self.len as nat, |i: int| self.data[(self.head + i) % 16])
    }

    /// No more than sixteen bytes are ever staged.
    pub proof fn lemma_view_len(&self)
        requires
            self.wf(),
        ensures
            self@.len() <= LOOKAHEAD_CAPACITY,
    {
    }

    /// An empty staging area.
    pub fn new() -> (l: Self)
        ensures
            l.wf(),
            l@ == Seq::<u8>::empty(),
    {
        let l = Lookahead { data: [0u8; 16], head: 0, len: 0 };
        assert(l@ =~= Seq::<u8>::empty());
        l
    }

    /// Number of staged bytes.
    pub fn len(&self) -> (n: usize)
        requires
            self.wf(),
        ensures
            n == self@.len(),
            n <= LOOKAHEAD_CAPACITY,
    {
        self.len
    }

    /// Whether no further byte can be staged.
    pub fn is_full(&self) -> (b: bool)
        requires
            self.wf(),
        ensures
            b == (self@.len() == LOOKAHEAD_CAPACITY),
    {
        self.len == LOOKAHEAD_CAPACITY
    }

    /// The staged byte at index `i`, counted from the oldest.
    pub fn get(&self, i: usize) -> (b: u8)
        requires
            self.wf(),
            i < self@.len(),
        ensures
            b == self@[i as int],
    {
        self.data[(self.head + i) % 16]
    }

    /// Stages `b` behind the bytes already there.
    pub fn push(&mut self, b: u8)
        requires
            old(self).wf(),
            old(self)@.len() < LOOKAHEAD_CAPACITY,
        ensures
            final(self).wf(),
            final(self)@ == old(self)@.push(b),
    {
        let at = (self.head + self.len) % 16;
        self.data[at] = b;
        self.len = self.len + 1;
        assert(self@ =~= old(self)@.push(b));
    }

    /// Removes the `n` oldest bytes.
    pub fn drop_front(&mut self, n: usize)
        requires
            old(self).wf(),
            n <= old(self)@.len(),
        ensures
            final(self).wf(),
            final(self)@ == old(self)@.skip(n as int),
    {
        self.head = (self.head + n) % 16;
        self.len = self.len - n;
        assert(self@ =~= old(self)@.skip(n as int));
    }
}

} // verus!
