//! The sliding window: the most recent bytes of the data, kept in a ring.
use vstd::prelude::*;
use crate::error::Error;
use crate::ring::{Ring, lemma_cursor_step};
use crate::dictionary::{dictionary, dictionary_byte, word_at, drop_nibbles, next_word, pick_common, DICTIONARY_SEED};

verus! {

/// Capacity of a window's storage: the size of the largest window the stream format allows.
pub const WINDOW_CAPACITY: usize = 32768;

/// `heapless::Vec`: a vector of fixed capacity `N` that lives where it is
/// declared. Nothing is known of what is inside one but through the
/// functions below.
#[verifier::external_type_specification]
#[verifier::external_body]
#[verifier::reject_recursive_types(T)]
pub struct ExHeaplessVec<T, const N: usize>(heapless::Vec<T, N>);

/// The bytes that a window's storage holds, in index order.
pub uninterp spec fn stored_bytes(v: heapless::Vec<u8, WINDOW_CAPACITY>) -> Seq<u8>;

/// `heapless::Vec::new`: the vector it returns holds nothing.
#[verifier::external_body]
fn storage_new() -> (v: heapless::Vec<u8, WINDOW_CAPACITY>)
    ensures
        stored_bytes(v) == Seq::<u8>::empty(),
{
    heapless::Vec::new()
}

/// `heapless::Vec::resize`: it fails, and changes nothing, exactly when
/// `new_len` exceeds the capacity; otherwise the vector is cut to `new_len`
/// bytes or grown to it with copies of `value`.
#[verifier::external_body]
fn storage_resize(v: &mut heapless::Vec<u8, WINDOW_CAPACITY>, new_len: usize, value: u8) -> (ok: bool)
    ensures
        ok == (new_len <= WINDOW_CAPACITY),
        !ok ==> stored_bytes(*final(v)) == stored_bytes(*old(v)),
        ok && new_len <= stored_bytes(*old(v)).len() ==> stored_bytes(*final(v)) == stored_bytes(
            *old(v),
        ).take(new_len as int),
        ok && new_len > stored_bytes(*old(v)).len() ==> stored_bytes(*final(v)) == stored_bytes(
            *old(v),
        ) + Seq::new((new_len - stored_bytes(*old(v)).len()) as nat, |i: int| value),
{
    v.resize(new_len, value).is_ok()
}

/// `heapless::Vec::as_slice`, indexed: the byte at index `i`.
#[verifier::external_body]
fn storage_get(v: &heapless::Vec<u8, WINDOW_CAPACITY>, i: usize) -> (b: u8)
    requires
        i < stored_bytes(*v).len(),
    ensures
        b == stored_bytes(*v)[i as int],
{
    v.as_slice()[i]
}

/// `heapless::Vec::as_mut_slice`, indexed: the byte at index `i` becomes `b`,
/// the others stay.
#[verifier::external_body]
fn storage_set(v: &mut heapless::Vec<u8, WINDOW_CAPACITY>, i: usize, b: u8)
    requires
        i < stored_bytes(*old(v)).len(),
    ensures
        stored_bytes(*final(v)) == stored_bytes(*old(v)).update(i as int, b),
{
    v.as_mut_slice()[i] = b;
}

/// A ring of bytes with a cursor at which the next byte is stored.
pub struct Window {
    buf: heapless::Vec<u8, WINDOW_CAPACITY>,
    len: usize,
    pos: usize,
}

impl Window {
    /// The window's contents and cursor.
    pub closed spec fn view(&self) -> Ring {
        Ring { bytes: stored_bytes(self.buf), pos: self.pos as nat }
    }

    /// The cursor points into the window, and the window fits its storage.
    pub closed spec fn wf(&self) -> bool {
        &&& self.len == stored_bytes(self.buf).len()
        &&& self.pos < self.len
        &&& self.len <= WINDOW_CAPACITY
    }

    /// A well-formed window is a well-formed ring that fits the storage.
    pub proof fn lemma_wf(&self)
        requires
            self.wf(),
        ensures
            self@.wf(),
            self@.size() <= WINDOW_CAPACITY,
    {
    }

    /// A window of `size` zero bytes with the cursor at its start. It is
    /// refused with `BufferTooSmall` where the storage cannot hold that many.
    pub fn zeroed(size: usize) -> (r: Result<Window, Error>)
        requires
            size > 0,
        ensures
            r is Ok <==> size <= WINDOW_CAPACITY,
            r matches Ok(w) ==> w.wf() && w@ == (Ring {
                bytes: Seq::new(size as nat, |i: int| 0u8),
                pos: 0,
            }),
            r matches Err(e) ==> e == Error::BufferTooSmall,
    {
        let mut buf = storage_new();
        if storage_resize(&mut buf, size, 0) {
            assert(stored_bytes(buf) =~= Seq::new(size as nat, |i: int| 0u8));
            Ok(Window { buf, len: size, pos: 0 })
        } else {
            Err(Error::BufferTooSmall)
        }
    }

    /// Number of bytes the window holds.
    pub fn size(&self) -> (n: usize)
        requires
            self.wf(),
        ensures
            n == self@.size(),
            0 < n <= WINDOW_CAPACITY,
    {
        self.len
    }

    /// Index at which the next byte will be stored.
    pub fn pos(&self) -> (p: usize)
        requires
            self.wf(),
        ensures
            p == self@.pos,
            p < self@.size(),
    {
        self.pos
    }

    /// The byte stored `offset + 1` positions before the cursor.
    pub fn back(&self, offset: usize) -> (b: u8)
        requires
            self.wf(),
            offset < self@.size(),
        ensures
            b == self@.back(offset as nat),
    {
        let i = (self.pos + self.len - 1 - offset) % self.len;
        storage_get(&self.buf, i)
    }

    /// Stores `b` at the cursor and moves the cursor on, wrapping at the end.
    pub fn push(&mut self, b: u8)
        requires
            old(self).wf(),
        ensures
            final(self).wf(),
            final(self)@ == old(self)@.push(b),
    {
        storage_set(&mut self.buf, self.pos, b);
        proof {
            lemma_cursor_step(self.pos as int, self.len as int);
        }
        self.pos = if self.pos + 1 == self.len { 0 } else { self.pos + 1 };
    }

    /// Overwrites the beginning of the window with `dict`, or with as much of
    /// it as the window can hold; the cursor stays.
    pub fn load(&mut self, dict: &[u8])
        requires
            old(self).wf(),
        ensures
            final(self).wf(),
            final(self)@.pos == old(self)@.pos,
            final(self)@.size() == old(self)@.size(),
            forall|i: int| 0 <= i < old(self)@.size() ==> final(self)@.bytes[i] == if i < dict@.len() {
                dict@[i]
            } else {
                old(self)@.bytes[i]
            },
    {
        let n = if dict.len() < self.len { dict.len() } else { self.len };
        let mut i: usize = 0;
        while i < n
            invariant
                self.wf(),
                i <= n,
                n <= dict@.len(),
                n <= self.len,
                (n == dict@.len() || n == self.len),
                self.len == old(self).len,
                self.pos == old(self).pos,
                forall|k: int| 0 <= k < self.len ==> stored_bytes(self.buf)[k] == if k < i {
                    dict@[k]
                } else {
                    stored_bytes(old(self).buf)[k]
                },
            decreases n - i,
        {
            storage_set(&mut self.buf, i, dict[i]);
            i = i + 1;
        }
    }

    /// Overwrites the whole window with the built-in dictionary; the cursor stays.
    pub fn fill_dictionary(&mut self)
        requires
            old(self).wf(),
        ensures
            final(self).wf(),
            final(self)@ == (Ring { bytes: dictionary(old(self)@.size()), pos: old(self)@.pos }),
    {
        let mut word: u32 = DICTIONARY_SEED;
        let mut digits: u32 = 0;
        let mut i: usize = 0;
        let mut j: usize = 0;
        while i < self.len
            invariant
                self.wf(),
                self.len == old(self).len,
                self.pos == old(self).pos,
                i <= self.len,
                j < 8,
                j == i % 8,
                word == word_at(((i + 7) / 8) as nat),
                j > 0 ==> digits == drop_nibbles(word as nat, j as nat),
                forall|k: int| 0 <= k < i ==> stored_bytes(self.buf)[k] == dictionary_byte(k as nat),
            decreases self.len - i,
        {
            if j == 0 {
                word = next_word(word);
                digits = word;
            }
            assert(word == word_at((i / 8 + 1) as nat));
            assert(digits == drop_nibbles(word as nat, j as nat));
            let b = pick_common(digits % 16);
            storage_set(&mut self.buf, i, b);
            digits = digits / 16;
            i = i + 1;
            j = if j == 7 { 0 } else { j + 1 };
        }
        assert(stored_bytes(self.buf) =~= dictionary(self.len as nat));
    }
}

} // verus!
