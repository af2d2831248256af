//! Finding, in the window, the longest copy that reproduces the staged bytes.
use vstd::prelude::*;
use crate::config::Config;
use crate::ring::{Ring, after_copy, lemma_copied_step, lemma_copied_len, lemma_push_all_push, lemma_push_back, lemma_push_all_wf};
use crate::token::{Token, min_match, max_match};
use crate::window::Window;
use crate::lookahead::Lookahead;

verus! {

/// The byte that a copy from `offset` reads at its step `k`, given that its
/// earlier steps produced the first `k` bytes of `a`: a byte of the window,
/// or, once the copy has caught up with itself, one that it produced.
pub open spec fn source(r: Ring, a: Seq<u8>, offset: nat, k: nat) -> u8 {
    if k > offset {
        a[k - offset - 1]
    } else {
        r.back((offset - k) as nat)
    }
}

/// Starting at step `k`, the first step below `cap` at which a copy from
/// `offset` departs from `a`; `cap` where there is none.
pub open spec fn agree_from(r: Ring, a: Seq<u8>, offset: nat, k: nat, cap: nat) -> nat
    decreases cap - k,
{
    if k >= cap || a[k as int] != source(r, a, offset, k) {
        k
    } else {
        agree_from(r, a, offset, k + 1, cap)
    }
}

/// The number of bytes, up to `cap`, that a copy from `offset` has in common
/// with the beginning of `a`.
pub open spec fn agree_len(r: Ring, a: Seq<u8>, offset: nat, cap: nat) -> nat {
    agree_from(r, a, offset, 0, cap)
}

/// The longest agreement among the offsets below `n`, and the least offset
/// that reaches it; `(0, 0)` where no offset agrees on a single byte.
pub open spec fn best_match(r: Ring, a: Seq<u8>, cap: nat, n: nat) -> (nat, nat)
    decreases n,
{
    if n == 0 {
        (0, 0)
    } else {
        let before = best_match(r, a, cap, (n - 1) as nat);
        let here = agree_len(r, a, (n - 1) as nat, cap);
        if here > before.0 {
            (here, (n - 1) as nat)
        } else {
            before
        }
    }
}

/// The longest match that may be looked for when `staged` bytes are at hand.
pub open spec fn search_cap(conf: Config, staged: nat) -> nat {
    if staged < max_match(conf) {
        staged
    } else {
        max_match(conf)
    }
}

/// The token that encodes the beginning of the staged bytes `a`: the longest
/// match in the window, nearest first among equals, if it is long enough to
/// pay; else the first byte as a literal.
pub open spec fn chosen_token(conf: Config, r: Ring, a: Seq<u8>) -> Token {
    let best = best_match(r, a, search_cap(conf, a.len()), r.size());
    if best.0 >= min_match(conf) {
        Token::Match { len: best.0 as usize, offset: best.1 as usize }
    } else {
        Token::Literal(a[0])
    }
}

/// Number of staged bytes that `t` encodes.
pub open spec fn token_span(t: Token) -> nat {
    match t {
        Token::Literal(_) => 1,
        Token::Match { len, offset } => len as nat,
        Token::Flush => 0,
    }
}

/// Up to where it ends, an agreement holds byte for byte; where it ends
/// below `cap`, the next byte differs.
pub proof fn lemma_agree_from(r: Ring, a: Seq<u8>, offset: nat, k: nat, cap: nat)
    requires
        k <= cap,
    ensures
        k <= agree_from(r, a, offset, k, cap) <= cap,
        forall|i: int| k <= i < agree_from(r, a, offset, k, cap) ==> a[i] == source(r, a, offset, i as nat),
        agree_from(r, a, offset, k, cap) < cap ==> a[agree_from(r, a, offset, k, cap) as int] != source(
            r,
            a,
            offset,
            agree_from(r, a, offset, k, cap),
        ),
    decreases cap - k,
{
    if k >= cap || a[k as int] != source(r, a, offset, k) {
    } else {
        lemma_agree_from(r, a, offset, k + 1, cap);
    }
}

/// Where a copy agrees with `a` on all steps below `len`, its agreement is at least `len`.
pub proof fn lemma_agree_at_least(r: Ring, a: Seq<u8>, offset: nat, k: nat, len: nat, cap: nat)
    requires
        k <= len <= cap,
        forall|i: int| k <= i < len ==> a[i] == source(r, a, offset, i as nat),
    ensures
        agree_from(r, a, offset, k, cap) >= len,
    decreases len - k,
{
    if k < len {
        lemma_agree_at_least(r, a, offset, k + 1, len, cap);
    } else {
        lemma_agree_from(r, a, offset, k, cap);
    }
}

/// The byte `offset + 1` places behind the cursor, after `s` has been stored.
pub proof fn lemma_back_after_push_all(r: Ring, s: Seq<u8>, offset: nat)
    requires
        r.wf(),
        offset < r.size(),
    ensures
        r.push_all(s).back(offset) == if s.len() > offset {
            s[s.len() - 1 - offset]
        } else {
            r.back((offset - s.len()) as nat)
        },
    decreases s.len(),
{
    if s.len() == 0 {
    } else {
        let front = s.drop_last();
        let b = s.last();
        assert(front.push(b) =~= s);
        lemma_push_all_push(r, front, b);
        lemma_push_all_wf(r, front);
        lemma_push_back(r.push_all(front), b, offset);
        if offset > 0 {
            lemma_back_after_push_all(r, front, (offset - 1) as nat);
        }
    }
}

/// A copy reproduces the first `len` bytes of `a` exactly when each of its
/// steps below `len` reads the byte that `a` has there.
pub proof fn lemma_copy_reproduces(r: Ring, a: Seq<u8>, offset: nat, len: nat)
    requires
        r.wf(),
        offset < r.size(),
        len <= a.len(),
    ensures
        (forall|i: int| 0 <= i < len ==> a[i] == source(r, a, offset, i as nat)) <==> r.copied(offset, len)
            == a.take(len as int),
    decreases len,
{
    if len == 0 {
        assert(r.copied(offset, 0) =~= a.take(0));
    } else {
        let n = (len - 1) as nat;
        lemma_copy_reproduces(r, a, offset, n);
        lemma_copied_step(r, offset, n);
        lemma_copied_len(r, offset, n);
        lemma_copied_len(r, offset, len);
        let next = after_copy(r, offset, n).back(offset);
        assert(r.copied(offset, len) == r.copied(offset, n).push(next));
        if r.copied(offset, n) == a.take(n as int) {
            lemma_back_after_push_all(r, a.take(n as int), offset);
            assert(next == source(r, a, offset, n));
            if a[n as int] == next {
                assert(r.copied(offset, len) =~= a.take(len as int));
            } else {
                assert(r.copied(offset, len)[n as int] == next);
                assert(a.take(len as int)[n as int] == a[n as int]);
            }
        } else {
            if r.copied(offset, len) == a.take(len as int) {
                assert(r.copied(offset, n) =~= r.copied(offset, len).take(n as int));
                assert(a.take(n as int) =~= a.take(len as int).take(n as int));
            }
        }
    }
}

/// What the search finds is a true match, no offset has a longer one, and
/// no nearer offset has one as long.
pub proof fn lemma_best_match(r: Ring, a: Seq<u8>, cap: nat, n: nat)
    requires
        r.wf(),
        n <= r.size(),
        cap <= a.len(),
    ensures
        ({
            let best = best_match(r, a, cap, n);
            &&& best.0 <= cap
            &&& best.0 > 0 ==> best.1 < n
            &&& best.0 == 0 ==> best.1 == 0
            &&& best.0 > 0 ==> r.copied(best.1, best.0) == a.take(best.0 as int)
            &&& forall|o: nat, len: nat|
                o < n && len <= cap && #[trigger] r.copied(o, len) == a.take(len as int) ==> len <= best.0
            &&& forall|o: nat| o < best.1 ==> #[trigger] r.copied(o, best.0) != a.take(best.0 as int)
        }),
    decreases n,
{
    if n == 0 {
    } else {
        let m = (n - 1) as nat;
        lemma_best_match(r, a, cap, m);
        let before = best_match(r, a, cap, m);
        let here = agree_len(r, a, m, cap);
        let best = best_match(r, a, cap, n);
        lemma_agree_from(r, a, m, 0, cap);
        lemma_copy_reproduces(r, a, m, here);
        assert forall|o: nat, len: nat|
            o < n && len <= cap && #[trigger] r.copied(o, len) == a.take(len as int) implies len
            <= best.0 by {
            if o == m {
                lemma_copy_reproduces(r, a, m, len);
                lemma_agree_at_least(r, a, m, 0, len, cap);
            }
        }
        assert forall|o: nat| o < best.1 implies #[trigger] r.copied(o, best.0) != a.take(
            best.0 as int,
        ) by {
            if here > before.0 {
                // nothing below `m` agrees on more than `before.0 < here` bytes
                if r.copied(o, best.0) == a.take(best.0 as int) {
                    assert(best.0 <= before.0);
                }
            }
        }
    }
}

/// Once some offset agrees on `cap` bytes, looking further changes nothing.
pub proof fn lemma_best_match_saturated(r: Ring, a: Seq<u8>, cap: nat, n: nat, m: nat)
    requires
        n <= m,
        best_match(r, a, cap, n).0 >= cap,
    ensures
        best_match(r, a, cap, m) == best_match(r, a, cap, n),
    decreases m - n,
{
    if n < m {
        lemma_best_match_saturated(r, a, cap, n, (m - 1) as nat);
        lemma_agree_from(r, a, (m - 1) as nat, 0, cap);
    }
}

/// Number of leading bytes, up to `cap`, that a copy from `offset` in `w`
/// has in common with the staged bytes.
pub fn match_length(w: &Window, staged: &Lookahead, offset: usize, cap: usize) -> (len: usize)
    requires
        w.wf(),
        staged.wf(),
        offset < w@.size(),
        cap <= staged@.len(),
    ensures
        len == agree_len(w@, staged@, offset as nat, cap as nat),
        len <= cap,
{
    let mut k: usize = 0;
    loop
        invariant
            w.wf(),
            staged.wf(),
            offset < w@.size(),
            cap <= staged@.len(),
            k <= cap,
            agree_from(w@, staged@, offset as nat, k as nat, cap as nat) == agree_len(
                w@,
                staged@,
                offset as nat,
                cap as nat,
            ),
        decreases cap - k,
    {
        if k >= cap {
            return k;
        }
        let want = staged.get(k);
        let have = if k > offset {
            staged.get(k - offset - 1)
        } else {
            w.back(offset - k)
        };
        if want != have {
            return k;
        }
        k = k + 1;
    }
}

/// The longest match for the staged bytes among all offsets of the window,
/// as `(length, offset)`, looking for at most `cap` bytes.
pub fn find_match(w: &Window, staged: &Lookahead, cap: usize) -> (found: (usize, usize))
    requires
        w.wf(),
        staged.wf(),
        cap <= staged@.len(),
    ensures
        (found.0 as nat, found.1 as nat) == best_match(w@, staged@, cap as nat, w@.size()),
        found.0 <= cap,
        found.0 > 0 ==> found.1 < w@.size(),
{
    let size = w.size();
    let mut best_len: usize = 0;
    let mut best_offset: usize = 0;
    let mut offset: usize = 0;
    proof {
        w.lemma_wf();
    }
    while offset < size
        invariant
            w.wf(),
            staged.wf(),
            cap <= staged@.len(),
            size == w@.size(),
            offset <= size,
            (best_len as nat, best_offset as nat) == best_match(w@, staged@, cap as nat, offset as nat),
            best_len <= cap,
            best_len > 0 ==> best_offset < size,
        decreases size - offset,
    {
        if best_len >= cap {
            proof {
                lemma_best_match_saturated(w@, staged@, cap as nat, offset as nat, size as nat);
            }
            return (best_len, best_offset);
        }
        let here = match_length(w, staged, offset, cap);
        if here > best_len {
            best_len = here;
            best_offset = offset;
        }
        offset = offset + 1;
    }
    (best_len, best_offset)
}

} // verus!
