//! Whole streams: what a run of bytes compresses to, and what a run of bits
//! decompresses to.
use vstd::prelude::*;
use vstd::arithmetic::power2::pow2;
use crate::config::Config;
use crate::bits::{bits_of, repeat_bit};
use crate::ring::Ring;
use crate::token::{Token, token_bits, parse, expand, advance};
use crate::search::{chosen_token, token_span};

verus! {

/// Whether `b` has no bit set above the literal width.
pub open spec fn fits(conf: Config, b: u8) -> bool {
    (b as nat) < pow2(conf.literal_bits as nat)
}

/// Whether every byte of `s` fits the literal width.
pub open spec fn all_fit(conf: Config, s: Seq<u8>) -> bool {
    forall|i: int| 0 <= i < s.len() ==> #[trigger] fits(conf, s[i])
}

/// The bytes the compressor sees of the data `x` that lies ahead.
pub open spec fn lookahead(x: Seq<u8>) -> Seq<u8> {
    if x.len() <= 16 {
        x
    } else {
        x.take(16)
    }
}

/// The token that encodes the beginning of `x`, seen through the lookahead.
pub open spec fn next_token(conf: Config, r: Ring, x: Seq<u8>) -> Token {
    chosen_token(conf, r, lookahead(x))
}

/// The bits of `x` encoded token by token from the window `r`, each token
/// chosen with as much lookahead as the data allows.
///
/// A token stands for at least one byte and for no more than there are; the
/// definition asks only so that it is plain where it ends.
#[verifier::opaque]
pub open spec fn encode_all(conf: Config, r: Ring, x: Seq<u8>) -> Seq<bool>
    decreases x.len(),
{
    let t = next_token(conf, r, x);
    let n = token_span(t);
    if x.len() == 0 || n == 0 || n > x.len() {
        Seq::empty()
    } else {
        token_bits(conf, t) + encode_all(conf, r.push_all(x.take(n as int)), x.skip(n as int))
    }
}

/// The bits of `x` encoded as long as a full lookahead is at hand.
#[verifier::opaque]
pub open spec fn steady_bits(conf: Config, r: Ring, x: Seq<u8>) -> Seq<bool>
    decreases x.len(),
{
    let t = next_token(conf, r, x);
    let n = token_span(t);
    if x.len() < 16 || n == 0 || n > x.len() {
        Seq::empty()
    } else {
        token_bits(conf, t) + steady_bits(conf, r.push_all(x.take(n as int)), x.skip(n as int))
    }
}

/// The window once `x` has been encoded as long as a full lookahead was at hand.
#[verifier::opaque]
pub open spec fn steady_ring(conf: Config, r: Ring, x: Seq<u8>) -> Ring
    decreases x.len(),
{
    let t = next_token(conf, r, x);
    let n = token_span(t);
    if x.len() < 16 || n == 0 || n > x.len() {
        r
    } else {
        steady_ring(conf, r.push_all(x.take(n as int)), x.skip(n as int))
    }
}

/// The end of `x` that is left once no full lookahead is at hand.
#[verifier::opaque]
pub open spec fn steady_left(conf: Config, r: Ring, x: Seq<u8>) -> Seq<u8>
    decreases x.len(),
{
    let t = next_token(conf, r, x);
    let n = token_span(t);
    if x.len() < 16 || n == 0 || n > x.len() {
        x
    } else {
        steady_left(conf, r.push_all(x.take(n as int)), x.skip(n as int))
    }
}

/// The bits that close a stream which so far has `at` bits: nothing at a
/// byte boundary; else the flush mark, if one is asked for, and one-bits up
/// to the next byte boundary.
#[verifier::opaque]
pub open spec fn closing(conf: Config, write_token: bool, at: nat) -> Seq<bool> {
    if at % 8 == 0 {
        Seq::empty()
    } else if write_token {
        token_bits(conf, Token::Flush) + repeat_bit(true, ((15 - at % 8) % 8) as nat)
    } else {
        repeat_bit(true, (8 - at % 8) as nat)
    }
}

/// The bits `body` brought to a byte boundary by the closing bits.
pub open spec fn closed(conf: Config, write_token: bool, body: Seq<bool>) -> Seq<bool> {
    body + closing(conf, write_token, body.len())
}

/// Everything a compressor still has to write when it is flushed: the bits
/// it holds back, the staged bytes encoded, and the closing bits.
pub open spec fn flushed_bits(
    conf: Config,
    r: Ring,
    staged: Seq<u8>,
    pending: Seq<bool>,
    write_token: bool,
) -> Seq<bool> {
    closed(conf, write_token, pending + encode_all(conf, r, staged))
}

/// Everything a compressor still has to write of data that goes on: the bits
/// it holds back, and the bytes `ahead` encoded as long as a full lookahead
/// is at hand.
pub open spec fn steady_stream(conf: Config, r: Ring, ahead: Seq<u8>, pending: Seq<bool>) -> Seq<
    bool,
> {
    pending + steady_bits(conf, r, ahead)
}

/// Whole bytes at the front of a body pass through the closing unchanged.
pub proof fn lemma_closed_shift(conf: Config, write_token: bool, head: Seq<bool>, tail: Seq<bool>)
    requires
        head.len() % 8 == 0,
    ensures
        closed(conf, write_token, head + tail) == head + closed(conf, write_token, tail),
{
    reveal(closing);
    assert((head + tail).len() % 8 == tail.len() % 8);
    assert(closed(conf, write_token, head + tail) =~= head + closed(conf, write_token, tail));
}

/// The closing of a body that ends inside a byte: the flush mark, if one is
/// asked for, and then one-bits for the rest of the byte that is open then.
pub proof fn lemma_closed_form(conf: Config, write_token: bool, body: Seq<bool>, marked: Seq<bool>)
    requires
        conf.valid(),
        body.len() % 8 != 0,
        marked == if write_token { body + token_bits(conf, Token::Flush) } else { body },
    ensures
        closed(conf, write_token, body) == marked + repeat_bit(
            true,
            ((8 - marked.len() % 8) % 8) as nat,
        ),
{
    reveal(closing);
    crate::token::lemma_token_bits_len(conf, Token::Flush);
    let fill = ((8 - marked.len() % 8) % 8) as nat;
    if write_token {
        assert(fill == (15 - body.len() % 8) % 8);
        assert(closed(conf, write_token, body) =~= marked + repeat_bit(true, fill));
    } else {
        assert(fill == 8 - body.len() % 8);
    }
}

/// A closed body ends on a byte boundary.
pub proof fn lemma_closed_len(conf: Config, write_token: bool, body: Seq<bool>)
    requires
        conf.valid(),
    ensures
        closed(conf, write_token, body).len() % 8 == 0,
        body.len() % 8 == 0 ==> closed(conf, write_token, body) == body,
{
    reveal(closing);
    crate::token::lemma_token_bits_len(conf, Token::Flush);
    if body.len() % 8 == 0 {
        assert(closed(conf, write_token, body) =~= body);
    }
}

/// One token of the staged bytes: the encoding of `x`, no longer than the
/// lookahead, begins with the token chosen for it.
pub proof fn lemma_encode_all_step(conf: Config, r: Ring, x: Seq<u8>)
    requires
        conf.valid(),
        r.wf(),
        0 < x.len() <= 16,
    ensures
        1 <= token_span(chosen_token(conf, r, x)) <= x.len(),
        encode_all(conf, r, x) == token_bits(conf, chosen_token(conf, r, x)) + encode_all(
            conf,
            r.push_all(x.take(token_span(chosen_token(conf, r, x)) as int)),
            x.skip(token_span(chosen_token(conf, r, x)) as int),
        ),
{
    reveal(encode_all);
    crate::search::lemma_best_match(r, x, crate::search::search_cap(conf, x.len()), r.size());
}

/// No bytes encode to no bits.
pub proof fn lemma_encode_all_empty(conf: Config, r: Ring)
    ensures
        encode_all(conf, r, Seq::<u8>::empty()) == Seq::<bool>::empty(),
{
    reveal(encode_all);
}

/// Fewer than sixteen bytes wait for more: nothing of them is encoded yet.
pub proof fn lemma_steady_short(conf: Config, r: Ring, x: Seq<u8>)
    requires
        x.len() < 16,
    ensures
        steady_bits(conf, r, x) == Seq::<bool>::empty(),
        steady_ring(conf, r, x) == r,
        steady_left(conf, r, x) == x,
{
    reveal(steady_bits);
    reveal(steady_ring);
    reveal(steady_left);
}

/// One token of data that goes on: with sixteen bytes `s` staged and `more`
/// to come, the encoding begins with the token chosen for the staged bytes,
/// whatever comes after them.
pub proof fn lemma_steady_step(conf: Config, r: Ring, s: Seq<u8>, more: Seq<u8>)
    requires
        conf.valid(),
        r.wf(),
        s.len() == 16,
    ensures
        1 <= token_span(chosen_token(conf, r, s)) <= 16,
        steady_bits(conf, r, s + more) == token_bits(conf, chosen_token(conf, r, s)) + steady_bits(
            conf,
            r.push_all(s.take(token_span(chosen_token(conf, r, s)) as int)),
            s.skip(token_span(chosen_token(conf, r, s)) as int) + more,
        ),
        steady_ring(conf, r, s + more) == steady_ring(
            conf,
            r.push_all(s.take(token_span(chosen_token(conf, r, s)) as int)),
            s.skip(token_span(chosen_token(conf, r, s)) as int) + more,
        ),
        steady_left(conf, r, s + more) == steady_left(
            conf,
            r.push_all(s.take(token_span(chosen_token(conf, r, s)) as int)),
            s.skip(token_span(chosen_token(conf, r, s)) as int) + more,
        ),
{
    reveal(steady_bits);
    reveal(steady_ring);
    reveal(steady_left);
    crate::search::lemma_best_match(r, s, crate::search::search_cap(conf, s.len()), r.size());
    let x = s + more;
    assert(lookahead(x) =~= s);
    let n = token_span(chosen_token(conf, r, s)) as int;
    assert(x.take(n) =~= s.take(n));
    assert(x.skip(n) =~= s.skip(n) + more);
}

/// Number of bits to drop for a token found at the front of `s`: the token
/// itself and, after a flush mark, the bits up to the next byte boundary.
/// The end of `s` is taken to lie on a byte boundary.
pub open spec fn token_reach(s: Seq<bool>, t: Token, used: nat) -> nat {
    if t is Flush {
        (used + (s.len() - used) % 8) as nat
    } else {
        used
    }
}

/// The bytes that the bits `s` decode to from the window `r`: token after
/// token, up to the first place where no whole token is left.
#[verifier::opaque]
pub open spec fn decode_bits(conf: Config, r: Ring, s: Seq<bool>) -> Seq<u8>
    decreases s.len(),
{
    match parse(conf, s) {
        None => Seq::empty(),
        Some((t, used)) => {
            let reach = token_reach(s, t, used);
            if used == 0 || reach > s.len() {
                Seq::empty()
            } else {
                expand(r, t) + decode_bits(conf, advance(r, t), s.skip(reach as int))
            }
        },
    }
}

/// The window after the bits `s` have been decoded from the window `r`.
#[verifier::opaque]
pub open spec fn decode_ring(conf: Config, r: Ring, s: Seq<bool>) -> Ring
    decreases s.len(),
{
    match parse(conf, s) {
        None => r,
        Some((t, used)) => {
            let reach = token_reach(s, t, used);
            if used == 0 || reach > s.len() {
                r
            } else {
                decode_ring(conf, advance(r, t), s.skip(reach as int))
            }
        },
    }
}

/// The bits of `s` that are left once it has been decoded: the beginning of
/// a token that is not whole, or nothing.
#[verifier::opaque]
pub open spec fn decode_left(conf: Config, s: Seq<bool>) -> Seq<bool>
    decreases s.len(),
{
    match parse(conf, s) {
        None => s,
        Some((t, used)) => {
            let reach = token_reach(s, t, used);
            if used == 0 || reach > s.len() {
                s
            } else {
                decode_left(conf, s.skip(reach as int))
            }
        },
    }
}

/// A token that is whole in `s` is the same token with anything behind `s`.
pub proof fn lemma_parse_extends(conf: Config, s: Seq<bool>, rest: Seq<bool>)
    requires
        conf.valid(),
        parse(conf, s) is Some,
    ensures
        parse(conf, s + rest) == parse(conf, s),
        1 <= parse(conf, s).unwrap().1 <= s.len(),
{
    let lb = conf.literal_bits as int;
    let wb = conf.window_bits as int;
    let x = s + rest;
    assert(x[0] == s[0]);
    if !s[0] {
        assert(x.subrange(1, 1 + lb) =~= s.subrange(1, 1 + lb));
    } else {
        assert(x.subrange(1, 9) =~= s.subrange(1, 9));
        let sym = crate::code::symbol_of(crate::bits::value_of(s.subrange(1, 9)));
        let cl = crate::code::code_len(sym) as int;
        if sym != 14 {
            assert(x.subrange(1 + cl, 1 + cl + wb) =~= s.subrange(1 + cl, 1 + cl + wb));
        }
    }
}

/// Twenty-four bits hold a whole token, whatever it is.
pub proof fn lemma_parse_enough(conf: Config, s: Seq<bool>)
    requires
        conf.valid(),
        s.len() >= 24,
    ensures
        parse(conf, s) is Some,
{
    if s[0] {
        let v = crate::bits::value_of(s.subrange(1, 9));
        crate::bits::lemma_value_bound(s.subrange(1, 9));
        vstd::arithmetic::power2::lemma2_to64();
        crate::code::lemma_symbol_of_unique(v, 0);
        crate::code::lemma_code_fits(crate::code::symbol_of(v));
    }
}

/// The bits of a byte string begin with the bits of its first byte.
pub proof fn lemma_bytes_bits_front(s: Seq<u8>)
    requires
        s.len() > 0,
    ensures
        crate::bits::bytes_bits(s) == bits_of(s[0] as nat, 8) + crate::bits::bytes_bits(s.skip(1)),
{
    let one = seq![s[0]];
    assert(one + s.skip(1) =~= s);
    crate::bits::lemma_bytes_bits_concat(one, s.skip(1));
    assert(one.drop_last() =~= Seq::<u8>::empty());
    assert(crate::bits::bytes_bits(Seq::<u8>::empty()) =~= Seq::<bool>::empty());
    assert(crate::bits::bytes_bits(one) =~= bits_of(s[0] as nat, 8));
}

/// Decoding takes the token at the front, gives its bytes, and goes on
/// behind it; whole bytes that follow do not change which token it is.
pub proof fn lemma_decode_step(conf: Config, r: Ring, u: Seq<bool>, more: Seq<bool>)
    requires
        conf.valid(),
        parse(conf, u) is Some,
        more.len() % 8 == 0,
    ensures
        ({
            let t = parse(conf, u).unwrap().0;
            let reach = token_reach(u, t, parse(conf, u).unwrap().1);
            &&& 1 <= reach <= u.len()
            &&& decode_bits(conf, r, u + more) == expand(r, t) + decode_bits(
                conf,
                advance(r, t),
                u.skip(reach as int) + more,
            )
            &&& decode_ring(conf, r, u + more) == decode_ring(
                conf,
                advance(r, t),
                u.skip(reach as int) + more,
            )
            &&& decode_left(conf, u + more) == decode_left(conf, u.skip(reach as int) + more)
        }),
{
    reveal(decode_bits);
    reveal(decode_ring);
    reveal(decode_left);
    lemma_parse_extends(conf, u, more);
    let t = parse(conf, u).unwrap().0;
    let used = parse(conf, u).unwrap().1;
    let x = u + more;
    assert(x.len() == u.len() + more.len());
    assert((x.len() - used) % 8 == (u.len() - used) % 8) by {
        let a = (u.len() - used) as int;
        let m = more.len() as int;
        assert(m == 8 * (m / 8));
        assert((a + m) % 8 == a % 8);
    }
    let reach = token_reach(u, t, used);
    assert(token_reach(x, t, used) == reach);
    assert(x.skip(reach as int) =~= u.skip(reach as int) + more);
}

/// Where no whole token is left, decoding gives nothing and changes nothing.
pub proof fn lemma_decode_none(conf: Config, r: Ring, u: Seq<bool>)
    requires
        parse(conf, u) is None,
    ensures
        decode_bits(conf, r, u) == Seq::<u8>::empty(),
        decode_ring(conf, r, u) == r,
        decode_left(conf, u) == u,
{
    reveal(decode_bits);
    reveal(decode_ring);
    reveal(decode_left);
}

} // verus!
