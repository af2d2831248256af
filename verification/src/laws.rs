//! What holds of whole streams: decoding gives back what was encoded, and
//! neither direction depends on how the data is cut into pieces.
use vstd::prelude::*;
use vstd::arithmetic::power2::pow2;
use crate::config::Config;
use crate::bits::{bits_of, repeat_bit, lemma_bits_of_len};
use crate::header::header_byte;
use crate::ring::{Ring, lemma_push_all_concat, lemma_push_all_wf, lemma_push_back, lemma_push_wf};
use crate::token::{Token, token_bits, token_ok, parse, expand, advance, min_match, max_match, lemma_parse_token_bits, lemma_token_bits_len};
use crate::search::{chosen_token, token_span, search_cap, lemma_best_match};
use crate::bits::{bytes_bits, lemma_bytes_bits_len};
use crate::compressor::Compressor;
use crate::decompressor::Decompressor;
use crate::stream::{decode_left, lemma_bytes_bits_front};
use crate::bits::{lemma_bytes_bits_concat, lemma_value_of_bits};
use crate::start::initial_window;
use crate::stream::lemma_closed_shift;
use crate::stream::{all_fit, fits, lookahead, next_token, encode_all, steady_bits, steady_ring, steady_left, closing, closed, decode_bits, decode_ring, token_reach, lemma_decode_step, lemma_decode_none};

verus! {

/// The token chosen for the beginning of `x` can be written in the stream,
/// and it stands for exactly the bytes it takes the place of.
pub proof fn lemma_next_token(conf: Config, r: Ring, x: Seq<u8>)
    requires
        conf.valid(),
        r.wf(),
        r.size() == pow2(conf.window_bits as nat),
        x.len() > 0,
    ensures
        1 <= token_span(next_token(conf, r, x)) <= x.len(),
        token_span(next_token(conf, r, x)) <= 16,
        !(next_token(conf, r, x) is Flush),
        expand(r, next_token(conf, r, x)) == x.take(token_span(next_token(conf, r, x)) as int),
        all_fit(conf, x.take(token_span(next_token(conf, r, x)) as int)) ==> token_ok(
            conf,
            next_token(conf, r, x),
        ),
{
    let a = lookahead(x);
    let cap = search_cap(conf, a.len());
    lemma_best_match(r, a, cap, r.size());
    vstd::arithmetic::power2::lemma_pow2_strictly_increases(conf.window_bits as nat, 16);
    vstd::arithmetic::power2::lemma2_to64();
    let t = next_token(conf, r, x);
    let n = token_span(t) as int;
    match t {
        Token::Literal(b) => {
            assert(x.take(1) =~= seq![x[0]]);
            assert(a[0] == x[0]);
            let one = x.take(1);
            assert(all_fit(conf, one) ==> fits(conf, one[0]));
        },
        Token::Match { len, offset } => {
            assert(a.take(n) =~= x.take(n));
        },
        Token::Flush => {},
    }
}

/// Encoded bytes decode to themselves: the bits that `x` is encoded to from
/// the window `r`, with any bits behind them, decode to `x` followed by
/// what the bits behind decode to from the window that holds `x`.
pub proof fn lemma_decode_encoded(conf: Config, r: Ring, x: Seq<u8>, rest: Seq<bool>)
    requires
        conf.valid(),
        r.wf(),
        r.size() == pow2(conf.window_bits as nat),
        all_fit(conf, x),
    ensures
        decode_bits(conf, r, encode_all(conf, r, x) + rest) == x + decode_bits(conf, r.push_all(x), rest),
        decode_ring(conf, r, encode_all(conf, r, x) + rest) == decode_ring(conf, r.push_all(x), rest),
    decreases x.len(),
{
    reveal(encode_all);
    if x.len() == 0 {
        assert(encode_all(conf, r, x) + rest =~= rest);
        assert(x + decode_bits(conf, r, rest) =~= decode_bits(conf, r, rest));
    } else {
        lemma_next_token(conf, r, x);
        let t = next_token(conf, r, x);
        let n = token_span(t) as int;
        let head = x.take(n);
        let tail = x.skip(n);
        let r1 = r.push_all(head);
        assert forall|i: int| 0 <= i < head.len() implies #[trigger] fits(conf, head[i]) by {
            assert(fits(conf, x[i]));
        }
        assert forall|i: int| 0 <= i < tail.len() implies #[trigger] fits(conf, tail[i]) by {
            assert(fits(conf, x[i + n]));
        }
        lemma_push_all_wf(r, head);
        lemma_decode_encoded(conf, r1, tail, rest);
        let tb = token_bits(conf, t);
        let enc = encode_all(conf, r1, tail);
        lemma_token_bits_len(conf, t);
        lemma_parse_token_bits(conf, t, Seq::<bool>::empty());
        assert(tb + Seq::<bool>::empty() =~= tb);
        // after the token come whole bytes or not: the token is no flush mark, so it does not matter
        let behind = enc + rest;
        lemma_parse_token_bits(conf, t, behind);
        reveal(decode_bits);
        reveal(decode_ring);
        let s = tb + behind;
        assert(encode_all(conf, r, x) + rest =~= s);
        assert(s.skip(tb.len() as int) =~= behind);
        assert(advance(r, t) == r1);
        assert(head + (tail + decode_bits(conf, r1.push_all(tail), rest)) =~= x + decode_bits(
            conf,
            r1.push_all(tail),
            rest,
        ));
        assert(head + tail =~= x);
        lemma_push_all_concat(r, head, tail);
    }
}

/// The closing bits decode to nothing. With the flush mark, decoding goes on
/// behind them with the whole bytes that follow; without it, the stream
/// ends with them.
pub proof fn lemma_decode_closing(conf: Config, r: Ring, write_token: bool, at: nat, more: Seq<bool>)
    requires
        conf.valid(),
        more.len() % 8 == 0,
        write_token || more.len() == 0,
    ensures
        decode_bits(conf, r, closing(conf, write_token, at) + more) == decode_bits(conf, r, more),
        decode_ring(conf, r, closing(conf, write_token, at) + more) == decode_ring(conf, r, more),
{
    reveal(closing);
    reveal(decode_bits);
    reveal(decode_ring);
    let c = closing(conf, write_token, at);
    let s = c + more;
    if at % 8 == 0 {
        assert(s =~= more);
    } else if write_token {
        let mark = token_bits(conf, Token::Flush);
        let fill = repeat_bit(true, ((15 - at % 8) % 8) as nat);
        lemma_token_bits_len(conf, Token::Flush);
        lemma_parse_token_bits(conf, Token::Flush, fill + more);
        assert(s =~= mark + (fill + more));
        assert(token_reach(s, Token::Flush, 9) == 9 + fill.len());
        assert(s.skip(9 + fill.len() as int) =~= more);
        let none = Seq::<u8>::empty();
        assert(r.push_all(none) == r);
        assert(none + decode_bits(conf, r, more) =~= decode_bits(conf, r, more));
    } else {
        assert(more =~= Seq::<bool>::empty());
        assert(s[0]);
        assert(s.len() < 9);
    }
}

/// The stream that `x` compresses to from the window `r`: the header, the
/// tokens, and the closing bits.
pub open spec fn stream_of(conf: Config, r: Ring, x: Seq<u8>, write_token: bool) -> Seq<bool> {
    closed(conf, write_token, bits_of(header_byte(conf), 8) + encode_all(conf, r, x))
}

/// Decompression undoes compression: the stream that `x` compresses to is
/// made of whole bytes, begins with the header, and what follows the header
/// decodes to `x` and leaves `x` in the window.
pub proof fn lemma_round_trip(conf: Config, r: Ring, x: Seq<u8>, write_token: bool)
    requires
        conf.valid(),
        r.wf(),
        r.size() == pow2(conf.window_bits as nat),
        all_fit(conf, x),
    ensures
        stream_of(conf, r, x, write_token).len() % 8 == 0,
        stream_of(conf, r, x, write_token).len() >= 8,
        stream_of(conf, r, x, write_token).take(8) == bits_of(header_byte(conf), 8),
        decode_bits(conf, r, stream_of(conf, r, x, write_token).skip(8)) == x,
        decode_ring(conf, r, stream_of(conf, r, x, write_token).skip(8)) == r.push_all(x),
{
    let head = bits_of(header_byte(conf), 8);
    let enc = encode_all(conf, r, x);
    let body = head + enc;
    let end = closing(conf, write_token, body.len());
    let s = stream_of(conf, r, x, write_token);
    lemma_bits_of_len(header_byte(conf), 8);
    crate::stream::lemma_closed_len(conf, write_token, body);
    assert(s.take(8) =~= head);
    assert(s.skip(8) =~= enc + end);
    lemma_decode_encoded(conf, r, x, end);
    let none = Seq::<bool>::empty();
    assert(end + none =~= end);
    lemma_decode_closing(conf, r.push_all(x), write_token, body.len(), none);
    lemma_decode_none(conf, r.push_all(x), none);
    assert(x + Seq::<u8>::empty() =~= x);
}

/// A stream that goes on after a flush: where `x` was encoded and closed
/// with the flush mark at bit `at`, and whole bytes `more` follow, the
/// whole decodes to `x` followed by what `more` decodes to.
pub proof fn lemma_round_trip_resumed(conf: Config, r: Ring, x: Seq<u8>, at: nat, more: Seq<bool>)
    requires
        conf.valid(),
        r.wf(),
        r.size() == pow2(conf.window_bits as nat),
        all_fit(conf, x),
        more.len() % 8 == 0,
    ensures
        decode_bits(conf, r, encode_all(conf, r, x) + closing(conf, true, at) + more) == x + decode_bits(
            conf,
            r.push_all(x),
            more,
        ),
        decode_ring(conf, r, encode_all(conf, r, x) + closing(conf, true, at) + more) == decode_ring(
            conf,
            r.push_all(x),
            more,
        ),
{
    let enc = encode_all(conf, r, x);
    let end = closing(conf, true, at);
    assert(enc + end + more =~= enc + (end + more));
    lemma_decode_encoded(conf, r, x, end + more);
    lemma_decode_closing(conf, r.push_all(x), true, at, more);
}

/// Run-length expansion: a copy from offset zero of any length gives the
/// byte last stored, over and over.
pub proof fn lemma_run_length(r: Ring, n: nat)
    requires
        r.wf(),
    ensures
        r.copied(0, n) == Seq::new(n, |i: int| r.back(0)),
    decreases n,
{
    if n == 0 {
        assert(r.copied(0, 0) =~= Seq::new(0, |i: int| r.back(0)));
    } else {
        let b = r.back(0);
        let r1 = r.push(b);
        lemma_push_wf(r, b);
        lemma_push_back(r, b, 0);
        lemma_run_length(r1, (n - 1) as nat);
        assert(r.copied(0, n) =~= Seq::new(n, |i: int| b));
    }
}

/// A run of one byte behind that byte: where the window ends with `b`, a
/// match of offset zero stands for any run of `b`, so a run no longer than
/// the longest match, if it is long enough to pay, is encoded as that one
/// token.
pub proof fn lemma_run_is_one_match(conf: Config, r: Ring, b: u8, n: nat)
    requires
        conf.valid(),
        r.wf(),
        r.size() == pow2(conf.window_bits as nat),
        r.back(0) == b,
        min_match(conf) <= n <= max_match(conf),
    ensures
        chosen_token(conf, r, Seq::new(n, |i: int| b)) == (Token::Match { len: n as usize, offset: 0 }),
        expand(r, chosen_token(conf, r, Seq::new(n, |i: int| b))) == Seq::new(n, |i: int| b),
{
    let a = Seq::new(n, |i: int| b);
    let cap = search_cap(conf, a.len());
    assert(cap == n);
    lemma_run_length(r, n);
    assert(a.take(n as int) =~= a);
    lemma_best_match(r, a, cap, r.size());
    let best = crate::search::best_match(r, a, cap, r.size());
    assert(r.copied(0, n) == a.take(n as int));
    assert(best.0 == n);
    if best.1 > 0 {
        assert(r.copied(0, best.0) != a.take(best.0 as int));
    }
}

/// Encoding does not depend on where the data is cut: encoding `a` as long
/// as sixteen bytes are in view, and then what is left of it with `b`
/// behind, gives the bits, the window and the rest that encoding `a + b`
/// gives.
pub proof fn lemma_steady_concat(conf: Config, r: Ring, a: Seq<u8>, b: Seq<u8>)
    requires
        conf.valid(),
        r.wf(),
        r.size() == pow2(conf.window_bits as nat),
    ensures
        steady_bits(conf, r, a + b) == steady_bits(conf, r, a) + steady_bits(
            conf,
            steady_ring(conf, r, a),
            steady_left(conf, r, a) + b,
        ),
        steady_ring(conf, r, a + b) == steady_ring(
            conf,
            steady_ring(conf, r, a),
            steady_left(conf, r, a) + b,
        ),
        steady_left(conf, r, a + b) == steady_left(
            conf,
            steady_ring(conf, r, a),
            steady_left(conf, r, a) + b,
        ),
        steady_ring(conf, r, a).wf(),
        steady_ring(conf, r, a).size() == r.size(),
        steady_left(conf, r, a).len() < 16,
    decreases a.len(),
{
    reveal(steady_bits);
    reveal(steady_ring);
    reveal(steady_left);
    if a.len() < 16 {
        assert(Seq::<bool>::empty() + steady_bits(conf, r, a + b) =~= steady_bits(conf, r, a + b));
    } else {
        lemma_next_token(conf, r, a);
        let t = next_token(conf, r, a);
        let n = token_span(t) as int;
        let x = a + b;
        assert(lookahead(x) =~= lookahead(a));
        assert(x.take(n) =~= a.take(n));
        assert(x.skip(n) =~= a.skip(n) + b);
        let r1 = r.push_all(a.take(n));
        lemma_push_all_wf(r, a.take(n));
        lemma_steady_concat(conf, r1, a.skip(n), b);
        let tb = token_bits(conf, t);
        assert(tb + (steady_bits(conf, r1, a.skip(n)) + steady_bits(
            conf,
            steady_ring(conf, r1, a.skip(n)),
            steady_left(conf, r1, a.skip(n)) + b,
        )) =~= (tb + steady_bits(conf, r1, a.skip(n))) + steady_bits(
            conf,
            steady_ring(conf, r1, a.skip(n)),
            steady_left(conf, r1, a.skip(n)) + b,
        ));
    }
}

/// Encoding all of `x` is encoding it as long as sixteen bytes are in view,
/// and then encoding the rest.
pub proof fn lemma_encode_all_split(conf: Config, r: Ring, x: Seq<u8>)
    requires
        conf.valid(),
        r.wf(),
        r.size() == pow2(conf.window_bits as nat),
    ensures
        encode_all(conf, r, x) == steady_bits(conf, r, x) + encode_all(
            conf,
            steady_ring(conf, r, x),
            steady_left(conf, r, x),
        ),
        steady_left(conf, r, x).len() < 16,
    decreases x.len(),
{
    reveal(steady_bits);
    reveal(steady_ring);
    reveal(steady_left);
    reveal(encode_all);
    if x.len() < 16 {
        assert(Seq::<bool>::empty() + encode_all(conf, r, x) =~= encode_all(conf, r, x));
    } else {
        lemma_next_token(conf, r, x);
        let t = next_token(conf, r, x);
        let n = token_span(t) as int;
        let r1 = r.push_all(x.take(n));
        lemma_push_all_wf(r, x.take(n));
        lemma_encode_all_split(conf, r1, x.skip(n));
        let tb = token_bits(conf, t);
        assert(tb + (steady_bits(conf, r1, x.skip(n)) + encode_all(
            conf,
            steady_ring(conf, r1, x.skip(n)),
            steady_left(conf, r1, x.skip(n)),
        )) =~= (tb + steady_bits(conf, r1, x.skip(n))) + encode_all(
            conf,
            steady_ring(conf, r1, x.skip(n)),
            steady_left(conf, r1, x.skip(n)),
        ));
    }
}

/// What a call of `compress_chunk` promises for the input it was given
/// holds as well with any data behind that input: the bits written so far
/// do not depend on what follows.
pub proof fn lemma_more_ahead<const N: usize>(
    before: Compressor<N>,
    after: Compressor<N>,
    input: Seq<u8>,
    taken: int,
    written: Seq<u8>,
    more: Seq<u8>,
)
    requires
        before.wf(),
        after.wf(),
        after.config() == before.config(),
        0 <= taken <= input.len(),
        before.to_come(input) == bytes_bits(written) + after.to_come(input.skip(taken)),
        before.window_to_come(input) == after.window_to_come(input.skip(taken)),
        before.staged_to_come(input) == after.staged_to_come(input.skip(taken)),
    ensures
        before.to_come(input + more) == bytes_bits(written) + after.to_come(input.skip(taken) + more),
        before.window_to_come(input + more) == after.window_to_come(input.skip(taken) + more),
        before.staged_to_come(input + more) == after.staged_to_come(input.skip(taken) + more),
        (input + more).skip(taken) == input.skip(taken) + more,
{
    let conf = before.config();
    before.lemma_wf();
    after.lemma_wf();
    let a0 = before.staged() + input;
    let a1 = after.staged() + input.skip(taken);
    lemma_steady_concat(conf, before.window(), a0, more);
    lemma_steady_concat(conf, after.window(), a1, more);
    assert(before.staged() + (input + more) =~= a0 + more);
    assert(after.staged() + (input.skip(taken) + more) =~= a1 + more);
    assert((input + more).skip(taken) =~= input.skip(taken) + more);
    let tail = steady_bits(
        conf,
        steady_ring(conf, before.window(), a0),
        steady_left(conf, before.window(), a0) + more,
    );
    assert(before.to_come(input + more) =~= before.to_come(input) + tail);
    assert(after.to_come(input.skip(taken) + more) =~= after.to_come(input.skip(taken)) + tail);
    assert((bytes_bits(written) + after.to_come(input.skip(taken))) + tail =~= bytes_bits(written) + (
    after.to_come(input.skip(taken)) + tail));
}

/// The whole stream of a run of data: however the data `x` was handed to
/// the compressor, once all of it is taken in, the bytes written and
/// what a flush still writes are together the bits held back at the
/// start, the tokens of the staged bytes and `x`, and the closing bits.
pub proof fn lemma_fed_then_flushed<const N: usize>(
    before: Compressor<N>,
    after: Compressor<N>,
    x: Seq<u8>,
    written: Seq<u8>,
    write_token: bool,
)
    requires
        before.wf(),
        after.wf(),
        after.config() == before.config(),
        before.to_come(x) == bytes_bits(written) + after.to_come(Seq::<u8>::empty()),
        before.window_to_come(x) == after.window_to_come(Seq::<u8>::empty()),
        before.staged_to_come(x) == after.staged_to_come(Seq::<u8>::empty()),
    ensures
        bytes_bits(written) + after.to_flush(write_token) == closed(
            before.config(),
            write_token,
            before.pending() + encode_all(before.config(), before.window(), before.staged() + x),
        ),
{
    let conf = before.config();
    before.lemma_wf();
    after.lemma_wf();
    let none = Seq::<u8>::empty();
    let a = before.staged() + x;
    let s1 = after.staged();
    assert(s1 + none =~= s1);
    lemma_encode_all_split(conf, before.window(), a);
    lemma_encode_all_split(conf, after.window(), s1);
    let end = encode_all(
        conf,
        steady_ring(conf, before.window(), a),
        steady_left(conf, before.window(), a),
    );
    let sb0 = steady_bits(conf, before.window(), a);
    let sb1 = steady_bits(conf, after.window(), s1);
    let rest = encode_all(conf, after.window(), s1);
    lemma_bytes_bits_len(written);
    assert(before.pending() + sb0 == bytes_bits(written) + (after.pending() + sb1));
    assert(before.pending() + (sb0 + end) =~= (before.pending() + sb0) + end);
    assert((bytes_bits(written) + (after.pending() + sb1)) + end =~= bytes_bits(written) + (
    after.pending() + (sb1 + end)));
    lemma_closed_shift(conf, write_token, bytes_bits(written), after.pending() + rest);
}

/// A compressor that has just been made, fed `x` in any number of calls
/// and flushed, has written the stream of `x`.
pub proof fn lemma_whole_stream<const N: usize>(
    fresh: Compressor<N>,
    after: Compressor<N>,
    config: Config,
    d: Seq<u8>,
    x: Seq<u8>,
    written: Seq<u8>,
    write_token: bool,
)
    requires
        Compressor::<N>::starts(fresh, config, d),
        after.wf(),
        after.config() == config,
        fresh.to_come(x) == bytes_bits(written) + after.to_come(Seq::<u8>::empty()),
        fresh.window_to_come(x) == after.window_to_come(Seq::<u8>::empty()),
        fresh.staged_to_come(x) == after.staged_to_come(Seq::<u8>::empty()),
    ensures
        bytes_bits(written) + after.to_flush(write_token) == stream_of(
            config,
            crate::start::initial_window(config, d, N as nat),
            x,
            write_token,
        ),
{
    lemma_fed_then_flushed(fresh, after, x, written, write_token);
    assert(fresh.staged() + x =~= x);
}

/// Decoding does not depend on where the stream is cut: decoding `s`, and
/// then what is left of it with the whole bytes `more` behind, gives the
/// bytes, the window and the rest that decoding `s + more` gives.
pub proof fn lemma_decode_concat(conf: Config, r: Ring, s: Seq<bool>, more: Seq<bool>)
    requires
        conf.valid(),
        more.len() % 8 == 0,
    ensures
        decode_bits(conf, r, s + more) == decode_bits(conf, r, s) + decode_bits(
            conf,
            decode_ring(conf, r, s),
            decode_left(conf, s) + more,
        ),
        decode_ring(conf, r, s + more) == decode_ring(
            conf,
            decode_ring(conf, r, s),
            decode_left(conf, s) + more,
        ),
        decode_left(conf, s + more) == decode_left(conf, decode_left(conf, s) + more),
    decreases s.len(),
{
    if parse(conf, s) is None {
        lemma_decode_none(conf, r, s);
        assert(Seq::<u8>::empty() + decode_bits(conf, r, s + more) =~= decode_bits(conf, r, s + more));
    } else {
        let none = Seq::<bool>::empty();
        let t = parse(conf, s).unwrap().0;
        let reach = token_reach(s, t, parse(conf, s).unwrap().1) as int;
        lemma_decode_step(conf, r, s, more);
        lemma_decode_step(conf, r, s, none);
        assert(s + none =~= s);
        assert(s.skip(reach) + none =~= s.skip(reach));
        let r1 = advance(r, t);
        lemma_decode_concat(conf, r1, s.skip(reach), more);
        assert(expand(r, t) + (decode_bits(conf, r1, s.skip(reach)) + decode_bits(
            conf,
            decode_ring(conf, r1, s.skip(reach)),
            decode_left(conf, s.skip(reach)) + more,
        )) =~= (expand(r, t) + decode_bits(conf, r1, s.skip(reach))) + decode_bits(
            conf,
            decode_ring(conf, r1, s.skip(reach)),
            decode_left(conf, s.skip(reach)) + more,
        ));
    }
}

/// What a call of `decompress_chunk` promises for the input it was given
/// holds as well with any input behind it: the bytes given out so far do
/// not depend on what follows.
pub proof fn lemma_more_input<const N: usize>(
    before: Decompressor<N>,
    after: Decompressor<N>,
    input: Seq<u8>,
    taken: int,
    given: Seq<u8>,
    more: Seq<u8>,
)
    requires
        before.wf(),
        after.wf(),
        after.config() == before.config(),
        0 <= taken <= input.len(),
        before.to_yield(input) == given + after.to_yield(input.skip(taken)),
        before.window_to_yield(input) == after.window_to_yield(input.skip(taken)),
        before.unread_to_yield(input) == after.unread_to_yield(input.skip(taken)),
    ensures
        before.to_yield(input + more) == given + after.to_yield(input.skip(taken) + more),
        before.window_to_yield(input + more) == after.window_to_yield(input.skip(taken) + more),
        before.unread_to_yield(input + more) == after.unread_to_yield(input.skip(taken) + more),
        (input + more).skip(taken) == input.skip(taken) + more,
{
    let conf = before.config();
    before.lemma_wf();
    after.lemma_wf();
    let rest = input.skip(taken);
    let m = bytes_bits(more);
    lemma_bytes_bits_len(more);
    lemma_bytes_bits_concat(input, more);
    lemma_bytes_bits_concat(rest, more);
    let s0 = before.unread() + bytes_bits(input);
    let s1 = after.unread() + bytes_bits(rest);
    assert(before.unread() + bytes_bits(input + more) =~= s0 + m);
    assert(after.unread() + bytes_bits(rest + more) =~= s1 + m);
    assert((input + more).skip(taken) =~= rest + more);
    let r0 = crate::ring::after_copy(before.window(), before.copy_offset(), before.copy_left());
    let r1 = crate::ring::after_copy(after.window(), after.copy_offset(), after.copy_left());
    lemma_decode_concat(conf, r0, s0, m);
    lemma_decode_concat(conf, r1, s1, m);
    let tail = decode_bits(conf, before.window_to_yield(input), before.unread_to_yield(input) + m);
    assert(before.to_yield(input + more) =~= before.to_yield(input) + tail);
    assert(after.to_yield(rest + more) =~= after.to_yield(rest) + tail);
    assert((given + after.to_yield(rest)) + tail =~= given + (after.to_yield(rest) + tail));
}

/// A stream begins with its header: where the bytes `stream` are the stream
/// of `x`, the first of them is the header of the configuration.
pub proof fn lemma_stream_header(conf: Config, r: Ring, x: Seq<u8>, stream: Seq<u8>, write_token: bool)
    requires
        conf.valid(),
        r.wf(),
        r.size() == pow2(conf.window_bits as nat),
        all_fit(conf, x),
        bytes_bits(stream) == stream_of(conf, r, x, write_token),
    ensures
        stream.len() >= 1,
        stream[0] == header_byte(conf),
        bytes_bits(stream.skip(1)) == stream_of(conf, r, x, write_token).skip(8),
{
    lemma_round_trip(conf, r, x, write_token);
    lemma_bytes_bits_len(stream);
    lemma_bytes_bits_front(stream);
    let all = stream_of(conf, r, x, write_token);
    let first = bits_of(stream[0] as nat, 8);
    lemma_bits_of_len(stream[0] as nat, 8);
    assert(all.take(8) =~= first);
    assert(all.skip(8) =~= bytes_bits(stream.skip(1)));
    vstd::arithmetic::power2::lemma2_to64();
    lemma_value_of_bits(stream[0] as nat, 8);
    lemma_value_of_bits(header_byte(conf), 8);
}

/// Decompression undoes compression, for the two as they run: where the
/// bytes `stream` are the stream of `x`, a decompressor just made for the
/// same configuration and dictionary has `x`, and nothing more, to give
/// out for the bytes behind the header.
pub proof fn lemma_decompressed_whole<const N: usize>(
    fresh: Decompressor<N>,
    config: Config,
    d: Seq<u8>,
    x: Seq<u8>,
    stream: Seq<u8>,
    write_token: bool,
)
    requires
        Decompressor::<N>::starts(fresh, config, d),
        all_fit(config, x),
        bytes_bits(stream) == stream_of(config, initial_window(config, d, N as nat), x, write_token),
    ensures
        stream.len() >= 1,
        stream[0] == header_byte(config),
        fresh.to_yield(stream.skip(1)) == x,
        fresh.window_to_yield(stream.skip(1)) == initial_window(config, d, N as nat).push_all(x),
{
    let r = initial_window(config, d, N as nat);
    fresh.lemma_wf();
    lemma_round_trip(config, r, x, write_token);
    lemma_stream_header(config, r, x, stream, write_token);
    let rest = bytes_bits(stream.skip(1));
    let none = Seq::<u8>::empty();
    assert(fresh.unread() + rest =~= rest);
    assert(r.copied(fresh.copy_offset(), 0) =~= none);
    assert(r.push_all(none) == r);
    assert(none + x =~= x);
}

/// A byte with a bit above the literal width is never encoded: once it is
/// the oldest staged byte, the compressor is blocked, so that every step
/// fails with `ExcessBits` and changes nothing.
pub proof fn lemma_misfit_blocks<const N: usize>(c: Compressor<N>)
    requires
        c.wf(),
        c.staged().len() > 0,
        !fits(c.config(), c.staged()[0]),
    ensures
        c.blocked(),
{
    c.lemma_wf();
    let s = c.staged();
    assert(lookahead(s) == s);
    lemma_next_token(c.config(), c.window(), s);
    let n = token_span(c.upcoming()) as int;
    assert(s.take(n)[0] == s[0]);
}

} // verus!
