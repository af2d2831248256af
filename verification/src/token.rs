//! The items of a compressed stream and the bits that spell them.
use vstd::prelude::*;
use vstd::arithmetic::power2::{pow2, lemma2_to64, lemma_pow2_strictly_increases};
use crate::config::Config;
use crate::bits::{bits_of, value_of, lemma_bits_of_len, lemma_value_of_bits, lemma_value_concat, lemma_value_bound};
use crate::code::{code_len, code_word, symbol_of, lemma_code_fits, lemma_symbol_of_code};
use crate::ring::Ring;
use crate::bitqueue::BitQueue;
use crate::code::{encode_symbol, decode_symbol};

verus! {

/// One item of a compressed stream.
#[derive(Clone, Copy, Debug, PartialEq, Eq, Structural)]
pub enum Token {
    /// One byte, spelled out.
    Literal(u8),
    /// `len` bytes copied from the window, the first of them `offset + 1` places behind the cursor.
    Match { len: usize, offset: usize },
    /// A mark after which the stream resumes at the next byte boundary.
    Flush,
}

/// The shortest match worth a token: the least length at which a match takes
/// fewer bits than the same bytes as literals.
pub open spec fn min_match(conf: Config) -> nat {
    if 2 * conf.literal_bits > conf.window_bits {
        2
    } else {
        3
    }
}

/// The longest match a token can express.
pub open spec fn max_match(conf: Config) -> nat {
    min_match(conf) + 13
}

/// Bits taken by a literal token.
pub open spec fn literal_cost(conf: Config) -> nat {
    (1 + conf.literal_bits) as nat
}

/// Bits taken by a match token of length `len`.
pub open spec fn match_cost(conf: Config, len: nat) -> nat {
    1 + code_len((len - min_match(conf)) as nat) + conf.window_bits as nat
}

/// Whether the stream format can express `t` under `conf`.
pub open spec fn token_ok(conf: Config, t: Token) -> bool {
    match t {
        Token::Literal(b) => (b as nat) < pow2(conf.literal_bits as nat),
        Token::Match { len, offset } => {
            &&& min_match(conf) <= len <= max_match(conf)
            &&& (offset as nat) < pow2(conf.window_bits as nat)
        },
        Token::Flush => true,
    }
}

/// The bits that spell `t`, first bit first.
pub open spec fn token_bits(conf: Config, t: Token) -> Seq<bool> {
    match t {
        Token::Literal(b) => seq![false] + bits_of(b as nat, conf.literal_bits as nat),
        Token::Match { len, offset } => {
            let sym = (len - min_match(conf)) as nat;
            seq![true] + bits_of(code_word(sym), code_len(sym)) + bits_of(
                offset as nat,
                conf.window_bits as nat,
            )
        },
        Token::Flush => seq![true] + bits_of(code_word(14), 8),
    }
}

/// The token at the front of `s` and the number of bits it takes, or `None`
/// where `s` is too short to hold a whole token.
pub open spec fn parse(conf: Config, s: Seq<bool>) -> Option<(Token, nat)> {
    let lb = conf.literal_bits as int;
    let wb = conf.window_bits as int;
    if s.len() == 0 {
        None
    } else if !s[0] {
        if s.len() < 1 + lb {
            None
        } else {
            Some((Token::Literal(value_of(s.subrange(1, 1 + lb)) as u8), (1 + lb) as nat))
        }
    } else if s.len() < 9 {
        None
    } else {
        let sym = symbol_of(value_of(s.subrange(1, 9)));
        let cl = code_len(sym) as int;
        if sym == 14 {
            Some((Token::Flush, 9nat))
        } else if s.len() < 1 + cl + wb {
            None
        } else {
            Some(
                (
                    Token::Match {
                        len: (min_match(conf) + sym) as usize,
                        offset: value_of(s.subrange(1 + cl, 1 + cl + wb)) as usize,
                    },
                    (1 + cl + wb) as nat,
                ),
            )
        }
    }
}

/// The bytes that `t` stands for when the window is `r`.
pub open spec fn expand(r: Ring, t: Token) -> Seq<u8> {
    match t {
        Token::Literal(b) => seq![b],
        Token::Match { len, offset } => r.copied(offset as nat, len as nat),
        Token::Flush => Seq::empty(),
    }
}

/// The window after the bytes of `t` have been stored in it.
pub open spec fn advance(r: Ring, t: Token) -> Ring {
    r.push_all(expand(r, t))
}

/// Number of bits a token takes: between 6 and 24.
pub proof fn lemma_token_bits_len(conf: Config, t: Token)
    requires
        conf.valid(),
        token_ok(conf, t),
    ensures
        token_bits(conf, t).len() == match t {
            Token::Literal(_) => literal_cost(conf),
            Token::Match { len, offset } => match_cost(conf, len as nat),
            Token::Flush => 9,
        },
        6 <= token_bits(conf, t).len() <= 24,
{
    match t {
        Token::Literal(b) => {
            lemma_bits_of_len(b as nat, conf.literal_bits as nat);
        },
        Token::Match { len, offset } => {
            let sym = (len - min_match(conf)) as nat;
            lemma_bits_of_len(code_word(sym), code_len(sym));
            lemma_bits_of_len(offset as nat, conf.window_bits as nat);
        },
        Token::Flush => {
            lemma_bits_of_len(code_word(14), 8);
        },
    }
}

/// A match of the least length takes fewer bits than its bytes as literals,
/// and where that length is three, two bytes would not pay even with the
/// shortest code word.
pub proof fn lemma_min_match_pays(conf: Config)
    requires
        conf.valid(),
    ensures
        match_cost(conf, min_match(conf)) < min_match(conf) * literal_cost(conf),
        min_match(conf) == 3 ==> 1 + code_len(0) + conf.window_bits >= 2 * literal_cost(conf),
{
}

/// What was spelled is what is read: the bits of a token, followed by
/// anything, parse as that token and as many bits as it took.
pub proof fn lemma_parse_token_bits(conf: Config, t: Token, rest: Seq<bool>)
    requires
        conf.valid(),
        token_ok(conf, t),
    ensures
        parse(conf, token_bits(conf, t) + rest) == Some((t, token_bits(conf, t).len())),
{
    let s = token_bits(conf, t) + rest;
    let lb = conf.literal_bits as int;
    let wb = conf.window_bits as int;
    lemma_token_bits_len(conf, t);
    match t {
        Token::Literal(b) => {
            let body = bits_of(b as nat, lb as nat);
            lemma_bits_of_len(b as nat, lb as nat);
            assert(s[0] == false);
            assert(s.subrange(1, 1 + lb) =~= body);
            lemma_value_of_bits(b as nat, lb as nat);
        },
        Token::Match { len, offset } => {
            let sym = (len - min_match(conf)) as nat;
            let cl = code_len(sym);
            let code = bits_of(code_word(sym), cl);
            let off = bits_of(offset as nat, wb as nat);
            lemma_code_fits(sym);
            lemma_bits_of_len(code_word(sym), cl);
            lemma_bits_of_len(offset as nat, wb as nat);
            assert(s[0] == true);
            let fill = (off + rest).subrange(0, 8 - cl as int);
            assert(s.subrange(1, 9) =~= code + fill);
            lemma_value_concat(code, fill);
            lemma_value_of_bits(code_word(sym), cl);
            lemma_value_bound(fill);
            lemma_symbol_of_code(sym, value_of(fill));
            assert(s.subrange(1 + cl as int, 1 + cl as int + wb) =~= off);
            lemma_value_of_bits(offset as nat, wb as nat);
        },
        Token::Flush => {
            let code = bits_of(code_word(14), 8);
            lemma_bits_of_len(code_word(14), 8);
            assert(s[0] == true);
            assert(s.subrange(1, 9) =~= code);
            lemma2_to64();
            lemma_value_of_bits(code_word(14), 8);
            lemma_symbol_of_code(14, 0);
        },
    }
}

/// The single bit `b`.
pub proof fn lemma_one_bit(b: bool)
    ensures
        bits_of(if b { 1nat } else { 0nat }, 1) == seq![b],
{
    let v = if b { 1nat } else { 0nat };
    assert(bits_of(v / 2, 0) =~= Seq::<bool>::empty());
    assert(bits_of(v, 1) =~= seq![b]);
}

/// Appends the bits of `t` to the queue.
pub fn push_token(q: &mut BitQueue, conf: &Config, t: Token)
    requires
        old(q).wf(),
        conf.valid(),
        token_ok(*conf, t),
        old(q)@.len() + 24 <= 31,
    ensures
        final(q).wf(),
        final(q)@ == old(q)@ + token_bits(*conf, t),
{
    proof {
        lemma_one_bit(false);
        lemma_one_bit(true);
        lemma2_to64();
        lemma_token_bits_len(*conf, t);
    }
    match t {
        Token::Literal(b) => {
            proof {
                lemma_bits_of_len(b as nat, conf.literal_bits as nat);
            }
            q.push(0, 1);
            q.push(b as u32, conf.literal_bits as u32);
            assert(q@ =~= old(q)@ + token_bits(*conf, t));
        },
        Token::Match { len, offset } => {
            let sym = (len - conf.min_match()) as u8;
            let (word, bits) = encode_symbol(sym);
            proof {
                lemma_code_fits(sym as nat);
                lemma_bits_of_len(word as nat, bits as nat);
                lemma_bits_of_len(offset as nat, conf.window_bits as nat);
                lemma_pow2_strictly_increases(conf.window_bits as nat, 32);
            }
            q.push(1, 1);
            q.push(word, bits);
            q.push(offset as u32, conf.window_bits as u32);
            assert(q@ =~= old(q)@ + token_bits(*conf, t));
        },
        Token::Flush => {
            let (word, bits) = encode_symbol(14);
            proof {
                lemma_code_fits(14);
                lemma_bits_of_len(word as nat, 8);
            }
            q.push(1, 1);
            q.push(word, bits);
            assert(q@ =~= old(q)@ + token_bits(*conf, t));
        },
    }
}

/// The token at the front of the queue and the number of bits it takes, or
/// `None` where the queue does not hold a whole token.
pub fn peek_token(q: &BitQueue, conf: &Config) -> (r: Option<(Token, u32)>)
    requires
        q.wf(),
        conf.valid(),
    ensures
        r matches Some(found) ==> parse(*conf, q@) == Some((found.0, found.1 as nat)) && found.1
            <= q@.len() && token_ok(*conf, found.0),
        r is None ==> parse(*conf, q@) is None,
{
    let have = q.len();
    let lb = conf.literal_bits as u32;
    let wb = conf.window_bits as u32;
    if have == 0 {
        return None;
    }
    let ghost s = q@;
    let first = q.peek(1);
    proof {
        lemma2_to64();
        let head = s.take(1);
        assert(head.drop_last() =~= Seq::<bool>::empty());
        assert(value_of(head) == if s[0] { 1nat } else { 0nat });
    }
    if first == 0 {
        if have < 1 + lb {
            return None;
        }
        let both = q.peek(1 + lb);
        proof {
            let head = s.take(1);
            let body = s.subrange(1, 1 + lb as int);
            assert(s.take(1 + lb as int) =~= head + body);
            lemma_value_concat(head, body);
            lemma_value_bound(body);
            lemma_pow2_strictly_increases(lb as nat, 9);
        }
        Some((Token::Literal(both as u8), 1 + lb))
    } else {
        if have < 9 {
            return None;
        }
        let nine = q.peek(9);
        proof {
            let head = s.take(1);
            let body = s.subrange(1, 9);
            assert(s.take(9) =~= head + body);
            lemma_value_concat(head, body);
            lemma_value_bound(body);
        }
        let v = nine - 256;
        let sym = decode_symbol(v);
        if sym == 14 {
            return Some((Token::Flush, 9));
        }
        let (word, cl) = encode_symbol(sym);
        let need = 1 + cl + wb;
        if have < need {
            return None;
        }
        let all = q.peek(need);
        let limit = crate::bits::pow2_u32(wb);
        proof {
            let front = s.take(1 + cl as int);
            let tail = s.subrange(1 + cl as int, need as int);
            assert(s.take(need as int) =~= front + tail);
            lemma_value_concat(front, tail);
            lemma_value_bound(tail);
            vstd::arithmetic::power2::lemma_pow2_pos(wb as nat);
            let p = pow2(wb as nat) as int;
            let a = value_of(front) as int;
            let b = value_of(tail) as int;
            assert((a * p + b) % p == b) by {
                vstd::arithmetic::div_mod::lemma_mod_multiples_vanish(a, b, p);
                vstd::arithmetic::div_mod::lemma_small_mod(b as nat, p as nat);
                assert(a * p + b == p * a + b) by (nonlinear_arith);
            }
            lemma_pow2_strictly_increases(wb as nat, 32);
        }
        let offset = all % limit;
        Some((Token::Match { len: conf.min_match() + sym as usize, offset: offset as usize }, need))
    }
}

} // verus!
