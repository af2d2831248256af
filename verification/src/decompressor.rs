//! The decompressor: a stream of tokens in, the bytes they stand for out,
//! a little at a time.
use vstd::prelude::*;
use vstd::arithmetic::power2::{pow2, lemma2_to64};
use crate::config::Config;
use crate::error::Error;
use crate::bits::{bits_of, bytes_bits, lemma_bits_of_len};
use crate::bitqueue::BitQueue;
use crate::header::{read_header, header_ok, header_config};
use crate::ring::{Ring, after_copy, lemma_copied_step, lemma_push_all_push, lemma_push_all_wf, lemma_copy_split};
use crate::window::Window;
use crate::start::{accepted, refusal, initial_window, given_bytes, open_window};
use crate::token::{Token, parse, peek_token};
use crate::stream::{decode_left, decode_bits, decode_ring, token_reach, lemma_decode_step, lemma_decode_none, lemma_parse_enough, lemma_bytes_bits_front};

verus! {

/// The bytes still to come from a decompressor in the middle of a copy of
/// `left` bytes from `offset`, with the bits `s` behind it: the rest of the
/// copy, then what `s` decodes to.
pub open spec fn yield_of(conf: Config, r: Ring, offset: nat, left: nat, s: Seq<bool>) -> Seq<u8> {
    r.copied(offset, left) + decode_bits(conf, after_copy(r, offset, left), s)
}

/// The window once all of that has been decoded.
pub open spec fn ring_of(conf: Config, r: Ring, offset: nat, left: nat, s: Seq<bool>) -> Ring {
    decode_ring(conf, after_copy(r, offset, left), s)
}

/// Going on with a copy gives out the beginning of what is to come and
/// leaves the rest to come.
pub proof fn lemma_copy_keeps_yield(conf: Config, r: Ring, offset: nat, left: nat, w: nat, s: Seq<bool>)
    requires
        r.wf(),
        w <= left,
    ensures
        yield_of(conf, r, offset, left, s) == r.copied(offset, w) + yield_of(
            conf,
            after_copy(r, offset, w),
            offset,
            (left - w) as nat,
            s,
        ),
        ring_of(conf, r, offset, left, s) == ring_of(
            conf,
            after_copy(r, offset, w),
            offset,
            (left - w) as nat,
            s,
        ),
{
    lemma_copy_split(r, offset, left, w);
    let mid = after_copy(r, offset, w);
    let rest = (left - w) as nat;
    assert(yield_of(conf, r, offset, left, s) =~= r.copied(offset, w) + yield_of(
        conf,
        mid,
        offset,
        rest,
        s,
    ));
}

/// Where `whole` is `head` followed by `rest`, `head` is the beginning of `whole`.
pub proof fn lemma_given_first(whole: Seq<u8>, head: Seq<u8>, rest: Seq<u8>)
    requires
        whole == head + rest,
    ensures
        head.len() <= whole.len(),
        head == whole.take(head.len() as int),
        rest.len() == 0 ==> head.len() == whole.len(),
{
    assert(whole.take(head.len() as int) =~= head);
}

/// Bytes written in two goes, the second right behind the first.
pub proof fn lemma_join_given(mid: Seq<u8>, fin: Seq<u8>, w1: int, w2: int)
    requires
        0 <= w1,
        0 <= w2,
        w1 + w2 <= fin.len(),
        mid.len() == fin.len(),
        forall|i: int| 0 <= i < fin.len() && !(w1 <= i < w1 + w2) ==> fin[i] == mid[i],
    ensures
        fin.take(w1 + w2) == mid.take(w1) + fin.subrange(w1, w1 + w2),
{
    assert(fin.take(w1 + w2) =~= mid.take(w1) + fin.subrange(w1, w1 + w2));
}

/// A streaming decompressor with a window of `N` bytes.
///
/// `N` must be `2^window_bits` of the configuration it is made with.
pub struct Decompressor<const N: usize> {
    conf: Config,
    window: Window,
    unread: BitQueue,
    copy_left: usize,
    copy_offset: usize,
}

impl<const N: usize> Decompressor<N> {
    /// The parts fit together: a valid configuration, a window of the size
    /// it asks for, and a copy, if one is under way, that the format allows.
    pub closed spec fn wf(&self) -> bool {
        &&& self.conf.valid()
        &&& self.window.wf()
        &&& self.window@.size() == pow2(self.conf.window_bits as nat)
        &&& self.window@.size() == N
        &&& self.unread.wf()
        &&& self.copy_left <= 16
        &&& self.copy_offset < self.window@.size()
    }

    /// The configuration of the stream.
    pub closed spec fn config(&self) -> Config {
        self.conf
    }

    /// The window: the most recent bytes that have been decoded.
    pub closed spec fn window(&self) -> Ring {
        self.window@
    }

    /// The bits read from the input and not yet decoded, oldest first.
    pub closed spec fn unread(&self) -> Seq<bool> {
        self.unread@
    }

    /// Number of bytes that the copy under way still has to produce.
    pub closed spec fn copy_left(&self) -> nat {
        self.copy_left as nat
    }

    /// The offset that the copy under way reads from.
    pub closed spec fn copy_offset(&self) -> nat {
        self.copy_offset as nat
    }

    /// Everything the decompressor will still give out if the bytes `ahead`
    /// are all the input that follows.
    pub open spec fn to_yield(&self, ahead: Seq<u8>) -> Seq<u8> {
        yield_of(
            self.config(),
            self.window(),
            self.copy_offset(),
            self.copy_left(),
            self.unread() + bytes_bits(ahead),
        )
    }

    /// The window once all of that has been given out.
    pub open spec fn window_to_yield(&self, ahead: Seq<u8>) -> Ring {
        ring_of(
            self.config(),
            self.window(),
            self.copy_offset(),
            self.copy_left(),
            self.unread() + bytes_bits(ahead),
        )
    }

    /// The bits that are then left unread: the beginning of a token that
    /// the input ended in the middle of, or nothing.
    pub open spec fn unread_to_yield(&self, ahead: Seq<u8>) -> Seq<bool> {
        decode_left(self.config(), self.unread() + bytes_bits(ahead))
    }

    /// What well-formedness says of the parts that contracts speak of.
    pub proof fn lemma_wf(&self)
        requires
            self.wf(),
        ensures
            self.config().valid(),
            self.window().wf(),
            self.window().size() == pow2(self.config().window_bits as nat),
            self.window().size() == N,
            self.unread().len() <= 31,
            self.copy_left() <= 16,
            self.copy_offset() < self.window().size(),
    {
        self.window.lemma_wf();
        self.unread.lemma_view_len();
    }

    /// The state of a decompressor just made for `config` from the
    /// dictionary `d`: nothing read, no copy under way.
    pub open spec fn starts(c: Self, config: Config, d: Seq<u8>) -> bool {
        &&& c.wf()
        &&& c.config() == config
        &&& c.window() == initial_window(config, d, N as nat)
        &&& c.unread() == Seq::<bool>::empty()
        &&& c.copy_left() == 0
    }

    /// A decompressor for a stream made with `config` from the built-in
    /// dictionary. The header of the stream is not part of its input.
    pub fn new(config: Config) -> (r: Result<Self, Error>)
        ensures
            accepted(N as nat, config, false) ==> r is Ok,
            r matches Ok(c) ==> Self::starts(c, config, Seq::<u8>::empty()) && accepted(
                N as nat,
                config,
                false,
            ),
            r matches Err(e) ==> e == refusal(N as nat, config) && !accepted(N as nat, config, false),
    {
        Self::with_dictionary(config, None)
    }

    /// A decompressor for a stream made with `config`. With a custom
    /// dictionary the window starts from the bytes of `dictionary`, which
    /// must be those the compressor started from; else from the built-in
    /// dictionary, and `dictionary` is not looked at.
    ///
    /// It is refused with `InvalidConfig` where a width of `config` is out
    /// of range, where `N` is not `2^window_bits`, or where `config` asks
    /// for a custom dictionary and none is given.
    pub fn with_dictionary(config: Config, dictionary: Option<&[u8]>) -> (r: Result<Self, Error>)
        ensures
            accepted(N as nat, config, dictionary is Some) ==> r is Ok,
            r matches Ok(c) ==> Self::starts(c, config, given_bytes(dictionary)) && accepted(
                N as nat,
                config,
                dictionary is Some,
            ),
            r matches Err(e) ==> e == refusal(N as nat, config) && !accepted(
                N as nat,
                config,
                dictionary is Some,
            ),
    {
        let window = match open_window(&config, dictionary, N) {
            Ok(w) => w,
            Err(e) => {
                return Err(e);
            },
        };
        proof {
            window.lemma_wf();
            vstd::arithmetic::power2::lemma_pow2_pos(config.window_bits as nat);
        }
        Ok(Decompressor { conf: config, window, unread: BitQueue::new(), copy_left: 0, copy_offset: 0 })
    }

    /// The error with which `from_header` refuses `input`, where it does.
    pub open spec fn header_refusal(input: Seq<u8>) -> Error {
        if input.len() == 0 {
            Error::InputExhausted
        } else if !header_ok(input[0]) {
            Error::InvalidConfig("Invalid header")
        } else if N != pow2(header_config(input[0]).window_bits as nat) {
            Error::InvalidConfig("Buffer size N doesn't match header")
        } else {
            Error::InvalidConfig("Custom dictionary enabled but none provided")
        }
    }

    /// Whether `input` begins with a header that a decompressor with a
    /// window of `N` bytes and the built-in dictionary can follow.
    pub open spec fn header_accepted(input: Seq<u8>) -> bool {
        &&& input.len() > 0
        &&& header_ok(input[0])
        &&& N == pow2(header_config(input[0]).window_bits as nat)
        &&& !header_config(input[0]).use_custom_dictionary
    }

    /// A decompressor for the stream whose header `input` begins with, and
    /// the number of bytes the header takes.
    ///
    /// It is refused with `InputExhausted` where `input` is empty, and with
    /// `InvalidConfig` where the first byte is no header, where the window
    /// it announces does not have `N` bytes, or where it announces a custom
    /// dictionary.
    pub fn from_header(input: &[u8]) -> (r: Result<(Self, usize), Error>)
        ensures
            Self::header_accepted(input@) <==> r is Ok,
            r matches Ok(made) ==> made.1 == 1 && Self::starts(
                made.0,
                header_config(input@[0]),
                Seq::<u8>::empty(),
            ),
            r matches Err(e) ==> e == Self::header_refusal(input@),
    {
        let (config, used) = match read_header(input) {
            Ok(found) => found,
            Err(e) => {
                return Err(e);
            },
        };
        if N != config.window_size() {
            return Err(Error::InvalidConfig("Buffer size N doesn't match header"));
        }
        match Self::new(config) {
            Ok(d) => Ok((d, used)),
            Err(e) => Err(e),
        }
    }

    /// Goes on with the copy under way: writes its bytes to `out` from
    /// index `at` on, and stores them in the window, until the copy is done
    /// or `out` is full. Returns the number of bytes written.
    #[verifier::rlimit(40)]
    fn copy_out(&mut self, out: &mut [u8], at: usize) -> (w: usize)
        requires
            old(self).wf(),
            at <= old(out)@.len(),
        ensures
            final(self).wf(),
            final(self).conf == old(self).conf,
            final(self).unread == old(self).unread,
            final(self).copy_offset == old(self).copy_offset,
            final(out)@.len() == old(out)@.len(),
            at + w <= old(out)@.len(),
            forall|i: int|
                0 <= i < old(out)@.len() && !(at <= i < at + w) ==> final(out)@[i] == old(out)@[i],
            w <= old(self).copy_left(),
            final(self).copy_left() == old(self).copy_left() - w,
            final(self).copy_left() == 0 || at + w == old(out)@.len(),
            final(out)@.subrange(at as int, at + w) == old(self).window().copied(
                old(self).copy_offset(),
                w as nat,
            ),
            final(self).window() == after_copy(old(self).window(), old(self).copy_offset(), w as nat),
    {
        let total = out.len();
        let ghost r0 = self.window@;
        let ghost o = self.copy_offset as nat;
        let mut w: usize = 0;
        proof {
            self.window.lemma_wf();
            assert(out@.subrange(at as int, at as int) =~= r0.copied(o, 0));
            assert(r0.copied(o, 0) =~= Seq::<u8>::empty());
        }
        while self.copy_left > 0 && w < total - at
            invariant
                self.wf(),
                old(self).wf(),
                r0 == old(self).window@,
                r0.wf(),
                o == old(self).copy_offset,
                self.conf == old(self).conf,
                self.unread == old(self).unread,
                self.copy_offset == old(self).copy_offset,
                total == out@.len(),
                out@.len() == old(out)@.len(),
                at + w <= total,
                w + self.copy_left == old(self).copy_left,
                forall|i: int|
                    0 <= i < old(out)@.len() && !(at <= i < at + w) ==> out@[i] == old(out)@[i],
                out@.subrange(at as int, at + w) == r0.copied(o, w as nat),
                self.window@ == after_copy(r0, o, w as nat),
            decreases self.copy_left,
        {
            let b = self.window.back(self.copy_offset);
            let ghost before = out@.subrange(at as int, at + w);
            proof {
                lemma_copied_step(r0, o, w as nat);
                lemma_push_all_push(r0, r0.copied(o, w as nat), b);
                lemma_push_all_wf(r0, r0.copied(o, (w + 1) as nat));
            }
            out[at + w] = b;
            self.window.push(b);
            self.copy_left = self.copy_left - 1;
            proof {
                assert(out@.subrange(at as int, at + w + 1) =~= before.push(b));
            }
            w = w + 1;
        }
        w
    }

    /// Reads bytes of `input` from index `from` on while there is room for
    /// eight more bits. Returns the number of bytes read.
    #[verifier::rlimit(40)]
    fn refill(&mut self, input: &[u8], from: usize) -> (n: usize)
        requires
            old(self).wf(),
            from <= input@.len(),
        ensures
            final(self).wf(),
            final(self).conf == old(self).conf,
            final(self).window == old(self).window,
            final(self).copy_left == old(self).copy_left,
            final(self).copy_offset == old(self).copy_offset,
            from + n <= input@.len(),
            final(self).unread() + bytes_bits(input@.skip(from + n)) == old(self).unread() + bytes_bits(
                input@.skip(from as int),
            ),
            final(self).unread().len() == old(self).unread().len() + 8 * n,
            final(self).unread().len() >= 24 || from + n == input@.len(),
    {
        let total = input.len();
        let mut n: usize = 0;
        while self.unread.len() <= 23 && n < total - from
            invariant
                self.wf(),
                self.conf == old(self).conf,
                self.window == old(self).window,
                self.copy_left == old(self).copy_left,
                self.copy_offset == old(self).copy_offset,
                total == input@.len(),
                from + n <= total,
                self.unread@ + bytes_bits(input@.skip(from + n)) == old(self).unread@ + bytes_bits(
                    input@.skip(from as int),
                ),
                self.unread@.len() == old(self).unread@.len() + 8 * n,
            decreases total - from - n,
        {
            let b = input[from + n];
            let ghost before = self.unread@;
            proof {
                lemma2_to64();
                let rest = input@.skip(from + n);
                lemma_bytes_bits_front(rest);
                assert(rest.skip(1) =~= input@.skip(from + n + 1));
                lemma_bits_of_len(b as nat, 8);
                assert((before + bits_of(b as nat, 8)) + bytes_bits(input@.skip(from + n + 1)) =~= before
                    + bytes_bits(rest));
            }
            self.unread.push(b as u32, 8);
            n = n + 1;
        }
        n
    }

    /// What taking one token does to a decompressor with no copy under way
    /// that holds a whole token: the state `after` and the bytes `written`.
    ///
    /// The bits of the token leave the unread bits; after a flush mark, so
    /// do the bits up to the next byte boundary. A literal is written and
    /// stored in the window. A match starts a copy.
    pub open spec fn took(before: Self, after: Self, written: Seq<u8>) -> bool {
        let found = parse(before.config(), before.unread()).unwrap();
        let reach = token_reach(before.unread(), found.0, found.1);
        &&& after.unread() == before.unread().skip(reach as int)
        &&& match found.0 {
            Token::Literal(b) => {
                &&& written == seq![b]
                &&& after.window() == before.window().push(b)
                &&& after.copy_left() == 0
            },
            Token::Match { len, offset } => {
                &&& written == Seq::<u8>::empty()
                &&& after.window() == before.window()
                &&& after.copy_left() == len
                &&& after.copy_offset() == offset
            },
            Token::Flush => {
                &&& written == Seq::<u8>::empty()
                &&& after.window() == before.window()
                &&& after.copy_left() == 0
            },
        }
    }

    /// Taking a token gives out the beginning of what is to come and leaves
    /// the rest to come, whatever whole bytes follow.
    pub proof fn lemma_took_keeps_yield(before: Self, after: Self, written: Seq<u8>, more: Seq<bool>)
        requires
            before.wf(),
            before.copy_left() == 0,
            parse(before.config(), before.unread()) is Some,
            after.config() == before.config(),
            Self::took(before, after, written),
            more.len() % 8 == 0,
        ensures
            yield_of(before.config(), before.window(), before.copy_offset(), 0, before.unread() + more)
                == written + yield_of(
                after.config(),
                after.window(),
                after.copy_offset(),
                after.copy_left(),
                after.unread() + more,
            ),
            ring_of(before.config(), before.window(), before.copy_offset(), 0, before.unread() + more)
                == ring_of(
                after.config(),
                after.window(),
                after.copy_offset(),
                after.copy_left(),
                after.unread() + more,
            ),
            decode_left(before.config(), before.unread() + more) == decode_left(
                after.config(),
                after.unread() + more,
            ),
    {
        let conf = before.config();
        let r = before.window();
        let u = before.unread();
        before.lemma_wf();
        lemma_decode_step(conf, r, u, more);
        let t = parse(conf, u).unwrap().0;
        let empty = Seq::<u8>::empty();
        assert(r.copied(before.copy_offset(), 0) =~= empty);
        assert(r.push_all(empty) == r);
        assert(empty + decode_bits(conf, r, u + more) =~= decode_bits(conf, r, u + more));
        match t {
            Token::Literal(b) => {
                let one = seq![b];
                assert(one.skip(1) =~= empty);
                assert(r.push_all(one) == r.push(b).push_all(empty));
                assert(after.window().copied(after.copy_offset(), 0) =~= empty);
                assert(after.window().push_all(empty) == after.window());
                assert(one + decode_bits(conf, r.push(b), after.unread() + more) =~= written + (empty
                    + decode_bits(conf, r.push(b), after.unread() + more)));
            },
            Token::Match { len, offset } => {
                assert(empty + yield_of(conf, r, offset as nat, len as nat, after.unread() + more)
                    =~= yield_of(conf, r, offset as nat, len as nat, after.unread() + more));
            },
            Token::Flush => {
                assert(after.window().copied(after.copy_offset(), 0) =~= empty);
                assert(empty + (empty + decode_bits(conf, r, after.unread() + more)) =~= empty
                    + decode_bits(conf, r, after.unread() + more));
            },
        }
    }

    /// Takes the token at the front of the unread bits, with no copy under
    /// way. Returns the number of bytes written to `out` at index `at`, or
    /// `None`, with nothing changed, where no whole token is there or the
    /// token is a literal and `out` has no room for it.
    #[verifier::rlimit(40)]
    fn decode_one(&mut self, out: &mut [u8], at: usize) -> (r: Option<usize>)
        requires
            old(self).wf(),
            old(self).copy_left() == 0,
            at <= old(out)@.len(),
        ensures
            final(self).wf(),
            final(self).conf == old(self).conf,
            final(out)@.len() == old(out)@.len(),
            r is None ==> *final(self) == *old(self) && final(out)@ == old(out)@,
            r is None ==> parse(old(self).config(), old(self).unread()) is None || (at == old(out)@.len()
                && parse(old(self).config(), old(self).unread()).unwrap().0 is Literal),
            r matches Some(w) ==> {
                &&& parse(old(self).config(), old(self).unread()) is Some
                &&& at + w <= old(out)@.len()
                &&& Self::took(*old(self), *final(self), final(out)@.subrange(at as int, at + w))
                &&& forall|i: int|
                    0 <= i < old(out)@.len() && !(at <= i < at + w) ==> final(out)@[i] == old(out)@[i]
                &&& final(self).unread().len() < old(self).unread().len()
            },
    {
        let total = out.len();
        let found = peek_token(&self.unread, &self.conf);
        proof {
            self.window.lemma_wf();
            self.unread.lemma_view_len();
        }
        match found {
            None => None,
            Some((t, used)) => {
                match t {
                    Token::Literal(b) => {
                        if at == total {
                            return None;
                        }
                        self.unread.skip(used);
                        out[at] = b;
                        self.window.push(b);
                        assert(out@.subrange(at as int, at + 1) =~= seq![b]);
                        Some(1)
                    },
                    Token::Match { len, offset } => {
                        self.unread.skip(used);
                        self.copy_left = len;
                        self.copy_offset = offset;
                        assert(out@.subrange(at as int, at as int) =~= Seq::<u8>::empty());
                        Some(0)
                    },
                    Token::Flush => {
                        self.unread.skip(used);
                        let fill = self.unread.len() % 8;
                        self.unread.skip(fill);
                        assert(out@.subrange(at as int, at as int) =~= Seq::<u8>::empty());
                        assert(self.unread@ =~= old(self).unread@.skip((used + fill) as int));
                        Some(0)
                    },
                }
            },
        }
    }

    /// With no copy under way and no whole token among the unread bits,
    /// nothing is to come unless more input follows.
    proof fn lemma_nothing_to_yield(&self)
        requires
            self.wf(),
            self.copy_left() == 0,
            parse(self.config(), self.unread()) is None,
        ensures
            self.to_yield(Seq::<u8>::empty()).len() == 0,
    {
        let empty = Seq::<u8>::empty();
        assert(bytes_bits(empty) =~= Seq::<bool>::empty());
        assert(self.unread() + bytes_bits(empty) =~= self.unread());
        assert(self.window().copied(self.copy_offset(), 0) =~= empty);
        assert(self.window().push_all(empty) == self.window());
        lemma_decode_none(self.config(), self.window(), self.unread());
    }

    /// Decompresses bytes of `input` into `output`: decodes token after
    /// token until no whole token is left in `input` or `output` is full.
    /// Returns the number of bytes taken from `input` and the number
    /// written to `output`.
    ///
    /// Bits of a token that `input` ends in the middle of are kept, and a
    /// copy that `output` has no room for is taken up again by the next
    /// call, so what is written does not depend on how the stream or the
    /// output is cut into calls. It never fails: every string of bits is a
    /// stream.
    #[verifier::rlimit(40)]
    pub fn decompress_chunk(&mut self, input: &[u8], output: &mut [u8]) -> (r: Result<
        (usize, usize),
        Error,
    >)
        requires
            old(self).wf(),
        ensures
            final(self).wf(),
            final(self).config() == old(self).config(),
            final(output)@.len() == old(output)@.len(),
            r is Ok,
            r matches Ok(done) ==> {
                let taken = done.0 as int;
                let w = done.1 as int;
                let whole = old(self).to_yield(input@);
                &&& taken <= input@.len()
                &&& w == if old(output)@.len() < whole.len() { old(output)@.len() } else { whole.len() }
                &&& final(output)@.take(w) == whole.take(w)
                &&& final(output)@.skip(w) == old(output)@.skip(w)
                &&& whole == final(output)@.take(w) + final(self).to_yield(input@.skip(taken))
                &&& old(self).window_to_yield(input@) == final(self).window_to_yield(input@.skip(taken))
                &&& old(self).unread_to_yield(input@) == final(self).unread_to_yield(input@.skip(taken))
                &&& w < old(output)@.len() ==> taken == input@.len() && final(self).to_yield(
                    Seq::<u8>::empty(),
                ).len() == 0
                &&& taken == input@.len() || final(self).unread().len() >= 24
                &&& final(self).copy_left() > 0 ==> w == old(output)@.len()
                &&& final(self).copy_left() == 0 ==> match parse(
                    final(self).config(),
                    final(self).unread(),
                ) {
                    None => true,
                    Some(found) => found.0 is Literal && w == old(output)@.len(),
                }
            },
    {
        let total_in = input.len();
        let total_out = output.len();
        let mut taken: usize = 0;
        let mut written: usize = 0;
        let ghost whole = self.to_yield(input@);
        proof {
            assert(input@.skip(0) =~= input@);
            assert(output@.take(0) + whole =~= whole);
        }
        loop
            invariant
                self.wf(),
                old(self).wf(),
                self.conf == old(self).conf,
                total_in == input@.len(),
                total_out == output@.len(),
                output@.len() == old(output)@.len(),
                taken <= total_in,
                written <= total_out,
                whole == old(self).to_yield(input@),
                forall|i: int| written <= i < total_out ==> output@[i] == old(output)@[i],
                whole == output@.take(written as int) + self.to_yield(input@.skip(taken as int)),
                old(self).window_to_yield(input@) == self.window_to_yield(input@.skip(taken as int)),
                old(self).unread_to_yield(input@) == self.unread_to_yield(input@.skip(taken as int)),
            decreases 17 * (self.unread@.len() + 8 * (total_in - taken)) + self.copy_left,
        {
            let n = self.refill(input, taken);
            taken = taken + n;
            let ghost rest = input@.skip(taken as int);
            let ghost ahead = bytes_bits(rest);
            let ghost start = *self;
            let ghost out_start = output@;
            let w = self.copy_out(output, written);
            proof {
                start.lemma_wf();
                lemma_copy_keeps_yield(
                    self.conf,
                    start.window@,
                    start.copy_offset as nat,
                    start.copy_left as nat,
                    w as nat,
                    start.unread@ + ahead,
                );
                lemma_join_given(out_start, output@, written as int, w as int);
                assert(whole =~= output@.take(written + w) + self.to_yield(input@.skip(taken as int)));
            }
            written = written + w;
            if self.copy_left > 0 {
                proof {
                    lemma_given_first(
                        whole,
                        output@.take(written as int),
                        self.to_yield(input@.skip(taken as int)),
                    );
                    assert(output@.skip(written as int) =~= old(output)@.skip(written as int));
                }
                return Ok((taken, written));
            }
            let ghost mid = *self;
            let ghost out_mid = output@;
            match self.decode_one(output, written) {
                None => {
                    proof {
                        if parse(self.conf, self.unread@) is None {
                            self.lemma_wf();
                            if self.unread@.len() >= 24 {
                                lemma_parse_enough(self.conf, self.unread@);
                            }
                            assert(rest =~= Seq::<u8>::empty());
                            self.lemma_nothing_to_yield();
                        }
                        lemma_given_first(whole, output@.take(written as int), self.to_yield(rest));
                        assert(output@.skip(written as int) =~= old(output)@.skip(written as int));
                    }
                    return Ok((taken, written));
                },
                Some(w1) => {
                    proof {
                        crate::bits::lemma_bytes_bits_len(rest);
                        Self::lemma_took_keeps_yield(
                            mid,
                            *self,
                            output@.subrange(written as int, written + w1),
                            bytes_bits(rest),
                        );
                        lemma_join_given(out_mid, output@, written as int, w1 as int);
                        assert(whole =~= output@.take(written + w1) + self.to_yield(rest));
                    }
                    written = written + w1;
                },
            }
        }
    }
}

/// Decompressor with a window of 256 bytes (8 window bits).
pub type Decompressor256 = Decompressor<256>;

/// Decompressor with a window of 512 bytes (9 window bits).
pub type Decompressor512 = Decompressor<512>;

/// Decompressor with a window of 1 KiB (10 window bits), the default.
pub type Decompressor1K = Decompressor<1024>;

/// Decompressor with a window of 2 KiB (11 window bits).
pub type Decompressor2K = Decompressor<2048>;

/// Decompressor with a window of 4 KiB (12 window bits).
pub type Decompressor4K = Decompressor<4096>;

} // verus!
