//! The compressor: bytes in, a stream of tokens out, a little at a time.
use vstd::prelude::*;
use vstd::arithmetic::power2::{pow2, lemma2_to64};
use crate::config::Config;
use crate::error::Error;
use crate::bits::{bits_of, bytes_bits, pow2_u32, lemma_all_ones, lemma_bytes_bits_len, lemma_join_writes, lemma_two_drains, lemma_written_first};
use crate::bitqueue::BitQueue;
use crate::header::{header_byte, write_header};
use crate::ring::{Ring, lemma_push_all_push, lemma_push_all_wf};
use crate::window::Window;
use crate::start::{accepted, refusal, initial_window, given_bytes, open_window};
use crate::lookahead::Lookahead;
use crate::token::{Token, token_bits, token_ok, min_match, push_token, lemma_token_bits_len};
use crate::search::{chosen_token, token_span, find_match};
use crate::stream::{fits, all_fit, closed, flushed_bits, steady_stream, steady_ring, steady_left, lemma_closed_shift, lemma_closed_len, lemma_encode_all_step, lemma_steady_step};

verus! {

/// A streaming compressor with a window of `N` bytes.
///
/// `N` must be `2^window_bits` of the configuration it is made with.
pub struct Compressor<const N: usize> {
    conf: Config,
    window: Window,
    staged: Lookahead,
    pending: BitQueue,
}

impl<const N: usize> Compressor<N> {
    /// The parts fit together: a valid configuration and a window of the size it asks for.
    pub closed spec fn wf(&self) -> bool {
        &&& self.conf.valid()
        &&& self.window.wf()
        &&& self.window@.size() == pow2(self.conf.window_bits as nat)
        &&& self.window@.size() == N
        &&& self.staged.wf()
        &&& self.pending.wf()
    }

    /// The configuration the compressor was made with.
    pub closed spec fn config(&self) -> Config {
        self.conf
    }

    /// The window: the most recent bytes that have been encoded.
    pub closed spec fn window(&self) -> Ring {
        self.window@
    }

    /// The bytes taken in and not yet encoded, oldest first.
    pub closed spec fn staged(&self) -> Seq<u8> {
        self.staged@
    }

    /// The bits encoded and not yet written, oldest first.
    pub closed spec fn pending(&self) -> Seq<bool> {
        self.pending@
    }

    /// What well-formedness says of the parts that contracts speak of.
    pub proof fn lemma_wf(&self)
        requires
            self.wf(),
        ensures
            self.config().valid(),
            self.window().wf(),
            self.window().size() == pow2(self.config().window_bits as nat),
            self.window().size() == N,
            self.staged().len() <= 16,
            self.pending().len() <= 31,
    {
        self.window.lemma_wf();
        self.pending.lemma_view_len();
        self.staged.lemma_view_len();
    }

    /// A compressor for `config` that starts from the built-in dictionary.
    pub fn new(config: Config) -> (r: Result<Self, Error>)
        ensures
            accepted(N as nat, config, false) ==> r is Ok,
            r matches Ok(c) ==> Self::starts(c, config, Seq::<u8>::empty()) && accepted(
                N as nat,
                config,
                false,
            ),
            r matches Err(e) ==> e == refusal(N as nat, config) && !accepted(N as nat, config, false),
    {
        Self::with_dictionary(config, None)
    }

    /// The state of a compressor just made for `config` from the dictionary
    /// `d`: nothing staged, and the header waiting to be written.
    pub open spec fn starts(c: Self, config: Config, d: Seq<u8>) -> bool {
        &&& c.wf()
        &&& c.config() == config
        &&& c.window() == initial_window(config, d, N as nat)
        &&& c.staged() == Seq::<u8>::empty()
        &&& c.pending() == bits_of(header_byte(config), 8)
    }

    /// A compressor for `config`. With a custom dictionary the window starts
    /// from the bytes of `dictionary`; else from the built-in dictionary, and
    /// `dictionary` is not looked at.
    ///
    /// It is refused with `InvalidConfig` where a width of `config` is out
    /// of range, where `N` is not `2^window_bits`, or where `config` asks
    /// for a custom dictionary and none is given.
    pub fn with_dictionary(config: Config, dictionary: Option<&[u8]>) -> (r: Result<Self, Error>)
        ensures
            accepted(N as nat, config, dictionary is Some) ==> r is Ok,
            r matches Ok(c) ==> Self::starts(c, config, given_bytes(dictionary)) && accepted(
                N as nat,
                config,
                dictionary is Some,
            ),
            r matches Err(e) ==> e == refusal(N as nat, config) && !accepted(
                N as nat,
                config,
                dictionary is Some,
            ),
    {
        let window = match open_window(&config, dictionary, N) {
            Ok(w) => w,
            Err(e) => {
                return Err(e);
            },
        };
        proof {
            lemma2_to64();
            crate::bits::lemma_bits_of_len(header_byte(config), 8);
        }
        let mut pending = BitQueue::new();
        pending.push(write_header(&config) as u32, 8);
        assert(pending@ =~= bits_of(header_byte(config), 8));
        Ok(Compressor { conf: config, window, staged: Lookahead::new(), pending })
    }

    /// Takes in bytes from `input` until sixteen are staged or `input` ends.
    /// Returns the number of bytes taken; writes nothing.
    pub fn sink(&mut self, input: &[u8]) -> (taken: usize)
        requires
            old(self).wf(),
        ensures
            final(self).wf(),
            taken == if input@.len() < 16 - old(self).staged().len() {
                input@.len() as int
            } else {
                16 - old(self).staged().len()
            },
            final(self).staged() == old(self).staged() + input@.take(taken as int),
            final(self).config() == old(self).config(),
            final(self).window() == old(self).window(),
            final(self).pending() == old(self).pending(),
    {
        self.sink_from(input, 0)
    }

    /// Takes in bytes of `input` from index `from` on.
    fn sink_from(&mut self, input: &[u8], from: usize) -> (taken: usize)
        requires
            old(self).wf(),
            from <= input@.len(),
        ensures
            final(self).wf(),
            taken == if input@.len() - from < 16 - old(self).staged().len() {
                input@.len() - from
            } else {
                16 - old(self).staged().len()
            },
            final(self).staged() == old(self).staged() + input@.subrange(from as int, from + taken),
            final(self).config() == old(self).config(),
            final(self).window() == old(self).window(),
            final(self).pending() == old(self).pending(),
            final(self).conf == old(self).conf,
            final(self).window == old(self).window,
            final(self).pending == old(self).pending,
            taken == 0 ==> *final(self) == *old(self),
    {
        let mut taken: usize = 0;
        proof {
            assert(old(self).staged() + input@.subrange(from as int, from as int) =~= old(self).staged());
            self.staged.lemma_view_len();
        }
        while !self.staged.is_full() && taken < input.len() - from
            invariant
                self.wf(),
                from <= input@.len(),
                taken <= input@.len() - from,
                self.staged@.len() == old(self).staged@.len() + taken,
                self.staged@.len() <= 16,
                self.staged@ == old(self).staged@ + input@.subrange(from as int, from + taken),
                self.conf == old(self).conf,
                self.window == old(self).window,
                self.pending == old(self).pending,
                taken == 0 ==> *self == *old(self),
            decreases input@.len() - from - taken,
        {
            self.staged.push(input[from + taken]);
            proof {
                assert(input@.subrange(from as int, from + taken).push(input@[from + taken])
                    =~= input@.subrange(from as int, from + taken + 1));
                assert(self.staged@ =~= old(self).staged@ + input@.subrange(from as int, from + taken + 1));
            }
            taken = taken + 1;
        }
        taken
    }

    /// Whether sixteen bytes are staged, so that no more can be taken in
    /// before some are encoded.
    pub fn is_full(&self) -> (b: bool)
        requires
            self.wf(),
        ensures
            b == (self.staged().len() == 16),
    {
        self.staged.is_full()
    }

    /// The token that stands for the beginning of the staged bytes.
    pub open spec fn upcoming(&self) -> Token {
        chosen_token(self.config(), self.window(), self.staged())
    }

    /// Whether the next token cannot be encoded because one of its bytes
    /// has a bit set above the literal width.
    pub open spec fn blocked(&self) -> bool {
        &&& self.staged().len() > 0
        &&& !all_fit(self.config(), self.staged().take(token_span(self.upcoming()) as int))
    }

    /// What one step does to a compressor that holds staged bytes, none of
    /// them in the way, when `room` bytes can be written: the state `after`
    /// and the bytes `written`.
    ///
    /// Whole bytes held back are written first. If they do not all fit, that
    /// is the step. Else the next token is encoded: its bytes leave the
    /// staging area for the window, and as many whole bytes as fit are written.
    pub open spec fn stepped(before: Self, after: Self, room: nat, written: Seq<u8>) -> bool {
        let t = before.upcoming();
        let n = token_span(t) as int;
        if before.pending().len() / 8 > room {
            &&& written.len() == room
            &&& bytes_bits(written) == before.pending().take(8 * room as int)
            &&& after.pending() == before.pending().skip(8 * room as int)
            &&& after.staged() == before.staged()
            &&& after.window() == before.window()
        } else {
            let all = before.pending() + token_bits(before.config(), t);
            &&& written.len() == if room < all.len() / 8 { room } else { all.len() / 8 }
            &&& bytes_bits(written) == all.take(8 * written.len() as int)
            &&& after.pending() == all.skip(8 * written.len() as int)
            &&& after.staged() == before.staged().skip(n)
            &&& after.window() == before.window().push_all(before.staged().take(n))
        }
    }

    /// One step of compression: encodes the token that stands for the
    /// beginning of the staged bytes and writes what is ready to `output`.
    /// Returns the number of bytes written.
    ///
    /// With nothing staged it does nothing. It fails, and changes nothing,
    /// where `output` is empty (`OutputFull`) or a byte of the token has a bit
    /// set above the literal width (`ExcessBits`).
    pub fn poll(&mut self, output: &mut [u8]) -> (r: Result<usize, Error>)
        requires
            old(self).wf(),
        ensures
            final(self).wf(),
            final(self).config() == old(self).config(),
            final(output)@.len() == old(output)@.len(),
            r matches Ok(w) ==> w <= old(output)@.len() && final(output)@.skip(w as int) == old(output)@.skip(
                w as int,
            ),
            r is Err ==> *final(self) == *old(self) && final(output)@ == old(output)@,
            old(self).staged().len() == 0 ==> r == Ok::<usize, Error>(0) && *final(self) == *old(self),
            old(self).staged().len() > 0 && old(output)@.len() == 0 ==> r == Err::<usize, Error>(
                Error::OutputFull,
            ),
            old(self).staged().len() > 0 && old(output)@.len() > 0 && old(self).blocked() ==> r == Err::<
                usize,
                Error,
            >(Error::ExcessBits),
            old(self).staged().len() > 0 && old(output)@.len() > 0 && !old(self).blocked() ==> (r matches Ok(
                w,
            ) && Self::stepped(*old(self), *final(self), old(output)@.len(), final(output)@.take(w as int))),
    {
        let r = self.poll_at(output, 0);
        proof {
            if let Ok(w) = r {
                assert(output@.subrange(0, w as int) =~= output@.take(w as int));
                assert(output@.skip(w as int) =~= old(output)@.skip(w as int));
            } else {
                assert(output@ =~= old(output)@);
            }
        }
        r
    }

    /// One step of compression that writes to `out` from index `at` on.
    #[verifier::rlimit(40)]
    pub(crate) fn poll_at(&mut self, out: &mut [u8], at: usize) -> (r: Result<usize, Error>)
        requires
            old(self).wf(),
            at <= old(out)@.len(),
        ensures
            final(self).wf(),
            final(self).config() == old(self).config(),
            final(out)@.len() == old(out)@.len(),
            r matches Ok(w) ==> at + w <= old(out)@.len() && (forall|i: int|
                0 <= i < old(out)@.len() && !(at <= i < at + w) ==> final(out)@[i] == old(out)@[i]),
            r is Err ==> *final(self) == *old(self) && final(out)@ == old(out)@,
            old(self).staged().len() == 0 ==> r == Ok::<usize, Error>(0) && *final(self) == *old(self),
            old(self).staged().len() > 0 && old(out)@.len() == at ==> r == Err::<usize, Error>(
                Error::OutputFull,
            ),
            old(self).staged().len() > 0 && old(out)@.len() > at && old(self).blocked() ==> r == Err::<
                usize,
                Error,
            >(Error::ExcessBits),
            old(self).staged().len() > 0 && old(out)@.len() > at && !old(self).blocked() ==> (r matches Ok(
                w,
            ) && Self::stepped(
                *old(self),
                *final(self),
                (old(out)@.len() - at) as nat,
                final(out)@.subrange(at as int, at + w),
            )),
    {
        if self.staged.len() == 0 {
            return Ok(0);
        }
        if at == out.len() {
            return Err(Error::OutputFull);
        }
        let (t, n) = self.pick_token();
        if !self.span_fits(n) {
            return Err(Error::ExcessBits);
        }
        let ghost held = self.pending@;
        let w1 = self.pending.drain_into(out, at);
        if self.pending.len() >= 8 {
            return Ok(w1);
        }
        let ghost out1 = out@;
        self.take_token(t, n);
        let w2 = self.pending.drain_into(out, at + w1);
        proof {
            lemma_join_writes(out1, out@, at as int, w1 as int, w2 as int);
            lemma_two_drains(held, token_bits(self.conf, t), w1 as int, w2 as int);
        }
        Ok(w1 + w2)
    }

    /// The token that stands for the beginning of the staged bytes, and the
    /// number of bytes it stands for.
    fn pick_token(&self) -> (r: (Token, usize))
        requires
            self.wf(),
            self.staged().len() > 0,
        ensures
            r.0 == self.upcoming(),
            r.1 == token_span(r.0),
            1 <= r.1 <= self.staged().len(),
            all_fit(self.config(), self.staged().take(r.1 as int)) ==> token_ok(self.config(), r.0),
    {
        let staged_len = self.staged.len();
        let least = self.conf.min_match();
        let most = least + 13;
        let cap = if staged_len < most { staged_len } else { most };
        let (best_len, best_offset) = find_match(&self.window, &self.staged, cap);
        proof {
            self.window.lemma_wf();
        }
        if best_len >= least {
            (Token::Match { len: best_len, offset: best_offset }, best_len)
        } else {
            let b = self.staged.get(0);
            proof {
                let one = self.staged@.take(1);
                assert(one[0] == b);
                assert(all_fit(self.conf, one) ==> fits(self.conf, one[0]));
            }
            (Token::Literal(b), 1)
        }
    }

    /// Whether the first `n` staged bytes fit the literal width.
    fn span_fits(&self, n: usize) -> (b: bool)
        requires
            self.wf(),
            n <= self.staged().len(),
        ensures
            b == all_fit(self.config(), self.staged().take(n as int)),
    {
        let limit = pow2_u32(self.conf.literal_bits as u32);
        let mut i: usize = 0;
        while i < n
            invariant
                self.wf(),
                i <= n <= self.staged@.len(),
                limit == pow2(self.conf.literal_bits as nat),
                forall|j: int| 0 <= j < i ==> #[trigger] fits(self.conf, self.staged@.take(n as int)[j]),
            decreases n - i,
        {
            if self.staged.get(i) as u32 >= limit {
                assert(!fits(self.conf, self.staged@.take(n as int)[i as int]));
                return false;
            }
            i = i + 1;
        }
        true
    }

    /// Encodes `t`, which stands for the first `n` staged bytes: its bits
    /// join the bits held back, and the bytes leave the staging area for the
    /// window.
    #[verifier::rlimit(40)]
    fn take_token(&mut self, t: Token, n: usize)
        requires
            old(self).wf(),
            token_ok(old(self).config(), t),
            old(self).pending().len() < 8,
            1 <= n <= old(self).staged().len(),
        ensures
            final(self).wf(),
            final(self).conf == old(self).conf,
            final(self).pending() == old(self).pending() + token_bits(old(self).config(), t),
            final(self).staged() == old(self).staged().skip(n as int),
            final(self).window() == old(self).window().push_all(old(self).staged().take(n as int)),
    {
        push_token(&mut self.pending, &self.conf, t);
        let mut i: usize = 0;
        proof {
            assert(self.staged@.take(0) =~= Seq::<u8>::empty());
        }
        while i < n
            invariant
                self.wf(),
                old(self).wf(),
                self.conf == old(self).conf,
                self.staged == old(self).staged,
                self.pending@ == old(self).pending@ + token_bits(self.conf, t),
                i <= n <= self.staged@.len(),
                self.window@ == old(self).window@.push_all(self.staged@.take(i as int)),
            decreases n - i,
        {
            proof {
                old(self).window.lemma_wf();
                lemma_push_all_push(old(self).window@, self.staged@.take(i as int), self.staged@[i as int]);
                assert(self.staged@.take(i as int).push(self.staged@[i as int]) =~= self.staged@.take(
                    i + 1,
                ));
                lemma_push_all_wf(old(self).window@, self.staged@.take(i + 1));
            }
            self.window.push(self.staged.get(i));
            i = i + 1;
        }
        self.staged.drop_front(n);
    }

    /// Everything that is still to be written if the compressor is flushed now.
    pub open spec fn to_flush(&self, write_token: bool) -> Seq<bool> {
        flushed_bits(self.config(), self.window(), self.staged(), self.pending(), write_token)
    }

    /// A step of compression writes the beginning of what a flush would
    /// write, and leaves the rest to be flushed.
    pub proof fn lemma_step_keeps_flush(
        before: Self,
        after: Self,
        room: nat,
        written: Seq<u8>,
        write_token: bool,
    )
        requires
            before.wf(),
            before.staged().len() > 0,
            after.config() == before.config(),
            Self::stepped(before, after, room, written),
        ensures
            before.to_flush(write_token) == bytes_bits(written) + after.to_flush(write_token),
    {
        let conf = before.config();
        let p = before.pending();
        before.lemma_wf();
        lemma_bytes_bits_len(written);
        lemma_encode_all_step(conf, before.window(), before.staged());
        if p.len() / 8 > room {
            let enc = crate::stream::encode_all(conf, before.window(), before.staged());
            let head = p.take(8 * room as int);
            let tail = p.skip(8 * room as int) + enc;
            assert(p + enc =~= head + tail);
            lemma_closed_shift(conf, write_token, head, tail);
        } else {
            let t = before.upcoming();
            let all = p + token_bits(conf, t);
            let enc = crate::stream::encode_all(conf, after.window(), after.staged());
            let w = written.len() as int;
            let head = all.take(8 * w);
            let tail = all.skip(8 * w) + enc;
            assert(p + crate::stream::encode_all(conf, before.window(), before.staged()) =~= head + tail);
            lemma_closed_shift(conf, write_token, head, tail);
        }
    }

    /// Encodes the staged bytes, none of them in the way, writing to `out`
    /// from index `at` on until nothing is staged or `out` is full.
    #[verifier::rlimit(40)]
    fn encode_staged(&mut self, out: &mut [u8], at: usize, write_token: bool) -> (w: usize)
        requires
            old(self).wf(),
            at <= old(out)@.len(),
            all_fit(old(self).config(), old(self).staged()),
        ensures
            final(self).wf(),
            final(self).config() == old(self).config(),
            final(out)@.len() == old(out)@.len(),
            at + w <= old(out)@.len(),
            forall|i: int|
                0 <= i < old(out)@.len() && !(at <= i < at + w) ==> final(out)@[i] == old(out)@[i],
            old(self).to_flush(write_token) == bytes_bits(final(out)@.subrange(at as int, at + w)) + final(self).to_flush(write_token),
            final(self).staged().len() == 0 || at + w == old(out)@.len(),
            final(self).staged().len() <= old(self).staged().len(),
            final(self).staged() == old(self).staged().skip(
                old(self).staged().len() - final(self).staged().len(),
            ),
            final(self).window() == old(self).window().push_all(
                old(self).staged().take(old(self).staged().len() - final(self).staged().len()),
            ),
    {
        let ghost s0 = self.staged@;
        let ghost r0 = self.window@;
        let mut w: usize = 0;
        proof {
            assert(out@.subrange(at as int, at as int) =~= Seq::<u8>::empty());
            assert(bytes_bits(Seq::<u8>::empty()) + self.to_flush(write_token) =~= self.to_flush(
                write_token,
            ));
            assert(s0.skip(0) =~= s0);
            assert(s0.take(0) =~= Seq::<u8>::empty());
        }
        while self.staged.len() > 0 && w < out.len() - at
            invariant
                self.wf(),
                old(self).wf(),
                self.conf == old(self).conf,
                out@.len() == old(out)@.len(),
                at + w <= out@.len(),
                s0 == old(self).staged@,
                r0 == old(self).window@,
                all_fit(self.conf, s0),
                old(self).to_flush(write_token) == bytes_bits(out@.subrange(at as int, at + w))
                    + self.to_flush(write_token),
                forall|i: int|
                    0 <= i < old(out)@.len() && !(at <= i < at + w) ==> out@[i] == old(out)@[i],
                self.staged@.len() <= s0.len(),
                self.staged@ == s0.skip(s0.len() - self.staged@.len()),
                self.window@ == r0.push_all(s0.take(s0.len() - self.staged@.len())),
            decreases 17 * (out@.len() - at - w) + self.staged@.len(),
        {
            let ghost before = *self;
            let ghost out_before = out@;
            proof {
                let k = s0.len() - self.staged@.len();
                self.lemma_wf();
                lemma_encode_all_step(self.conf, self.window@, self.staged@);
                let n = token_span(self.upcoming()) as int;
                assert forall|j: int| 0 <= j < n implies #[trigger] fits(
                    self.conf,
                    self.staged@.take(n)[j],
                ) by {
                    assert(self.staged@.take(n)[j] == s0[k + j]);
                    assert(fits(self.conf, s0[k + j]));
                }
            }
            let r = self.poll_at(out, at + w);
            let ghost step = out@.subrange(at + w, at + w + r.unwrap());
            proof {
                let k = s0.len() - before.staged@.len();
                let n = token_span(before.upcoming()) as int;
                Self::lemma_step_keeps_flush(
                    before,
                    *self,
                    (out@.len() - at - w) as nat,
                    step,
                    write_token,
                );
                lemma_join_writes(out_before, out@, at as int, w as int, r.unwrap() as int);
                if self.staged@ != before.staged@ {
                    old(self).lemma_wf();
                    Self::lemma_suffix_step(r0, s0, k, n);
                }
            }
            w = w + r.unwrap();
        }
        w
    }

    /// Taking `n` more bytes off a run of which `k` are gone.
    proof fn lemma_suffix_step(r: Ring, s: Seq<u8>, k: int, n: int)
        requires
            r.wf(),
            0 <= k,
            0 <= n,
            k + n <= s.len(),
        ensures
            s.skip(k).skip(n) == s.skip(k + n),
            r.push_all(s.take(k)).push_all(s.skip(k).take(n)) == r.push_all(s.take(k + n)),
    {
        assert(s.skip(k).skip(n) =~= s.skip(k + n));
        assert(s.take(k) + s.skip(k).take(n) =~= s.take(k + n));
        crate::ring::lemma_push_all_concat(r, s.take(k), s.skip(k).take(n));
    }

    /// Writes whole bytes that are held back, once nothing is staged, to
    /// `out` from index `at` on.
    #[verifier::rlimit(40)]
    fn drain_held(&mut self, out: &mut [u8], at: usize, write_token: bool) -> (w: usize)
        requires
            old(self).wf(),
            at <= old(out)@.len(),
            old(self).staged().len() == 0,
        ensures
            final(self).wf(),
            final(self).conf == old(self).conf,
            final(self).staged == old(self).staged,
            final(self).window == old(self).window,
            final(out)@.len() == old(out)@.len(),
            at + w <= old(out)@.len(),
            forall|i: int|
                0 <= i < old(out)@.len() && !(at <= i < at + w) ==> final(out)@[i] == old(out)@[i],
            old(self).to_flush(write_token) == bytes_bits(final(out)@.subrange(at as int, at + w))
                + final(self).to_flush(write_token),
            final(self).pending().len() == old(self).pending().len() - 8 * w,
            final(self).pending().len() < 8 || at + w == old(out)@.len(),
    {
        let ghost held = self.pending@;
        proof {
            self.lemma_nothing_staged(write_token);
            self.pending.lemma_view_len();
        }
        let w = self.pending.drain_into(out, at);
        proof {
            self.lemma_nothing_staged(write_token);
            assert(held =~= held.take(8 * w) + self.pending@);
            lemma_closed_shift(self.conf, write_token, held.take(8 * w), self.pending@);
        }
        w
    }

    /// Brings the stream to a byte boundary, where it is not at one and
    /// nothing is staged: appends the closing bits to the bits held back.
    #[verifier::rlimit(40)]
    fn pad(&mut self, write_token: bool)
        requires
            old(self).wf(),
            old(self).staged().len() == 0,
            0 < old(self).pending().len() < 8,
        ensures
            final(self).wf(),
            final(self).conf == old(self).conf,
            final(self).staged == old(self).staged,
            final(self).window == old(self).window,
            final(self).to_flush(write_token) == old(self).to_flush(write_token),
            final(self).pending().len() % 8 == 0,
    {
        let ghost conf = self.conf;
        let ghost body = self.pending@;
        proof {
            self.lemma_nothing_staged(write_token);
            lemma_token_bits_len(conf, Token::Flush);
        }
        if write_token {
            push_token(&mut self.pending, &self.conf, Token::Flush);
        }
        let ghost marked = self.pending@;
        let fill = (8 - self.pending.len() % 8) % 8;
        let ones = pow2_u32(fill) - 1;
        proof {
            lemma_all_ones(fill as nat);
            crate::stream::lemma_closed_form(conf, write_token, body, marked);
        }
        self.pending.push(ones, fill);
        proof {
            self.lemma_nothing_staged(write_token);
            lemma_closed_len(conf, write_token, body);
            lemma_closed_len(conf, write_token, self.pending@);
        }
    }

    /// Brings the stream to a byte boundary, once nothing is staged, and
    /// writes to `out` from index `at` on until nothing is held back or
    /// `out` is full.
    #[verifier::rlimit(40)]
    fn close(&mut self, out: &mut [u8], at: usize, write_token: bool) -> (w: usize)
        requires
            old(self).wf(),
            at <= old(out)@.len(),
            old(self).staged().len() == 0,
        ensures
            final(self).wf(),
            final(self).conf == old(self).conf,
            final(self).staged == old(self).staged,
            final(self).window == old(self).window,
            final(out)@.len() == old(out)@.len(),
            at + w <= old(out)@.len(),
            forall|i: int|
                0 <= i < old(out)@.len() && !(at <= i < at + w) ==> final(out)@[i] == old(out)@[i],
            old(self).to_flush(write_token) == bytes_bits(final(out)@.subrange(at as int, at + w))
                + final(self).to_flush(write_token),
            final(self).pending().len() == 0 || at + w == old(out)@.len(),
    {
        let total = out.len();
        let w1 = self.drain_held(out, at, write_token);
        let ghost out1 = out@;
        let left = self.pending.len();
        if left == 0 || left >= 8 {
            return w1;
        }
        let ghost first = bytes_bits(out1.subrange(at as int, at + w1));
        let ghost mid = self.to_flush(write_token);
        self.pad(write_token);
        let w2 = self.drain_held(out, at + w1, write_token);
        proof {
            let second = bytes_bits(out@.subrange(at + w1, at + w1 + w2));
            lemma_join_writes(out1, out@, at as int, w1 as int, w2 as int);
            assert(first + mid =~= (first + second) + self.to_flush(write_token));
        }
        w1 + w2
    }

    /// What a flush writes is whole bytes.
    pub proof fn lemma_flush_is_bytes(&self, write_token: bool)
        requires
            self.wf(),
        ensures
            self.to_flush(write_token).len() % 8 == 0,
    {
        lemma_closed_len(
            self.config(),
            write_token,
            self.pending() + crate::stream::encode_all(self.config(), self.window(), self.staged()),
        );
    }

    /// With nothing staged and nothing held back, nothing is to be flushed.
    proof fn lemma_idle(&self, write_token: bool)
        requires
            self.wf(),
        ensures
            self.staged().len() == 0 && self.pending().len() == 0 ==> self.to_flush(write_token).len()
                == 0,
    {
        if self.staged().len() == 0 && self.pending().len() == 0 {
            self.lemma_nothing_staged(write_token);
            lemma_closed_len(self.config(), write_token, self.pending());
        }
    }

    /// With nothing staged, what is to be flushed is what is held back, closed.
    proof fn lemma_nothing_staged(&self, write_token: bool)
        requires
            self.staged().len() == 0,
        ensures
            self.to_flush(write_token) == closed(self.config(), write_token, self.pending()),
    {
        assert(self.staged() =~= Seq::<u8>::empty());
        crate::stream::lemma_encode_all_empty(self.config(), self.window());
        assert(self.pending() + Seq::<bool>::empty() =~= self.pending());
    }

    /// Ends a run of data: encodes the staged bytes, brings the stream to a
    /// byte boundary and writes as much of it to `output` as fits. Returns
    /// the number of bytes written.
    ///
    /// Where the stream is not at a byte boundary, the closing bits are the
    /// flush mark, if `write_token` asks for it, and one-bits up to the
    /// boundary. With the mark the stream can be continued; without it the
    /// stream ends here. Where `output` is too small the rest stays in the
    /// compressor, and another call goes on with it.
    ///
    /// It fails, and changes nothing, where something is to be written and
    /// `output` is empty (`OutputFull`), or else where a staged byte has a
    /// bit set above the literal width (`ExcessBits`).
    #[verifier::rlimit(40)]
    pub fn flush(&mut self, output: &mut [u8], write_token: bool) -> (r: Result<usize, Error>)
        requires
            old(self).wf(),
        ensures
            final(self).wf(),
            final(self).config() == old(self).config(),
            final(output)@.len() == old(output)@.len(),
            r is Err ==> *final(self) == *old(self) && final(output)@ == old(output)@,
            (old(self).staged().len() > 0 || old(self).pending().len() > 0) && old(output)@.len() == 0
                ==> r == Err::<usize, Error>(Error::OutputFull),
            !((old(self).staged().len() > 0 || old(self).pending().len() > 0) && old(output)@.len()
                == 0) && !all_fit(old(self).config(), old(self).staged()) ==> r == Err::<usize, Error>(
                Error::ExcessBits,
            ),
            !((old(self).staged().len() > 0 || old(self).pending().len() > 0) && old(output)@.len()
                == 0) && all_fit(old(self).config(), old(self).staged()) ==> r is Ok,
            r matches Ok(w) ==> {
                &&& w == if old(output)@.len() < old(self).to_flush(write_token).len() / 8 {
                    old(output)@.len() as int
                } else {
                    old(self).to_flush(write_token).len() as int / 8
                }
                &&& old(self).to_flush(write_token).len() % 8 == 0
                &&& bytes_bits(final(output)@.take(w as int)) == old(self).to_flush(write_token).take(8 * w)
                &&& final(self).to_flush(write_token) == old(self).to_flush(write_token).skip(8 * w)
                &&& final(output)@.skip(w as int) == old(output)@.skip(w as int)
                &&& w < old(output)@.len() ==> final(self).staged().len() == 0 && final(self).pending().len()
                    == 0
                &&& final(self).staged() == old(self).staged().skip(
                    old(self).staged().len() - final(self).staged().len(),
                )
                &&& final(self).window() == old(self).window().push_all(
                    old(self).staged().take(old(self).staged().len() - final(self).staged().len()),
                )
            },
    {
        if (self.staged.len() > 0 || self.pending.len() > 0) && output.len() == 0 {
            return Err(Error::OutputFull);
        }
        let staged_len = self.staged.len();
        proof {
            assert(self.staged@.take(staged_len as int) =~= self.staged@);
        }
        if !self.span_fits(staged_len) {
            return Err(Error::ExcessBits);
        }
        let total = output.len();
        let ghost whole = self.to_flush(write_token);
        proof {
            self.lemma_flush_is_bytes(write_token);
        }
        let w1 = self.encode_staged(output, 0, write_token);
        let ghost out1 = output@;
        let ghost mid = self.to_flush(write_token);
        let mut w2: usize = 0;
        if self.staged.len() == 0 {
            w2 = self.close(output, w1, write_token);
        }
        proof {
            let w = w1 + w2;
            let first = bytes_bits(out1.subrange(0, w1 as int));
            let second = bytes_bits(output@.subrange(w1 as int, w1 + w2));
            assert(output@.subrange(w1 as int, w1 as int) =~= Seq::<u8>::empty());
            assert(mid =~= second + self.to_flush(write_token));
            assert(whole =~= (first + second) + self.to_flush(write_token));
            lemma_join_writes(out1, output@, 0, w1 as int, w2 as int);
            assert(output@.take(w as int) =~= output@.subrange(0, w as int));
            assert(output@.skip(w as int) =~= old(output)@.skip(w as int));
            self.lemma_idle(write_token);
            lemma_written_first(whole, output@.take(w as int), self.to_flush(write_token), total as nat);
        }
        Ok(w1 + w2)
    }

    /// Everything that is still to be written of data that goes on with the
    /// bytes `ahead`: the bits held back, and the staged bytes with `ahead`
    /// behind them, encoded as long as a full lookahead is at hand.
    pub open spec fn to_come(&self, ahead: Seq<u8>) -> Seq<bool> {
        steady_stream(self.config(), self.window(), self.staged() + ahead, self.pending())
    }

    /// The window once the staged bytes, with `ahead` behind them, have been
    /// encoded as long as a full lookahead was at hand.
    pub open spec fn window_to_come(&self, ahead: Seq<u8>) -> Ring {
        steady_ring(self.config(), self.window(), self.staged() + ahead)
    }

    /// The bytes that then stay staged.
    pub open spec fn staged_to_come(&self, ahead: Seq<u8>) -> Seq<u8> {
        steady_left(self.config(), self.window(), self.staged() + ahead)
    }

    /// A step of compression with sixteen bytes staged writes the beginning
    /// of what is to come, and leaves the rest to come, whatever lies ahead.
    pub proof fn lemma_step_keeps_stream(
        before: Self,
        after: Self,
        room: nat,
        written: Seq<u8>,
        ahead: Seq<u8>,
    )
        requires
            before.wf(),
            before.staged().len() == 16,
            after.config() == before.config(),
            room > 0,
            Self::stepped(before, after, room, written),
        ensures
            before.to_come(ahead) == bytes_bits(written) + after.to_come(ahead),
            before.window_to_come(ahead) == after.window_to_come(ahead),
            before.staged_to_come(ahead) == after.staged_to_come(ahead),
            after.staged().len() <= 16,
            after.staged().len() < 16 || written.len() == room,
            after.pending().len() < 8 || written.len() == room,
    {
        let conf = before.config();
        let p = before.pending();
        before.lemma_wf();
        lemma_bytes_bits_len(written);
        lemma_steady_step(conf, before.window(), before.staged(), ahead);
        if p.len() / 8 > room {
            let enc = crate::stream::steady_bits(conf, before.window(), before.staged() + ahead);
            assert(p + enc =~= p.take(8 * room as int) + (p.skip(8 * room as int) + enc));
        } else {
            let t = before.upcoming();
            let all = p + token_bits(conf, t);
            let enc = crate::stream::steady_bits(conf, after.window(), after.staged() + ahead);
            let w = written.len() as int;
            assert(p + crate::stream::steady_bits(conf, before.window(), before.staged() + ahead)
                =~= all.take(8 * w) + (all.skip(8 * w) + enc));
        }
    }

    /// Compresses bytes of `input` into `output`: takes bytes in and, each
    /// time sixteen are staged, encodes one token, until `input` is used up
    /// or `output` is full. Returns the number of bytes taken from `input`
    /// and the number written to `output`.
    ///
    /// Tokens are chosen with sixteen bytes in view, so what is written does
    /// not depend on how the data is cut into calls. The last bytes stay
    /// staged until more follow or the compressor is flushed.
    ///
    /// It fails, and changes nothing, where sixteen bytes are staged, `input`
    /// is not empty, and `output` is empty (`OutputFull`) or else a byte of
    /// the next token has a bit set above the literal width (`ExcessBits`).
    #[verifier::rlimit(40)]
    pub fn compress_chunk(&mut self, input: &[u8], output: &mut [u8]) -> (r: Result<
        (usize, usize),
        Error,
    >)
        requires
            old(self).wf(),
        ensures
            final(self).wf(),
            final(self).config() == old(self).config(),
            final(output)@.len() == old(output)@.len(),
            r is Err ==> *final(self) == *old(self) && final(output)@ == old(output)@,
            input@.len() > 0 && old(self).staged().len() == 16 && old(output)@.len() == 0 ==> r == Err::<
                (usize, usize),
                Error,
            >(Error::OutputFull),
            input@.len() > 0 && old(self).staged().len() == 16 && old(output)@.len() > 0 && old(self).blocked() ==> r == Err::<(usize, usize), Error>(Error::ExcessBits),
            !(input@.len() > 0 && old(self).staged().len() == 16 && (old(output)@.len() == 0 || old(self).blocked())) ==> r is Ok,
            r matches Ok(done) ==> {
                let taken = done.0 as int;
                let w = done.1 as int;
                &&& taken <= input@.len()
                &&& w <= old(output)@.len()
                &&& final(output)@.skip(w) == old(output)@.skip(w)
                &&& old(self).to_come(input@) == bytes_bits(final(output)@.take(w)) + final(self).to_come(
                    input@.skip(taken),
                )
                &&& old(self).window_to_come(input@) == final(self).window_to_come(input@.skip(taken))
                &&& old(self).staged_to_come(input@) == final(self).staged_to_come(input@.skip(taken))
                &&& input@.len() > 0 ==> taken > 0 || w > 0
                &&& input@.len() == 0 ==> *final(self) == *old(self)
                &&& taken == input@.len() || w == old(output)@.len() || (final(self).blocked() && final(self).staged().len() == 16)
                &&& taken == input@.len() || final(self).staged().len() == 16
                &&& old(self).staged().len() + input@.len() < 16 ==> w == 0
                &&& (input@.len() > 0 && old(self).staged().len() + input@.len() >= 16 && w < old(output)@.len() && !final(self).blocked()) ==> final(self).pending().len() < 8 && final(self).staged().len() < 16
            },
    {
        let total_in = input.len();
        let total_out = output.len();
        let mut taken: usize = 0;
        let mut written: usize = 0;
        let ghost mut polled = false;
        proof {
            assert(input@.skip(0) =~= input@);
            assert(input@.take(0) =~= Seq::<u8>::empty());
            assert(self.staged@ + Seq::<u8>::empty() =~= self.staged@);
            assert(output@.take(0) =~= Seq::<u8>::empty());
            assert(bytes_bits(Seq::<u8>::empty()) + self.to_come(input@) =~= self.to_come(input@));
            self.lemma_wf();
        }
        while taken < total_in
            invariant
                self.wf(),
                old(self).wf(),
                self.conf == old(self).conf,
                total_in == input@.len(),
                total_out == output@.len(),
                output@.len() == old(output)@.len(),
                taken <= total_in,
                written <= total_out,
                forall|i: int| written <= i < total_out ==> output@[i] == old(output)@[i],
                old(self).to_come(input@) == bytes_bits(output@.take(written as int)) + self.to_come(
                    input@.skip(taken as int),
                ),
                old(self).window_to_come(input@) == self.window_to_come(input@.skip(taken as int)),
                old(self).staged_to_come(input@) == self.staged_to_come(input@.skip(taken as int)),
                self.staged@.len() <= 16,
                !polled ==> written == 0 && self.staged@.len() == old(self).staged@.len() + taken,
                !polled && taken == 0 ==> *self == *old(self) && output@ == old(output)@,
                !polled ==> taken == 0,
                polled ==> total_in > 0,
                polled ==> total_out > 0 && old(self).staged@.len() + total_in >= 16,
                polled && old(self).staged@.len() == 16 ==> !old(self).blocked(),
                polled ==> self.pending@.len() < 8 || written == total_out,
                polled ==> self.staged@.len() < 16 || written == total_out,
            decreases 17 * (total_in - taken) + 17 * (total_out - written) + self.staged@.len(),
        {
            let ghost before_sink = *self;
            let n = self.sink_from(input, taken);
            proof {
                let ahead = input@.skip(taken as int);
                assert(before_sink.staged@ + ahead =~= self.staged@ + input@.skip(taken + n));
                self.staged.lemma_view_len();
            }
            taken = taken + n;
            if !self.staged.is_full() {
                proof {
                    assert(output@.skip(written as int) =~= old(output)@.skip(written as int));
                }
                return Ok((taken, written));
            }
            if written == total_out {
                if taken == 0 && written == 0 {
                    return Err(Error::OutputFull);
                }
                proof {
                    assert(output@.skip(written as int) =~= old(output)@.skip(written as int));
                }
                return Ok((taken, written));
            }
            let ghost before = *self;
            let ghost out_before = output@;
            let r = self.poll_at(output, written);
            match r {
                Err(e) => {
                    if taken == 0 && written == 0 {
                        return Err(e);
                    }
                    proof {
                        assert(output@.skip(written as int) =~= old(output)@.skip(written as int));
                    }
                    return Ok((taken, written));
                },
                Ok(w) => {
                    proof {
                        let step = output@.subrange(written as int, written + w);
                        Self::lemma_step_keeps_stream(
                            before,
                            *self,
                            (total_out - written) as nat,
                            step,
                            input@.skip(taken as int),
                        );
                        lemma_join_writes(out_before, output@, 0, written as int, w as int);
                        assert(output@.take(written + w) =~= output@.subrange(0, written + w));
                        assert(out_before.take(written as int) =~= out_before.subrange(0, written as int));
                        polled = true;
                    }
                    written = written + w;
                },
            }
        }
        proof {
            assert(output@.skip(written as int) =~= old(output)@.skip(written as int));
        }
        Ok((taken, written))
    }
}

/// Compressor with a window of 256 bytes (8 window bits).
pub type Compressor256 = Compressor<256>;

/// Compressor with a window of 512 bytes (9 window bits).
pub type Compressor512 = Compressor<512>;

/// Compressor with a window of 1 KiB (10 window bits), the default.
pub type Compressor1K = Compressor<1024>;

/// Compressor with a window of 2 KiB (11 window bits).
pub type Compressor2K = Compressor<2048>;

/// Compressor with a window of 4 KiB (12 window bits).
pub type Compressor4K = Compressor<4096>;

} // verus!
