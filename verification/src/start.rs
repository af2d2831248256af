//! How a stream starts: which configurations are accepted, and the window
//! that the first token finds.
use vstd::prelude::*;
use vstd::arithmetic::power2::{pow2, lemma2_to64, lemma_pow2_strictly_increases};
use crate::config::Config;
use crate::error::Error;
use crate::ring::Ring;
use crate::window::Window;

verus! {

/// The window a stream starts from when the caller supplies the dictionary
/// `d`: its bytes, cut or filled up with zeros to `n` bytes.
pub open spec fn custom_window(d: Seq<u8>, n: nat) -> Seq<u8> {
    Seq::new(n, |i: int| if i < d.len() { d[i] } else { 0u8 })
}

/// The window a stream made with `conf` starts from.
pub open spec fn initial_window(conf: Config, d: Seq<u8>, n: nat) -> Ring {
    Ring {
        bytes: if conf.use_custom_dictionary {
            custom_window(d, n)
        } else {
            crate::dictionary::dictionary(n)
        },
        pos: 0,
    }
}

/// The window a stream starts from has the size asked for, and its cursor
/// is at the start.
pub proof fn lemma_initial_window(conf: Config, d: Seq<u8>, n: nat)
    requires
        n > 0,
    ensures
        initial_window(conf, d, n).wf(),
        initial_window(conf, d, n).size() == n,
        initial_window(conf, d, n).pos == 0,
{
}

/// Whether a stream can start with `config`, a window of `n` bytes and,
/// if `given`, a dictionary from the caller.
pub open spec fn accepted(n: nat, config: Config, given: bool) -> bool {
    &&& config.valid()
    &&& n == pow2(config.window_bits as nat)
    &&& config.use_custom_dictionary ==> given
}

/// The error for a start that is not accepted.
pub open spec fn refusal(n: nat, config: Config) -> Error {
    if !config.valid() {
        Error::InvalidConfig("Invalid parameters")
    } else if n != pow2(config.window_bits as nat) {
        Error::InvalidConfig("Buffer size N must equal 2^window_bits")
    } else {
        Error::InvalidConfig("Custom dictionary enabled but none provided")
    }
}

/// The dictionary that the caller gave, or nothing.
pub open spec fn given_bytes(dictionary: Option<&[u8]>) -> Seq<u8> {
    match dictionary {
        Some(d) => d@,
        None => Seq::empty(),
    }
}

/// A window of `n` bytes as a stream made with `conf` starts from. It is
/// refused with `BufferTooSmall` where the storage cannot hold it.
pub fn make_window(conf: &Config, dict: &[u8], n: usize) -> (r: Result<Window, Error>)
    requires
        n > 0,
    ensures
        r is Ok <==> n <= crate::window::WINDOW_CAPACITY,
        r matches Ok(w) ==> w.wf() && w@ == initial_window(*conf, dict@, n as nat),
        r matches Err(e) ==> e == Error::BufferTooSmall,
{
    match Window::zeroed(n) {
        Err(e) => Err(e),
        Ok(mut w) => {
            if conf.use_custom_dictionary {
                w.load(dict);
                proof {
                    w.lemma_wf();
                }
                assert(w@.bytes =~= custom_window(dict@, n as nat));
            } else {
                w.fill_dictionary();
            }
            Ok(w)
        },
    }
}

/// The window that a stream with `config` starts from, for a compressor or
/// decompressor whose window has `n` bytes.
///
/// With a custom dictionary the window starts from the bytes of
/// `dictionary`; else from the built-in dictionary, and `dictionary` is not
/// looked at.
pub fn open_window(config: &Config, dictionary: Option<&[u8]>, n: usize) -> (r: Result<Window, Error>)
    ensures
        accepted(n as nat, *config, dictionary is Some) ==> r is Ok,
        r matches Ok(w) ==> w.wf() && w@ == initial_window(*config, given_bytes(dictionary), n as nat)
            && accepted(n as nat, *config, dictionary is Some),
        r matches Err(e) ==> e == refusal(n as nat, *config) && !accepted(
            n as nat,
            *config,
            dictionary is Some,
        ),
{
    if !config.is_valid() {
        return Err(Error::InvalidConfig("Invalid parameters"));
    }
    let size = config.window_size();
    if n != size {
        return Err(Error::InvalidConfig("Buffer size N must equal 2^window_bits"));
    }
    proof {
        lemma2_to64();
        lemma_pow2_strictly_increases(config.window_bits as nat, 16);
    }
    match dictionary {
        Some(d) => make_window(config, d, n),
        None => {
            if config.use_custom_dictionary {
                return Err(Error::InvalidConfig("Custom dictionary enabled but none provided"));
            }
            let none: [u8; 0] = [];
            assert(none@ =~= Seq::<u8>::empty());
            make_window(config, none.as_slice(), n)
        },
    }
}

} // verus!
