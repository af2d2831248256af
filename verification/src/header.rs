//! The one byte at the start of a stream that announces its configuration.
use vstd::prelude::*;
use vstd::arithmetic::power2::{pow2, lemma2_to64};
use crate::config::Config;
use crate::error::Error;
use crate::bits::{bits_of, lemma_bits_concat};

verus! {

/// Number of bytes a header takes.
pub const HEADER_LEN: usize = 1;

/// The header of a stream made with `conf`: from the top, four bits of
/// `window_bits - 8`, two bits of `literal_bits - 5`, one bit that says
/// whether a custom dictionary is used, and one bit that is zero.
pub open spec fn header_byte(conf: Config) -> nat {
    ((conf.window_bits - 8) * 16 + (conf.literal_bits - 5) * 4 + (if conf.use_custom_dictionary {
        2int
    } else {
        0int
    })) as nat
}

/// What a header says of the configuration: everything but lazy matching,
/// which leaves no trace in a stream.
pub open spec fn announced(conf: Config) -> Config {
    Config { lazy_matching: false, ..conf }
}

/// Whether `b` is the header of some stream.
pub open spec fn header_ok(b: u8) -> bool {
    b < 128 && b % 2 == 0
}

/// The configuration that the header `b` announces.
pub open spec fn header_config(b: u8) -> Config {
    Config {
        window_bits: (8 + b / 16) as u8,
        literal_bits: (5 + (b / 4) % 4) as u8,
        lazy_matching: false,
        use_custom_dictionary: (b / 2) % 2 == 1,
    }
}

/// The header of a stream made with `conf`.
pub fn write_header(conf: &Config) -> (b: u8)
    requires
        conf.valid(),
    ensures
        b == header_byte(*conf),
        header_ok(b),
        header_config(b) == announced(*conf),
{
    let custom: u8 = if conf.use_custom_dictionary { 2 } else { 0 };
    (conf.window_bits - 8) * 16 + (conf.literal_bits - 5) * 4 + custom
}

/// Reads the header at the start of `input`: the configuration it announces
/// and the number of bytes it took.
pub fn read_header(input: &[u8]) -> (r: Result<(Config, usize), Error>)
    ensures
        input@.len() == 0 ==> r == Err::<(Config, usize), Error>(Error::InputExhausted),
        input@.len() > 0 && !header_ok(input@[0]) ==> r == Err::<(Config, usize), Error>(
            Error::InvalidConfig("Invalid header"),
        ),
        input@.len() > 0 && header_ok(input@[0]) ==> r == Ok::<(Config, usize), Error>(
            (header_config(input@[0]), 1usize),
        ),
        r matches Ok(found) ==> found.0.valid(),
{
    if input.len() == 0 {
        return Err(Error::InputExhausted);
    }
    let b = input[0];
    if b >= 128 || b % 2 != 0 {
        return Err(Error::InvalidConfig("Invalid header"));
    }
    let conf = Config {
        window_bits: 8 + b / 16,
        literal_bits: 5 + (b / 4) % 4,
        lazy_matching: false,
        use_custom_dictionary: (b / 2) % 2 == 1,
    };
    Ok((conf, 1))
}

/// A header that is written and read back announces the configuration it
/// was written for, and takes one byte.
pub proof fn lemma_header_round_trip(conf: Config, input: Seq<u8>)
    requires
        conf.valid(),
        input.len() > 0,
        input[0] == header_byte(conf),
    ensures
        header_ok(input[0]),
        header_config(input[0]) == announced(conf),
        !conf.lazy_matching ==> header_config(input[0]) == conf,
{
}

/// The bits of a header, field by field.
pub proof fn lemma_header_bits(conf: Config)
    requires
        conf.valid(),
    ensures
        bits_of(header_byte(conf), 8) == bits_of((conf.window_bits - 8) as nat, 4) + bits_of(
            (conf.literal_bits - 5) as nat,
            2,
        ) + bits_of(if conf.use_custom_dictionary { 1nat } else { 0nat }, 1) + bits_of(0, 1),
{
    lemma2_to64();
    let w = (conf.window_bits - 8) as nat;
    let l = (conf.literal_bits - 5) as nat;
    let c = if conf.use_custom_dictionary { 1nat } else { 0nat };
    lemma_bits_concat(w, 4, l, 2);
    lemma_bits_concat(w * 4 + l, 6, c, 1);
    lemma_bits_concat((w * 4 + l) * 2 + c, 7, 0, 1);
    assert(((w * 4 + l) * 2 + c) * 2 + 0 == header_byte(conf));
    assert(w * pow2(2) + l == w * 4 + l);
    assert((w * 4 + l) * pow2(1) + c == (w * 4 + l) * 2 + c);
    assert(((w * 4 + l) * 2 + c) * pow2(1) + 0 == ((w * 4 + l) * 2 + c) * 2 + 0);
}

} // verus!
