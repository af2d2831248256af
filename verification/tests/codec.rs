use tamp::{Compressor, Compressor1K, Config, Decompressor, Decompressor1K, Error};

const LOREM: &[u8] = b"Lorem ipsum dolor sit amet, consectetur adipiscing elit. Sed volutpat odio eget dolor aliquam, eu consequat magna viverra. Proin at pretium nulla, sed sagittis lorem. Suspendisse potenti. Fusce tempor ex non mauris scelerisque, vestibulum porta metus pretium. Nunc pharetra dapibus elit, sed blandit nisl sodales ut. Cras est massa, porttitor in mattis et, convallis vitae orci. Donec ac blandit justo. Donec porttitor dui nec congue condimentum. Vivamus aliquet est diam, sed bibendum turpis commodo nec. Nulla ut euismod dui. Vestibulum feugiat risus dui, in lacinia nulla euismod id. Duis sed maximus quam, in malesuada nulla. Praesent malesuada elementum erat eleifend ornare. Nulla eget facilisis lacus.";

/// Compresses `data` in one piece with plenty of room.
fn pack<const N: usize>(config: Config, data: &[u8]) -> Vec<u8> {
    let mut c = Compressor::<N>::new(config).unwrap();
    let mut out = vec![0u8; 2 * data.len() + 64];
    let mut fed = 0;
    let mut at = 0;
    while fed < data.len() {
        let (n, w) = c.compress_chunk(&data[fed..], &mut out[at..]).unwrap();
        fed += n;
        at += w;
    }
    at += c.flush(&mut out[at..], false).unwrap();
    out.truncate(at);
    out
}

/// Compresses `data`, handing it over `step` bytes at a time and taking
/// the stream through a buffer of `room` bytes.
fn pack_pieces<const N: usize>(config: Config, data: &[u8], step: usize, room: usize) -> Vec<u8> {
    let mut c = Compressor::<N>::new(config).unwrap();
    let mut stream = Vec::new();
    let mut buf = vec![0u8; room];
    for piece in data.chunks(step) {
        let mut fed = 0;
        while fed < piece.len() {
            match c.compress_chunk(&piece[fed..], &mut buf) {
                Ok((n, w)) => {
                    assert!(n > 0 || w > 0);
                    fed += n;
                    stream.extend_from_slice(&buf[..w]);
                }
                Err(Error::OutputFull) => panic!("a buffer with room was called full"),
                Err(e) => panic!("{:?}", e),
            }
        }
    }
    loop {
        let w = c.flush(&mut buf, false).unwrap();
        stream.extend_from_slice(&buf[..w]);
        if w < room {
            break;
        }
    }
    stream
}

/// Decompresses `stream`, header first, in one piece.
fn unpack<const N: usize>(stream: &[u8], room: usize) -> Vec<u8> {
    let (mut d, used) = Decompressor::<N>::from_header(stream).unwrap();
    assert_eq!(used, 1);
    let mut out = vec![0u8; room];
    let (n, w) = d.decompress_chunk(&stream[used..], &mut out).unwrap();
    assert_eq!(n, stream.len() - used);
    out.truncate(w);
    out
}

/// Decompresses `stream`, handing it over `step` bytes at a time and
/// taking the data through a buffer of `room` bytes.
fn unpack_pieces<const N: usize>(stream: &[u8], step: usize, room: usize) -> Vec<u8> {
    let (mut d, used) = Decompressor::<N>::from_header(stream).unwrap();
    let mut data = Vec::new();
    let mut buf = vec![0u8; room];
    for piece in stream[used..].chunks(step) {
        let mut fed = 0;
        loop {
            let (n, w) = d.decompress_chunk(&piece[fed..], &mut buf).unwrap();
            fed += n;
            data.extend_from_slice(&buf[..w]);
            if w < room {
                assert_eq!(fed, piece.len());
                break;
            }
        }
    }
    data
}

fn noise(seed: u32, len: usize, alphabet: &[u8]) -> Vec<u8> {
    let mut state = seed;
    let mut out = Vec::with_capacity(len);
    for _ in 0..len {
        state = state.wrapping_mul(1103515245).wrapping_add(12345);
        out.push(alphabet[(state >> 16) as usize % alphabet.len()]);
    }
    out
}

#[test]
fn identity_tiny() {
    let stream = pack::<1024>(Config::new(), b"hello world");
    assert_eq!(stream, vec![44, 52, 25, 77, 134, 201, 100, 59, 195, 1, 176, 201]);
    assert_eq!(unpack::<1024>(&stream, 64), b"hello world".to_vec());
}

#[test]
fn repetition_compresses() {
    let data = b"ABABABABABABABABABABABABABABABAB";
    assert_eq!(data.len(), 32);
    let stream = pack::<1024>(Config::new(), data);
    assert!(stream.len() < 32);
    assert_eq!(stream, vec![44, 32, 144, 179, 128, 57, 192, 31]);
    assert_eq!(unpack::<1024>(&stream, 64), data.to_vec());
}

#[test]
fn run_of_one_byte() {
    let data = vec![b'A'; 200];
    let stream = pack::<1024>(Config::new(), &data);
    assert_eq!(
        stream,
        vec![
            44, 32, 231, 0, 51, 128, 25, 192, 12, 224, 6, 112, 3, 56, 1, 156, 0, 206, 0, 103, 0, 51,
            128, 25, 192, 12, 224, 6, 112, 3, 0, 7
        ]
    );
    assert_eq!(unpack::<1024>(&stream, 300), data);
}

#[test]
fn runs_up_to_the_longest_match() {
    for len in 1..=40usize {
        let data = vec![b'z'; len];
        let stream = pack::<1024>(Config::new(), &data);
        assert_eq!(unpack::<1024>(&stream, 64), data, "run of {}", len);
    }
}

#[test]
fn chunking_does_not_change_the_stream() {
    let whole = pack::<1024>(Config::new(), LOREM);
    let small = pack_pieces::<1024>(Config::new(), LOREM, 711, 7);
    assert_eq!(unpack::<1024>(&whole, 800), LOREM.to_vec());
    assert_eq!(unpack::<1024>(&small, 800), LOREM.to_vec());
    assert_eq!(whole, small);
    for (step, room) in [(1usize, 1usize), (3, 2), (16, 5), (17, 64), (100, 3), (711, 1)] {
        assert_eq!(pack_pieces::<1024>(Config::new(), LOREM, step, room), whole);
    }
    assert!(whole.len() < LOREM.len());
}

#[test]
fn decompression_in_pieces() {
    let whole = pack::<1024>(Config::new(), LOREM);
    for (step, room) in [(1usize, 1usize), (2, 7), (5, 3), (64, 16), (1000, 1000)] {
        assert_eq!(unpack_pieces::<1024>(&whole, step, room), LOREM.to_vec());
    }
}

#[test]
fn window_bit_variants() {
    let text = noise(7, 10 * 1024, b"etaoin shrdlu\n,.ETAOIN");
    let a = pack::<256>(Config::new().window_bits(8).unwrap(), &text);
    assert_eq!(unpack::<256>(&a, text.len() + 8), text);
    let b = pack::<512>(Config::new().window_bits(9).unwrap(), &text);
    assert_eq!(unpack::<512>(&b, text.len() + 8), text);
    let c = pack::<1024>(Config::new().window_bits(10).unwrap(), &text);
    assert_eq!(unpack::<1024>(&c, text.len() + 8), text);
    let d = pack::<2048>(Config::new().window_bits(11).unwrap(), &text);
    assert_eq!(unpack::<2048>(&d, text.len() + 8), text);
    let e = pack::<4096>(Config::new().window_bits(12).unwrap(), &text);
    assert_eq!(unpack::<4096>(&e, text.len() + 8), text);
    assert_eq!(a[0], 0x0c);
    assert_eq!(e[0], 0x4c);
}

#[test]
fn largest_window_and_binary_data() {
    let data = noise(99, 5000, &(0..=255u8).collect::<Vec<u8>>());
    let s = pack::<32768>(Config::new().window_bits(15).unwrap(), &data);
    assert_eq!(unpack::<32768>(&s, data.len() + 8), data);
}

#[test]
fn narrow_literals() {
    for bits in 5..=8u8 {
        let limit = 1u16 << bits;
        let alphabet: Vec<u8> = (0..limit).map(|v| v as u8).collect();
        let data = noise(bits as u32, 2000, &alphabet);
        let config = Config::new().literal_bits(bits).unwrap();
        let s = pack::<1024>(config, &data);
        assert_eq!(unpack::<1024>(&s, data.len() + 8), data, "literal bits {}", bits);
    }
}

#[test]
fn excess_bits_detection() {
    let config = Config::new().literal_bits(5).unwrap();
    let mut c = Compressor1K::new(config).unwrap();
    let mut out = [0u8; 16];
    let (n, w) = c.compress_chunk(&[0x1F, 0x20], &mut out).unwrap();
    assert_eq!((n, w), (2, 0));
    let untouched = out;
    assert!(matches!(c.flush(&mut out, false), Err(Error::ExcessBits)));
    assert_eq!(out, untouched);
    // the byte before the error point can still be had
    assert_eq!(c.poll(&mut out).unwrap(), 1);
    assert_eq!(out[0], 32);
    assert!(matches!(c.poll(&mut out), Err(Error::ExcessBits)));
    assert!(matches!(c.poll(&mut out), Err(Error::ExcessBits)));
    assert_eq!(out[0], 32);
    assert_eq!(out[1], 0);
}

#[test]
fn excess_bits_stops_a_chunk() {
    let config = Config::new().literal_bits(7).unwrap();
    let mut c = Compressor1K::new(config).unwrap();
    let mut data = vec![b'q'; 40];
    data[0] = 0x80;
    let mut out = [0u8; 64];
    let (n, w) = c.compress_chunk(&data, &mut out).unwrap();
    assert_eq!((n, w), (16, 0));
    assert!(matches!(c.compress_chunk(&data[16..], &mut out), Err(Error::ExcessBits)));
    assert_eq!(out, [0u8; 64]);
}

#[test]
fn output_full_is_told_and_changes_nothing() {
    let mut c = Compressor1K::new(Config::new()).unwrap();
    let mut none: [u8; 0] = [];
    assert_eq!(c.compress_chunk(LOREM, &mut none).unwrap(), (16, 0));
    assert!(c.is_full());
    assert!(matches!(c.compress_chunk(&LOREM[16..], &mut none), Err(Error::OutputFull)));
    assert!(matches!(c.poll(&mut none), Err(Error::OutputFull)));
    assert!(matches!(c.flush(&mut none, false), Err(Error::OutputFull)));
    let mut stream = Vec::new();
    let mut buf = [0u8; 5];
    let mut fed = 16;
    while fed < LOREM.len() {
        let (n, w) = c.compress_chunk(&LOREM[fed..], &mut buf).unwrap();
        fed += n;
        stream.extend_from_slice(&buf[..w]);
    }
    loop {
        let w = c.flush(&mut buf, false).unwrap();
        stream.extend_from_slice(&buf[..w]);
        if w < 5 {
            break;
        }
    }
    assert_eq!(stream, pack::<1024>(Config::new(), LOREM));
}

#[test]
fn sink_and_poll() {
    let mut c = Compressor1K::new(Config::new()).unwrap();
    assert_eq!(c.sink(b"hello"), 5);
    assert!(!c.is_full());
    assert_eq!(c.sink(b"0123456789abcdef"), 11);
    assert!(c.is_full());
    assert_eq!(c.sink(b"x"), 0);
    let mut out = [0u8; 8];
    // the header and the literal `h`
    assert_eq!(c.poll(&mut out).unwrap(), 2);
    assert_eq!(&out[..2], &[44, 52]);
    assert!(!c.is_full());
    let mut idle = Compressor1K::new(Config::new()).unwrap();
    assert_eq!(idle.poll(&mut out).unwrap(), 0);
}

#[test]
fn flush_with_token_lets_the_stream_go_on() {
    let mut c = Compressor1K::new(Config::new()).unwrap();
    let mut out = vec![0u8; 512];
    let mut at = 0;
    let first = b"streams can be flushed ";
    let second = b"and then they can go on, and on, and on";
    let (n, w) = c.compress_chunk(first, &mut out[at..]).unwrap();
    assert_eq!(n, first.len());
    at += w;
    at += c.flush(&mut out[at..], true).unwrap();
    // flushed once more, nothing is left to write
    assert_eq!(c.flush(&mut out[at..], true).unwrap(), 0);
    // all of the first part can be read before the second is written
    let early = unpack::<1024>(&out[..at], 256);
    assert_eq!(early, first.to_vec());
    let (n, w) = c.compress_chunk(second, &mut out[at..]).unwrap();
    assert_eq!(n, second.len());
    at += w;
    at += c.flush(&mut out[at..], false).unwrap();
    let mut all = first.to_vec();
    all.extend_from_slice(second);
    assert_eq!(unpack::<1024>(&out[..at], 256), all);
    assert_eq!(unpack_pieces::<1024>(&out[..at], 1, 1), all);
}

#[test]
fn flush_of_nothing() {
    let mut c = Compressor1K::new(Config::new()).unwrap();
    let mut out = [0u8; 4];
    assert_eq!(c.flush(&mut out, false).unwrap(), 1);
    assert_eq!(out[0], 44);
    assert_eq!(c.flush(&mut out, false).unwrap(), 0);
    let mut none: [u8; 0] = [];
    assert_eq!(c.flush(&mut none, true).unwrap(), 0);
    assert_eq!(unpack::<1024>(&out[..1], 4), Vec::<u8>::new());
}

#[test]
fn custom_dictionary() {
    let dict = b"the quick brown fox jumps over the lazy dog";
    let config = Config::new().custom_dictionary(true);
    assert!(matches!(
        Compressor1K::new(config),
        Err(Error::InvalidConfig("Custom dictionary enabled but none provided"))
    ));
    assert!(matches!(
        Decompressor1K::new(config),
        Err(Error::InvalidConfig("Custom dictionary enabled but none provided"))
    ));
    let mut c = Compressor1K::with_dictionary(config, Some(dict)).unwrap();
    let data = b"the lazy dog jumps over the quick brown fox";
    let mut out = [0u8; 128];
    let (n, mut at) = c.compress_chunk(data, &mut out).unwrap();
    assert_eq!(n, data.len());
    at += c.flush(&mut out[at..], false).unwrap();
    assert_eq!(out[0], 46);
    assert!(matches!(
        Decompressor1K::from_header(&out[..at]),
        Err(Error::InvalidConfig("Custom dictionary enabled but none provided"))
    ));
    let mut d = Decompressor1K::with_dictionary(config, Some(dict)).unwrap();
    let mut back = [0u8; 128];
    let (_, w) = d.decompress_chunk(&out[1..at], &mut back).unwrap();
    assert_eq!(&back[..w], data);
    // the dictionary pays: the same data takes more without it
    let plain = pack::<1024>(Config::new(), data);
    assert!(at < plain.len());
}

#[test]
fn refused_starts() {
    let bad = Config { window_bits: 7, literal_bits: 8, lazy_matching: false, use_custom_dictionary: false };
    assert!(matches!(Compressor::<128>::new(bad), Err(Error::InvalidConfig("Invalid parameters"))));
    let bad = Config { window_bits: 10, literal_bits: 9, lazy_matching: false, use_custom_dictionary: false };
    assert!(matches!(Compressor1K::new(bad), Err(Error::InvalidConfig("Invalid parameters"))));
    assert!(matches!(Decompressor1K::new(bad), Err(Error::InvalidConfig("Invalid parameters"))));
    assert!(matches!(
        Compressor::<512>::new(Config::new()),
        Err(Error::InvalidConfig("Buffer size N must equal 2^window_bits"))
    ));
    assert!(matches!(
        Decompressor::<2048>::new(Config::new()),
        Err(Error::InvalidConfig("Buffer size N must equal 2^window_bits"))
    ));
    assert!(matches!(Decompressor1K::from_header(&[]), Err(Error::InputExhausted)));
    assert!(matches!(
        Decompressor1K::from_header(&[0x80]),
        Err(Error::InvalidConfig("Invalid header"))
    ));
    assert!(matches!(
        Decompressor1K::from_header(&[0x2d]),
        Err(Error::InvalidConfig("Invalid header"))
    ));
    assert!(matches!(
        Decompressor1K::from_header(&[0x0c]),
        Err(Error::InvalidConfig("Buffer size N doesn't match header"))
    ));
}

#[test]
fn lazy_matching_leaves_the_stream_alone() {
    let plain = pack::<1024>(Config::new(), LOREM);
    let lazy = pack::<1024>(Config::new().lazy_matching(true), LOREM);
    assert_eq!(plain, lazy);
}

#[test]
fn a_match_that_straddles_output_buffers() {
    let data = vec![b'A'; 64];
    let stream = pack::<1024>(Config::new(), &data);
    let (mut d, used) = Decompressor1K::from_header(&stream).unwrap();
    let mut buf = [0u8; 10];
    let (n, w) = d.decompress_chunk(&stream[used..], &mut buf).unwrap();
    assert_eq!(w, 10);
    assert!(n <= stream.len() - used);
    let mut got = buf[..w].to_vec();
    let mut fed = used + n;
    loop {
        let (n, w) = d.decompress_chunk(&stream[fed..], &mut buf).unwrap();
        fed += n;
        got.extend_from_slice(&buf[..w]);
        if w < 10 {
            break;
        }
    }
    assert_eq!(got, data);
}
