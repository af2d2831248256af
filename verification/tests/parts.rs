use tamp::bitqueue::BitQueue;
use tamp::bits::pow2_u32;
use tamp::code::{decode_symbol, encode_symbol};
use tamp::config::Config;
use tamp::dictionary::{next_word, pick_common, DICTIONARY_SEED};
use tamp::error::Error;
use tamp::header::{read_header, write_header};
use tamp::lookahead::Lookahead;
use tamp::search::{find_match, match_length};
use tamp::start::{make_window, open_window};
use tamp::token::{peek_token, push_token, Token};
use tamp::window::Window;

fn window_bytes(w: &Window) -> Vec<u8> {
    // the byte at index `i` lies `pos - 1 - i` places behind the cursor
    let n = w.size();
    let p = w.pos();
    (0..n).map(|i| w.back((p + n - 1 - i) % n)).collect()
}

#[test]
fn default_configuration() {
    let c = Config::new();
    assert_eq!(c.window_bits, 10);
    assert_eq!(c.literal_bits, 8);
    assert!(!c.lazy_matching);
    assert!(!c.use_custom_dictionary);
    assert_eq!(c, Config::default());
    assert_eq!(c.window_size(), 1024);
    assert!(c.is_valid());
}

#[test]
fn configuration_builders() {
    for bits in 0..=255u8 {
        match Config::new().window_bits(bits) {
            Ok(c) => {
                assert!((8..=15).contains(&bits));
                assert_eq!(c.window_bits, bits);
                assert_eq!(c.literal_bits, 8);
                assert_eq!(c.window_size(), 1usize << bits);
            }
            Err(Error::InvalidConfig(why)) => {
                assert!(!(8..=15).contains(&bits));
                assert_eq!(why, "Window bits must be 8-15");
            }
            Err(e) => panic!("{:?}", e),
        }
        match Config::new().literal_bits(bits) {
            Ok(c) => {
                assert!((5..=8).contains(&bits));
                assert_eq!(c.literal_bits, bits);
                assert_eq!(c.window_bits, 10);
            }
            Err(Error::InvalidConfig(why)) => {
                assert!(!(5..=8).contains(&bits));
                assert_eq!(why, "Literal bits must be 5-8");
            }
            Err(e) => panic!("{:?}", e),
        }
    }
    let c = Config::new().lazy_matching(true).custom_dictionary(true);
    assert!(c.lazy_matching);
    assert!(c.use_custom_dictionary);
    let c = c.lazy_matching(false).custom_dictionary(false);
    assert_eq!(c, Config::new());
    let odd = Config { window_bits: 16, literal_bits: 8, lazy_matching: false, use_custom_dictionary: false };
    assert!(!odd.is_valid());
    assert_eq!(odd.window_size(), 65536);
}

#[test]
fn least_match_lengths() {
    let at = |w: u8, l: u8| Config::new().window_bits(w).unwrap().literal_bits(l).unwrap().min_match();
    assert_eq!(at(10, 8), 2);
    assert_eq!(at(15, 8), 2);
    assert_eq!(at(15, 5), 3);
    assert_eq!(at(10, 5), 3);
    assert_eq!(at(9, 5), 2);
    assert_eq!(at(12, 6), 3);
    assert_eq!(at(11, 6), 2);
    assert_eq!(at(14, 7), 3);
    assert_eq!(at(13, 7), 2);
}

#[test]
fn header_round_trip() {
    assert_eq!(write_header(&Config::new()), 0x2c);
    for w in 8..=15u8 {
        for l in 5..=8u8 {
            for custom in [false, true] {
                let c = Config::new()
                    .window_bits(w)
                    .unwrap()
                    .literal_bits(l)
                    .unwrap()
                    .custom_dictionary(custom);
                let b = write_header(&c);
                assert_eq!(b, (w - 8) << 4 | (l - 5) << 2 | (custom as u8) << 1);
                assert_eq!(read_header(&[b, 0xff]).unwrap(), (c, 1));
                // lazy matching leaves no trace
                assert_eq!(write_header(&c.lazy_matching(true)), b);
            }
        }
    }
}

#[test]
fn headers_that_are_none() {
    assert!(matches!(read_header(&[]), Err(Error::InputExhausted)));
    for b in 0..=255u8 {
        let r = read_header(&[b]);
        if b >= 128 || b % 2 == 1 {
            assert!(matches!(r, Err(Error::InvalidConfig("Invalid header"))));
        } else {
            let (c, used) = r.unwrap();
            assert_eq!(used, 1);
            assert!(c.is_valid());
            assert_eq!(write_header(&c), b);
        }
    }
}

#[test]
fn powers_of_two() {
    assert_eq!(pow2_u32(0), 1);
    assert_eq!(pow2_u32(5), 32);
    assert_eq!(pow2_u32(31), 0x8000_0000);
}

#[test]
fn bit_queue() {
    let mut q = BitQueue::new();
    assert_eq!(q.len(), 0);
    q.push(0b101, 3);
    q.push(0b0011, 4);
    assert_eq!(q.len(), 7);
    assert_eq!(q.peek(1), 1);
    assert_eq!(q.peek(3), 0b101);
    assert_eq!(q.peek(7), 0b1010011);
    q.skip(2);
    assert_eq!(q.len(), 5);
    assert_eq!(q.peek(5), 0b10011);
    q.push(0xabc, 12);
    q.push(0, 0);
    assert_eq!(q.len(), 17);
    let mut out = [0xeeu8; 4];
    assert_eq!(q.drain_into(&mut out, 1), 2);
    assert_eq!(out, [0xee, 0b10011_101, 0b01011_110, 0xee]);
    assert_eq!(q.len(), 1);
    assert_eq!(q.peek(1), 0);
    q.push(0x7fff_ffff >> 1, 30);
    assert_eq!(q.len(), 31);
    assert_eq!(q.drain_into(&mut out, 3), 1);
    assert_eq!(out[3], 0x7f);
    assert_eq!(q.drain_into(&mut out, 4), 0);
    assert_eq!(q.len(), 23);
}

#[test]
fn length_code() {
    let words = [
        (0x0u32, 1u32), (0x3, 2), (0x8, 4), (0xb, 4), (0x14, 5), (0x24, 6), (0x26, 6), (0x2b, 6),
        (0x4b, 7), (0x54, 7), (0x94, 8), (0x95, 8), (0xaa, 8), (0x27, 6), (0xab, 8),
    ];
    for sym in 0..=14u8 {
        assert_eq!(encode_symbol(sym), words[sym as usize]);
    }
    let mut seen = [0u32; 15];
    for v in 0..256u32 {
        let sym = decode_symbol(v);
        let (word, len) = encode_symbol(sym);
        assert_eq!(v >> (8 - len), word, "{:#x} does not begin with the word of {}", v, sym);
        seen[sym as usize] += 1;
    }
    for sym in 0..=14u8 {
        let (_, len) = encode_symbol(sym);
        assert_eq!(seen[sym as usize], 1 << (8 - len));
    }
}

#[test]
fn dictionary_words() {
    assert_eq!(DICTIONARY_SEED, 3758097560);
    assert_eq!(next_word(DICTIONARY_SEED), 0xf2fdeef1);
    assert_eq!(next_word(1), 270369);
    let common: Vec<u8> = (0..16).map(pick_common).collect();
    assert_eq!(common, b" \x000ei>to<ans\nr/.".to_vec());
}

#[test]
fn dictionary_is_the_same_every_time() {
    let mut small = Window::zeroed(256).unwrap();
    small.fill_dictionary();
    let mut large = Window::zeroed(4096).unwrap();
    large.fill_dictionary();
    let a = window_bytes(&small);
    let b = window_bytes(&large);
    assert_eq!(
        &a[..32],
        &[
            0, 46, 47, 47, 114, 46, 48, 46, 32, 116, 62, 10, 47, 62, 115, 110, 97, 115, 46, 116,
            114, 110, 114, 32, 105, 0, 114, 47, 97, 0, 115, 110
        ]
    );
    assert_eq!(a[..], b[..256]);
    let mut again = Window::zeroed(4096).unwrap();
    again.fill_dictionary();
    assert_eq!(window_bytes(&again), b);
}

#[test]
fn window_storage() {
    assert!(Window::zeroed(32768).is_ok());
    assert!(matches!(Window::zeroed(32769), Err(Error::BufferTooSmall)));
    let mut w = Window::zeroed(4).unwrap();
    assert_eq!(w.size(), 4);
    assert_eq!(w.pos(), 0);
    assert_eq!(window_bytes(&w), vec![0, 0, 0, 0]);
    w.push(7);
    assert_eq!(w.pos(), 1);
    assert_eq!(w.back(0), 7);
    assert_eq!(w.back(1), 0);
    w.push(8);
    w.push(9);
    assert_eq!(window_bytes(&w), vec![7, 8, 9, 0]);
    w.push(10);
    assert_eq!(w.pos(), 0);
    w.push(11);
    assert_eq!(w.pos(), 1);
    assert_eq!(window_bytes(&w), vec![11, 8, 9, 10]);
    assert_eq!((w.back(0), w.back(1), w.back(2), w.back(3)), (11, 10, 9, 8));
    w.load(&[1, 2]);
    assert_eq!(window_bytes(&w), vec![1, 2, 9, 10]);
    assert_eq!(w.pos(), 1);
    w.load(&[5, 6, 7, 8, 9, 10]);
    assert_eq!(window_bytes(&w), vec![5, 6, 7, 8]);
}

#[test]
fn windows_that_streams_start_from() {
    let custom = Config::new().window_bits(8).unwrap().custom_dictionary(true);
    let w = make_window(&custom, b"abc", 256).unwrap();
    let bytes = window_bytes(&w);
    assert_eq!(&bytes[..5], &[b'a', b'b', b'c', 0, 0]);
    assert!(bytes[3..].iter().all(|&b| b == 0));
    assert!(matches!(make_window(&custom, b"abc", 40000), Err(Error::BufferTooSmall)));
    let plain = Config::new().window_bits(8).unwrap();
    let w = open_window(&plain, Some(b"abc"), 256).unwrap();
    assert_eq!(&window_bytes(&w)[..4], &[0, 46, 47, 47]);
    assert!(matches!(
        open_window(&custom, None, 256),
        Err(Error::InvalidConfig("Custom dictionary enabled but none provided"))
    ));
    assert!(matches!(
        open_window(&plain, None, 512),
        Err(Error::InvalidConfig("Buffer size N must equal 2^window_bits"))
    ));
}

#[test]
fn staging_area() {
    let mut l = Lookahead::new();
    assert_eq!(l.len(), 0);
    for round in 0..5u8 {
        for i in 0..16u8 {
            assert!(!l.is_full());
            l.push(round * 16 + i);
        }
        assert!(l.is_full());
        assert_eq!(l.len(), 16);
        assert_eq!(l.get(0), round * 16);
        assert_eq!(l.get(15), round * 16 + 15);
        l.drop_front(7);
        assert_eq!(l.len(), 9);
        assert_eq!(l.get(0), round * 16 + 7);
        l.drop_front(0);
        l.drop_front(9);
        assert_eq!(l.len(), 0);
    }
}

fn staged(bytes: &[u8]) -> Lookahead {
    let mut l = Lookahead::new();
    for &b in bytes {
        l.push(b);
    }
    l
}

#[test]
fn match_search() {
    let mut w = Window::zeroed(256).unwrap();
    for &b in b"abcabcabd-xyz" {
        w.push(b);
    }
    // "abd" ends four places behind the cursor: its first byte lies at offset 6
    let l = staged(b"abd-x!");
    assert_eq!(match_length(&w, &l, 6, 6), 5);
    assert_eq!(match_length(&w, &l, 6, 3), 3);
    assert_eq!(match_length(&w, &l, 9, 6), 2);
    assert_eq!(match_length(&w, &l, 12, 6), 2);
    assert_eq!(match_length(&w, &l, 0, 6), 0);
    assert_eq!(find_match(&w, &l, 6), (5, 6));
    // among equals the nearest wins
    let l = staged(b"abc");
    assert_eq!(find_match(&w, &l, 3), (3, 9));
    assert_eq!(find_match(&w, &l, 2), (2, 6));
    // a copy may run into what it has produced
    let l = staged(b"zzzzzzzz");
    assert_eq!(find_match(&w, &l, 8), (8, 0));
    let l = staged(b"yzyzyzy?");
    assert_eq!(find_match(&w, &l, 8), (7, 1));
    // nothing in the window begins like this
    let l = staged(b"Qabc");
    assert_eq!(find_match(&w, &l, 4), (0, 0));
}

#[test]
fn tokens_in_and_out_of_a_queue() {
    let conf = Config::new();
    let mut q = BitQueue::new();
    assert!(peek_token(&q, &conf).is_none());
    push_token(&mut q, &conf, Token::Literal(0x68));
    assert_eq!(q.len(), 9);
    assert_eq!(q.peek(9), 0x68);
    assert_eq!(peek_token(&q, &conf), Some((Token::Literal(0x68), 9)));
    q.skip(9);
    push_token(&mut q, &conf, Token::Match { len: 2, offset: 356 });
    assert_eq!(q.len(), 12);
    assert_eq!(q.peek(12), 0b1_0_0101100100);
    assert_eq!(peek_token(&q, &conf), Some((Token::Match { len: 2, offset: 356 }, 12)));
    q.skip(12);
    push_token(&mut q, &conf, Token::Flush);
    assert_eq!(q.len(), 9);
    assert_eq!(q.peek(9), 0x1ab);
    assert_eq!(peek_token(&q, &conf), Some((Token::Flush, 9)));
    q.skip(1);
    // a literal of which a bit is missing, and a match of which the offset is missing
    assert!(peek_token(&q, &conf).is_none());
    let mut q = BitQueue::new();
    q.push(0b1_10010101, 9);
    q.push(0x1ff, 9);
    assert!(peek_token(&q, &conf).is_none());
    q.push(1, 1);
    assert_eq!(peek_token(&q, &conf), Some((Token::Match { len: 13, offset: 1023 }, 19)));
}

#[test]
fn every_match_length_round_trips() {
    for (w, l) in [(8u8, 5u8), (10, 8), (15, 5), (15, 8), (12, 6)] {
        let conf = Config::new().window_bits(w).unwrap().literal_bits(l).unwrap();
        let least = conf.min_match();
        for len in least..=least + 13 {
            for offset in [0usize, 1, 255, (1 << w) - 1] {
                let mut q = BitQueue::new();
                let t = Token::Match { len, offset };
                push_token(&mut q, &conf, t);
                let bits = q.len();
                assert_eq!(peek_token(&q, &conf), Some((t, bits)));
            }
        }
        for b in [0u8, 1, (1u16 << l) as u8 >> 1, ((1u16 << l) - 1) as u8] {
            let mut q = BitQueue::new();
            push_token(&mut q, &conf, Token::Literal(b));
            assert_eq!(q.len(), 1 + l as u32);
            assert_eq!(peek_token(&q, &conf), Some((Token::Literal(b), 1 + l as u32)));
        }
    }
}
