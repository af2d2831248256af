use tamp::{Compressor, Config, Decompressor};

/// A text-like corpus: words drawn by a small generator, with the
/// repetitions that ordinary text has.
fn corpus(seed: u32, len: usize) -> Vec<u8> {
    let words: [&[u8]; 16] = [
        b"the", b"window", b"of", b"stream", b"and", b"token", b"match", b"literal", b"a",
        b"compress", b"byte", b"offset", b"in", b"buffer", b"length", b"flush",
    ];
    let mut state = seed;
    let mut out = Vec::new();
    while out.len() < len {
        state = state.wrapping_mul(1664525).wrapping_add(1013904223);
        let pick = (state >> 24) as usize % 16;
        out.extend_from_slice(words[pick]);
        out.push(if (state >> 8) % 11 == 0 { b'\n' } else { b' ' });
    }
    out.truncate(len);
    out
}

fn compress_decompress_corpus<const N: usize>(config: Config) {
    for (seed, len) in [(1u32, 1usize), (2, 50), (3, 152), (4, 3000), (5, 10240), (6, 24000)] {
        let data = corpus(seed, len);
        println!("Testing compression {} on: corpus {} of {} bytes", N, seed, len);

        let mut compressor = Compressor::<N>::new(config.clone()).unwrap();
        let mut compressed: Vec<u8> = Vec::new();
        let mut total_compressed_size = 0;
        let mut output_buffer = [0u8; 2048];
        let mut input_data = vec![];

        for chunk in data.chunks(1024) {
            let bytes_read = chunk.len();
            input_data.extend_from_slice(chunk);
            let mut chunk_offset = 0;
            while chunk_offset < bytes_read {
                let (consumed, written) = compressor
                    .compress_chunk(&chunk[chunk_offset..], &mut output_buffer)
                    .unwrap();
                if written > 0 {
                    compressed.extend_from_slice(&output_buffer[..written]);
                    total_compressed_size += written;
                }
                chunk_offset += consumed;
                if consumed == 0 {
                    panic!("Output buffer too small for compression");
                }
            }
        }

        let flush_written = compressor.flush(&mut output_buffer, false).unwrap();
        if flush_written > 0 {
            compressed.extend_from_slice(&output_buffer[..flush_written]);
            total_compressed_size += flush_written;
        }

        assert!(total_compressed_size > 0, "No output written for corpus {}", seed);
        if input_data.len() > 100 {
            assert!(
                total_compressed_size < input_data.len(),
                "No compression achieved for corpus {}",
                seed
            );
        }

        let mut header_buffer = [0u8; 64];
        let head = compressed.len().min(64);
        header_buffer[..head].copy_from_slice(&compressed[..head]);
        let (mut decompressor, header_consumed) =
            Decompressor::<N>::from_header(&header_buffer).unwrap();

        let mut decompressed = vec![0u8; input_data.len() + 100];
        let mut decompressed_offset = 0;

        for piece in compressed[header_consumed..].chunks(1024) {
            let bytes_read = piece.len();
            let mut input_offset = 0;
            while input_offset < bytes_read && decompressed_offset < input_data.len() {
                let (consumed_decomp, written_decomp) = decompressor
                    .decompress_chunk(
                        &piece[input_offset..bytes_read],
                        &mut decompressed[decompressed_offset..],
                    )
                    .unwrap();
                if consumed_decomp == 0 && written_decomp == 0 {
                    break;
                }
                input_offset += consumed_decomp;
                decompressed_offset += written_decomp;
            }
            if decompressed_offset >= input_data.len() {
                break;
            }
        }

        assert_eq!(
            decompressed_offset,
            input_data.len(),
            "Decompressed size mismatch for corpus {}",
            seed
        );
        assert_eq!(
            &decompressed[..decompressed_offset],
            &input_data[..],
            "Data corruption detected for corpus {}",
            seed
        );
    }
}

#[test]
fn test_corpus() {
    compress_decompress_corpus::<256>(Config::new().window_bits(8).unwrap());
    compress_decompress_corpus::<512>(Config::new().window_bits(9).unwrap());
    compress_decompress_corpus::<1024>(Config::new());
    compress_decompress_corpus::<2048>(Config::new().window_bits(11).unwrap());
    compress_decompress_corpus::<4096>(Config::new().window_bits(12).unwrap());
}
