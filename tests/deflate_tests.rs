use png_deflate::bit_reader::BitIter;
use png_deflate::byte_window::ByteWindow;
use png_deflate::canonical_code::CanonicalCode;
use png_deflate::compression::Compression;
use png_deflate::decoder::Decoder;
use png_deflate::encoder::Encoder;
use png_deflate::error::DeflateError;
use png_deflate::lz77::{lz77_tokens, Token};
use std::io::Write;

fn inflate(bytes: &[u8]) -> Result<Vec<u8>, DeflateError> {
    let mut decoder = Decoder::new(bytes.to_vec());
    decoder.decode()
}

fn round_trip(data: &[u8], level: Compression) -> Vec<u8> {
    let encoded = Encoder::new(data.to_vec(), level).encode().unwrap();
    inflate(&encoded).unwrap()
}

#[test]
fn bit_iter_test() {
    let vec: Vec<u8> = vec![10];

    let mut iter: BitIter = BitIter::new(vec);
    let byte = iter.read_uint(8);
    assert_eq!(byte.unwrap(), 10)
}

#[test]
fn decoder_constructor() {
    let vec = b"Hello World Hello World".to_vec();

    let mut decoder = Decoder::new(vec);

    let decompressed = decoder.decode();

    // 'H' opens a stored block whose LEN ("el") and NLEN ("lo") disagree.
    assert_eq!(decompressed, Err(DeflateError::ChecksumMismatch))
}

#[test]
fn bit_reader_is_lsb_first() {
    let mut iter = BitIter::new(vec![0b0000_0101]);
    assert_eq!(iter.read_uint(3), Ok(5));
    assert_eq!(iter.get_bit_position(), 3);
    assert_eq!(iter.read_uint(5), Ok(0));
    assert_eq!(iter.read_uint(1), Err(DeflateError::EndOfStream));
    let mut wide = BitIter::new(vec![0xFF; 8]);
    assert_eq!(wide.read_uint(32), Err(DeflateError::BitCountOutOfRange));
    assert_eq!(wide.get_bit_position(), 0);
    assert_eq!(wide.read_uint(31), Ok(0x7FFF_FFFF));
}

#[test]
fn bit_reader_spans_bytes() {
    let mut iter = BitIter::new(vec![0xAB, 0xCD]);
    assert_eq!(iter.read_uint(4), Ok(0xB));
    assert_eq!(iter.read_uint(8), Ok(0xDA));
    assert_eq!(iter.read_uint(5), Err(DeflateError::EndOfStream));
    assert_eq!(iter.read_uint(4), Ok(0xC));
    assert_eq!(iter.read_uint(0), Ok(0));
}

#[test]
fn bit_reader_align_skips_rest_of_byte() {
    let mut iter = BitIter::new(vec![0xFF, 0x12]);
    assert_eq!(iter.read_uint(1), Ok(1));
    iter.align_to_byte();
    assert_eq!(iter.get_bit_position(), 0);
    assert_eq!(iter.read_uint(8), Ok(0x12));
}

#[test]
fn canonical_code_rejects_over_subscribed() {
    assert!(matches!(
        CanonicalCode::try_new(&[1, 1, 1]),
        Err(DeflateError::OverSubscribedCode)
    ));
    assert!(matches!(
        CanonicalCode::try_new(&[2, 1, 2, 2]),
        Err(DeflateError::OverSubscribedCode)
    ));
}

#[test]
fn canonical_code_rejects_under_subscribed() {
    assert!(matches!(
        CanonicalCode::try_new(&[0, 2, 2]),
        Err(DeflateError::UnderSubscribedCode)
    ));
    assert!(matches!(
        CanonicalCode::try_new(&[1, 2]),
        Err(DeflateError::UnderSubscribedCode)
    ));
    assert!(matches!(
        CanonicalCode::try_new(&[]),
        Err(DeflateError::UnderSubscribedCode)
    ));
}

#[test]
fn canonical_code_accepts_single_symbol() {
    let code = CanonicalCode::try_new(&[1]).unwrap();
    let mut bits = BitIter::new(vec![0b0000_0000]);
    assert_eq!(code.decode_next_symbol(&mut bits), Ok(0));
    // exactly one used symbol in a larger alphabet: its codeword is all zeros
    let sparse = CanonicalCode::try_new(&[0, 1]).unwrap();
    let mut bits = BitIter::new(vec![0b0000_0000]);
    assert_eq!(sparse.decode_next_symbol(&mut bits), Ok(1));
    let longer = CanonicalCode::try_new(&[0, 0, 3, 0]).unwrap();
    let mut bits = BitIter::new(vec![0b0000_0000]);
    assert_eq!(longer.decode_next_symbol(&mut bits), Ok(2));
    assert_eq!(bits.get_bit_position(), 3);
}

#[test]
fn canonical_code_assigns_rfc_example() {
    // RFC 1951 3.2.2: lengths (3, 3, 3, 3, 3, 2, 4, 4) give
    // F=00, A=010, B=011, C=100, D=101, E=110, G=1110, H=1111.
    let code = CanonicalCode::try_new(&[3, 3, 3, 3, 3, 2, 4, 4]).unwrap();
    // Codewords are sent most-significant bit first, each bit LSB-first in
    // the byte: G (1110) then F (00) then A (010).
    let bits: Vec<u8> = vec![1, 1, 1, 0, 0, 0, 0, 1, 0];
    let mut bytes = vec![0u8; 2];
    for (i, b) in bits.iter().enumerate() {
        bytes[i / 8] |= b << (i % 8);
    }
    let mut input = BitIter::new(bytes);
    assert_eq!(code.decode_next_symbol(&mut input), Ok(6));
    assert_eq!(code.decode_next_symbol(&mut input), Ok(5));
    assert_eq!(code.decode_next_symbol(&mut input), Ok(0));
}

#[test]
fn distance_code_may_be_sparse() {
    let one = CanonicalCode::try_new_distance(&[0, 0, 1, 0]).unwrap();
    let mut bits = BitIter::new(vec![0]);
    assert_eq!(one.decode_next_symbol(&mut bits), Ok(2));
    assert!(CanonicalCode::try_new_distance(&[0, 0, 0]).is_ok());
    assert!(matches!(
        CanonicalCode::try_new_distance(&[2, 0, 2]),
        Err(DeflateError::UnderSubscribedCode)
    ));
    assert!(matches!(
        CanonicalCode::try_new(&[0, 2, 0, 2]),
        Err(DeflateError::UnderSubscribedCode)
    ));
}

#[test]
fn canonical_code_reports_unknown_code() {
    let code = CanonicalCode::try_new(&[1]).unwrap();
    let mut bits = BitIter::new(vec![0xFF, 0xFF]);
    assert_eq!(code.decode_next_symbol(&mut bits), Err(DeflateError::InvalidCode));
    let mut short = BitIter::new(vec![0xFF]);
    assert_eq!(code.decode_next_symbol(&mut short), Err(DeflateError::EndOfStream));
}

#[test]
fn window_overlap_copy() {
    let mut window = ByteWindow::new();
    window.append(b'A');
    window.append(b'B');
    window.append(b'C');
    let mut out = Vec::new();
    assert_eq!(window.copy(3, 6, &mut out), Ok(()));
    assert_eq!(out, b"ABCABC".to_vec());
    let mut more = Vec::new();
    assert_eq!(window.copy(1, 2, &mut more), Ok(()));
    assert_eq!(more, b"CC".to_vec());
}

#[test]
fn window_rejects_bad_distance() {
    let mut window = ByteWindow::new();
    let mut out = Vec::new();
    assert_eq!(window.copy(1, 1, &mut out), Err(DeflateError::InvalidBackReference));
    window.append(7);
    assert_eq!(window.copy(0, 1, &mut out), Err(DeflateError::InvalidBackReference));
    assert_eq!(window.copy(2, 1, &mut out), Err(DeflateError::InvalidBackReference));
    assert_eq!(window.copy(1, 3, &mut out), Ok(()));
    assert_eq!(out, vec![7, 7, 7]);
}

#[test]
fn window_forgets_beyond_capacity() {
    let mut window = ByteWindow::new();
    for i in 0..32768u32 + 5 {
        window.append((i % 251) as u8);
    }
    let mut out = Vec::new();
    assert_eq!(window.copy(32768, 1, &mut out), Ok(()));
    assert_eq!(out, vec![(5u32 % 251) as u8]);
    assert_eq!(window.copy(32769, 1, &mut out), Err(DeflateError::InvalidBackReference));
}

#[test]
fn stored_block_hello() {
    let stream = [0x01, 0x05, 0x00, 0xFA, 0xFF, 0x48, 0x65, 0x6C, 0x6C, 0x6F];
    assert_eq!(inflate(&stream), Ok(vec![0x48, 0x65, 0x6C, 0x6C, 0x6F]));
}

#[test]
fn stored_block_length_mismatch() {
    let stream = [0x01, 0x05, 0x00, 0xFA, 0xFE, 0x48, 0x65, 0x6C, 0x6C, 0x6F];
    assert_eq!(inflate(&stream), Err(DeflateError::ChecksumMismatch));
}

#[test]
fn stored_block_truncated() {
    let stream = [0x01, 0x05, 0x00, 0xFA, 0xFF, 0x48, 0x65];
    assert_eq!(inflate(&stream), Err(DeflateError::EndOfStream));
}

#[test]
fn fixed_huffman_literal_a() {
    assert_eq!(inflate(&[0x73, 0x04, 0x00]), Ok(b"A".to_vec()));
}

#[test]
fn fixed_huffman_back_reference_before_start() {
    assert_eq!(inflate(&[0x03, 0x02, 0x00]), Err(DeflateError::InvalidBackReference));
}

#[test]
fn dynamic_header_counts_too_large() {
    // final dynamic block declaring HLIT = 31, that is 288 literal/length codes.
    assert_eq!(inflate(&[0xFD, 0x00, 0x00]), Err(DeflateError::InvalidSymbol));
    // HLIT = 0, HDIST = 31: 32 distance codes.
    assert_eq!(inflate(&[0x05, 0x1F, 0x00]), Err(DeflateError::InvalidSymbol));
}

#[test]
fn reserved_block_type() {
    assert_eq!(inflate(&[0x07]), Err(DeflateError::UnsupportedBlockType));
}

#[test]
fn empty_stream_ends_early() {
    assert_eq!(inflate(&[]), Err(DeflateError::EndOfStream));
}

#[test]
fn decodes_reference_encoder_output() {
    let text = b"Hello World Hello World, the quick brown fox jumps over the lazy dog. \
                 Hello World Hello World, the quick brown fox jumps over the lazy dog."
        .repeat(20);
    for level in [1u32, 6, 9] {
        let mut enc = flate2::write::DeflateEncoder::new(Vec::new(), flate2::Compression::new(level));
        enc.write_all(&text).unwrap();
        let compressed = enc.finish().unwrap();
        assert_eq!(inflate(&compressed), Ok(text.clone()));
    }
}

#[test]
fn round_trip_empty() {
    let encoded = Encoder::new(Vec::new(), Compression::none()).encode().unwrap();
    assert_eq!(encoded, vec![1, 0, 0, 255, 255]);
    assert_eq!(inflate(&encoded), Ok(Vec::new()));
}

#[test]
fn round_trip_text() {
    let text = b"Hello World Hello World".to_vec();
    assert_eq!(round_trip(&text, Compression::default()), text);
    assert_eq!(round_trip(&text, Compression::best()), text);
}

#[test]
fn round_trip_many_blocks() {
    let data: Vec<u8> = (0..150_000u32).map(|i| (i * 7 % 256) as u8).collect();
    let encoded = Encoder::new(data.clone(), Compression::none()).encode().unwrap();
    // three stored blocks: 65535 + 65535 + 18930 bytes, five header bytes each
    assert_eq!(encoded.len(), data.len() + 15);
    assert_eq!(inflate(&encoded), Ok(data));
}

#[test]
fn fixed_huffman_encodes_literal_a() {
    let encoded = Encoder::new(b"A".to_vec(), Compression::fast()).encode().unwrap();
    assert_eq!(encoded, vec![0x73, 0x04, 0x00]);
}

#[test]
fn fixed_huffman_uses_back_references() {
    let data = b"abcabcabcabcabcabcabcabcabcabc".to_vec();
    let encoded = Encoder::new(data.clone(), Compression::default()).encode().unwrap();
    assert!(encoded.len() < 12);
    assert_eq!(inflate(&encoded), Ok(data));
}

#[test]
fn round_trip_all_levels() {
    let mut data: Vec<u8> = Vec::new();
    for i in 0..8_000u32 {
        data.push(((i * i) % 251) as u8);
        if i % 3 == 0 {
            data.extend_from_slice(b"repeat ");
        }
    }
    for level in 0..10u8 {
        assert_eq!(round_trip(&data, Compression::new(level)), data);
    }
    assert_eq!(round_trip(&[], Compression::best()), Vec::<u8>::new());
    assert_eq!(round_trip(&[0u8; 1000], Compression::best()), vec![0u8; 1000]);
}

#[test]
fn fixed_huffman_is_readable_by_reference_decoder() {
    let data = b"to be or not to be, that is the question; to be or not to be".repeat(30);
    let encoded = Encoder::new(data.clone(), Compression::best()).encode().unwrap();
    assert!(encoded.len() < data.len() / 4);
    let mut out = Vec::new();
    let mut dec = flate2::write::DeflateDecoder::new(&mut out);
    dec.write_all(&encoded).unwrap();
    dec.finish().unwrap();
    assert_eq!(out, data);
}

#[test]
fn round_trip_is_readable_by_reference_decoder() {
    let data = b"stored blocks are plain DEFLATE".to_vec();
    let encoded = Encoder::new(data.clone(), Compression::none()).encode().unwrap();
    let mut out = Vec::new();
    let mut dec = flate2::write::DeflateDecoder::new(&mut out);
    dec.write_all(&encoded).unwrap();
    dec.finish().unwrap();
    assert_eq!(out, data);
}

#[test]
fn compression_levels() {
    assert_eq!(Compression::none().level(), 0);
    assert_eq!(Compression::fast().level(), 1);
    assert_eq!(Compression::best().level(), 9);
    assert_eq!(Compression::default().level(), 6);
    assert_eq!(Compression::new(4).level(), 4);
}

#[test]
fn greedy_parse_takes_longest_match() {
    let t = lz77_tokens(b"abcabcabc");
    assert_eq!(
        t,
        vec![
            Token::Literal(b'a'),
            Token::Literal(b'b'),
            Token::Literal(b'c'),
            Token::Match(6, 3)
        ]
    );
}

#[test]
fn greedy_parse_prefers_nearest_on_ties() {
    let t = lz77_tokens(b"xyzQxyzRxyz");
    assert_eq!(
        t,
        vec![
            Token::Literal(b'x'),
            Token::Literal(b'y'),
            Token::Literal(b'z'),
            Token::Literal(b'Q'),
            Token::Match(3, 4),
            Token::Literal(b'R'),
            Token::Match(3, 4)
        ]
    );
    let longer = lz77_tokens(b"abcdXabcYabcd");
    assert_eq!(longer[longer.len() - 1], Token::Match(4, 9));
}

#[test]
fn encoding_is_deterministic() {
    let data = b"determinism determinism determinism".to_vec();
    let e = Encoder::new(data, Compression::best());
    assert_eq!(e.encode(), e.encode());
}
