use axc::codec::{compress, compress_full, decompress, CodecId, Level};
use axc::error::AxcError;

#[test]
fn codec_roundtrip() {
    let inputs: &[&[u8]] = &[
        b"",
        b"hello world",
        b"aaaaaaaaaaaaaaaaaaaaaaaaaaaaaaaaaa",
        &(0u8..=255).collect::<Vec<_>>(),
    ];
    for input in inputs {
        let compressed = compress_full(input, Level::Balanced);
        let decompressed = decompress(&compressed, input.len()).unwrap();
        assert_eq!(&decompressed, input, "failed for input len {}", input.len());
    }
}

#[test]
fn compress_full_shrinks_repetitive_data() {
    let input = b"x".repeat(4096);
    let out = compress_full(&input, Level::Max);
    assert!(out[0] == 0x00 || out[0] == 0x01);
    assert!(out.len() < 200, "len={}", out.len());
    assert_eq!(decompress(&out, input.len()).unwrap(), input);
}

#[test]
fn compress_full_uses_tokens_for_repeated_phrases() {
    let input = b"the quick brown fox jumps over the lazy dog; ".repeat(100);
    let out = compress_full(&input, Level::Balanced);
    assert_eq!(out[0], 0x01);
    assert_eq!(decompress(&out, input.len()).unwrap(), input);
}

#[test]
fn compress_full_of_empty_is_empty() {
    assert!(compress_full(b"", Level::Fast).is_empty());
    assert!(decompress(b"", 0).unwrap().is_empty());
}

#[test]
fn compress_empty_is_empty() {
    assert!(compress(b"", Level::Balanced).is_empty());
}

#[test]
fn decompress_inverts_compress() {
    let inputs: Vec<Vec<u8>> = vec![
        b"hello hello hello hello".to_vec(),
        b"the quick brown fox jumps over the lazy dog; ".repeat(50),
        (0u8..=255).collect(),
        vec![7u8; 3000],
    ];
    for input in &inputs {
        let out = compress(input, Level::Balanced);
        assert!(out[0] == 0x00 || out[0] == 0x01);
        assert_eq!(&decompress(&out, input.len()).unwrap(), input);
    }
    let lz = compress(&inputs[1], Level::Balanced);
    assert_eq!(lz[0], 0x01);
}

#[test]
fn token_count_beyond_twice_the_length_is_refused() {
    let input = b"the quick brown fox jumps over the lazy dog; ".repeat(20);
    let out = compress_full(&input, Level::Balanced);
    assert_eq!(out[0], 0x01);
    match decompress(&out, 10) {
        Err(AxcError::CodecError(msg)) => {
            assert_eq!(msg, "token count exceeds twice the original length")
        }
        other => panic!("unexpected: {:?}", other),
    }
}

#[test]
fn unknown_codec_flag_is_an_error() {
    match decompress(&[0x07, 1, 2, 3], 3) {
        Err(AxcError::CodecError(msg)) => assert_eq!(msg, "unknown codec flag: 0x07"),
        other => panic!("unexpected: {:?}", other),
    }
    match decompress(&[0xAB], 3) {
        Err(AxcError::CodecError(msg)) => assert_eq!(msg, "unknown codec flag: 0xab"),
        other => panic!("unexpected: {:?}", other),
    }
}

#[test]
fn truncated_lz_header_is_an_error() {
    match decompress(&[0x01, 0x02, 0x00], 3) {
        Err(AxcError::CodecError(msg)) => assert_eq!(msg, "truncated LZ-ANS header"),
        other => panic!("unexpected: {:?}", other),
    }
}

#[test]
fn level_bytes() {
    assert_eq!(Level::from_u8(1), Level::Fast);
    assert_eq!(Level::from_u8(2), Level::Balanced);
    assert_eq!(Level::from_u8(3), Level::Max);
    assert_eq!(Level::from_u8(0), Level::Balanced);
    assert_eq!(Level::from_u8(200), Level::Balanced);
    assert_eq!(Level::Fast.to_u8(), 1);
    assert_eq!(Level::Balanced.to_u8(), 2);
    assert_eq!(Level::Max.to_u8(), 3);
    assert_eq!(Level::default(), Level::Balanced);
}

#[test]
fn codec_id_bytes() {
    assert_eq!(CodecId::from_u8(0), Some(CodecId::Raw));
    assert_eq!(CodecId::from_u8(1), Some(CodecId::LzAns));
    assert_eq!(CodecId::from_u8(2), None);
    assert_eq!(CodecId::LzAns.to_u8(), 1);
    assert_eq!(CodecId::Raw.to_u8(), 0);
}

#[test]
fn levels_set_the_chain_depth() {
    assert_eq!(Level::Fast.chain_depth(), 8);
    assert_eq!(Level::Balanced.chain_depth(), 128);
    assert_eq!(Level::Max.chain_depth(), 1024);
}

#[test]
fn every_level_roundtrips() {
    let mut input = Vec::new();
    for i in 0..5000u32 {
        input.push((i * 7 % 13) as u8);
        if i % 9 == 0 {
            input.extend_from_slice(b"pattern");
        }
    }
    for level in [Level::Fast, Level::Balanced, Level::Max] {
        let c = compress_full(&input, level);
        assert_eq!(decompress(&c, input.len()).unwrap(), input);
        let c = compress(&input, level);
        assert_eq!(decompress(&c, input.len()).unwrap(), input);
    }
}
