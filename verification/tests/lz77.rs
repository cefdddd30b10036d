use axc::codec::lz77::{lz77_compress, lz77_compress_depth, lz77_decompress};

#[test]
fn roundtrip_repeated() {
    let input: Vec<u8> = b"abcabcabcabc_hello_hello_hello".to_vec();
    let tokens = lz77_compress(&input);
    let output = lz77_decompress(&tokens, input.len());
    assert_eq!(output, input);
}

#[test]
fn roundtrip_binary() {
    let input: Vec<u8> = (0u8..=255).cycle().take(2048).collect();
    let tokens = lz77_compress(&input);
    let output = lz77_decompress(&tokens, input.len());
    assert_eq!(output, input);
}

#[test]
fn compresses_repetitive_data() {
    let input: Vec<u8> = b"x".repeat(4096);
    let tokens = lz77_compress(&input);
    assert!(tokens.len() < input.len() / 4, "should compress well: token_len={}", tokens.len());
    let output = lz77_decompress(&tokens, input.len());
    assert_eq!(output, input);
}

#[test]
fn roundtrip_high_bytes() {
    let input: Vec<u8> = vec![0xAB, 0xCD, 0xEF, 0xAB, 0xCD, 0xEF, 0x80, 0x81, 0xFF, 0x80, 0x81];
    let tokens = lz77_compress(&input);
    let output = lz77_decompress(&tokens, input.len());
    assert_eq!(output, input);
}

#[test]
fn roundtrip_all_zeros() {
    let input = vec![0u8; 1024];
    let tokens = lz77_compress(&input);
    let output = lz77_decompress(&tokens, input.len());
    assert_eq!(output, input);
}

#[test]
fn roundtrip_single_byte() {
    let input = vec![0xFFu8];
    let tokens = lz77_compress(&input);
    let output = lz77_decompress(&tokens, input.len());
    assert_eq!(output, input);
}

#[test]
fn literal_tokens_are_two_bytes() {
    // No repeats: every byte is a literal token (0x00, byte).
    let tokens = lz77_compress(b"abc");
    assert_eq!(tokens, vec![0x00, b'a', 0x00, b'b', 0x00, b'c']);
}

#[test]
fn decompress_match_token_copies_back() {
    // "ab" then a match of length 4 at offset 2: "ababab".
    let tokens = vec![0x00, b'a', 0x00, b'b', 0x01, 0x00, 0x02, 0x00];
    assert_eq!(lz77_decompress(&tokens, 6), b"ababab".to_vec());
}

#[test]
fn empty_input_gives_no_tokens() {
    assert!(lz77_compress(&[]).is_empty());
    assert!(lz77_decompress(&[], 0).is_empty());
}

#[test]
fn roundtrip_across_window() {
    // Longer than the 64 KiB window, with repeats nearer than the window.
    let mut input = Vec::new();
    let mut s = 7u32;
    for _ in 0..70000 {
        s = s.wrapping_mul(1103515245).wrapping_add(12345);
        input.push(((s >> 16) % 7) as u8);
    }
    let tokens = lz77_compress(&input);
    assert_eq!(lz77_decompress(&tokens, input.len()), input);
}

#[test]
fn repeat_at_full_window_distance_roundtrips() {
    // A repeat exactly 65536 bytes back is outside the window: the offset
    // must fit the 16-bit field, so it is written as literals instead.
    let mut input = b"WXYZ".to_vec();
    input.extend_from_slice(&vec![0u8; 65532]);
    input.extend_from_slice(b"WXYZ");
    let tokens = lz77_compress(&input);
    assert_eq!(&tokens[tokens.len() - 8..], &[0x00, b'W', 0x00, b'X', 0x00, b'Y', 0x00, b'Z']);
    assert_eq!(lz77_decompress(&tokens, input.len()), input);
}

#[test]
fn match_offsets_stay_below_the_window() {
    let mut input = Vec::new();
    let mut s = 11u32;
    for _ in 0..140000 {
        s = s.wrapping_mul(1664525).wrapping_add(1013904223);
        input.push(((s >> 24) % 3) as u8);
    }
    let tokens = lz77_compress(&input);
    let mut i = 0;
    while i < tokens.len() {
        if tokens[i] == 0x00 {
            i += 2;
        } else {
            let off = ((tokens[i + 1] as usize) << 8) | tokens[i + 2] as usize;
            assert!(off >= 1);
            i += 4;
        }
    }
    assert_eq!(lz77_decompress(&tokens, input.len()), input);
}

fn deep_chain_input() -> Vec<u8> {
    // The long match for the final segment is the oldest "ABCD" on its
    // hash chain; twenty newer ones match only four bytes.
    let mut input = b"ABCDLONGMATCHTAIL".to_vec();
    for i in 0..20u8 {
        input.extend_from_slice(b"ABCD");
        input.extend_from_slice(&[b'a' + i, 0x80 + i, 0xC0 - i]);
    }
    input.extend_from_slice(b"ABCDLONGMATCHTAIL");
    input
}

#[test]
fn deeper_chain_finds_the_older_longer_match() {
    let input = deep_chain_input();
    let deep = lz77_compress(&input);
    let shallow = lz77_compress_depth(&input, 8);
    // The default depth reaches the 17-byte match: length byte 17 - 4.
    assert_eq!(deep[deep.len() - 4], 0x01);
    assert_eq!(deep[deep.len() - 1], 13);
    assert_ne!(deep, shallow);
    assert!(deep.len() < shallow.len());
    assert_eq!(lz77_decompress(&deep, input.len()), input);
    assert_eq!(lz77_decompress(&shallow, input.len()), input);
    assert_eq!(lz77_compress_depth(&input, 128), deep);
}
