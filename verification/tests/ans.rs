use axc::codec::ans::{ans_decode, ans_encode, count_freq, normalise};
use axc::error::AxcError;

const TABLE_SIZE: u32 = 2048;

fn rt(input: &[u8]) {
    let enc = ans_encode(input);
    let dec = ans_decode(&enc, input.len()).unwrap();
    assert_eq!(dec, input, "roundtrip failed len={}", input.len());
}

#[test]
fn simple() {
    rt(b"hello world hello world hello");
}

#[test]
fn all_bytes() {
    rt(&(0u8..=255).cycle().take(1024).collect::<Vec<_>>());
}

#[test]
fn single_sym() {
    rt(&vec![0x41u8; 512]);
}

#[test]
fn binary_zeroes() {
    rt(&vec![0u8; 256]);
}

#[test]
fn one_byte() {
    rt(&[0x42]);
}

#[test]
fn high_bytes() {
    rt(&[0xFF, 0x80, 0xFF, 0x80, 0xFF]);
}

#[test]
fn all_ff() {
    rt(&vec![0xFFu8; 100]);
}

#[test]
fn two_symbols() {
    rt(b"ababababababababab");
}

#[test]
fn long_random() {
    // Pseudo-random but deterministic
    let mut v = Vec::with_capacity(8192);
    let mut s = 0xDEADBEEFu32;
    for _ in 0..8192 {
        s ^= s << 13;
        s ^= s >> 17;
        s ^= s << 5;
        v.push(s as u8);
    }
    rt(&v);
}

#[test]
fn normalise_sums_correctly() {
    let raw = count_freq(b"abcabc xyz xyz xyz");
    let norm = normalise(&raw);
    assert_eq!(norm.iter().sum::<u32>(), TABLE_SIZE);
}

#[test]
fn compresses_well() {
    let input: Vec<u8> = b"a".repeat(4096);
    let enc = ans_encode(&input);
    assert!(enc.len() < input.len() / 4, "enc.len()={}", enc.len());
}

#[test]
fn count_freq_counts_each_byte() {
    let raw = count_freq(b"abcabc xyz xyz xyz");
    assert_eq!(raw[b'a' as usize], 2);
    assert_eq!(raw[b'x' as usize], 3);
    assert_eq!(raw[b' ' as usize], 3);
    assert_eq!(raw[b'q' as usize], 0);
    assert_eq!(raw.iter().sum::<u32>(), 18);
}

#[test]
fn normalise_keeps_present_symbols() {
    let raw = count_freq(b"abcabc xyz xyz xyz");
    let norm = normalise(&raw);
    for i in 0..256 {
        assert_eq!(norm[i] > 0, raw[i] > 0, "symbol {}", i);
    }
}

#[test]
fn normalise_empty_table() {
    let raw = [0u32; 256];
    let norm = normalise(&raw);
    assert!(norm.iter().all(|&f| f == 0));
}

#[test]
fn empty_input_encodes_to_nothing() {
    assert!(ans_encode(&[]).is_empty());
    assert_eq!(ans_decode(&[], 10).unwrap(), Vec::<u8>::new());
}

#[test]
fn zero_length_decodes_to_nothing() {
    let enc = ans_encode(b"abc");
    assert_eq!(ans_decode(&enc, 0).unwrap(), Vec::<u8>::new());
}

#[test]
fn short_frequency_header_is_an_error() {
    let enc = ans_encode(b"hello world");
    match ans_decode(&enc[..3], 11) {
        Err(AxcError::CodecError(msg)) => assert_eq!(msg, "freq hdr short"),
        other => panic!("unexpected: {:?}", other),
    }
}

#[test]
fn missing_payload_length_is_an_error() {
    let mut data = vec![0u8; 32];
    data[0] = 0x01;
    data.extend_from_slice(&2048u16.to_le_bytes());
    data.extend_from_slice(&[0u8; 2]);
    match ans_decode(&data, 4) {
        Err(AxcError::CodecError(msg)) => assert_eq!(msg, "missing payload len"),
        other => panic!("unexpected: {:?}", other),
    }
}

#[test]
fn frequency_table_over_size_is_an_error() {
    // Bitmap with only symbol 0 present, its frequency 4000 (> 2048).
    let mut data = vec![0u8; 32];
    data[0] = 0x01;
    data.extend_from_slice(&4000u16.to_le_bytes());
    data.extend_from_slice(&8u32.to_le_bytes());
    data.extend_from_slice(&[0u8; 8]);
    match ans_decode(&data, 4) {
        Err(AxcError::CodecError(msg)) => assert_eq!(msg, "frequency table exceeds 2048 slots"),
        other => panic!("unexpected: {:?}", other),
    }
}

#[test]
fn payload_truncated_message() {
    let mut data = vec![0u8; 32];
    data[0] = 0x01;
    data.extend_from_slice(&2048u16.to_le_bytes());
    data.extend_from_slice(&100u32.to_le_bytes());
    data.extend_from_slice(&[0u8; 8]);
    match ans_decode(&data, 4) {
        Err(AxcError::CodecError(msg)) => assert_eq!(msg, "payload truncated"),
        other => panic!("unexpected: {:?}", other),
    }
}

#[test]
fn many_singletons_still_fill_the_table() {
    // One dominant symbol and 255 singletons: each singleton keeps one slot
    // and the dominant symbol gives up the rest, so the table holds 2048.
    let mut input = vec![b'a'; 10000];
    for b in 0u8..=255 {
        if b != b'a' {
            input.push(b);
        }
    }
    let raw = count_freq(&input);
    let norm = normalise(&raw);
    assert_eq!(norm.iter().sum::<u32>(), TABLE_SIZE);
    for i in 0..256 {
        assert_eq!(norm[i] > 0, raw[i] > 0);
    }
    assert_eq!(norm[b'a' as usize], 2048 - 255);
    rt(&input);
}

#[test]
fn normalise_four_singletons() {
    let mut raw = [0u32; 256];
    raw[0] = 10000;
    raw[1] = 1;
    raw[2] = 1;
    raw[3] = 1;
    raw[4] = 1;
    let norm = normalise(&raw);
    assert_eq!(norm.iter().sum::<u32>(), TABLE_SIZE);
    assert_eq!(&norm[..5], &[2044, 1, 1, 1, 1]);
}
