use axc::checksum::Crc32;
use axc::error::AxcError;
use axc::format::{ChunkRecord, FileEntry, FileHeader, Footer, MAGIC, VERSION};

fn sample_record(data: &[u8]) -> ChunkRecord {
    ChunkRecord {
        codec_id: 1,
        chunk_id: 7,
        original_len: 99,
        compressed_len: data.len() as u64,
        checksum_orig: 0x1234_5678,
        checksum_comp: Crc32::oneshot(data),
    }
}

fn sample_entry(name: &str) -> FileEntry {
    FileEntry {
        file_id: 3,
        mtime: 1_700_000_000,
        mode: 0o644,
        first_chunk: 5,
        chunk_count: 2,
        original_size: 12345,
        name: name.to_string(),
    }
}

#[test]
fn header_roundtrip() {
    let h = FileHeader::new(65536);
    assert_eq!(h.version, VERSION);
    assert_eq!(h.flags, 0);
    let mut out = Vec::new();
    h.write(&mut out);
    assert_eq!(out.len(), 32);
    assert_eq!(&out[..8], &MAGIC[..]);
    assert_eq!(&out[16..20], &65536u32.to_le_bytes());
    let back = FileHeader::read(&out).unwrap();
    assert_eq!(back, h);
}

#[test]
fn header_bad_magic() {
    let mut out = Vec::new();
    FileHeader::new(1).write(&mut out);
    out[2] = b'Z';
    assert!(matches!(FileHeader::read(&out), Err(AxcError::InvalidMagic)));
}

#[test]
fn header_unsupported_version() {
    let mut out = Vec::new();
    FileHeader::new(1).write(&mut out);
    out[8] = 9;
    assert!(matches!(FileHeader::read(&out), Err(AxcError::UnsupportedVersion(9))));
}

#[test]
fn header_too_short_is_io_error() {
    match FileHeader::read(&[0x41, 0x58]) {
        Err(AxcError::Io(e)) => assert_eq!(e.kind(), std::io::ErrorKind::UnexpectedEof),
        other => panic!("unexpected: {:?}", other),
    }
}

#[test]
fn chunk_roundtrip() {
    let data = b"compressed bytes".to_vec();
    let rec = sample_record(&data);
    let mut out = vec![0xAA, 0xBB];
    rec.write(&mut out, &data);
    assert_eq!(out.len(), 2 + 34 + data.len());
    let (back, back_data) = ChunkRecord::read(&out, 2).unwrap();
    assert_eq!(back, rec);
    assert_eq!(back_data, data);
}

#[test]
fn chunk_wrong_tag() {
    let data = b"abc".to_vec();
    let mut out = Vec::new();
    sample_record(&data).write(&mut out, &data);
    out[0] = 0x00;
    match ChunkRecord::read(&out, 0) {
        Err(AxcError::InvalidChunk(msg)) => assert_eq!(msg, "expected tag 0xc1, got 0x00"),
        other => panic!("unexpected: {:?}", other),
    }
}

#[test]
fn chunk_checksum_mismatch() {
    let data = b"abc".to_vec();
    let rec = sample_record(&data);
    let mut out = Vec::new();
    rec.write(&mut out, &data);
    let last = out.len() - 1;
    out[last] ^= 0xFF;
    match ChunkRecord::read(&out, 0) {
        Err(AxcError::ChecksumMismatch { chunk_id, expected, got }) => {
            assert_eq!(chunk_id, 7);
            assert_eq!(expected, rec.checksum_comp);
            assert_eq!(got, Crc32::oneshot(b"ab\x9c"));
        }
        other => panic!("unexpected: {:?}", other),
    }
}

#[test]
fn chunk_data_cut_short() {
    let data = b"abcdef".to_vec();
    let mut out = Vec::new();
    sample_record(&data).write(&mut out, &data);
    out.truncate(out.len() - 1);
    assert!(matches!(ChunkRecord::read(&out, 0), Err(AxcError::Io(_))));
}

#[test]
fn entry_roundtrip() {
    let e = sample_entry("dir/naïve.txt");
    let mut out = Vec::new();
    e.write(&mut out);
    let name_len = "dir/naïve.txt".len();
    assert_eq!(out.len(), 43 + name_len);
    let (back, next) = FileEntry::read(&out, 0).unwrap();
    assert_eq!(next, out.len() as u64);
    assert_eq!(back.file_id, 3);
    assert_eq!(back.mtime, 1_700_000_000);
    assert_eq!(back.mode, 0o644);
    assert_eq!(back.first_chunk, 5);
    assert_eq!(back.chunk_count, 2);
    assert_eq!(back.original_size, 12345);
    assert_eq!(back.name, "dir/naïve.txt");
}

#[test]
fn entry_wrong_tag() {
    let mut out = Vec::new();
    sample_entry("a").write(&mut out);
    out[0] = 0x12;
    match FileEntry::read(&out, 0) {
        Err(AxcError::InvalidHeader(msg)) => assert_eq!(msg, "expected entry tag 0xe1, got 0x12"),
        other => panic!("unexpected: {:?}", other),
    }
}

#[test]
fn entry_non_utf8_name() {
    let mut out = Vec::new();
    sample_entry("ab").write(&mut out);
    let n = out.len();
    out[n - 1] = 0xFF;
    match FileEntry::read(&out, 0) {
        Err(AxcError::InvalidHeader(msg)) => assert_eq!(msg, "non-UTF8 filename"),
        other => panic!("unexpected: {:?}", other),
    }
}

#[test]
fn footer_roundtrip() {
    let f = Footer { index_offset: 0x0102_0304_0506, index_count: 17 };
    let mut out = vec![1, 2, 3];
    f.write(&mut out);
    assert_eq!(out.len(), 3 + 24);
    assert_eq!(&out[out.len() - 4..], b"AXCE");
    assert_eq!(Footer::read(&out).unwrap(), f);
}

#[test]
fn footer_bad_magic() {
    let mut out = Vec::new();
    Footer { index_offset: 40, index_count: 1 }.write(&mut out);
    let n = out.len();
    out[n - 1] = b'X';
    assert!(matches!(Footer::read(&out), Err(AxcError::InvalidMagic)));
}

#[test]
fn footer_checksum_mismatch() {
    let mut out = Vec::new();
    Footer { index_offset: 40, index_count: 1 }.write(&mut out);
    out[5] ^= 1;
    assert!(matches!(Footer::read(&out), Err(AxcError::CorruptIndex)));
}

#[test]
fn footer_bad_tag() {
    let mut body = vec![0xEEu8, 0, 0, 0];
    body.extend_from_slice(&40u64.to_le_bytes());
    body.extend_from_slice(&1u32.to_le_bytes());
    let crc = Crc32::oneshot(&body);
    let mut out = body.clone();
    out.extend_from_slice(&crc.to_le_bytes());
    out.extend_from_slice(b"AXCE");
    match Footer::read(&out) {
        Err(AxcError::InvalidHeader(msg)) => assert_eq!(msg, "bad footer tag"),
        other => panic!("unexpected: {:?}", other),
    }
}

#[test]
fn footer_too_short() {
    assert!(matches!(Footer::read(&[0u8; 10]), Err(AxcError::Io(_))));
}

#[test]
fn io_error_converts() {
    let e: AxcError = std::io::Error::from(std::io::ErrorKind::Other).into();
    match e {
        AxcError::Io(inner) => assert_eq!(inner.kind(), std::io::ErrorKind::Other),
        other => panic!("unexpected: {:?}", other),
    }
}

#[test]
fn footer_any_single_byte_change_is_corrupt_index() {
    let mut clean = b"some prefix".to_vec();
    let p = clean.len();
    Footer { index_offset: 0x0102_0304_0506, index_count: 9 }.write(&mut clean);
    for j in 0..20 {
        for v in [0u8, 1, 0x7F, 0x80, 0xFF] {
            if clean[p + j] == v {
                continue;
            }
            let mut bad = clean.clone();
            bad[p + j] = v;
            assert!(
                matches!(Footer::read(&bad), Err(AxcError::CorruptIndex)),
                "byte {} set to {:#x}",
                j,
                v
            );
        }
    }
}
