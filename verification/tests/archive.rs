use axc::archive::{
    build_chunk_map, compress_chunk, extract_chunk, extract_entry, list_archive, open_archive,
    read_index, sanitise_path, split_into_chunks, test_archive, try_build_chunk_map,
    ArchiveWriter, CreateOptions, MAX_DECOMPRESS_SIZE,
};
use axc::checksum::Crc32;
use axc::codec::{compress_full, CodecId, Level};
use axc::error::AxcError;
use axc::format::{ChunkRecord, FileEntry, FileHeader, Footer, DEFAULT_CHUNK_SIZE};

/// Builds an archive with one chunk per file, record by record.
fn make_archive(files: &[(&str, &[u8])]) -> Vec<u8> {
    let mut buf: Vec<u8> = Vec::new();
    let opts = CreateOptions::default();
    let hdr = FileHeader::new(opts.chunk_size);
    hdr.write(&mut buf);

    let mut file_entries = vec![];
    let mut chunk_id = 0u64;

    for (name, data) in files {
        let checksum_orig = Crc32::oneshot(data);
        let compressed = compress_full(data, Level::Balanced);
        let checksum_comp = Crc32::oneshot(&compressed);
        let record = ChunkRecord {
            codec_id: CodecId::LzAns.to_u8(),
            chunk_id,
            original_len: data.len() as u64,
            compressed_len: compressed.len() as u64,
            checksum_orig,
            checksum_comp,
        };
        record.write(&mut buf, &compressed);
        file_entries.push(FileEntry {
            file_id: chunk_id,
            mtime: 0,
            mode: 0o644,
            first_chunk: chunk_id,
            chunk_count: 1,
            original_size: data.len() as u64,
            name: name.to_string(),
        });
        chunk_id += 1;
    }

    let index_offset = buf.len() as u64;
    for e in &file_entries {
        e.write(&mut buf);
    }
    let footer = Footer { index_offset, index_count: file_entries.len() as u32 };
    footer.write(&mut buf);
    buf
}

/// Builds an archive with the archive writer, splitting each file into
/// chunks of `chunk_size` bytes.
fn write_archive(files: &[(&str, &[u8])], chunk_size: u32) -> Vec<u8> {
    let mut w = ArchiveWriter::new(chunk_size);
    for (name, data) in files {
        let base = w.next_chunk_id();
        let pieces = split_into_chunks(data, chunk_size as usize);
        let chunks: Vec<(ChunkRecord, Vec<u8>)> = pieces
            .iter()
            .enumerate()
            .map(|(i, p)| compress_chunk(p, base + i as u64, Level::Balanced))
            .collect();
        w.add_file(name.to_string(), data.len() as u64, 42, 0o600, &chunks);
    }
    w.finish()
}

fn extract_all(archive: &[u8], limit: u64) -> Result<Vec<(String, Vec<u8>)>, AxcError> {
    let (entries, map) = open_archive(archive).unwrap()?;
    let mut total = 0u64;
    let mut out = Vec::new();
    for e in &entries {
        let name = sanitise_path(&e.name)?;
        let (data, t) = extract_entry(archive, &map, e, total, limit)?;
        total = t;
        out.push((name, data));
    }
    Ok(out)
}

#[test]
fn list_roundtrip() {
    let archive = make_archive(&[("hello.txt", b"hello world"), ("data.bin", b"\x00\x01\x02\x03")]);
    let entries = list_archive(&archive).unwrap();
    assert_eq!(entries.len(), 2);
    assert_eq!(entries[0].name, "hello.txt");
    assert_eq!(entries[0].original_size, 11);
    assert_eq!(entries[1].name, "data.bin");
}

#[test]
fn test_archive_passes() {
    let archive = make_archive(&[("a.txt", b"aaabbbccc"), ("b.txt", b"xyz")]);
    let count = test_archive(&archive).unwrap();
    assert_eq!(count, 2);
}

#[test]
fn path_traversal_blocked() {
    assert!(sanitise_path("../etc/passwd").is_err());
    assert!(sanitise_path("/etc/passwd").is_err());
    assert!(sanitise_path("foo/../../etc/passwd").is_err());
    assert!(sanitise_path("safe/path/file.txt").is_ok());
}

#[test]
fn decompression_bomb_limit() {
    // A "bomb": one chunk that decompresses to over the limit.
    let archive = make_archive(&[("big.txt", &vec![b'A'; 1024])]);
    let result = extract_all(&archive, 10);
    assert!(matches!(result, Err(AxcError::DecompressionBomb { .. })));
}

#[test]
fn decompression_bomb_reports_total_and_limit() {
    let archive = make_archive(&[("a", &vec![b'A'; 8]), ("b", &vec![b'B'; 8])]);
    match extract_all(&archive, 12) {
        Err(AxcError::DecompressionBomb { output_size, limit }) => {
            assert_eq!(output_size, 16);
            assert_eq!(limit, 12);
        }
        other => panic!("unexpected: {:?}", other.map(|v| v.len())),
    }
    // Exactly at the limit is allowed.
    assert_eq!(extract_all(&archive, 16).unwrap().len(), 2);
}

#[test]
fn sanitise_path_normalises() {
    assert_eq!(sanitise_path("a//b/./c").unwrap(), "a/b/c");
    assert_eq!(sanitise_path("./x.txt").unwrap(), "x.txt");
    assert_eq!(sanitise_path("dir/").unwrap(), "dir");
    match sanitise_path(".") {
        Err(AxcError::PathTraversal(p)) => assert_eq!(p, "."),
        other => panic!("unexpected: {:?}", other),
    }
    assert!(matches!(sanitise_path(""), Err(AxcError::PathTraversal(_))));
    assert!(matches!(sanitise_path("a/.."), Err(AxcError::PathTraversal(_))));
    assert_eq!(sanitise_path("a/..b").unwrap(), "a/..b");
}

#[test]
fn split_into_chunks_pieces() {
    let data: Vec<u8> = (0u8..10).collect();
    let pieces = split_into_chunks(&data, 4);
    assert_eq!(pieces.len(), 3);
    assert_eq!(pieces[0], &[0, 1, 2, 3]);
    assert_eq!(pieces[1], &[4, 5, 6, 7]);
    assert_eq!(pieces[2], &[8, 9]);
    assert!(split_into_chunks(&[], 4).is_empty());
    assert_eq!(split_into_chunks(&data, 10).len(), 1);
}

#[test]
fn split_into_chunks_count_is_ceiling() {
    let data: Vec<u8> = (0u8..=100).collect();
    for size in 1..=120usize {
        let expected = (data.len() + size - 1) / size;
        assert_eq!(split_into_chunks(&data, size).len(), expected, "size {}", size);
    }
}

#[test]
fn compress_chunk_record() {
    let data = b"some chunk data some chunk data";
    let (rec, comp) = compress_chunk(data, 9, Level::Fast);
    assert_eq!(rec.codec_id, 1);
    assert_eq!(rec.chunk_id, 9);
    assert_eq!(rec.original_len, data.len() as u64);
    assert_eq!(rec.compressed_len, comp.len() as u64);
    assert_eq!(rec.checksum_orig, Crc32::oneshot(data));
    assert_eq!(rec.checksum_comp, Crc32::oneshot(&comp));
}

#[test]
fn create_options_default() {
    let o = CreateOptions::default();
    assert_eq!(o.level, Level::Balanced);
    assert_eq!(o.chunk_size, DEFAULT_CHUNK_SIZE);
    assert_eq!(DEFAULT_CHUNK_SIZE, 512 * 1024);
    assert_eq!(MAX_DECOMPRESS_SIZE, 1024 * 1024 * 1024);
}

#[test]
fn writer_archive_roundtrip() {
    let big: Vec<u8> = (0..3000u32).map(|i| (i * 7 % 251) as u8).collect();
    let files: Vec<(&str, &[u8])> =
        vec![("docs/readme.md", b"# Title\nhello hello hello\n"), ("empty", b""), ("big.bin", &big)];
    let archive = write_archive(&files, 1000);

    let listed = list_archive(&archive).unwrap();
    assert_eq!(listed.len(), 3);
    assert_eq!(listed[0].name, "docs/readme.md");
    assert_eq!(listed[1].chunk_count, 0);
    assert_eq!(listed[2].chunk_count, 3);
    assert_eq!(listed[2].original_size, 3000);
    assert_eq!(listed[2].mtime, 42);

    let index = read_index(&archive).unwrap();
    assert_eq!(index[0].file_id, 0);
    assert_eq!(index[2].file_id, 2);
    assert_eq!(index[2].first_chunk, 1);
    assert_eq!(index[2].mode, 0o600);

    assert_eq!(test_archive(&archive).unwrap(), 4);

    let out = extract_all(&archive, MAX_DECOMPRESS_SIZE).unwrap();
    assert_eq!(out.len(), 3);
    for ((name, data), (orig_name, orig)) in out.iter().zip(files.iter()) {
        assert_eq!(name, orig_name);
        assert_eq!(&data[..], *orig);
    }
}

#[test]
fn chunk_map_locates_chunks() {
    let archive = make_archive(&[("a", b"aaaa"), ("b", b"bbbbbbbb")]);
    let footer = Footer::read(&archive).unwrap();
    let map = build_chunk_map(&archive, footer.index_offset).unwrap();
    assert_eq!(map.len(), 2);
    let (off0, rec0) = map[&0];
    assert_eq!(off0, 32 + 34);
    assert_eq!(rec0.original_len, 4);
    let (off1, rec1) = map[&1];
    assert_eq!(off1, 32 + 34 + rec0.compressed_len + 34);
    assert_eq!(rec1.original_len, 8);
    assert!(try_build_chunk_map(&archive, footer.index_offset).unwrap().is_ok());
}

#[test]
fn chunk_map_stops_at_index_offset() {
    let archive = make_archive(&[("a", b"aaaa"), ("b", b"bbbbbbbb")]);
    let map = build_chunk_map(&archive, 33).unwrap();
    assert_eq!(map.len(), 1);
    let map = build_chunk_map(&archive, 32).unwrap();
    assert!(map.is_empty());
}

#[test]
fn chunk_map_truncated_header_is_io_error() {
    let mut archive = Vec::new();
    FileHeader::new(16).write(&mut archive);
    archive.extend_from_slice(&[0xC1, 1, 2, 3]);
    assert!(matches!(build_chunk_map(&archive, 1000), Err(AxcError::Io(_))));
}

#[test]
fn chunk_map_looping_scan_is_refused() {
    // A chunk whose length skips back to its own header.
    let mut archive = Vec::new();
    FileHeader::new(16).write(&mut archive);
    let rec = ChunkRecord {
        codec_id: 1,
        chunk_id: 0,
        original_len: 0,
        compressed_len: (-34i64) as u64,
        checksum_orig: 0,
        checksum_comp: 0,
    };
    rec.write(&mut archive, &[]);
    assert!(try_build_chunk_map(&archive, 1000).is_none());
    Footer { index_offset: 1000, index_count: 0 }.write(&mut archive);
    assert!(open_archive(&archive).is_none());
}

#[test]
fn chunk_map_negative_seek_is_io_error() {
    let mut archive = Vec::new();
    FileHeader::new(16).write(&mut archive);
    let rec = ChunkRecord {
        codec_id: 1,
        chunk_id: 0,
        original_len: 0,
        compressed_len: (-1000i64) as u64,
        checksum_orig: 0,
        checksum_comp: 0,
    };
    rec.write(&mut archive, &[]);
    match try_build_chunk_map(&archive, 1000) {
        Some(Err(AxcError::Io(e))) => assert_eq!(e.kind(), std::io::ErrorKind::InvalidInput),
        other => panic!("unexpected: {:?}", other.map(|r| r.map(|m| m.len()))),
    }
}

#[test]
fn missing_chunk_is_reported() {
    let archive = make_archive(&[("a", b"aaaa")]);
    let (_, map) = open_archive(&archive).unwrap().unwrap();
    match extract_chunk(&archive, &map, 12345) {
        Err(AxcError::InvalidChunk(msg)) => assert_eq!(msg, "chunk 12345 not found"),
        other => panic!("unexpected: {:?}", other),
    }
}

#[test]
fn corrupted_chunk_fails_test_and_extract() {
    let mut archive = make_archive(&[("a.txt", b"hello hello hello hello")]);
    // Flip a byte inside the compressed data of the only chunk.
    archive[32 + 34 + 2] ^= 0x40;
    assert!(matches!(test_archive(&archive), Err(AxcError::ChecksumMismatch { chunk_id: 0, .. })));
    assert!(matches!(extract_all(&archive, 1 << 20), Err(AxcError::ChecksumMismatch { chunk_id: 0, .. })));
}

#[test]
fn wrong_original_checksum_is_detected() {
    let data = b"payload payload";
    let compressed = compress_full(data, Level::Balanced);
    let mut archive = Vec::new();
    FileHeader::new(16).write(&mut archive);
    let rec = ChunkRecord {
        codec_id: 1,
        chunk_id: 0,
        original_len: data.len() as u64,
        compressed_len: compressed.len() as u64,
        checksum_orig: 0xDEAD_BEEF,
        checksum_comp: Crc32::oneshot(&compressed),
    };
    rec.write(&mut archive, &compressed);
    let index_offset = archive.len() as u64;
    Footer { index_offset, index_count: 0 }.write(&mut archive);
    match test_archive(&archive) {
        Err(AxcError::ChecksumMismatch { chunk_id, expected, got }) => {
            assert_eq!(chunk_id, 0);
            assert_eq!(expected, 0xDEAD_BEEF);
            assert_eq!(got, Crc32::oneshot(data));
        }
        other => panic!("unexpected: {:?}", other),
    }
}

#[test]
fn bad_header_is_reported_first() {
    let mut archive = make_archive(&[("a", b"a")]);
    archive[0] = 0;
    assert!(matches!(list_archive(&archive), Err(AxcError::InvalidMagic)));
    assert!(matches!(test_archive(&archive), Err(AxcError::InvalidMagic)));
    assert!(matches!(open_archive(&archive), Some(Err(AxcError::InvalidMagic))));
}

#[test]
fn empty_archive_lists_nothing() {
    let archive = make_archive(&[]);
    assert!(list_archive(&archive).unwrap().is_empty());
    assert_eq!(test_archive(&archive).unwrap(), 0);
}

#[test]
fn extract_entry_without_chunks_is_empty() {
    let archive = make_archive(&[]);
    let (_, map) = open_archive(&archive).unwrap().unwrap();
    let e = FileEntry {
        file_id: 0,
        mtime: 0,
        mode: 0,
        first_chunk: 0,
        chunk_count: 0,
        original_size: 0,
        name: "x".to_string(),
    };
    let (data, total) = extract_entry(&archive, &map, &e, 5, 10).unwrap();
    assert!(data.is_empty());
    assert_eq!(total, 5);
}

#[test]
fn corrupted_chunk_tag_fails_the_test() {
    let mut archive = make_archive(&[("a.txt", b"aaabbbccc"), ("b.txt", b"xyz")]);
    let (first, _) = ChunkRecord::read(&archive, 32).unwrap();
    let second = 32 + 34 + first.compressed_len as usize;
    archive[second] = 0x00;
    match test_archive(&archive) {
        Err(AxcError::InvalidChunk(msg)) => assert_eq!(msg, "expected tag 0xc1, got 0x00"),
        other => panic!("unexpected: {:?}", other),
    }
}

#[test]
fn chunk_larger_than_the_chunk_size_fails_the_test() {
    let data = b"payload payload";
    let compressed = compress_full(data, Level::Balanced);
    let mut archive = Vec::new();
    FileHeader::new(8).write(&mut archive);
    let rec = ChunkRecord {
        codec_id: 1,
        chunk_id: 3,
        original_len: u64::MAX,
        compressed_len: compressed.len() as u64,
        checksum_orig: Crc32::oneshot(data),
        checksum_comp: Crc32::oneshot(&compressed),
    };
    rec.write(&mut archive, &compressed);
    let index_offset = archive.len() as u64;
    Footer { index_offset, index_count: 0 }.write(&mut archive);
    match test_archive(&archive) {
        Err(AxcError::InvalidChunk(msg)) => assert_eq!(msg, "chunk 3 is larger than the chunk size"),
        other => panic!("unexpected: {:?}", other),
    }
}

#[test]
fn huge_recorded_length_is_a_bomb_before_decompressing() {
    let data = b"payload payload";
    let compressed = compress_full(data, Level::Balanced);
    let mut archive = Vec::new();
    FileHeader::new(16).write(&mut archive);
    let rec = ChunkRecord {
        codec_id: 1,
        chunk_id: 0,
        original_len: u64::MAX,
        compressed_len: compressed.len() as u64,
        checksum_orig: Crc32::oneshot(data),
        checksum_comp: Crc32::oneshot(&compressed),
    };
    rec.write(&mut archive, &compressed);
    let index_offset = archive.len() as u64;
    FileEntry {
        file_id: 0,
        mtime: 0,
        mode: 0o644,
        first_chunk: 0,
        chunk_count: 1,
        original_size: u64::MAX,
        name: "a".to_string(),
    }
    .write(&mut archive);
    Footer { index_offset, index_count: 1 }.write(&mut archive);
    match extract_all(&archive, MAX_DECOMPRESS_SIZE) {
        Err(AxcError::DecompressionBomb { output_size, limit }) => {
            assert_eq!(output_size, u64::MAX);
            assert_eq!(limit, MAX_DECOMPRESS_SIZE);
        }
        other => panic!("unexpected: {:?}", other.map(|v| v.len())),
    }
}

#[test]
fn writer_numbers_chunks_from_its_next_id() {
    let mut w = ArchiveWriter::new(4);
    assert_eq!(w.next_chunk_id(), 0);
    let chunks: Vec<(ChunkRecord, Vec<u8>)> = split_into_chunks(b"abcdefghij", 4)
        .iter()
        .enumerate()
        .map(|(i, p)| compress_chunk(p, i as u64, Level::Fast))
        .collect();
    w.add_file("x".to_string(), 10, 0, 0o644, &chunks);
    assert_eq!(w.next_chunk_id(), 3);
    let archive = w.finish();
    let index = read_index(&archive).unwrap();
    assert_eq!(index[0].first_chunk, 0);
    assert_eq!(index[0].chunk_count, 3);
    assert_eq!(test_archive(&archive).unwrap(), 3);
    assert_eq!(extract_all(&archive, 100).unwrap()[0].1, b"abcdefghij".to_vec());
}
