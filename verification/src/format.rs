//! AXC container format: binary layout of the records.
//!
//! File layout:
//!   [File Header 32 bytes]
//!   [Chunk Record]*          one or more per file, referenced by the index
//!   [Index Record]*          written after all chunks
//!   [Footer 24 bytes]
//!
//! All integers are little-endian.
//!
//! FILE HEADER (32 bytes): magic "AXCv1\0\0\0" (8), version (1), flags (1),
//! reserved (6), chunk_size u32 (4), reserved (12).
//!
//! CHUNK RECORD: tag 0xC1 (1), codec_id (1), chunk_id u64, original_len u64,
//! compressed_len u64, checksum_orig u32 (CRC-32 of the original),
//! checksum_comp u32 (CRC-32 of the compressed data), then compressed_len
//! bytes of data.
//!
//! FILE ENTRY: tag 0xE1 (1), file_id u64, mtime u64, mode u32,
//! first_chunk u64, chunk_count u32, original_size u64, name_len u16, then
//! name_len bytes of UTF-8 name.
//!
//! FOOTER (24 bytes): tag 0xFF (1), reserved (3), index_offset u64,
//! index_count u32, CRC-32 of the first 16 footer bytes (4), magic "AXCE".
//!
//! Records are read from an archive held in memory, at a byte position.

use vstd::prelude::*;

use crate::bytes::{lemma_get_le32_bytes, lemma_get_le16_at, lemma_get_le32_at, lemma_get_le64_at, get_le16, get_le32, get_le64, le16, le32, le64, push_le16, push_le32, push_le64, read_le16, read_le32, read_le64};
use crate::checksum::{crc32, Crc32};
use crate::error::{hex_byte, hex_byte_text, io_error, io_failure, AxcError, Failure, IoFailure};

verus! {

// ── Constants ─────────────────────────────────────────────────────────────────

/// "AXCv1\0\0\0"
pub const MAGIC: [u8; 8] = [0x41, 0x58, 0x43, 0x76, 0x31, 0x00, 0x00, 0x00];

/// "AXCE"
pub const MAGIC_END: [u8; 4] = [0x41, 0x58, 0x43, 0x45];

pub const VERSION: u8 = 1;

pub const CHUNK_TAG: u8 = 0xC1;

pub const ENTRY_TAG: u8 = 0xE1;

pub const FOOTER_TAG: u8 = 0xFF;

/// 512 KiB.
pub const DEFAULT_CHUNK_SIZE: u32 = 524288;

/// 1 + 1 + 8 + 8 + 8 + 4 + 4 bytes.
pub const CHUNK_HEADER_SIZE: usize = 34;

pub const FOOTER_SIZE: usize = 24;

/// Size of the file header.
pub const FILE_HEADER_SIZE: usize = 32;

/// Size of a file entry before its name.
pub const ENTRY_FIXED_SIZE: usize = 43;

pub open spec fn zeros(n: nat) -> Seq<u8> {
    Seq::new(n, |i: int| 0u8)
}

/// Decodes UTF-8 bytes into a string (`String::from_utf8`): `Some` exactly
/// when the bytes are valid UTF-8, holding the characters they encode.
#[verifier::external_body]
fn utf8_string(bytes: Vec<u8>) -> (r: Option<String>)
    ensures
        r is Some <==> vstd::utf8::valid_utf8(bytes@),
        r matches Some(s) ==> s@ == vstd::utf8::decode_utf8(bytes@),
{
    String::from_utf8(bytes).ok()
}

/// A copy of `s[start..start + n]`.
pub(crate) fn copy_range(s: &[u8], start: usize, n: usize) -> (v: Vec<u8>)
    requires
        start + n <= s@.len(),
    ensures
        v@ == s@.subrange(start as int, start + n),
{
    let slen = s.len();
    let mut v: Vec<u8> = Vec::new();
    let mut k: usize = 0;
    while k < n
        invariant
            k <= n,
            slen == s@.len(),
            start + n <= s@.len(),
            v@ =~= s@.subrange(start as int, start + k),
        decreases n - k,
    {
        v.push(s[start + k]);
        k = k + 1;
    }
    v
}

pub(crate) fn push_all(out: &mut Vec<u8>, src: &[u8])
    ensures
        final(out)@ == old(out)@ + src@,
{
    let mut k: usize = 0;
    let ghost before = out@;
    while k < src.len()
        invariant
            k <= src@.len(),
            out@ =~= before + src@.take(k as int),
        decreases src@.len() - k,
    {
        out.push(src[k]);
        k = k + 1;
    }
    assert(src@.take(src@.len() as int) =~= src@);
}

fn push_zeros(out: &mut Vec<u8>, n: usize)
    ensures
        final(out)@ == old(out)@ + zeros(n as nat),
{
    let mut k: usize = 0;
    let ghost before = out@;
    while k < n
        invariant
            k <= n,
            out@ =~= before + zeros(k as nat),
        decreases n - k,
    {
        out.push(0u8);
        k = k + 1;
    }
}

// ── File Header ───────────────────────────────────────────────────────────────

#[derive(Debug, Clone, Copy, PartialEq, Eq, Structural)]
pub struct FileHeader {
    pub version: u8,
    pub flags: u8,
    pub chunk_size: u32,
}

pub open spec fn header_bytes(h: FileHeader) -> Seq<u8> {
    MAGIC@ + seq![h.version, h.flags] + zeros(6) + le32(h.chunk_size) + zeros(12)
}

/// The header at the start of `a`, or the failure.
pub open spec fn spec_read_header(a: Seq<u8>) -> Result<FileHeader, Failure> {
    if a.len() < 32 {
        Err(io_failure(IoFailure::UnexpectedEof))
    } else if a.subrange(0, 8) != MAGIC@ {
        Err(Failure::InvalidMagic)
    } else if a[8] != VERSION {
        Err(Failure::UnsupportedVersion(a[8]))
    } else {
        Ok(FileHeader { version: a[8], flags: a[9], chunk_size: get_le32(a, 16) })
    }
}

impl FileHeader {
    pub fn new(chunk_size: u32) -> (h: Self)
        ensures
            h == (FileHeader { version: VERSION, flags: 0, chunk_size }),
    {
        FileHeader { version: VERSION, flags: 0, chunk_size }
    }

    pub fn write(&self, out: &mut Vec<u8>)
        ensures
            final(out)@ == old(out)@ + header_bytes(*self),
    {
        let ghost before = out@;
        push_all(out, &MAGIC);
        out.push(self.version);
        out.push(self.flags);
        push_zeros(out, 6);
        push_le32(out, self.chunk_size);
        push_zeros(out, 12);
        assert(out@ =~= before + header_bytes(*self));
    }

    /// Reads the header at the start of the archive.
    pub fn read(archive: &[u8]) -> (res: Result<Self, AxcError>)
        ensures
            match spec_read_header(archive@) {
                Ok(h) => res == Ok::<FileHeader, AxcError>(h),
                Err(f) => res matches Err(e) && e@ == f,
            },
    {
        if archive.len() < 32 {
            return Err(AxcError::Io(io_error(IoFailure::UnexpectedEof)));
        }
        let mut k: usize = 0;
        while k < 8
            invariant
                k <= 8,
                archive@.len() >= 32,
                archive@.subrange(0, k as int) == MAGIC@.subrange(0, k as int),
            decreases 8 - k,
        {
            if archive[k] != MAGIC[k] {
                assert(archive@.subrange(0, 8)[k as int] != MAGIC@[k as int]);
                return Err(AxcError::InvalidMagic);
            }
            assert(archive@.subrange(0, k + 1) =~= archive@.subrange(0, k as int).push(archive@[k as int]));
            assert(MAGIC@.subrange(0, k + 1) =~= MAGIC@.subrange(0, k as int).push(MAGIC@[k as int]));
            k = k + 1;
        }
        assert(MAGIC@.subrange(0, 8) =~= MAGIC@);
        let version = archive[8];
        if version != VERSION {
            return Err(AxcError::UnsupportedVersion(version));
        }
        let flags = archive[9];
        let chunk_size = read_le32(archive, 16);
        Ok(FileHeader { version, flags, chunk_size })
    }
}

// ── Chunk Record ──────────────────────────────────────────────────────────────

#[derive(Debug, Clone, Copy, PartialEq, Eq, Structural)]
pub struct ChunkRecord {
    pub codec_id: u8,
    pub chunk_id: u64,
    pub original_len: u64,
    pub compressed_len: u64,
    pub checksum_orig: u32,
    pub checksum_comp: u32,
}

/// The 34 header bytes of a chunk record.
pub open spec fn chunk_header_bytes(r: ChunkRecord) -> Seq<u8> {
    seq![CHUNK_TAG, r.codec_id] + le64(r.chunk_id) + le64(r.original_len) + le64(r.compressed_len)
        + le32(r.checksum_orig) + le32(r.checksum_comp)
}

/// The chunk record header fields stored at `p` (the position of the tag).
pub open spec fn chunk_fields_at(a: Seq<u8>, p: int) -> ChunkRecord {
    ChunkRecord {
        codec_id: a[p + 1],
        chunk_id: get_le64(a, p + 2),
        original_len: get_le64(a, p + 10),
        compressed_len: get_le64(a, p + 18),
        checksum_orig: get_le32(a, p + 26),
        checksum_comp: get_le32(a, p + 30),
    }
}

/// "expected tag 0xc1, got 0x.."
pub open spec fn chunk_tag_message(tag: u8) -> Seq<char> {
    "expected tag "@ + hex_byte_text(CHUNK_TAG) + ", got "@ + hex_byte_text(tag)
}

/// The chunk record and its data at `pos`, or the failure. The data's
/// CRC-32 is checked against the stored one.
pub open spec fn spec_read_chunk(a: Seq<u8>, pos: nat) -> Result<(ChunkRecord, Seq<u8>), Failure> {
    if pos + 1 > a.len() {
        Err(io_failure(IoFailure::UnexpectedEof))
    } else if a[pos as int] != CHUNK_TAG {
        Err(Failure::InvalidChunk(chunk_tag_message(a[pos as int])))
    } else if pos + 34 > a.len() {
        Err(io_failure(IoFailure::UnexpectedEof))
    } else {
        let r = chunk_fields_at(a, pos as int);
        if pos + 34 + r.compressed_len > a.len() {
            Err(io_failure(IoFailure::UnexpectedEof))
        } else {
            let data = a.subrange((pos + 34) as int, (pos + 34 + r.compressed_len) as int);
            if crc32(data) != r.checksum_comp {
                Err(
                    Failure::ChecksumMismatch {
                        chunk_id: r.chunk_id,
                        expected: r.checksum_comp,
                        got: crc32(data),
                    },
                )
            } else {
                Ok((r, data))
            }
        }
    }
}

impl ChunkRecord {
    pub fn write(&self, out: &mut Vec<u8>, data: &[u8])
        ensures
            final(out)@ == old(out)@ + chunk_header_bytes(*self) + data@,
    {
        let ghost before = out@;
        out.push(CHUNK_TAG);
        out.push(self.codec_id);
        push_le64(out, self.chunk_id);
        push_le64(out, self.original_len);
        push_le64(out, self.compressed_len);
        push_le32(out, self.checksum_orig);
        push_le32(out, self.checksum_comp);
        push_all(out, data);
        assert(out@ =~= before + chunk_header_bytes(*self) + data@);
    }

    /// Reads the chunk record at byte `pos` of the archive, with its data.
    pub fn read(archive: &[u8], pos: u64) -> (res: Result<(Self, Vec<u8>), AxcError>)
        ensures
            match spec_read_chunk(archive@, pos as nat) {
                Ok((r, d)) => res matches Ok((rr, dd)) && rr == r && dd@ == d,
                Err(f) => res matches Err(e) && e@ == f,
            },
    {
        let len = archive.len() as u64;
        if pos >= len {
            return Err(AxcError::Io(io_error(IoFailure::UnexpectedEof)));
        }
        let p = pos as usize;
        let tag = archive[p];
        if tag != CHUNK_TAG {
            let mut msg = "expected tag ".to_owned();
            let expected = hex_byte(CHUNK_TAG);
            msg.append(expected.as_str());
            msg.append(", got ");
            let got = hex_byte(tag);
            msg.append(got.as_str());
            return Err(AxcError::InvalidChunk(msg));
        }
        if len - pos < 34 {
            return Err(AxcError::Io(io_error(IoFailure::UnexpectedEof)));
        }
        let codec_id = archive[p + 1];
        let chunk_id = read_le64(archive, p + 2);
        let original_len = read_le64(archive, p + 10);
        let compressed_len = read_le64(archive, p + 18);
        let checksum_orig = read_le32(archive, p + 26);
        let checksum_comp = read_le32(archive, p + 30);
        if len - pos - 34 < compressed_len {
            return Err(AxcError::Io(io_error(IoFailure::UnexpectedEof)));
        }
        let data = copy_range(archive, p + 34, compressed_len as usize);
        let actual_comp = Crc32::oneshot(data.as_slice());
        if actual_comp != checksum_comp {
            return Err(
                AxcError::ChecksumMismatch { chunk_id, expected: checksum_comp, got: actual_comp },
            );
        }
        Ok(
            (
                ChunkRecord {
                    codec_id,
                    chunk_id,
                    original_len,
                    compressed_len,
                    checksum_orig,
                    checksum_comp,
                },
                data,
            ),
        )
    }
}

// ── Index (File Entry) ────────────────────────────────────────────────────────

#[derive(Debug, Clone)]
pub struct FileEntry {
    pub file_id: u64,
    pub mtime: u64,
    pub mode: u32,
    pub first_chunk: u64,
    pub chunk_count: u32,
    pub original_size: u64,
    pub name: String,
}

/// A file entry with its name as characters.
pub struct FileEntryView {
    pub file_id: u64,
    pub mtime: u64,
    pub mode: u32,
    pub first_chunk: u64,
    pub chunk_count: u32,
    pub original_size: u64,
    pub name: Seq<char>,
}

impl View for FileEntry {
    type V = FileEntryView;

    open spec fn view(&self) -> FileEntryView {
        FileEntryView {
            file_id: self.file_id,
            mtime: self.mtime,
            mode: self.mode,
            first_chunk: self.first_chunk,
            chunk_count: self.chunk_count,
            original_size: self.original_size,
            name: self.name@,
        }
    }
}

/// The bytes of an entry; the name length is stored modulo 2^16.
#[verifier::opaque]
pub open spec fn entry_bytes(e: FileEntryView) -> Seq<u8> {
    let nb = vstd::utf8::encode_utf8(e.name);
    seq![ENTRY_TAG] + le64(e.file_id) + le64(e.mtime) + le32(e.mode) + le64(e.first_chunk) + le32(
        e.chunk_count,
    ) + le64(e.original_size) + le16(nb.len() as u16) + nb
}

/// "expected entry tag 0xe1, got 0x.."
pub open spec fn entry_tag_message(tag: u8) -> Seq<char> {
    "expected entry tag "@ + hex_byte_text(ENTRY_TAG) + ", got "@ + hex_byte_text(tag)
}

/// The entry at `pos` and the position after it, or the failure.
#[verifier::opaque]
pub open spec fn spec_read_entry(a: Seq<u8>, pos: nat) -> Result<(FileEntryView, nat), Failure> {
    if pos + 1 > a.len() {
        Err(io_failure(IoFailure::UnexpectedEof))
    } else if a[pos as int] != ENTRY_TAG {
        Err(Failure::InvalidHeader(entry_tag_message(a[pos as int])))
    } else if pos + 43 > a.len() {
        Err(io_failure(IoFailure::UnexpectedEof))
    } else {
        let p = pos as int;
        let name_len = get_le16(a, p + 41) as nat;
        if pos + 43 + name_len > a.len() {
            Err(io_failure(IoFailure::UnexpectedEof))
        } else {
            let nb = a.subrange(p + 43, p + 43 + name_len);
            if !vstd::utf8::valid_utf8(nb) {
                Err(Failure::InvalidHeader("non-UTF8 filename"@))
            } else {
                Ok(
                    (
                        FileEntryView {
                            file_id: get_le64(a, p + 1),
                            mtime: get_le64(a, p + 9),
                            mode: get_le32(a, p + 17),
                            first_chunk: get_le64(a, p + 21),
                            chunk_count: get_le32(a, p + 29),
                            original_size: get_le64(a, p + 33),
                            name: vstd::utf8::decode_utf8(nb),
                        },
                        pos + 43 + name_len,
                    ),
                )
            }
        }
    }
}

impl FileEntry {
    pub fn write(&self, out: &mut Vec<u8>)
        ensures
            final(out)@ == old(out)@ + entry_bytes(self@),
    {
        let ghost before = out@;
        proof {
            reveal(entry_bytes);
        }
        let name_bytes = self.name.as_str().as_bytes();
        out.push(ENTRY_TAG);
        push_le64(out, self.file_id);
        push_le64(out, self.mtime);
        push_le32(out, self.mode);
        push_le64(out, self.first_chunk);
        push_le32(out, self.chunk_count);
        push_le64(out, self.original_size);
        push_le16(out, name_bytes.len() as u16);
        push_all(out, name_bytes);
        assert(out@ =~= before + entry_bytes(self@));
    }

    /// Reads the entry at byte `pos` of the archive; gives it and the
    /// position after it.
    pub fn read(archive: &[u8], pos: u64) -> (res: Result<(Self, u64), AxcError>)
        ensures
            match spec_read_entry(archive@, pos as nat) {
                Ok((e, next)) => res matches Ok((ee, nn)) && ee@ == e && nn == next,
                Err(f) => res matches Err(err) && err@ == f,
            },
    {
        proof {
            reveal(spec_read_entry);
        }
        let len = archive.len() as u64;
        if pos >= len {
            return Err(AxcError::Io(io_error(IoFailure::UnexpectedEof)));
        }
        let p = pos as usize;
        let tag = archive[p];
        if tag != ENTRY_TAG {
            let mut msg = "expected entry tag ".to_owned();
            let expected = hex_byte(ENTRY_TAG);
            msg.append(expected.as_str());
            msg.append(", got ");
            let got = hex_byte(tag);
            msg.append(got.as_str());
            return Err(AxcError::InvalidHeader(msg));
        }
        if len - pos < 43 {
            return Err(AxcError::Io(io_error(IoFailure::UnexpectedEof)));
        }
        let file_id = read_le64(archive, p + 1);
        let mtime = read_le64(archive, p + 9);
        let mode = read_le32(archive, p + 17);
        let first_chunk = read_le64(archive, p + 21);
        let chunk_count = read_le32(archive, p + 29);
        let original_size = read_le64(archive, p + 33);
        let name_len = read_le16(archive, p + 41) as usize;
        if (len - pos - 43) < name_len as u64 {
            return Err(AxcError::Io(io_error(IoFailure::UnexpectedEof)));
        }
        let name_bytes = copy_range(archive, p + 43, name_len);
        let name = match utf8_string(name_bytes) {
            Some(s) => s,
            None => {
                return Err(AxcError::InvalidHeader("non-UTF8 filename".to_owned()));
            },
        };
        Ok(
            (
                FileEntry { file_id, mtime, mode, first_chunk, chunk_count, original_size, name },
                pos + 43 + name_len as u64,
            ),
        )
    }
}

// ── Footer ────────────────────────────────────────────────────────────────────

#[derive(Debug, Clone, Copy, PartialEq, Eq, Structural)]
pub struct Footer {
    pub index_offset: u64,
    pub index_count: u32,
}

/// The first sixteen footer bytes, which the footer checksum covers.
pub open spec fn footer_body(f: Footer) -> Seq<u8> {
    seq![FOOTER_TAG, 0u8, 0u8, 0u8] + le64(f.index_offset) + le32(f.index_count)
}

pub open spec fn footer_bytes(f: Footer) -> Seq<u8> {
    footer_body(f) + le32(crc32(footer_body(f))) + MAGIC_END@
}

/// The footer in the last 24 bytes of `a`, or the failure.
pub open spec fn spec_read_footer(a: Seq<u8>) -> Result<Footer, Failure> {
    if a.len() < 24 {
        Err(io_failure(IoFailure::InvalidSeek))
    } else {
        let buf = a.subrange(a.len() - 24, a.len() as int);
        if buf.subrange(20, 24) != MAGIC_END@ {
            Err(Failure::InvalidMagic)
        } else if get_le32(buf, 16) != crc32(buf.subrange(0, 16)) {
            Err(Failure::CorruptIndex)
        } else if buf[0] != FOOTER_TAG {
            Err(Failure::InvalidHeader("bad footer tag"@))
        } else {
            Ok(Footer { index_offset: get_le64(buf, 4), index_count: get_le32(buf, 12) })
        }
    }
}

impl Footer {
    pub fn write(&self, out: &mut Vec<u8>)
        ensures
            final(out)@ == old(out)@ + footer_bytes(*self),
    {
        let ghost before = out@;
        let mut buf: Vec<u8> = Vec::new();
        buf.push(FOOTER_TAG);
        push_zeros(&mut buf, 3);
        push_le64(&mut buf, self.index_offset);
        push_le32(&mut buf, self.index_count);
        assert(buf@ =~= footer_body(*self));
        let checksum = Crc32::oneshot(buf.as_slice());
        push_all(out, buf.as_slice());
        push_le32(out, checksum);
        push_all(out, &MAGIC_END);
        assert(out@ =~= before + footer_bytes(*self));
    }

    /// Reads the footer from the last 24 bytes of the archive.
    pub fn read(archive: &[u8]) -> (res: Result<Self, AxcError>)
        ensures
            match spec_read_footer(archive@) {
                Ok(f) => res == Ok::<Footer, AxcError>(f),
                Err(f) => res matches Err(e) && e@ == f,
            },
    {
        if archive.len() < FOOTER_SIZE {
            return Err(AxcError::Io(io_error(IoFailure::InvalidSeek)));
        }
        let start = archive.len() - FOOTER_SIZE;
        let buf = vstd::slice::slice_subrange(archive, start, archive.len());
        let mut k: usize = 0;
        while k < 4
            invariant
                k <= 4,
                buf@.len() == 24,
                archive@.len() >= 24,
                buf@ == archive@.subrange(archive@.len() - 24, archive@.len() as int),
                buf@.subrange(20, 20 + k) == MAGIC_END@.subrange(0, k as int),
            decreases 4 - k,
        {
            if buf[20 + k] != MAGIC_END[k] {
                assert(buf@.subrange(20, 24)[k as int] != MAGIC_END@[k as int]);
                assert(buf@ == archive@.subrange(archive@.len() - 24, archive@.len() as int));
                assert(buf@.subrange(20, 24) != MAGIC_END@);
                return Err(AxcError::InvalidMagic);
            }
            assert(buf@.subrange(20, 20 + k + 1) =~= buf@.subrange(20, 20 + k).push(buf@[20 + k]));
            assert(MAGIC_END@.subrange(0, k + 1) =~= MAGIC_END@.subrange(0, k as int).push(MAGIC_END@[k as int]));
            k = k + 1;
        }
        assert(MAGIC_END@.subrange(0, 4) =~= MAGIC_END@);
        let body = vstd::slice::slice_subrange(buf, 0, 16);
        let stored_crc = read_le32(buf, 16);
        let actual_crc = Crc32::oneshot(body);
        if stored_crc != actual_crc {
            return Err(AxcError::CorruptIndex);
        }
        if body[0] != FOOTER_TAG {
            return Err(AxcError::InvalidHeader("bad footer tag".to_owned()));
        }
        let index_offset = read_le64(body, 4);
        let index_count = read_le32(body, 12);
        Ok(Footer { index_offset, index_count })
    }
}

// ── Read-after-write laws ─────────────────────────────────────────────────────

/// Reading back a written header gives the header.
pub proof fn lemma_header_roundtrip(h: FileHeader, rest: Seq<u8>)
    requires
        h.version == VERSION,
    ensures
        spec_read_header(header_bytes(h) + rest) == Ok::<FileHeader, Failure>(h),
{
    let a = header_bytes(h) + rest;
    assert(a.subrange(0, 8) =~= MAGIC@);
    assert(a[8] == h.version && a[9] == h.flags);
    assert(a.subrange(16, 20) =~= le32(h.chunk_size));
    lemma_get_le32_at(a, 16, h.chunk_size);
}

/// Reading back a written chunk record gives the record and its data, when
/// the record states the data's length and CRC-32.
pub proof fn lemma_chunk_roundtrip(pre: Seq<u8>, r: ChunkRecord, d: Seq<u8>, rest: Seq<u8>)
    requires
        r.compressed_len == d.len(),
        r.checksum_comp == crc32(d),
    ensures
        spec_read_chunk(pre + chunk_header_bytes(r) + d + rest, pre.len()) == Ok::<
            (ChunkRecord, Seq<u8>),
            Failure,
        >((r, d)),
        (pre + chunk_header_bytes(r) + d + rest)[pre.len() as int] == CHUNK_TAG,
        chunk_fields_at(pre + chunk_header_bytes(r) + d + rest, pre.len() as int) == r,
        (pre + chunk_header_bytes(r) + d + rest).subrange(
            pre.len() + 34int,
            pre.len() + 34int + d.len(),
        ) == d,
{
    let a = pre + chunk_header_bytes(r) + d + rest;
    let p = pre.len() as int;
    assert(a[p] == CHUNK_TAG && a[p + 1] == r.codec_id);
    assert(a.subrange(p + 2, p + 10) =~= le64(r.chunk_id));
    assert(a.subrange(p + 10, p + 18) =~= le64(r.original_len));
    assert(a.subrange(p + 18, p + 26) =~= le64(r.compressed_len));
    assert(a.subrange(p + 26, p + 30) =~= le32(r.checksum_orig));
    assert(a.subrange(p + 30, p + 34) =~= le32(r.checksum_comp));
    lemma_get_le64_at(a, p + 2, r.chunk_id);
    lemma_get_le64_at(a, p + 10, r.original_len);
    lemma_get_le64_at(a, p + 18, r.compressed_len);
    lemma_get_le32_at(a, p + 26, r.checksum_orig);
    lemma_get_le32_at(a, p + 30, r.checksum_comp);
    assert(chunk_fields_at(a, p) == r);
    assert(a.subrange(p + 34, p + 34 + d.len()) =~= d);
}

/// Reading back a written entry gives the entry and the position after it,
/// when its UTF-8 name fits the 16-bit length field.
#[verifier::spinoff_prover]
#[verifier::rlimit(40)]
pub proof fn lemma_entry_roundtrip(pre: Seq<u8>, e: FileEntryView, rest: Seq<u8>)
    requires
        vstd::utf8::encode_utf8(e.name).len() <= 0xFFFF,
    ensures
        spec_read_entry(pre + entry_bytes(e) + rest, pre.len()) == Ok::<
            (FileEntryView, nat),
            Failure,
        >((e, pre.len() + entry_bytes(e).len())),
{
    reveal(entry_bytes);
    reveal(spec_read_entry);
    let a = pre + entry_bytes(e) + rest;
    let p = pre.len() as int;
    let nb = vstd::utf8::encode_utf8(e.name);
    assert(a[p] == ENTRY_TAG);
    assert(a.subrange(p + 1, p + 9) =~= le64(e.file_id));
    assert(a.subrange(p + 9, p + 17) =~= le64(e.mtime));
    assert(a.subrange(p + 17, p + 21) =~= le32(e.mode));
    assert(a.subrange(p + 21, p + 29) =~= le64(e.first_chunk));
    assert(a.subrange(p + 29, p + 33) =~= le32(e.chunk_count));
    assert(a.subrange(p + 33, p + 41) =~= le64(e.original_size));
    assert(a.subrange(p + 41, p + 43) =~= le16(nb.len() as u16));
    lemma_get_le64_at(a, p + 1, e.file_id);
    lemma_get_le64_at(a, p + 9, e.mtime);
    lemma_get_le32_at(a, p + 17, e.mode);
    lemma_get_le64_at(a, p + 21, e.first_chunk);
    lemma_get_le32_at(a, p + 29, e.chunk_count);
    lemma_get_le64_at(a, p + 33, e.original_size);
    lemma_get_le16_at(a, p + 41, nb.len() as u16);
    assert(a.subrange(p + 43, p + 43 + nb.len()) =~= nb);
    vstd::utf8::encode_utf8_valid_utf8(e.name);
    vstd::utf8::encode_utf8_decode_utf8(e.name);
}

/// Reading back a written footer at the end of an archive gives the footer.
pub proof fn lemma_footer_roundtrip(pre: Seq<u8>, f: Footer)
    ensures
        spec_read_footer(pre + footer_bytes(f)) == Ok::<Footer, Failure>(f),
{
    let a = pre + footer_bytes(f);
    let buf = a.subrange(a.len() - 24, a.len() as int);
    let body = footer_body(f);
    assert(buf =~= footer_bytes(f));
    assert(buf.subrange(20, 24) =~= MAGIC_END@);
    assert(buf.subrange(0, 16) =~= body);
    assert(buf.subrange(16, 20) =~= le32(crc32(body)));
    lemma_get_le32_at(buf, 16, crc32(body));
    assert(buf.subrange(4, 12) =~= le64(f.index_offset));
    assert(buf.subrange(12, 16) =~= le32(f.index_count));
    lemma_get_le64_at(buf, 4, f.index_offset);
    lemma_get_le32_at(buf, 12, f.index_count);
}

/// Changing any one of the first 20 footer bytes (the body or its stored
/// checksum) makes the footer read fail with `CorruptIndex`.
pub proof fn lemma_footer_detects_byte_change(pre: Seq<u8>, f: Footer, j: int, v: u8)
    requires
        0 <= j < 20,
        v != (pre + footer_bytes(f))[pre.len() + j],
    ensures
        spec_read_footer((pre + footer_bytes(f)).update(pre.len() + j, v)) == Err::<
            Footer,
            Failure,
        >(Failure::CorruptIndex),
{
    let fb = footer_bytes(f);
    let a = (pre + fb).update(pre.len() + j, v);
    let buf = a.subrange(a.len() - 24, a.len() as int);
    let body = footer_body(f);
    let crc = crc32(body);
    assert(fb[j] == (pre + fb)[pre.len() + j]);
    assert(buf =~= fb.update(j, v));
    assert(buf.subrange(20, 24) =~= MAGIC_END@);
    assert(fb.subrange(16, 20) =~= le32(crc));
    lemma_get_le32_bytes(buf, 16);
    if j < 16 {
        assert(buf.subrange(0, 16) =~= body.update(j, v));
        assert(buf.subrange(16, 20) =~= le32(crc));
        lemma_get_le32_at(buf, 16, crc);
        crate::checksum::lemma_crc32_detects_byte_change(body, j, v);
    } else {
        assert(buf.subrange(16, 20)[j - 16] != le32(crc)[j - 16]);
        assert(buf.subrange(16, 20) != le32(crc));
        assert(buf.subrange(0, 16) =~= body);
    }
}

} // verus!
