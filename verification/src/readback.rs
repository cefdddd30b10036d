//! What reading an archive gives back of what was written into it: the
//! listing, the chunk test, the chunk map and the data of each file of an
//! archive laid out as `ArchiveWriter` writes it.

use vstd::prelude::*;

use crate::archive::{is_chunking, lemma_chunking_count, chunk_record_for, lemma_compressed_chunk_unpacks, chunk_id_at, concat_chunks, extract_from, chunk_scan, spec_chunk_data, spec_chunk_map, spec_open_archive, chunk_blob, entries_blob, entries_from, list_view, spec_list_archive, spec_read_index, spec_test_archive, spec_unpack_chunk, test_scan};
use crate::checksum::crc32;
use crate::codec::is_full_compression;
use crate::error::Failure;
use crate::format::{spec_read_footer, spec_read_header, chunk_fields_at, chunk_header_bytes, lemma_chunk_roundtrip, spec_read_chunk, ChunkRecord, CHUNK_TAG, entry_bytes, header_bytes, footer_bytes, lemma_entry_roundtrip, lemma_footer_roundtrip, lemma_header_roundtrip, FileEntryView, FileHeader, Footer, VERSION};

verus! {

/// The bytes of an archive as `ArchiveWriter` lays it out: the file header,
/// the chunk records, the index entries and the footer that points at them.
pub open spec fn archive_bytes(
    chunk_size: u32,
    chunks: Seq<(crate::format::ChunkRecord, Seq<u8>)>,
    entries: Seq<FileEntryView>,
) -> Seq<u8> {
    let blob = chunk_blob(chunks);
    header_bytes(FileHeader { version: VERSION, flags: 0, chunk_size }) + blob + entries_blob(
        entries,
    ) + footer_bytes(
        Footer { index_offset: (32 + blob.len()) as u64, index_count: entries.len() as u32 },
    )
}

/// What `ArchiveWriter::finish` gives for a writer that holds the header
/// and these chunk records is the archive laid out as `archive_bytes`.
pub proof fn lemma_writer_layout(
    chunk_size: u32,
    chunks: Seq<(ChunkRecord, Seq<u8>)>,
    entries: Seq<FileEntryView>,
)
    ensures
        ({
            let bytes = header_bytes(FileHeader { version: VERSION, flags: 0, chunk_size })
                + chunk_blob(chunks);
            bytes + entries_blob(entries) + footer_bytes(
                Footer { index_offset: bytes.len() as u64, index_count: entries.len() as u32 },
            ) == archive_bytes(chunk_size, chunks, entries)
        }),
{
    assert(header_bytes(FileHeader { version: VERSION, flags: 0, chunk_size }).len() == 32);
}

/// Every entry's UTF-8 name fits the 16-bit name length field.
pub open spec fn names_fit(entries: Seq<FileEntryView>) -> bool {
    forall|i: int|
        0 <= i < entries.len() ==> #[trigger] vstd::utf8::encode_utf8(entries[i].name).len()
            <= 0xFFFF
}

proof fn lemma_entries_blob_concat(x: Seq<FileEntryView>, y: Seq<FileEntryView>)
    ensures
        entries_blob(x + y) == entries_blob(x) + entries_blob(y),
    decreases y.len(),
{
    if y.len() == 0 {
        assert(x + y =~= x);
        assert(entries_blob(x) + entries_blob(y) =~= entries_blob(x));
    } else {
        lemma_entries_blob_concat(x, y.drop_last());
        assert((x + y).drop_last() =~= x + y.drop_last());
        assert((x + y).last() == y.last());
    }
}

proof fn lemma_assoc(h: Seq<u8>, b: Seq<u8>, e: Seq<u8>, f: Seq<u8>)
    ensures
        h + b + e + f == h + (b + e + f),
{
    assert(h + b + e + f =~= h + (b + e + f));
}

proof fn lemma_regroup(pre: Seq<u8>, x: Seq<u8>, m: Seq<u8>, y: Seq<u8>, post: Seq<u8>)
    ensures
        pre + (x + m + y) + post == (pre + x) + m + (y + post),
{
    assert(pre + (x + m + y) + post =~= (pre + x) + m + (y + post));
}

proof fn lemma_entries_blob_split(es: Seq<FileEntryView>, j: int)
    requires
        0 <= j < es.len(),
    ensures
        entries_blob(es) == entries_blob(es.take(j)) + entry_bytes(es[j]) + entries_blob(
            es.skip(j + 1),
        ),
        entries_blob(es.take(j + 1)) == entries_blob(es.take(j)) + entry_bytes(es[j]),
{
    let e = es[j];
    let head = es.take(j);
    let tail = es.skip(j + 1);
    assert(es =~= (head + seq![e]) + tail);
    assert(es.take(j + 1) =~= head + seq![e]);
    lemma_entries_blob_concat(head + seq![e], tail);
    lemma_entries_blob_concat(head, seq![e]);
    assert(seq![e].drop_last() =~= Seq::<FileEntryView>::empty());
    assert(entries_blob(Seq::<FileEntryView>::empty()) == Seq::<u8>::empty());
    assert(entries_blob(seq![e]) =~= entry_bytes(e));
}

proof fn lemma_entry_at(pre: Seq<u8>, es: Seq<FileEntryView>, j: int, post: Seq<u8>)
    requires
        0 <= j < es.len(),
        vstd::utf8::encode_utf8(es[j].name).len() <= 0xFFFF,
    ensures
        crate::format::spec_read_entry(
            pre + entries_blob(es) + post,
            pre.len() + entries_blob(es.take(j)).len(),
        ) == Ok::<(FileEntryView, nat), crate::error::Failure>(
            (es[j], pre.len() + entries_blob(es.take(j + 1)).len()),
        ),
{
    lemma_entries_blob_split(es, j);
    let x = entries_blob(es.take(j));
    let y = entries_blob(es.skip(j + 1));
    lemma_regroup(pre, x, entry_bytes(es[j]), y, post);
    lemma_entry_roundtrip(pre + x, es[j], y + post);
}

proof fn lemma_entries_read(pre: Seq<u8>, es: Seq<FileEntryView>, j: nat, post: Seq<u8>)
    requires
        j <= es.len(),
        names_fit(es),
    ensures
        entries_from(
            pre + entries_blob(es) + post,
            pre.len() + entries_blob(es.take(j as int)).len(),
            (es.len() - j) as nat,
        ) == Ok::<Seq<FileEntryView>, crate::error::Failure>(es.skip(j as int)),
    decreases es.len() - j,
{
    if j == es.len() {
        assert(es.skip(j as int) =~= Seq::<FileEntryView>::empty());
    } else {
        assert(vstd::utf8::encode_utf8(es[j as int].name).len() <= 0xFFFF);
        lemma_entry_at(pre, es, j as int, post);
        lemma_entries_read(pre, es, j + 1, post);
        assert(seq![es[j as int]] + es.skip(j + 1int) =~= es.skip(j as int));
    }
}

/// Listing an archive written with these entries gives the entries back,
/// in order (the index reads back whole), when each name fits its length
/// field and the archive's size and entry count fit the footer's fields.
pub proof fn lemma_list_written(
    chunk_size: u32,
    chunks: Seq<(crate::format::ChunkRecord, Seq<u8>)>,
    entries: Seq<FileEntryView>,
)
    requires
        names_fit(entries),
        entries.len() <= u32::MAX,
        32 + chunk_blob(chunks).len() <= u64::MAX,
    ensures
        spec_read_index(archive_bytes(chunk_size, chunks, entries)) == Ok::<
            Seq<FileEntryView>,
            crate::error::Failure,
        >(entries),
        spec_list_archive(archive_bytes(chunk_size, chunks, entries)) == Ok::<
            Seq<crate::archive::ListEntryView>,
            crate::error::Failure,
        >(entries.map_values(|e: FileEntryView| list_view(e))),
{
    let h = FileHeader { version: VERSION, flags: 0, chunk_size };
    let blob = chunk_blob(chunks);
    let eb = entries_blob(entries);
    let ft = Footer { index_offset: (32 + blob.len()) as u64, index_count: entries.len() as u32 };
    let fb = footer_bytes(ft);
    let hb = header_bytes(h);
    let a = archive_bytes(chunk_size, chunks, entries);
    assert(a == hb + blob + eb + fb);
    lemma_footer_roundtrip(hb + blob + eb, ft);
    lemma_assoc(hb, blob, eb, fb);
    lemma_header_roundtrip(h, blob + eb + fb);
    assert(hb.len() == 32);
    assert(entries.take(0) =~= Seq::<FileEntryView>::empty());
    assert(entries_blob(Seq::<FileEntryView>::empty()) == Seq::<u8>::empty());
    lemma_entries_read(hb + blob, entries, 0, fb);
    assert(entries.skip(0) =~= entries);
}

// ── Chunk records ───────────────────────────────────────────────────────────

/// The record states its data's length and CRC-32.
pub open spec fn chunk_stored(r: ChunkRecord, d: Seq<u8>) -> bool {
    r.compressed_len == d.len() && r.checksum_comp == crc32(d)
}

/// Every chunk's record states its data's length and CRC-32.
pub open spec fn chunks_stored(chunks: Seq<(ChunkRecord, Seq<u8>)>) -> bool {
    forall|k: int| 0 <= k < chunks.len() ==> #[trigger] chunk_stored(chunks[k].0, chunks[k].1)
}

/// The chunks are numbered in order from 0, as `ArchiveWriter` hands out
/// chunk ids.
pub open spec fn chunks_numbered(chunks: Seq<(ChunkRecord, Seq<u8>)>) -> bool {
    forall|k: int| 0 <= k < chunks.len() ==> #[trigger] chunks[k].0.chunk_id == k
}

/// Every chunk's data unpacks: it decompresses to data of the recorded
/// original length that matches the recorded CRC-32 of the original.
pub open spec fn chunks_unpack(chunks: Seq<(ChunkRecord, Seq<u8>)>) -> bool {
    forall|k: int| 0 <= k < chunks.len() ==> #[trigger] unpacks_whole(chunks[k])
}

/// The chunk's data unpacks to data of its recorded original length.
pub open spec fn unpacks_whole(c: (ChunkRecord, Seq<u8>)) -> bool {
    spec_unpack_chunk(c.1, c.0.chunk_id, c.0) matches Ok(d) && d.len() == c.0.original_len
}

/// No chunk's original length exceeds the chunk size.
pub open spec fn chunks_fit(chunks: Seq<(ChunkRecord, Seq<u8>)>, chunk_size: u32) -> bool {
    forall|k: int| 0 <= k < chunks.len() ==> #[trigger] chunks[k].0.original_len <= chunk_size
}

/// Writing chunk records in two goes writes the same bytes as writing them
/// all at once (so successive `ArchiveWriter::add_file` calls lay out the
/// chunk records of all files in order).
pub proof fn lemma_chunk_blob_concat(
    x: Seq<(ChunkRecord, Seq<u8>)>,
    y: Seq<(ChunkRecord, Seq<u8>)>,
)
    ensures
        chunk_blob(x + y) == chunk_blob(x) + chunk_blob(y),
    decreases y.len(),
{
    if y.len() == 0 {
        assert(x + y =~= x);
        assert(chunk_blob(x) + chunk_blob(y) =~= chunk_blob(x));
    } else {
        lemma_chunk_blob_concat(x, y.drop_last());
        assert((x + y).drop_last() =~= x + y.drop_last());
        assert((x + y).last() == y.last());
        let hd = chunk_header_bytes(y.last().0) + y.last().1;
        assert(chunk_blob(x) + chunk_blob(y.drop_last()) + chunk_header_bytes(y.last().0) + y.last().1
            =~= chunk_blob(x) + (chunk_blob(y.drop_last()) + chunk_header_bytes(y.last().0)
            + y.last().1));
    }
}

proof fn lemma_chunk_blob_split(cs: Seq<(ChunkRecord, Seq<u8>)>, j: int)
    requires
        0 <= j < cs.len(),
    ensures
        chunk_blob(cs) == chunk_blob(cs.take(j)) + (chunk_header_bytes(cs[j].0) + cs[j].1)
            + chunk_blob(cs.skip(j + 1)),
        chunk_blob(cs.take(j + 1)) == chunk_blob(cs.take(j)) + (chunk_header_bytes(cs[j].0)
            + cs[j].1),
{
    let c = cs[j];
    let head = cs.take(j);
    let tail = cs.skip(j + 1);
    assert(cs =~= (head + seq![c]) + tail);
    assert(cs.take(j + 1) =~= head + seq![c]);
    lemma_chunk_blob_concat(head + seq![c], tail);
    lemma_chunk_blob_concat(head, seq![c]);
    assert(seq![c].drop_last() =~= Seq::<(ChunkRecord, Seq<u8>)>::empty());
    assert(chunk_blob(Seq::<(ChunkRecord, Seq<u8>)>::empty()) == Seq::<u8>::empty());
    assert(chunk_blob(seq![c]) =~= chunk_header_bytes(c.0) + c.1);
}

proof fn lemma_chunk_header_len(r: ChunkRecord)
    ensures
        chunk_header_bytes(r).len() == 34,
{
}

proof fn lemma_assoc_chunk(p: Seq<u8>, h: Seq<u8>, d: Seq<u8>, r: Seq<u8>)
    ensures
        p + (h + d) + r == p + h + d + r,
{
    assert(p + (h + d) + r =~= p + h + d + r);
}

/// The chunk record at the `j`-th position of the chunk records reads back
/// with its data, and the next one follows right after it.
proof fn lemma_chunk_at(
    pre: Seq<u8>,
    cs: Seq<(ChunkRecord, Seq<u8>)>,
    j: int,
    post: Seq<u8>,
)
    requires
        0 <= j < cs.len(),
        chunk_stored(cs[j].0, cs[j].1),
    ensures
        ({
            let a = pre + chunk_blob(cs) + post;
            let p = (pre.len() + chunk_blob(cs.take(j)).len()) as int;
            &&& spec_read_chunk(a, p as nat) == Ok::<(ChunkRecord, Seq<u8>), Failure>(cs[j])
            &&& a[p] == CHUNK_TAG
            &&& chunk_fields_at(a, p) == cs[j].0
            &&& a.subrange(p + 34, p + 34 + cs[j].1.len()) == cs[j].1
            &&& p + 34 + cs[j].1.len() == pre.len() + chunk_blob(cs.take(j + 1)).len()
            &&& chunk_blob(cs.take(j + 1)).len() <= chunk_blob(cs).len()
        }),
{
    lemma_chunk_blob_split(cs, j);
    let x = chunk_blob(cs.take(j));
    let y = chunk_blob(cs.skip(j + 1));
    let h = chunk_header_bytes(cs[j].0);
    let d = cs[j].1;
    lemma_chunk_header_len(cs[j].0);
    lemma_regroup(pre, x, h + d, y, post);
    lemma_assoc_chunk(pre + x, h, d, y + post);
    lemma_chunk_roundtrip(pre + x, cs[j].0, d, y + post);
}

/// Each chunk record takes at least its 34 header bytes.
proof fn lemma_chunk_blob_len(cs: Seq<(ChunkRecord, Seq<u8>)>, j: int)
    requires
        0 <= j <= cs.len(),
    ensures
        chunk_blob(cs.take(j)).len() >= 34 * j,
        chunk_blob(cs.take(j)).len() <= chunk_blob(cs).len(),
    decreases j,
{
    if j == cs.len() {
        assert(cs.take(j) =~= cs);
    }
    if j > 0 {
        lemma_chunk_blob_len(cs, j - 1);
        lemma_chunk_blob_split(cs, j - 1);
        lemma_chunk_header_len(cs[j - 1].0);
        lemma_chunk_blob_len_mono(cs, j);
    }
}

proof fn lemma_chunk_blob_len_mono(cs: Seq<(ChunkRecord, Seq<u8>)>, j: int)
    requires
        0 <= j <= cs.len(),
    ensures
        chunk_blob(cs.take(j)).len() <= chunk_blob(cs).len(),
{
    assert(cs =~= cs.take(j) + cs.skip(j));
    lemma_chunk_blob_concat(cs.take(j), cs.skip(j));
}

proof fn lemma_test_from(
    pre: Seq<u8>,
    cs: Seq<(ChunkRecord, Seq<u8>)>,
    post: Seq<u8>,
    j: nat,
    chunk_size: u32,
)
    requires
        pre.len() == 32,
        j <= cs.len(),
        chunks_stored(cs),
        chunks_unpack(cs),
        chunks_fit(cs, chunk_size),
    ensures
        test_scan(
            pre + chunk_blob(cs) + post,
            32 + chunk_blob(cs.take(j as int)).len(),
            32 + chunk_blob(cs).len(),
            j,
            chunk_size,
        ) == Ok::<nat, Failure>(cs.len()),
    decreases cs.len() - j,
{
    let a = pre + chunk_blob(cs) + post;
    if j == cs.len() {
        assert(cs.take(j as int) =~= cs);
    } else {
        let k = j as int;
        assert(chunk_stored(cs[k].0, cs[k].1));
        assert(unpacks_whole(cs[k]));
        lemma_chunk_at(pre, cs, k, post);
        lemma_chunk_blob_len(cs, k + 1);
        lemma_chunk_header_len(cs[k].0);
        assert(cs[k].0.original_len <= chunk_size);
        lemma_test_from(pre, cs, post, j + 1, chunk_size);
    }
}

/// Testing an archive written with these chunks verifies every one of them,
/// when each record states its data's length and CRC-32 and each chunk's
/// data unpacks.
pub proof fn lemma_test_written(
    chunk_size: u32,
    chunks: Seq<(ChunkRecord, Seq<u8>)>,
    entries: Seq<FileEntryView>,
)
    requires
        chunks_stored(chunks),
        chunks_unpack(chunks),
        chunks_fit(chunks, chunk_size),
        32 + chunk_blob(chunks).len() <= u64::MAX,
    ensures
        spec_test_archive(archive_bytes(chunk_size, chunks, entries)) == Ok::<nat, Failure>(
            chunks.len(),
        ),
{
    let h = FileHeader { version: VERSION, flags: 0, chunk_size };
    let blob = chunk_blob(chunks);
    let eb = entries_blob(entries);
    let ft = Footer { index_offset: (32 + blob.len()) as u64, index_count: entries.len() as u32 };
    let fb = footer_bytes(ft);
    let hb = header_bytes(h);
    let a = archive_bytes(chunk_size, chunks, entries);
    assert(a == hb + blob + eb + fb);
    lemma_footer_roundtrip(hb + blob + eb, ft);
    lemma_assoc(hb, blob, eb, fb);
    lemma_header_roundtrip(h, blob + eb + fb);
    assert(hb.len() == 32);
    assert(a =~= hb + blob + (eb + fb));
    assert(chunks.take(0) =~= Seq::<(ChunkRecord, Seq<u8>)>::empty());
    assert(chunk_blob(Seq::<(ChunkRecord, Seq<u8>)>::empty()) == Seq::<u8>::empty());
    lemma_test_from(hb, chunks, eb + fb, 0, chunk_size);
}

// ── Chunk map and extraction ────────────────────────────────────────────────

/// The data offset of the `k`-th chunk record of an archive whose chunk
/// records start right after the 32-byte header.
pub open spec fn data_offset_of(chunks: Seq<(ChunkRecord, Seq<u8>)>, k: int) -> int {
    (32 + chunk_blob(chunks.take(k)).len() + 34) as int
}

/// The chunk map after scanning the first `j` chunk records.
pub open spec fn chunk_map_of(chunks: Seq<(ChunkRecord, Seq<u8>)>, j: int) -> Map<
    u64,
    (u64, ChunkRecord),
>
    decreases j,
{
    if j <= 0 {
        Map::empty()
    } else {
        chunk_map_of(chunks, j - 1).insert(
            chunks[j - 1].0.chunk_id,
            (data_offset_of(chunks, j - 1) as u64, chunks[j - 1].0),
        )
    }
}

proof fn lemma_scan_from(
    pre: Seq<u8>,
    cs: Seq<(ChunkRecord, Seq<u8>)>,
    post: Seq<u8>,
    j: nat,
    steps: nat,
)
    requires
        pre.len() == 32,
        j <= cs.len(),
        steps >= cs.len() - j,
        chunks_stored(cs),
        (pre + chunk_blob(cs) + post).len() <= 0x7FFF_FFFF_FFFF_FFFF,
    ensures
        chunk_scan(
            pre + chunk_blob(cs) + post,
            32 + chunk_blob(cs.take(j as int)).len(),
            32 + chunk_blob(cs).len(),
            chunk_map_of(cs, j as int),
            steps,
        ) == Some(Ok::<Map<u64, (u64, ChunkRecord)>, Failure>(chunk_map_of(cs, cs.len() as int))),
    decreases cs.len() - j,
{
    if j == cs.len() {
        assert(cs.take(j as int) =~= cs);
    } else {
        let k = j as int;
        assert(chunk_stored(cs[k].0, cs[k].1));
        lemma_chunk_at(pre, cs, k, post);
        lemma_chunk_blob_len(cs, k + 1);
        lemma_chunk_header_len(cs[k].0);
        lemma_scan_from(pre, cs, post, j + 1, (steps - 1) as nat);
    }
}

proof fn lemma_map_contents(cs: Seq<(ChunkRecord, Seq<u8>)>, j: int, k: int)
    requires
        0 <= k < j <= cs.len(),
        chunks_numbered(cs),
    ensures
        chunk_map_of(cs, j).contains_key(k as u64),
        chunk_map_of(cs, j)[k as u64] == (data_offset_of(cs, k) as u64, cs[k].0),
    decreases j,
{
    let key = cs[j - 1].0.chunk_id;
    assert(key == j - 1);
    assert(cs[k].0.chunk_id == k);
    if k < j - 1 {
        lemma_map_contents(cs, j - 1, k);
        assert(k as u64 != key);
    }
}

/// The parts of an archive written with these chunks and entries, and what
/// its header and footer read back as.
proof fn lemma_written_frame(
    chunk_size: u32,
    chunks: Seq<(ChunkRecord, Seq<u8>)>,
    entries: Seq<FileEntryView>,
)
    ensures
        ({
            let a = archive_bytes(chunk_size, chunks, entries);
            let h = FileHeader { version: VERSION, flags: 0, chunk_size };
            let ft = Footer {
                index_offset: (32 + chunk_blob(chunks).len()) as u64,
                index_count: entries.len() as u32,
            };
            &&& a == header_bytes(h) + chunk_blob(chunks) + (entries_blob(entries) + footer_bytes(
                ft,
            ))
            &&& header_bytes(h).len() == 32
            &&& spec_read_header(a) == Ok::<FileHeader, Failure>(h)
            &&& spec_read_footer(a) == Ok::<Footer, Failure>(ft)
        }),
{
    let h = FileHeader { version: VERSION, flags: 0, chunk_size };
    let blob = chunk_blob(chunks);
    let eb = entries_blob(entries);
    let ft = Footer { index_offset: (32 + blob.len()) as u64, index_count: entries.len() as u32 };
    let fb = footer_bytes(ft);
    let hb = header_bytes(h);
    let a = archive_bytes(chunk_size, chunks, entries);
    assert(a == hb + blob + eb + fb);
    lemma_footer_roundtrip(hb + blob + eb, ft);
    lemma_assoc(hb, blob, eb, fb);
    lemma_header_roundtrip(h, blob + eb + fb);
    assert(a =~= hb + blob + (eb + fb));
}

proof fn lemma_chunk_map_written(
    chunk_size: u32,
    chunks: Seq<(ChunkRecord, Seq<u8>)>,
    entries: Seq<FileEntryView>,
)
    requires
        chunks_stored(chunks),
        archive_bytes(chunk_size, chunks, entries).len() <= 0x7FFF_FFFF_FFFF_FFFF,
    ensures
        spec_chunk_map(
            archive_bytes(chunk_size, chunks, entries),
            (32 + chunk_blob(chunks).len()) as nat,
        ) == Some(
            Ok::<Map<u64, (u64, ChunkRecord)>, Failure>(
                chunk_map_of(chunks, chunks.len() as int),
            ),
        ),
{
    let a = archive_bytes(chunk_size, chunks, entries);
    let h = FileHeader { version: VERSION, flags: 0, chunk_size };
    let ft = Footer {
        index_offset: (32 + chunk_blob(chunks).len()) as u64,
        index_count: entries.len() as u32,
    };
    lemma_written_frame(chunk_size, chunks, entries);
    assert(chunks.take(0) =~= Seq::<(ChunkRecord, Seq<u8>)>::empty());
    assert(chunk_blob(Seq::<(ChunkRecord, Seq<u8>)>::empty()) == Seq::<u8>::empty());
    lemma_chunk_blob_len(chunks, chunks.len() as int);
    assert(chunks.take(chunks.len() as int) =~= chunks);
    lemma_scan_from(header_bytes(h), chunks, entries_blob(entries) + footer_bytes(ft), 0, a.len());
}

/// Opening an archive written with these chunks and entries gives the
/// entries back, and through its chunk map each chunk's data unpacks as
/// the chunk does on its own; when each record states its data's length and
/// CRC-32, the chunks are numbered from 0, each name fits its length field
/// and the archive is under 2^63 bytes.
pub proof fn lemma_open_written(
    chunk_size: u32,
    chunks: Seq<(ChunkRecord, Seq<u8>)>,
    entries: Seq<FileEntryView>,
)
    requires
        chunks_stored(chunks),
        chunks_numbered(chunks),
        names_fit(entries),
        entries.len() <= u32::MAX,
        archive_bytes(chunk_size, chunks, entries).len() <= 0x7FFF_FFFF_FFFF_FFFF,
    ensures
        spec_open_archive(archive_bytes(chunk_size, chunks, entries)) == Some(
            Ok::<(Seq<FileEntryView>, Map<u64, (u64, ChunkRecord)>), Failure>(
                (entries, chunk_map_of(chunks, chunks.len() as int)),
            ),
        ),
        forall|k: int|
            0 <= k < chunks.len() ==> #[trigger] spec_chunk_data(
                archive_bytes(chunk_size, chunks, entries),
                chunk_map_of(chunks, chunks.len() as int),
                k as u64,
            ) == spec_unpack_chunk(chunks[k].1, k as u64, chunks[k].0),
{
    let a = archive_bytes(chunk_size, chunks, entries);
    let h = FileHeader { version: VERSION, flags: 0, chunk_size };
    let ft = Footer {
        index_offset: (32 + chunk_blob(chunks).len()) as u64,
        index_count: entries.len() as u32,
    };
    lemma_written_frame(chunk_size, chunks, entries);
    lemma_list_written(chunk_size, chunks, entries);
    lemma_chunk_map_written(chunk_size, chunks, entries);
    let m = chunk_map_of(chunks, chunks.len() as int);
    assert(spec_open_archive(a) == Some(
        Ok::<(Seq<FileEntryView>, Map<u64, (u64, ChunkRecord)>), Failure>((entries, m)),
    ));
    lemma_chunk_data_written(chunk_size, chunks, entries);
}

proof fn lemma_chunk_data_written(
    chunk_size: u32,
    chunks: Seq<(ChunkRecord, Seq<u8>)>,
    entries: Seq<FileEntryView>,
)
    requires
        chunks_stored(chunks),
        chunks_numbered(chunks),
        archive_bytes(chunk_size, chunks, entries).len() <= u64::MAX,
    ensures
        forall|k: int|
            0 <= k < chunks.len() ==> #[trigger] spec_chunk_data(
                archive_bytes(chunk_size, chunks, entries),
                chunk_map_of(chunks, chunks.len() as int),
                k as u64,
            ) == spec_unpack_chunk(chunks[k].1, k as u64, chunks[k].0),
{
    let a = archive_bytes(chunk_size, chunks, entries);
    let h = FileHeader { version: VERSION, flags: 0, chunk_size };
    let ft = Footer {
        index_offset: (32 + chunk_blob(chunks).len()) as u64,
        index_count: entries.len() as u32,
    };
    let hb = header_bytes(h);
    let post = entries_blob(entries) + footer_bytes(ft);
    let m = chunk_map_of(chunks, chunks.len() as int);
    lemma_written_frame(chunk_size, chunks, entries);
    assert forall|k: int| 0 <= k < chunks.len() implies #[trigger] spec_chunk_data(a, m, k as u64)
        == spec_unpack_chunk(chunks[k].1, k as u64, chunks[k].0) by {
        lemma_chunk_data_one(hb, chunks, post, k);
    }
}

proof fn lemma_chunk_data_one(
    pre: Seq<u8>,
    chunks: Seq<(ChunkRecord, Seq<u8>)>,
    post: Seq<u8>,
    k: int,
)
    requires
        pre.len() == 32,
        chunks_stored(chunks),
        chunks_numbered(chunks),
        0 <= k < chunks.len(),
        (pre + chunk_blob(chunks) + post).len() <= u64::MAX,
    ensures
        spec_chunk_data(
            pre + chunk_blob(chunks) + post,
            chunk_map_of(chunks, chunks.len() as int),
            k as u64,
        ) == spec_unpack_chunk(chunks[k].1, k as u64, chunks[k].0),
{
    assert(chunk_stored(chunks[k].0, chunks[k].1));
    lemma_map_contents(chunks, chunks.len() as int, k);
    lemma_chunk_at(pre, chunks, k, post);
    lemma_chunk_blob_len(chunks, k + 1);
    if chunks[k].1.len() == 0 {
        assert(chunks[k].1 =~= Seq::<u8>::empty());
    }
}

/// The data of a file: what its chunks unpack to, concatenated in order.
pub open spec fn file_data(chunks: Seq<(ChunkRecord, Seq<u8>)>, e: FileEntryView) -> Seq<u8> {
    concat_chunks(unpacked_run(chunks, e.first_chunk as int, e.chunk_count as nat))
}

/// The chunk map records chunk `id` with original length `n`.
pub open spec fn recorded_len(m: Map<u64, (u64, ChunkRecord)>, id: u64, n: nat) -> bool {
    m.contains_key(id) && m[id].1.original_len == n
}

/// The extraction failed as a decompression bomb under this limit.
pub open spec fn bomb_for(r: Result<(Seq<u8>, nat), Failure>, limit: u64) -> bool {
    r matches Err(Failure::DecompressionBomb { limit: l, .. }) && l == limit
}

/// The data a chunk unpacks to (empty where it does not unpack).
pub open spec fn unpacked(c: (ChunkRecord, Seq<u8>)) -> Seq<u8> {
    match spec_unpack_chunk(c.1, c.0.chunk_id, c.0) {
        Ok(d) => d,
        Err(_) => seq![],
    }
}

/// What the `count` chunks from the `first`-th unpack to, in order.
pub open spec fn unpacked_run(chunks: Seq<(ChunkRecord, Seq<u8>)>, first: int, count: nat) -> Seq<
    Seq<u8>,
> {
    Seq::new(count, |j: int| unpacked(chunks[first + j]))
}

proof fn lemma_concat_front(x: Seq<u8>, ys: Seq<Seq<u8>>)
    ensures
        concat_chunks(seq![x] + ys) == x + concat_chunks(ys),
    decreases ys.len(),
{
    assert(concat_chunks(Seq::<Seq<u8>>::empty()) == Seq::<u8>::empty());
    if ys.len() == 0 {
        assert(seq![x] + ys =~= seq![x]);
        assert(seq![x].drop_last() =~= Seq::<Seq<u8>>::empty());
        assert(concat_chunks(seq![x]) == concat_chunks(seq![x].drop_last()) + x);
        assert(Seq::<u8>::empty() + x =~= x);
        assert(x + Seq::<u8>::empty() =~= x);
    } else {
        lemma_concat_front(x, ys.drop_last());
        assert((seq![x] + ys).drop_last() =~= seq![x] + ys.drop_last());
        assert(x + concat_chunks(ys.drop_last()) + ys.last() =~= x + (concat_chunks(ys.drop_last())
            + ys.last()));
    }
}

proof fn lemma_extract_from(
    a: Seq<u8>,
    m: Map<u64, (u64, ChunkRecord)>,
    first: u64,
    ds: Seq<Seq<u8>>,
    i: nat,
    total: nat,
    limit: u64,
)
    requires
        i <= ds.len(),
        total <= limit,
        forall|j: int|
            i <= j < ds.len() ==> #[trigger] spec_chunk_data(a, m, chunk_id_at(first, j as nat))
                == Ok::<Seq<u8>, Failure>(ds[j]) && recorded_len(m, chunk_id_at(first, j as nat), ds[j].len()),
    ensures
        total + concat_chunks(ds.skip(i as int)).len() <= limit ==> extract_from(
            a,
            m,
            first,
            i,
            ds.len(),
            total,
            limit,
        ) == Ok::<(Seq<u8>, nat), Failure>(
            (concat_chunks(ds.skip(i as int)), total + concat_chunks(ds.skip(i as int)).len()),
        ),
        total + concat_chunks(ds.skip(i as int)).len() > limit ==> bomb_for(
            extract_from(a, m, first, i, ds.len(), total, limit),
            limit,
        ),
    decreases ds.len() - i,
{
    if i == ds.len() {
        assert(ds.skip(i as int) =~= Seq::<Seq<u8>>::empty());
    } else {
        let d = ds[i as int];
        let j: int = i as int;
        assert(spec_chunk_data(a, m, chunk_id_at(first, j as nat)) == Ok::<Seq<u8>, Failure>(d)
            && recorded_len(m, chunk_id_at(first, j as nat), d.len()));
        assert(ds.skip(i as int) =~= seq![d] + ds.skip(i + 1int));
        lemma_concat_front(d, ds.skip(i + 1int));
        if total + d.len() <= limit {
            lemma_extract_from(a, m, first, ds, i + 1, total + d.len(), limit);
        }
    }
}

/// Extracting a file whose chunks all read back gives their data
/// concatenated, and the running total grown by its length, while that
/// total stays within the limit; past the limit it fails as a
/// decompression bomb.
pub proof fn lemma_extract_gathers(
    a: Seq<u8>,
    m: Map<u64, (u64, ChunkRecord)>,
    first: u64,
    ds: Seq<Seq<u8>>,
    total: nat,
    limit: u64,
)
    requires
        total <= limit,
        forall|j: int|
            0 <= j < ds.len() ==> #[trigger] spec_chunk_data(a, m, chunk_id_at(first, j as nat))
                == Ok::<Seq<u8>, Failure>(ds[j]) && recorded_len(m, chunk_id_at(first, j as nat), ds[j].len()),
    ensures
        total + concat_chunks(ds).len() <= limit ==> extract_from(
            a,
            m,
            first,
            0,
            ds.len(),
            total,
            limit,
        ) == Ok::<(Seq<u8>, nat), Failure>((concat_chunks(ds), total + concat_chunks(ds).len())),
        total + concat_chunks(ds).len() > limit ==> bomb_for(
            extract_from(a, m, first, 0, ds.len(), total, limit),
            limit,
        ),
{
    assert(ds.skip(0) =~= ds);
    lemma_extract_from(a, m, first, ds, 0, total, limit);
}

/// Extracting a file of an archive written with these chunks and entries
/// gives back what its chunks unpack to, concatenated in order, while the
/// running total stays within the limit, and fails as a decompression bomb
/// past it; when the archive meets the conditions of `lemma_open_written`,
/// every chunk's data unpacks, and the file's chunks lie among those
/// written.
pub proof fn lemma_extract_written(
    chunk_size: u32,
    chunks: Seq<(ChunkRecord, Seq<u8>)>,
    entries: Seq<FileEntryView>,
    i: int,
    total: nat,
    limit: u64,
)
    requires
        chunks_stored(chunks),
        chunks_numbered(chunks),
        chunks_unpack(chunks),
        names_fit(entries),
        entries.len() <= u32::MAX,
        archive_bytes(chunk_size, chunks, entries).len() <= 0x7FFF_FFFF_FFFF_FFFF,
        0 <= i < entries.len(),
        entries[i].first_chunk + entries[i].chunk_count <= chunks.len(),
        total <= limit,
    ensures
        spec_open_archive(archive_bytes(chunk_size, chunks, entries)) == Some(
            Ok::<(Seq<FileEntryView>, Map<u64, (u64, ChunkRecord)>), Failure>(
                (entries, chunk_map_of(chunks, chunks.len() as int)),
            ),
        ),
        total + file_data(chunks, entries[i]).len() <= limit ==> extract_from(
            archive_bytes(chunk_size, chunks, entries),
            chunk_map_of(chunks, chunks.len() as int),
            entries[i].first_chunk,
            0,
            entries[i].chunk_count as nat,
            total,
            limit,
        ) == Ok::<(Seq<u8>, nat), Failure>(
            (file_data(chunks, entries[i]), total + file_data(chunks, entries[i]).len()),
        ),
        total + file_data(chunks, entries[i]).len() > limit ==> bomb_for(
            extract_from(
                archive_bytes(chunk_size, chunks, entries),
                chunk_map_of(chunks, chunks.len() as int),
                entries[i].first_chunk,
                0,
                entries[i].chunk_count as nat,
                total,
                limit,
            ),
            limit,
        ),
{
    let a = archive_bytes(chunk_size, chunks, entries);
    let e = entries[i];
    let ds = unpacked_run(chunks, e.first_chunk as int, e.chunk_count as nat);
    lemma_open_written(chunk_size, chunks, entries);
    let m = chunk_map_of(chunks, chunks.len() as int);
    lemma_run_reads(chunk_size, chunks, entries, e.first_chunk, e.chunk_count as nat);
    lemma_extract_gathers(a, m, e.first_chunk, ds, total, limit);
}

proof fn lemma_run_reads(
    chunk_size: u32,
    chunks: Seq<(ChunkRecord, Seq<u8>)>,
    entries: Seq<FileEntryView>,
    first: u64,
    count: nat,
)
    requires
        chunks_stored(chunks),
        chunks_numbered(chunks),
        chunks_unpack(chunks),
        archive_bytes(chunk_size, chunks, entries).len() <= u64::MAX,
        first + count <= chunks.len(),
    ensures
        forall|j: int|
            0 <= j < count ==> #[trigger] spec_chunk_data(
                archive_bytes(chunk_size, chunks, entries),
                chunk_map_of(chunks, chunks.len() as int),
                chunk_id_at(first, j as nat),
            ) == Ok::<Seq<u8>, Failure>(unpacked_run(chunks, first as int, count)[j])
                && recorded_len(
                chunk_map_of(chunks, chunks.len() as int),
                chunk_id_at(first, j as nat),
                unpacked_run(chunks, first as int, count)[j].len(),
            ),
{
    let a = archive_bytes(chunk_size, chunks, entries);
    let m = chunk_map_of(chunks, chunks.len() as int);
    let ds = unpacked_run(chunks, first as int, count);
    lemma_chunk_data_written(chunk_size, chunks, entries);
    assert forall|j: int| 0 <= j < count implies #[trigger] spec_chunk_data(
        a,
        m,
        chunk_id_at(first, j as nat),
    ) == Ok::<Seq<u8>, Failure>(ds[j]) && recorded_len(m, chunk_id_at(first, j as nat), ds[j].len())
        by {
        let k = first + j;
        lemma_map_contents(chunks, chunks.len() as int, k);
        assert(chunk_id_at(first, j as nat) == k as u64);
        assert(spec_chunk_data(a, m, k as u64) == spec_unpack_chunk(
            chunks[k].1,
            k as u64,
            chunks[k].0,
        ));
        assert(chunks[k].0.chunk_id == k);
        assert(unpacks_whole(chunks[k]));
    }
}

// ── Files written by the program ─────────────────────────────────────────────

/// `c` is what `compress_chunk` gives for `piece` under chunk id `id`, at
/// some level.
pub open spec fn chunk_written(c: (ChunkRecord, Seq<u8>), id: u64, piece: Seq<u8>) -> bool {
    &&& c.0 == chunk_record_for(id, piece, c.1)
    &&& exists|level: crate::codec::Level| is_full_compression(c.1, piece, level)
}

/// The chunks are the pieces compressed by `compress_chunk` with ids
/// counting from 0, each piece within the chunk size.
pub open spec fn chunks_written(
    chunks: Seq<(ChunkRecord, Seq<u8>)>,
    pieces: Seq<Seq<u8>>,
    chunk_size: u32,
) -> bool {
    &&& chunks.len() == pieces.len()
    &&& forall|k: int|
        0 <= k < chunks.len() ==> #[trigger] chunk_written(chunks[k], k as u64, pieces[k])
            && pieces[k].len() <= chunk_size
}

proof fn lemma_chunks_written(
    chunks: Seq<(ChunkRecord, Seq<u8>)>,
    pieces: Seq<Seq<u8>>,
    chunk_size: u32,
)
    requires
        chunks_written(chunks, pieces, chunk_size),
        forall|k: int| 0 <= k < chunks.len() ==> #[trigger] chunks[k].1.len() <= u64::MAX,
        chunks.len() <= u64::MAX + 1,
    ensures
        chunks_stored(chunks),
        chunks_numbered(chunks),
        chunks_unpack(chunks),
        chunks_fit(chunks, chunk_size),
        forall|k: int| 0 <= k < chunks.len() ==> #[trigger] unpacked(chunks[k]) == pieces[k],
{
    assert forall|k: int| 0 <= k < chunks.len() implies #[trigger] chunk_stored(
        chunks[k].0,
        chunks[k].1,
    ) && chunks[k].0.chunk_id == k && unpacks_whole(chunks[k]) && chunks[k].0.original_len
        <= chunk_size && unpacked(chunks[k]) == pieces[k] by {
        assert(chunk_written(chunks[k], k as u64, pieces[k]));
        lemma_compressed_chunk_unpacks(k as u64, pieces[k], chunks[k].1);
    }
    assert forall|k: int| 0 <= k < chunks.len() implies #[trigger] chunks[k].0.chunk_id == k by {
        assert(chunk_stored(chunks[k].0, chunks[k].1));
    }
    assert forall|k: int| 0 <= k < chunks.len() implies #[trigger] unpacks_whole(chunks[k]) by {
        assert(chunk_stored(chunks[k].0, chunks[k].1));
    }
    assert forall|k: int| 0 <= k < chunks.len() implies #[trigger] chunks[k].0.original_len
        <= chunk_size by {
        assert(chunk_stored(chunks[k].0, chunks[k].1));
    }
    assert forall|k: int| 0 <= k < chunks.len() implies #[trigger] unpacked(chunks[k])
        == pieces[k] by {
        assert(chunk_stored(chunks[k].0, chunks[k].1));
    }
}

/// The pieces of file `e`, in order.
pub open spec fn file_pieces(pieces: Seq<Seq<u8>>, e: FileEntryView) -> Seq<Seq<u8>> {
    pieces.subrange(e.first_chunk as int, e.first_chunk + e.chunk_count)
}

/// Create, then read back: for an archive written from pieces compressed by
/// `compress_chunk` with ids counting from 0 (as `ArchiveWriter::add_file`
/// requires), listing gives the entries, testing verifies every chunk, and
/// extracting a file gives back exactly its pieces concatenated, while the
/// running total stays within the limit (past it, a decompression bomb).
/// Only length limits are assumed: each piece within the chunk size,
/// names within the 16-bit length field, at most
/// u32::MAX entries, an archive under 2^63 bytes, and the file's chunks
/// among those written.
pub proof fn lemma_files_roundtrip(
    chunk_size: u32,
    chunks: Seq<(ChunkRecord, Seq<u8>)>,
    pieces: Seq<Seq<u8>>,
    entries: Seq<FileEntryView>,
    i: int,
    total: nat,
    limit: u64,
)
    requires
        chunks_written(chunks, pieces, chunk_size),
        names_fit(entries),
        entries.len() <= u32::MAX,
        archive_bytes(chunk_size, chunks, entries).len() <= 0x7FFF_FFFF_FFFF_FFFF,
        0 <= i < entries.len(),
        entries[i].first_chunk + entries[i].chunk_count <= chunks.len(),
        total <= limit,
    ensures
        spec_list_archive(archive_bytes(chunk_size, chunks, entries)) == Ok::<
            Seq<crate::archive::ListEntryView>,
            Failure,
        >(entries.map_values(|e: FileEntryView| list_view(e))),
        spec_test_archive(archive_bytes(chunk_size, chunks, entries)) == Ok::<nat, Failure>(
            chunks.len(),
        ),
        spec_open_archive(archive_bytes(chunk_size, chunks, entries)) == Some(
            Ok::<(Seq<FileEntryView>, Map<u64, (u64, ChunkRecord)>), Failure>(
                (entries, chunk_map_of(chunks, chunks.len() as int)),
            ),
        ),
        total + concat_chunks(file_pieces(pieces, entries[i])).len() <= limit ==> extract_from(
            archive_bytes(chunk_size, chunks, entries),
            chunk_map_of(chunks, chunks.len() as int),
            entries[i].first_chunk,
            0,
            entries[i].chunk_count as nat,
            total,
            limit,
        ) == Ok::<(Seq<u8>, nat), Failure>(
            (
                concat_chunks(file_pieces(pieces, entries[i])),
                total + concat_chunks(file_pieces(pieces, entries[i])).len(),
            ),
        ),
        total + concat_chunks(file_pieces(pieces, entries[i])).len() > limit ==> bomb_for(
            extract_from(
                archive_bytes(chunk_size, chunks, entries),
                chunk_map_of(chunks, chunks.len() as int),
                entries[i].first_chunk,
                0,
                entries[i].chunk_count as nat,
                total,
                limit,
            ),
            limit,
        ),
{
    let a = archive_bytes(chunk_size, chunks, entries);
    lemma_chunk_blob_len(chunks, chunks.len() as int);
    assert(chunks.take(chunks.len() as int) =~= chunks);
    assert forall|k: int| 0 <= k < chunks.len() implies #[trigger] chunks[k].1.len() <= u64::MAX by {
        lemma_chunk_blob_split(chunks, k);
    }
    lemma_chunks_written(chunks, pieces, chunk_size);
    lemma_list_written(chunk_size, chunks, entries);
    lemma_test_written(chunk_size, chunks, entries);
    lemma_extract_written(chunk_size, chunks, entries, i, total, limit);
    let e = entries[i];
    assert(unpacked_run(chunks, e.first_chunk as int, e.chunk_count as nat) =~= file_pieces(
        pieces,
        e,
    ));
}

/// Create, then read back one whole file: when its pieces are `data` split
/// at the archive's chunk size (as `split_into_chunks` splits it) and its
/// entry records `data`'s length, the listing reports that length and
/// ceil(len / chunk_size) chunks, and extracting it gives back exactly
/// `data` while the running total stays within the limit (past it, a
/// decompression bomb). The length limits are those of
/// `lemma_files_roundtrip`.
pub proof fn lemma_file_roundtrip(
    chunk_size: u32,
    chunks: Seq<(ChunkRecord, Seq<u8>)>,
    pieces: Seq<Seq<u8>>,
    entries: Seq<FileEntryView>,
    i: int,
    data: Seq<u8>,
    total: nat,
    limit: u64,
)
    requires
        chunks_written(chunks, pieces, chunk_size),
        names_fit(entries),
        entries.len() <= u32::MAX,
        archive_bytes(chunk_size, chunks, entries).len() <= 0x7FFF_FFFF_FFFF_FFFF,
        0 <= i < entries.len(),
        entries[i].first_chunk + entries[i].chunk_count <= chunks.len(),
        chunk_size > 0,
        is_chunking(file_pieces(pieces, entries[i]), data, chunk_size as nat),
        entries[i].original_size == data.len(),
        total <= limit,
    ensures
        spec_list_archive(archive_bytes(chunk_size, chunks, entries)) == Ok::<
            Seq<crate::archive::ListEntryView>,
            Failure,
        >(entries.map_values(|e: FileEntryView| list_view(e))),
        list_view(entries[i]).original_size == data.len(),
        list_view(entries[i]).chunk_count == (data.len() + chunk_size - 1) / (chunk_size as int),
        total + data.len() <= limit ==> extract_from(
            archive_bytes(chunk_size, chunks, entries),
            chunk_map_of(chunks, chunks.len() as int),
            entries[i].first_chunk,
            0,
            entries[i].chunk_count as nat,
            total,
            limit,
        ) == Ok::<(Seq<u8>, nat), Failure>((data, total + data.len())),
        total + data.len() > limit ==> bomb_for(
            extract_from(
                archive_bytes(chunk_size, chunks, entries),
                chunk_map_of(chunks, chunks.len() as int),
                entries[i].first_chunk,
                0,
                entries[i].chunk_count as nat,
                total,
                limit,
            ),
            limit,
        ),
{
    lemma_files_roundtrip(chunk_size, chunks, pieces, entries, i, total, limit);
    lemma_chunking_count(file_pieces(pieces, entries[i]), data, chunk_size as nat);
}

} // verus!
