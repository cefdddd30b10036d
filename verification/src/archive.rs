//! Archive operations over an archive held in memory: path sanitising,
//! chunking and chunk compression for creation; reading the index; listing;
//! locating chunks; testing every chunk; and extracting chunk data under a
//! decompression limit.

use vstd::prelude::*;

use std::collections::HashMap;

use crate::checksum::{crc32, Crc32};
use crate::codec::lz77::spec_lz77_depth;
use crate::codec::{chain_depth_of, compress_full_output, compress_full, decompress, is_full_compression, spec_decompress, CodecId, Level};
use crate::bytes::{read_le32, read_le64};
use crate::error::{decimal, decimal_text, io_error, io_failure, AxcError, Failure, IoFailure};
use crate::format::{chunk_header_bytes, entry_bytes, footer_bytes, header_bytes, VERSION, copy_range, push_all, chunk_fields_at, spec_read_chunk, spec_read_entry, spec_read_footer, spec_read_header, ChunkRecord, FileEntry, FileEntryView, FileHeader, Footer, CHUNK_TAG, DEFAULT_CHUNK_SIZE};

verus! {

// ── Safety limits ─────────────────────────────────────────────────────────────

/// Maximum decompressed size per archive (1 GiB default).
pub const MAX_DECOMPRESS_SIZE: u64 = 1073741824;

// ── Path sanitising ───────────────────────────────────────────────────────────

/// The end of the path component starting at `i`: the next '/' or the end.
pub open spec fn seg_end(c: Seq<char>, i: int) -> int
    decreases c.len() - i,
{
    if i >= c.len() || c[i] == '/' {
        i
    } else {
        seg_end(c, i + 1)
    }
}

pub proof fn lemma_seg_end(c: Seq<char>, i: int)
    requires
        0 <= i <= c.len(),
    ensures
        i <= seg_end(c, i) <= c.len(),
        seg_end(c, i) < c.len() ==> c[seg_end(c, i)] == '/',
        forall|k: int| i <= k < seg_end(c, i) ==> c[k] != '/',
    decreases c.len() - i,
{
    if i < c.len() && c[i] != '/' {
        lemma_seg_end(c, i + 1);
    }
}

/// `done` prepended to the segments of `r`, when there are any.
pub open spec fn prepend_segments(done: Seq<Seq<char>>, r: Option<Seq<Seq<char>>>) -> Option<
    Seq<Seq<char>>,
> {
    match r {
        Some(rest) => Some(done + rest),
        None => None,
    }
}

/// The normal components of the path from character `i` on: empty and "."
/// components are dropped; `None` when a ".." component occurs.
pub open spec fn kept_segments(c: Seq<char>, i: int) -> Option<Seq<Seq<char>>>
    decreases c.len() - i,
{
    if i < 0 || i > c.len() {
        Some(seq![])
    } else {
        let e = seg_end(c, i);
        proof {
            lemma_seg_end(c, i);
        }
        let seg = c.subrange(i, e);
        let rest = if e < c.len() {
            kept_segments(c, e + 1)
        } else {
            Some(seq![])
        };
        if seg == seq!['.', '.'] {
            None
        } else if seg.len() == 0 || seg == seq!['.'] {
            rest
        } else {
            prepend_segments(seq![seg], rest)
        }
    }
}

/// Components joined with '/'.
pub open spec fn join_segments(segs: Seq<Seq<char>>) -> Seq<char>
    decreases segs.len(),
{
    if segs.len() == 0 {
        seq![]
    } else if segs.len() == 1 {
        segs[0]
    } else {
        join_segments(segs.drop_last()) + seq!['/'] + segs.last()
    }
}

/// The relative path a stored name may be extracted to, or `None` when it is
/// absolute, climbs with "..", or names nothing.
pub open spec fn spec_sanitise(c: Seq<char>) -> Option<Seq<char>> {
    if c.len() > 0 && c[0] == '/' {
        None
    } else {
        match kept_segments(c, 0) {
            None => None,
            Some(k) => if k.len() == 0 {
                None
            } else {
                Some(join_segments(k))
            },
        }
    }
}

/// A component that a sanitised path may hold: nonempty, without '/', and
/// neither "." nor "..".
pub open spec fn safe_component(seg: Seq<char>) -> bool {
    &&& seg.len() > 0
    &&& forall|k: int| 0 <= k < seg.len() ==> seg[k] != '/'
    &&& seg != seq!['.', '.']
    &&& seg != seq!['.']
}

proof fn lemma_kept_segments_safe(c: Seq<char>, i: int)
    requires
        0 <= i <= c.len(),
    ensures
        kept_segments(c, i) matches Some(k) ==> forall|j: int|
            0 <= j < k.len() ==> #[trigger] safe_component(k[j]),
    decreases c.len() - i,
{
    lemma_seg_end(c, i);
    let e = seg_end(c, i);
    if e < c.len() {
        lemma_kept_segments_safe(c, e + 1);
    }
    let seg = c.subrange(i, e);
    match kept_segments(c, i) {
        Some(k) => {
            if !(seg == seq!['.', '.'] || seg.len() == 0 || seg == seq!['.']) {
                let rest = if e < c.len() {
                    kept_segments(c, e + 1)
                } else {
                    Some(seq![])
                };
                let r = rest->0;
                assert(k == seq![seg] + r);
                assert forall|j: int| 0 <= j < k.len() implies #[trigger] safe_component(k[j]) by {
                    if j > 0 {
                        assert(k[j] == r[j - 1]);
                    } else {
                        assert(k[0] == seg);
                    }
                }
            }
        },
        None => {},
    }
}

/// A path that sanitising accepts is relative and made of components that
/// are nonempty, hold no '/', and are neither "." nor "..", joined with
/// '/': it cannot name anything outside the directory it is joined to.
pub proof fn lemma_sanitised_path_is_contained(c: Seq<char>)
    ensures
        spec_sanitise(c) matches Some(p) ==> exists|k: Seq<Seq<char>>|
            {
                &&& k.len() > 0
                &&& p == join_segments(k)
                &&& forall|j: int| 0 <= j < k.len() ==> #[trigger] safe_component(k[j])
            },
{
    lemma_kept_segments_safe(c, 0);
    match kept_segments(c, 0) {
        Some(k) => {
            if spec_sanitise(c) is Some {
                assert(spec_sanitise(c) == Some(join_segments(k)));
            }
        },
        None => {},
    }
}

proof fn lemma_seg_end_append(a: Seq<char>, w: Seq<char>, i: int)
    requires
        0 <= i <= a.len(),
    ensures
        seg_end(a + seq!['/'] + w, i) == seg_end(a, i),
    decreases a.len() - i,
{
    let c = a + seq!['/'] + w;
    if i < a.len() {
        assert(c[i] == a[i]);
        if a[i] != '/' {
            lemma_seg_end_append(a, w, i + 1);
        }
    } else {
        assert(c[i] == '/');
    }
}

proof fn lemma_seg_end_no_slash(c: Seq<char>, i: int)
    requires
        0 <= i <= c.len(),
        forall|k: int| i <= k < c.len() ==> c[k] != '/',
    ensures
        seg_end(c, i) == c.len(),
    decreases c.len() - i,
{
    if i < c.len() {
        lemma_seg_end_no_slash(c, i + 1);
    }
}

proof fn lemma_seg_end_shift(p: Seq<char>, b: Seq<char>, j: int)
    requires
        0 <= j <= b.len(),
    ensures
        seg_end(p + b, p.len() + j) == p.len() + seg_end(b, j),
    decreases b.len() - j,
{
    if j < b.len() {
        assert((p + b)[p.len() + j] == b[j]);
        if b[j] != '/' {
            lemma_seg_end_shift(p, b, j + 1);
        }
    }
}

/// What a last component contributes to the kept components.
spec fn last_kept(w: Seq<char>) -> Option<Seq<Seq<char>>> {
    if w == seq!['.', '.'] {
        None
    } else if w.len() == 0 || w == seq!['.'] {
        Some(seq![])
    } else {
        Some(seq![w])
    }
}

spec fn join_kept(x: Option<Seq<Seq<char>>>, y: Option<Seq<Seq<char>>>) -> Option<Seq<Seq<char>>> {
    match x {
        None => None,
        Some(p) => match y {
            None => None,
            Some(q) => Some(p + q),
        },
    }
}

proof fn lemma_kept_append(a: Seq<char>, w: Seq<char>, i: int)
    requires
        0 <= i <= a.len(),
        forall|k: int| 0 <= k < w.len() ==> w[k] != '/',
    ensures
        kept_segments(a + seq!['/'] + w, i) == join_kept(kept_segments(a, i), last_kept(w)),
    decreases a.len() - i,
{
    let c = a + seq!['/'] + w;
    lemma_seg_end(a, i);
    lemma_seg_end_append(a, w, i);
    let e = seg_end(a, i);
    let seg = c.subrange(i, e);
    assert(seg =~= a.subrange(i, e));
    let rest_a = if e < a.len() {
        kept_segments(a, e + 1)
    } else {
        Some(seq![])
    };
    let rest_c = kept_segments(c, e + 1);
    if e < a.len() {
        lemma_kept_append(a, w, e + 1);
    } else {
        let t: int = a.len() as int + 1;
        assert forall|k: int| t <= k < c.len() implies c[k] != '/' by {
            assert(c[k] == w[k - t]);
        }
        lemma_seg_end_no_slash(c, t);
        assert(c.subrange(t, c.len() as int) =~= w);
        match last_kept(w) {
            Some(q) => {
                assert(seq![] + q =~= q);
                if !(w == seq!['.', '.'] || w.len() == 0 || w == seq!['.']) {
                    assert(seq![w] + seq![] =~= seq![w]);
                }
            },
            None => {},
        }
    }
    assert(rest_c == join_kept(rest_a, last_kept(w)));
    if !(seg == seq!['.', '.'] || seg.len() == 0 || seg == seq!['.']) {
        match rest_a {
            Some(r) => match last_kept(w) {
                Some(q) => {
                    assert(seq![seg] + (r + q) =~= (seq![seg] + r) + q);
                },
                None => {},
            },
            None => {},
        }
    }
}

proof fn lemma_kept_shift(p: Seq<char>, b: Seq<char>, j: int)
    requires
        0 <= j <= b.len(),
    ensures
        kept_segments(p + b, p.len() + j) == kept_segments(b, j),
    decreases b.len() - j,
{
    let c = p + b;
    lemma_seg_end(b, j);
    lemma_seg_end_shift(p, b, j);
    let e = seg_end(b, j);
    assert(c.subrange(p.len() + j, p.len() + e) =~= b.subrange(j, e));
    if e < b.len() {
        lemma_kept_shift(p, b, e + 1);
    }
}

/// A name that is a single component, nonempty, without '/', and neither
/// "." nor "..", is accepted unchanged (hidden names such as ".gitignore"
/// included); the empty name, ".", ".." and names starting with '/' are
/// refused.
pub proof fn lemma_sanitise_single(w: Seq<char>)
    ensures
        safe_component(w) ==> spec_sanitise(w) == Some(w),
        spec_sanitise(seq![]) == None::<Seq<char>>,
        spec_sanitise(seq!['.']) == None::<Seq<char>>,
        spec_sanitise(seq!['.', '.']) == None::<Seq<char>>,
        w.len() > 0 && w[0] == '/' ==> spec_sanitise(w) == None::<Seq<char>>,
{
    if safe_component(w) {
        lemma_seg_end_no_slash(w, 0);
        assert(w.subrange(0, w.len() as int) =~= w);
        assert(seq![w] + seq![] =~= seq![w]);
    }
    let e: Seq<char> = seq![];
    lemma_seg_end_no_slash(e, 0);
    assert(e.subrange(0, 0) =~= e);
    let d: Seq<char> = seq!['.'];
    lemma_seg_end_no_slash(d, 0);
    assert(d.subrange(0, 1) =~= d);
    let dd: Seq<char> = seq!['.', '.'];
    lemma_seg_end_no_slash(dd, 0);
    assert(dd.subrange(0, 2) =~= dd);
}

/// Appending a component `w` (no '/') to a name: a ".." component refuses
/// the name, an empty or "." component changes nothing, and any other
/// component is appended unchanged, after a '/', to what the name gave (or,
/// when the name gave nothing, is the whole result unless the name is
/// refused).
pub proof fn lemma_sanitise_append(a: Seq<char>, w: Seq<char>)
    requires
        forall|k: int| 0 <= k < w.len() ==> w[k] != '/',
    ensures
        w == seq!['.', '.'] ==> spec_sanitise(a + seq!['/'] + w) == None::<Seq<char>>,
        w.len() == 0 || w == seq!['.'] ==> spec_sanitise(a + seq!['/'] + w) == spec_sanitise(a),
        safe_component(w) ==> match spec_sanitise(a) {
            Some(x) => spec_sanitise(a + seq!['/'] + w) == Some(x + seq!['/'] + w),
            None => spec_sanitise(a + seq!['/'] + w) == None::<Seq<char>>
                || spec_sanitise(a + seq!['/'] + w) == Some(w),
        },
{
    let c = a + seq!['/'] + w;
    lemma_kept_append(a, w, 0);
    if a.len() > 0 {
        assert(c[0] == a[0]);
    } else {
        assert(c[0] == '/');
        lemma_sanitise_single(a);
    }
    match kept_segments(a, 0) {
        Some(k) => {
            if safe_component(w) {
                let k2 = k + seq![w];
                assert(k2.drop_last() =~= k);
                assert(k2.last() == w);
                if k.len() == 0 {
                    assert(k2 =~= seq![w]);
                }
            } else if w.len() == 0 || w == seq!['.'] {
                assert(k + seq![] =~= k);
            }
        },
        None => {},
    }
}

/// A leading "./" is dropped: the name after it sanitises to the same
/// result (when it does not start with '/').
pub proof fn lemma_sanitise_dot_prefix(b: Seq<char>)
    requires
        b.len() == 0 || b[0] != '/',
    ensures
        spec_sanitise(seq!['.', '/'] + b) == spec_sanitise(b),
{
    let p: Seq<char> = seq!['.', '/'];
    let c = p + b;
    assert(c[0] == '.' && c[1] == '/');
    assert(seg_end(c, 1) == 1);
    assert(seg_end(c, 0) == 1);
    assert(c.subrange(0, 1) =~= seq!['.']);
    lemma_kept_shift(p, b, 0);
    lemma_sanitise_single(b);
}

fn str_chars(s: &str) -> (v: Vec<char>)
    ensures
        v@ == s@,
{
    let mut v: Vec<char> = Vec::new();
    for c in it: s.chars()
        invariant
            v@ == it.seq().take(it.index() as int),
    {
        v.push(c);
    }
    v
}

/// Sanitise a path from the archive so that it never escapes the output
/// directory. Blocks absolute paths and ".." components; drops empty and
/// "." components; gives the remaining components joined with '/'.
pub fn sanitise_path(raw: &str) -> (res: Result<String, AxcError>)
    ensures
        match spec_sanitise(raw@) {
            Some(p) => res matches Ok(s) && s@ == p,
            None => res matches Err(e) && e@ == Failure::PathTraversal(raw@),
        },
{
    let chars = str_chars(raw);
    let n = chars.len();
    let ghost c = raw@;
    if n > 0 && chars[0] == '/' {
        return Err(AxcError::PathTraversal(raw.to_owned()));
    }
    let mut out = String::new();
    let mut count: usize = 0;
    let ghost mut done: Seq<Seq<char>> = seq![];
    let mut i: usize = 0;
    proof {
        reveal_strlit("/");
    }
    loop
        invariant_except_break
            chars@ == c,
            c == raw@,
            n == c.len(),
            i <= n,
            count <= i,
            count == done.len(),
            out@ == join_segments(done),
            kept_segments(c, 0) == prepend_segments(done, kept_segments(c, i as int)),
        ensures
            chars@ == c,
            c == raw@,
            count == done.len(),
            out@ == join_segments(done),
            kept_segments(c, 0) == Some(done),
        decreases n - i,
    {
        proof {
            lemma_seg_end(c, i as int);
        }
        let mut e = i;
        while e < n && chars[e] != '/'
            invariant
                chars@ == c,
                n == c.len(),
                i <= e <= n,
                seg_end(c, i as int) == seg_end(c, e as int),
            decreases n - e,
        {
            e = e + 1;
        }
        assert(seg_end(c, i as int) == e);
        let ghost seg = c.subrange(i as int, e as int);
        if e - i == 2 && chars[i] == '.' && chars[i + 1] == '.' {
            assert(seg =~= seq!['.', '.']);
            return Err(AxcError::PathTraversal(raw.to_owned()));
        }
        assert(seg.len() == e - i);
        assert(seg != seq!['.', '.']) by {
            if e - i == 2 {
                assert(seg[0] == chars@[i as int]);
                assert(seg[1] == chars@[i + 1]);
                assert(seq!['.', '.'][0] == '.');
            }
        }
        let ghost rest = if e < n {
            kept_segments(c, e + 1)
        } else {
            Some(seq![])
        };
        if e == i || (e - i == 1 && chars[i] == '.') {
            proof {
                if e - i == 1 {
                    assert(seg =~= seq!['.']);
                }
            }
        } else {
            assert(seg.len() != 0 && seg != seq!['.']) by {
                if e - i == 1 {
                    assert(seg[0] == chars@[i as int]);
                    assert(seq!['.'][0] == '.');
                }
            }
            let ghost old_done = done;
            if count > 0 {
                out.append("/");
            }
            let part = raw.substring_char(i, e);
            out.append(part);
            count = count + 1;
            proof {
                reveal_strlit("/");
                done = done.push(seg);
                assert(done.drop_last() =~= old_done);
                if old_done.len() == 0 {
                    assert(out@ =~= join_segments(done));
                }
                match rest {
                    Some(r) => {
                        assert(old_done + (seq![seg] + r) =~= done + r);
                    },
                    None => {},
                }
            }
        }
        if e >= n {
            proof {
                assert(done + seq![] =~= done);
            }
            break;
        }
        i = e + 1;
    }
    if count == 0 {
        return Err(AxcError::PathTraversal(raw.to_owned()));
    }
    Ok(out)
}

// ── Chunk splitting and chunk compression ─────────────────────────────────────

/// The chunks concatenated.
pub open spec fn concat_chunks(cs: Seq<Seq<u8>>) -> Seq<u8>
    decreases cs.len(),
{
    if cs.len() == 0 {
        seq![]
    } else {
        concat_chunks(cs.drop_last()) + cs.last()
    }
}

/// `cs` splits `data` into pieces of `size` bytes, the last one possibly
/// shorter but not empty.
pub open spec fn is_chunking(cs: Seq<Seq<u8>>, data: Seq<u8>, size: nat) -> bool {
    &&& concat_chunks(cs) == data
    &&& forall|i: int| 0 <= i < cs.len() - 1 ==> #[trigger] cs[i].len() == size
    &&& cs.len() > 0 ==> 0 < cs.last().len() <= size
}

/// Every piece but the last is full, so the pieces cover
/// `(n - 1) * size + last` bytes.
proof fn lemma_concat_full_pieces(cs: Seq<Seq<u8>>, size: nat)
    requires
        cs.len() > 0,
        forall|i: int| 0 <= i < cs.len() - 1 ==> #[trigger] cs[i].len() == size,
    ensures
        concat_chunks(cs).len() == (cs.len() - 1) * size + cs.last().len(),
    decreases cs.len(),
{
    assert(concat_chunks(cs) == concat_chunks(cs.drop_last()) + cs.last());
    if cs.len() > 1 {
        let d = cs.drop_last();
        assert forall|i: int| 0 <= i < d.len() - 1 implies #[trigger] d[i].len() == size by {
            assert(d[i] == cs[i]);
        }
        lemma_concat_full_pieces(d, size);
        assert(d.last() == cs[cs.len() - 2]);
        assert((d.len() - 1) * size + size == (cs.len() - 1) * size) by (nonlinear_arith)
            requires
                d.len() + 1 == cs.len(),
        ;
    } else {
        assert(cs.drop_last() =~= Seq::<Seq<u8>>::empty());
        assert(concat_chunks(cs.drop_last()) == Seq::<u8>::empty());
    }
}

/// A chunking of `data` into pieces of `size` bytes has
/// ceil(len / size) pieces.
pub proof fn lemma_chunking_count(cs: Seq<Seq<u8>>, data: Seq<u8>, size: nat)
    requires
        size > 0,
        is_chunking(cs, data, size),
    ensures
        cs.len() == (data.len() + size - 1) / (size as int),
{
    if cs.len() == 0 {
        assert(data.len() == 0);
        vstd::arithmetic::div_mod::lemma_fundamental_div_mod_converse(
            (size - 1) as int,
            size as int,
            0,
            (size - 1) as int,
        );
    } else {
        lemma_concat_full_pieces(cs, size);
        let k = cs.len() as int;
        let r = cs.last().len() as int;
        assert(data.len() + size - 1 == (k - 1) * size + r + size - 1);
        assert((k - 1) * size + r + size - 1 == k * (size as int) + (r - 1)) by (nonlinear_arith);
        vstd::arithmetic::div_mod::lemma_fundamental_div_mod_converse(
            data.len() + size - 1,
            size as int,
            k,
            r - 1,
        );
    }
}

/// Splits `data` into consecutive pieces of `chunk_size` bytes (the last
/// may be shorter).
pub fn split_into_chunks(data: &[u8], chunk_size: usize) -> (chunks: Vec<&[u8]>)
    requires
        chunk_size > 0,
    ensures
        is_chunking(chunks@.map_values(|c: &[u8]| c@), data@, chunk_size as nat),
        chunks@.len() == (data@.len() + chunk_size - 1) / (chunk_size as int),
{
    let n = data.len();
    let mut chunks: Vec<&[u8]> = Vec::new();
    let mut start: usize = 0;
    while start < n
        invariant
            n == data@.len(),
            chunk_size > 0,
            start <= n,
            n == 0 || start < n,
            concat_chunks(chunks@.map_values(|c: &[u8]| c@)) == data@.take(start as int),
            forall|i: int| 0 <= i < chunks@.len() ==> #[trigger] chunks@[i]@.len() == chunk_size,
        decreases n - start,
    {
        let end = if n - start > chunk_size {
            start + chunk_size
        } else {
            n
        };
        let piece = vstd::slice::slice_subrange(data, start, end);
        let ghost old_views = chunks@.map_values(|c: &[u8]| c@);
        chunks.push(piece);
        proof {
            let views = chunks@.map_values(|c: &[u8]| c@);
            assert(views.drop_last() =~= old_views);
            assert(data@.take(end as int) =~= data@.take(start as int) + piece@);
        }
        if end == n {
            proof {
                let views = chunks@.map_values(|c: &[u8]| c@);
                assert(data@.take(n as int) =~= data@);
                assert forall|i: int| 0 <= i < views.len() - 1 implies #[trigger] views[i].len()
                    == chunk_size by {
                    assert(views[i] == chunks@[i]@);
                }
                lemma_chunking_count(views, data@, chunk_size as nat);
            }
            return chunks;
        }
        start = end;
    }
    proof {
        let views = chunks@.map_values(|c: &[u8]| c@);
        assert(data@.take(n as int) =~= data@);
        assert(n == 0);
        if views.len() > 0 {
            assert(views.last().len() == chunk_size);
        }
        assert(views.len() == 0) by {
            if views.len() > 0 {
                assert(concat_chunks(views).len() >= views.last().len());
            }
        }
        lemma_chunking_count(views, data@, chunk_size as nat);
    }
    chunks
}

/// The record that describes a compressed chunk.
pub open spec fn chunk_record_for(cid: u64, chunk: Seq<u8>, comp: Seq<u8>) -> ChunkRecord {
    ChunkRecord {
        codec_id: 1,
        chunk_id: cid,
        original_len: chunk.len() as u64,
        compressed_len: comp.len() as u64,
        checksum_orig: crc32(chunk),
        checksum_comp: crc32(comp),
    }
}

/// Compresses one chunk and builds its record: LZ-ANS codec, the given
/// chunk id, both lengths and both CRC-32 checksums.
pub fn compress_chunk(chunk_data: &[u8], cid: u64, level: Level) -> (res: (ChunkRecord, Vec<u8>))
    requires
        chunk_data@.len() <= 0x7FFF_FFF0,
    ensures
        res.1@ == compress_full_output(
            chunk_data@,
            spec_lz77_depth(chunk_data@, chain_depth_of(level)),
        ),
        is_full_compression(res.1@, chunk_data@, level),
        res.0 == chunk_record_for(cid, chunk_data@, res.1@),
{
    let checksum_orig = Crc32::oneshot(chunk_data);
    let compressed = compress_full(chunk_data, level);
    let checksum_comp = Crc32::oneshot(compressed.as_slice());
    let record = ChunkRecord {
        codec_id: CodecId::LzAns.to_u8(),
        chunk_id: cid,
        original_len: chunk_data.len() as u64,
        compressed_len: compressed.len() as u64,
        checksum_orig,
        checksum_comp,
    };
    (record, compressed)
}

// ── Create options ────────────────────────────────────────────────────────────

/// How an archive is created: the compression level and the chunk size.
pub struct CreateOptions {
    pub level: Level,
    pub chunk_size: u32,
}

impl Default for CreateOptions {
    fn default() -> (o: Self)
        ensures
            o.level == Level::Balanced,
            o.chunk_size == DEFAULT_CHUNK_SIZE,
    {
        CreateOptions { level: Level::Balanced, chunk_size: DEFAULT_CHUNK_SIZE }
    }
}

// ── Archive writer ────────────────────────────────────────────────────────────

/// A chunk record followed by its compressed data, as each is written.
pub open spec fn chunk_blob(chunks: Seq<(ChunkRecord, Seq<u8>)>) -> Seq<u8>
    decreases chunks.len(),
{
    if chunks.len() == 0 {
        seq![]
    } else {
        chunk_blob(chunks.drop_last()) + chunk_header_bytes(chunks.last().0) + chunks.last().1
    }
}

/// The index entries, each as it is written.
pub open spec fn entries_blob(es: Seq<FileEntryView>) -> Seq<u8>
    decreases es.len(),
{
    if es.len() == 0 {
        seq![]
    } else {
        entries_blob(es.drop_last()) + entry_bytes(es.last())
    }
}

/// The entry that describes a file of `original_size` bytes stored as
/// `chunks` (its first chunk id is that of the first chunk, or 0).
pub open spec fn entry_for(
    file_id: u64,
    name: Seq<char>,
    original_size: u64,
    mtime: u64,
    mode: u32,
    chunks: Seq<(ChunkRecord, Seq<u8>)>,
) -> FileEntryView {
    FileEntryView {
        file_id,
        mtime,
        mode,
        first_chunk: if chunks.len() > 0 {
            chunks[0].0.chunk_id
        } else {
            0
        },
        chunk_count: chunks.len() as u32,
        original_size,
        name,
    }
}

/// An archive being written: the bytes so far (header, then chunk records),
/// the index entries of the files added, and the next chunk id to hand out.
pub struct ArchiveWriter {
    bytes: Vec<u8>,
    entries: Vec<FileEntry>,
    next_chunk: u64,
}

/// What an archive writer holds: the bytes written so far, the index
/// entries, and the next chunk id.
pub struct ArchiveWriterView {
    pub bytes: Seq<u8>,
    pub entries: Seq<FileEntryView>,
    pub next_chunk: u64,
}

impl View for ArchiveWriter {
    type V = ArchiveWriterView;

    closed spec fn view(&self) -> ArchiveWriterView {
        ArchiveWriterView {
            bytes: self.bytes@,
            entries: entry_views(self.entries@),
            next_chunk: self.next_chunk,
        }
    }
}

impl ArchiveWriter {
    /// Starts an archive: its file header, with the given chunk size.
    pub fn new(chunk_size: u32) -> (w: Self)
        ensures
            w@.bytes == header_bytes(FileHeader { version: VERSION, flags: 0, chunk_size }),
            w@.entries == Seq::<FileEntryView>::empty(),
            w@.next_chunk == 0,
    {
        let header = FileHeader::new(chunk_size);
        let mut bytes: Vec<u8> = Vec::new();
        header.write(&mut bytes);
        let w = ArchiveWriter { bytes, entries: Vec::new(), next_chunk: 0 };
        assert(entry_views(w.entries@) =~= Seq::<FileEntryView>::empty());
        w
    }

    /// The bytes written so far: the header, then the chunk records.
    pub fn written(&self) -> (b: &[u8])
        ensures
            b@ == self@.bytes,
    {
        self.bytes.as_slice()
    }

    /// The chunk id that the next chunk written gets; chunk ids count up
    /// from 0 over the whole archive.
    pub fn next_chunk_id(&self) -> (id: u64)
        ensures
            id == self@.next_chunk,
    {
        self.next_chunk
    }

    /// Adds a file: writes its compressed chunks in order and records its
    /// index entry, whose file id is the number of files added before it.
    /// The chunks carry consecutive ids from the writer's next chunk id.
    pub fn add_file(
        &mut self,
        name: String,
        original_size: u64,
        mtime: u64,
        mode: u32,
        chunks: &[(ChunkRecord, Vec<u8>)],
    )
        requires
            forall|j: int|
                0 <= j < chunks@.len() ==> #[trigger] chunks@[j].0.chunk_id == chunk_id_at(
                    old(self)@.next_chunk,
                    j as nat,
                ),
        ensures
            final(self)@.bytes == old(self)@.bytes + chunk_blob(
                chunks@.map_values(|c: (ChunkRecord, Vec<u8>)| (c.0, c.1@)),
            ),
            final(self)@.entries == old(self)@.entries.push(
                entry_for(
                    old(self)@.entries.len() as u64,
                    name@,
                    original_size,
                    mtime,
                    mode,
                    chunks@.map_values(|c: (ChunkRecord, Vec<u8>)| (c.0, c.1@)),
                ),
            ),
            final(self)@.next_chunk == chunk_id_at(old(self)@.next_chunk, chunks@.len()),
    {
        let ghost cs = chunks@.map_values(|c: (ChunkRecord, Vec<u8>)| (c.0, c.1@));
        let ghost start = self.bytes@;
        let ghost entries0 = self.entries@;
        let ghost next0 = self.next_chunk;
        let mut i: usize = 0;
        while i < chunks.len()
            invariant
                i <= chunks@.len(),
                self.entries@ == entries0,
                self.next_chunk == next0,
                cs == chunks@.map_values(|c: (ChunkRecord, Vec<u8>)| (c.0, c.1@)),
                self.bytes@ == start + chunk_blob(cs.take(i as int)),
            decreases chunks@.len() - i,
        {
            let (record, data) = &chunks[i];
            record.write(&mut self.bytes, data.as_slice());
            proof {
                assert(cs.take(i + 1).drop_last() =~= cs.take(i as int));
                assert(cs.take(i + 1).last() == cs[i as int]);
            }
            i = i + 1;
        }
        assert(cs.take(chunks@.len() as int) =~= cs);
        let first_chunk = if chunks.len() > 0 {
            chunks[0].0.chunk_id
        } else {
            0
        };
        let file_id = self.entries.len() as u64;
        let entry = FileEntry {
            file_id,
            mtime,
            mode,
            first_chunk,
            chunk_count: chunks.len() as u32,
            original_size,
            name: name,
        };
        let ghost old_views = entry_views(self.entries@);
        assert(cs.len() == chunks@.len());
        assert(cs.len() > 0 ==> cs[0].0 == chunks@[0].0);
        assert(entry@ == entry_for(old_views.len() as u64, name@, original_size, mtime, mode, cs));
        self.entries.push(entry);
        assert(entry_views(self.entries@) =~= old_views.push(entry@));
        self.next_chunk = self.next_chunk.wrapping_add(chunks.len() as u64);
    }

    /// Finishes the archive: the index entries after the chunk records, then
    /// the footer that points at them.
    pub fn finish(self) -> (out: Vec<u8>)
        ensures
            out@ == self@.bytes + entries_blob(self@.entries) + footer_bytes(
                Footer {
                    index_offset: self@.bytes.len() as u64,
                    index_count: self@.entries.len() as u32,
                },
            ),
    {
        let ArchiveWriter { bytes, entries, next_chunk: _ } = self;
        let mut out = bytes;
        let index_offset = out.len() as u64;
        let ghost start = out@;
        let ghost ev = entry_views(entries@);
        let mut i: usize = 0;
        while i < entries.len()
            invariant
                i <= entries@.len(),
                ev == entry_views(entries@),
                out@ == start + entries_blob(ev.take(i as int)),
            decreases entries@.len() - i,
        {
            entries[i].write(&mut out);
            proof {
                assert(ev.take(i + 1).drop_last() =~= ev.take(i as int));
                assert(ev.take(i + 1).last() == entries@[i as int]@);
            }
            i = i + 1;
        }
        assert(ev.take(entries@.len() as int) =~= ev);
        let footer = Footer { index_offset, index_count: entries.len() as u32 };
        footer.write(&mut out);
        out
    }
}

// ── Read index ────────────────────────────────────────────────────────────────

/// The `n` entries from position `pos` on, or the first failure.
pub open spec fn entries_from(a: Seq<u8>, pos: nat, n: nat) -> Result<Seq<FileEntryView>, Failure>
    decreases n,
{
    if n == 0 {
        Ok(seq![])
    } else {
        match spec_read_entry(a, pos) {
            Err(f) => Err(f),
            Ok((e, next)) => match entries_from(a, next, (n - 1) as nat) {
                Err(f) => Err(f),
                Ok(r) => Ok(seq![e] + r),
            },
        }
    }
}

/// `done` followed by what `r` holds.
pub open spec fn prepend_entries(done: Seq<FileEntryView>, r: Result<Seq<FileEntryView>, Failure>) -> Result<Seq<FileEntryView>, Failure> {
    match r {
        Ok(rest) => Ok(done + rest),
        Err(f) => Err(f),
    }
}

/// The index that the footer points to, or the failure.
pub open spec fn spec_read_index(a: Seq<u8>) -> Result<Seq<FileEntryView>, Failure> {
    match spec_read_footer(a) {
        Err(f) => Err(f),
        Ok(ft) => entries_from(a, ft.index_offset as nat, ft.index_count as nat),
    }
}

/// The views of a sequence of entries.
pub open spec fn entry_views(v: Seq<FileEntry>) -> Seq<FileEntryView> {
    v.map_values(|e: FileEntry| e@)
}

/// Reads the index that the footer points to: its entries in order.
pub fn read_index(archive: &[u8]) -> (res: Result<Vec<FileEntry>, AxcError>)
    ensures
        match spec_read_index(archive@) {
            Ok(es) => res matches Ok(v) && entry_views(v@) == es,
            Err(f) => res matches Err(e) && e@ == f,
        },
{
    let footer = match Footer::read(archive) {
        Ok(f) => f,
        Err(e) => {
            return Err(e);
        },
    };
    let mut pos: u64 = footer.index_offset;
    let mut entries: Vec<FileEntry> = Vec::new();
    let mut i: u32 = 0;
    while i < footer.index_count
        invariant
            i <= footer.index_count,
            spec_read_footer(archive@) == Ok::<Footer, Failure>(footer),
            entries_from(archive@, footer.index_offset as nat, footer.index_count as nat)
                == prepend_entries(
                entry_views(entries@),
                entries_from(archive@, pos as nat, (footer.index_count - i) as nat),
            ),
        decreases footer.index_count - i,
    {
        let (entry, next) = match FileEntry::read(archive, pos) {
            Ok(r) => r,
            Err(e) => {
                return Err(e);
            },
        };
        let ghost old_views = entry_views(entries@);
        entries.push(entry);
        proof {
            assert(entry_views(entries@) =~= old_views.push(entry@));
            match entries_from(archive@, next as nat, (footer.index_count - i - 1) as nat) {
                Ok(r) => {
                    assert(old_views + (seq![entry@] + r) =~= entry_views(entries@) + r);
                },
                Err(_) => {},
            }
        }
        pos = next;
        i = i + 1;
    }
    assert(entry_views(entries@) + seq![] =~= entry_views(entries@));
    Ok(entries)
}

// ── List archive ──────────────────────────────────────────────────────────────

/// One file of an archive listing.
pub struct ListEntry {
    pub name: String,
    pub original_size: u64,
    pub mtime: u64,
    pub chunk_count: u32,
}

/// A listed file with its name as characters.
pub struct ListEntryView {
    pub name: Seq<char>,
    pub original_size: u64,
    pub mtime: u64,
    pub chunk_count: u32,
}

impl View for ListEntry {
    type V = ListEntryView;

    open spec fn view(&self) -> ListEntryView {
        ListEntryView {
            name: self.name@,
            original_size: self.original_size,
            mtime: self.mtime,
            chunk_count: self.chunk_count,
        }
    }
}

/// The listing of one index entry.
pub open spec fn list_view(e: FileEntryView) -> ListEntryView {
    ListEntryView {
        name: e.name,
        original_size: e.original_size,
        mtime: e.mtime,
        chunk_count: e.chunk_count,
    }
}

/// The listing of an archive: its header must read, then each index entry
/// gives its name, size, mtime and chunk count.
pub open spec fn spec_list_archive(a: Seq<u8>) -> Result<Seq<ListEntryView>, Failure> {
    match spec_read_header(a) {
        Err(f) => Err(f),
        Ok(_) => match spec_read_index(a) {
            Err(f) => Err(f),
            Ok(es) => Ok(es.map_values(|e: FileEntryView| list_view(e))),
        },
    }
}

/// Lists the files of an archive: name, original size, mtime and chunk
/// count of each index entry, after checking the file header.
pub fn list_archive(archive: &[u8]) -> (res: Result<Vec<ListEntry>, AxcError>)
    ensures
        match spec_list_archive(archive@) {
            Ok(ls) => res matches Ok(v) && v@.map_values(|l: ListEntry| l@) == ls,
            Err(f) => res matches Err(e) && e@ == f,
        },
{
    match FileHeader::read(archive) {
        Ok(_) => {},
        Err(e) => {
            return Err(e);
        },
    }
    let entries = match read_index(archive) {
        Ok(v) => v,
        Err(e) => {
            return Err(e);
        },
    };
    let ghost ev = entry_views(entries@);
    let mut out: Vec<ListEntry> = Vec::new();
    let mut i: usize = 0;
    while i < entries.len()
        invariant
            i <= entries@.len(),
            ev == entry_views(entries@),
            out@.map_values(|l: ListEntry| l@) =~= ev.take(i as int).map_values(
                |e: FileEntryView| list_view(e),
            ),
        decreases entries@.len() - i,
    {
        let e = &entries[i];
        let ghost old_out = out@;
        out.push(
            ListEntry {
                name: e.name.clone(),
                original_size: e.original_size,
                mtime: e.mtime,
                chunk_count: e.chunk_count,
            },
        );
        proof {
            assert(ev.take(i + 1) =~= ev.take(i as int).push(ev[i as int]));
            assert(ev[i as int] == entries@[i as int]@);
            assert(out@.map_values(|l: ListEntry| l@) =~= old_out.map_values(|l: ListEntry| l@).push(
                out@[i as int]@));
        }
        i = i + 1;
    }
    assert(ev.take(entries@.len() as int) =~= ev);
    Ok(out)
}

// ── Chunk map ─────────────────────────────────────────────────────────────────

/// A measure that shrinks as a scan moves forward through the archive.
pub open spec fn scan_measure(a: Seq<u8>, pos: nat) -> nat {
    if pos <= a.len() {
        (a.len() - pos + 1) as nat
    } else {
        0
    }
}

/// Where a scan goes after the chunk header at `pos`: past the header and
/// then by the compressed length taken as a signed 64-bit offset.
pub open spec fn scan_next(pos: nat, compressed_len: u64) -> int {
    if compressed_len < 0x8000_0000_0000_0000 {
        pos + 34 + compressed_len
    } else {
        pos + 34 + compressed_len - 0x1_0000_0000_0000_0000
    }
}

/// A seek to `p` fails: before the start, or past what a position can hold.
pub open spec fn seek_fails(p: int) -> bool {
    p < 0 || p > u64::MAX
}

/// The map from chunk id to (data offset, record) built by scanning the
/// chunk headers from `pos` until the index offset, the end of the archive
/// or a byte that is not a chunk tag, each header followed by a skip over
/// its data. A chunk header cut short, or a skip to an impossible position,
/// fails. `None` when the scan meets more than `steps` chunk headers.
pub open spec fn chunk_scan(
    a: Seq<u8>,
    pos: nat,
    idx: nat,
    m: Map<u64, (u64, ChunkRecord)>,
    steps: nat,
) -> Option<Result<Map<u64, (u64, ChunkRecord)>, Failure>>
    decreases steps,
{
    if pos >= idx || pos >= a.len() || a[pos as int] != CHUNK_TAG {
        Some(Ok(m))
    } else if pos + 34 > a.len() {
        Some(Err(io_failure(IoFailure::UnexpectedEof)))
    } else {
        let r = chunk_fields_at(a, pos as int);
        let nx = scan_next(pos, r.compressed_len);
        if seek_fails(nx) {
            Some(Err(io_failure(IoFailure::InvalidSeek)))
        } else if steps == 0 {
            None
        } else {
            chunk_scan(
                a,
                nx as nat,
                idx,
                m.insert(r.chunk_id, ((pos + 34) as u64, r)),
                (steps - 1) as nat,
            )
        }
    }
}

/// The scan of the data section, which starts right after the file header
/// and skips past at most one chunk header per archive byte; a scan cut
/// off there never finishes (`lemma_unfinished_scan_never_finishes`).
pub open spec fn spec_chunk_map(a: Seq<u8>, idx: nat) -> Option<
    Result<Map<u64, (u64, ChunkRecord)>, Failure>,
> {
    chunk_scan(a, 32, idx, Map::empty(), a.len())
}

/// The scan meets a chunk header at `p` and skips past it to a position
/// that exists.
pub open spec fn scan_continues(a: Seq<u8>, idx: nat, p: int) -> bool {
    &&& 0 <= p < idx
    &&& p < a.len()
    &&& a[p] == CHUNK_TAG
    &&& p + 34 <= a.len()
    &&& !seek_fails(scan_next(p as nat, chunk_fields_at(a, p).compressed_len))
}

/// The position of the scan after `k` chunk headers.
pub open spec fn scan_pos(a: Seq<u8>, k: nat) -> int
    decreases k,
{
    if k == 0 {
        32
    } else {
        let p = scan_pos(a, (k - 1) as nat);
        scan_next(p as nat, chunk_fields_at(a, p).compressed_len)
    }
}

proof fn lemma_scan_none_if_continues(
    a: Seq<u8>,
    idx: nat,
    k: nat,
    m: Map<u64, (u64, ChunkRecord)>,
    steps: nat,
)
    requires
        forall|t: nat| t <= steps ==> #[trigger] scan_continues(a, idx, scan_pos(a, k + t)),
    ensures
        chunk_scan(a, scan_pos(a, k) as nat, idx, m, steps) is None,
    decreases steps,
{
    assert(scan_continues(a, idx, scan_pos(a, k + 0)));
    assert(k + 0 == k);
    let p = scan_pos(a, k);
    let r = chunk_fields_at(a, p);
    if steps > 0 {
        assert forall|t: nat| t <= (steps - 1) as nat implies #[trigger] scan_continues(
            a,
            idx,
            scan_pos(a, (k + 1) + t),
        ) by {
            assert(scan_continues(a, idx, scan_pos(a, k + (t + 1))));
            assert(k + (t + 1) == (k + 1) + t);
        }
        lemma_scan_none_if_continues(
            a,
            idx,
            k + 1,
            m.insert(r.chunk_id, ((p + 34) as u64, r)),
            (steps - 1) as nat,
        );
        assert(scan_pos(a, k + 1) == scan_next(p as nat, r.compressed_len));
    }
}

proof fn lemma_scan_continues_if_none(
    a: Seq<u8>,
    idx: nat,
    k: nat,
    m: Map<u64, (u64, ChunkRecord)>,
    steps: nat,
)
    requires
        scan_pos(a, k) >= 0,
        chunk_scan(a, scan_pos(a, k) as nat, idx, m, steps) is None,
    ensures
        forall|t: nat| t <= steps ==> #[trigger] scan_continues(a, idx, scan_pos(a, k + t)),
    decreases steps,
{
    let p = scan_pos(a, k);
    let r = chunk_fields_at(a, p);
    assert(scan_continues(a, idx, p));
    if steps > 0 {
        assert(scan_pos(a, k + 1) == scan_next(p as nat, r.compressed_len));
        lemma_scan_continues_if_none(
            a,
            idx,
            k + 1,
            m.insert(r.chunk_id, ((p + 34) as u64, r)),
            (steps - 1) as nat,
        );
        assert forall|t: nat| t <= steps implies #[trigger] scan_continues(
            a,
            idx,
            scan_pos(a, k + t),
        ) by {
            if t == 0 {
                assert(k + t == k);
            } else {
                let u = (t - 1) as nat;
                assert(scan_continues(a, idx, scan_pos(a, (k + 1) + u)));
                assert((k + 1) + u == k + t);
            }
        }
    } else {
        assert forall|t: nat| t <= steps implies #[trigger] scan_continues(
            a,
            idx,
            scan_pos(a, k + t),
        ) by {
            assert(k + t == k);
        }
    }
}

proof fn lemma_scan_pos_shift(a: Seq<u8>, i: nat, j: nat, s: nat)
    requires
        scan_pos(a, i) == scan_pos(a, j),
    ensures
        scan_pos(a, i + s) == scan_pos(a, j + s),
    decreases s,
{
    if s > 0 {
        lemma_scan_pos_shift(a, i, j, (s - 1) as nat);
        assert(scan_pos(a, i + s) == scan_next(
            scan_pos(a, (i + s - 1) as nat) as nat,
            chunk_fields_at(a, scan_pos(a, (i + s - 1) as nat)).compressed_len,
        ));
        assert(scan_pos(a, j + s) == scan_next(
            scan_pos(a, (j + s - 1) as nat) as nat,
            chunk_fields_at(a, scan_pos(a, (j + s - 1) as nat)).compressed_len,
        ));
        assert((i + s - 1) as nat == i + (s - 1) as nat);
        assert((j + s - 1) as nat == j + (s - 1) as nat);
    }
}

/// More headers than archive bytes: some position comes round twice.
proof fn lemma_scan_repeats(a: Seq<u8>, idx: nat)
    requires
        forall|t: nat| t <= a.len() ==> #[trigger] scan_continues(a, idx, scan_pos(a, t)),
    ensures
        exists|i: nat, j: nat| i < j <= a.len() && scan_pos(a, i) == scan_pos(a, j),
{
    let len = a.len();
    let f = |t: int| scan_pos(a, t as nat);
    let x = vstd::set_lib::set_int_range(0, len + 1int);
    let y = x.map(f);
    let r = vstd::set_lib::set_int_range(0, len as int);
    vstd::set_lib::lemma_int_range(0, len + 1int);
    vstd::set_lib::lemma_int_range(0, len as int);
    if !(exists|i: nat, j: nat| i < j <= a.len() && scan_pos(a, i) == scan_pos(a, j)) {
        assert(vstd::relations::injective_on(f, x)) by {
            assert forall|t1: int, t2: int|
                x.contains(t1) && x.contains(t2) && #[trigger] f(t1) == #[trigger] f(t2) implies t1
                == t2 by {
                if t1 < t2 {
                    assert(scan_pos(a, t1 as nat) == scan_pos(a, t2 as nat));
                } else if t2 < t1 {
                    assert(scan_pos(a, t2 as nat) == scan_pos(a, t1 as nat));
                }
            }
        }
        vstd::set_lib::lemma_map_size(x, y, f);
        assert(y.subset_of(r)) by {
            assert forall|p: int| y.contains(p) implies r.contains(p) by {
                let t = choose|t: int| x.contains(t) && f(t) == p;
                assert(scan_continues(a, idx, scan_pos(a, t as nat)));
            }
        }
        vstd::set_lib::lemma_len_subset(y, r);
        assert(false);
    }
}

proof fn lemma_scan_continues_forever(a: Seq<u8>, idx: nat, i: nat, j: nat, t: nat)
    requires
        i < j <= a.len(),
        scan_pos(a, i) == scan_pos(a, j),
        forall|u: nat| u <= a.len() ==> #[trigger] scan_continues(a, idx, scan_pos(a, u)),
    ensures
        scan_continues(a, idx, scan_pos(a, t)),
    decreases t,
{
    if t >= j {
        let s = (t - j) as nat;
        lemma_scan_pos_shift(a, i, j, s);
        assert(j + s == t);
        lemma_scan_continues_forever(a, idx, i, j, i + s);
    }
}

/// A scan cut off after one chunk header per archive byte never finishes:
/// with any number of steps it is cut off too.
pub proof fn lemma_unfinished_scan_never_finishes(a: Seq<u8>, idx: nat, steps: nat)
    requires
        spec_chunk_map(a, idx) is None,
    ensures
        chunk_scan(a, 32, idx, Map::empty(), steps) is None,
{
    assert(scan_pos(a, 0) == 32);
    lemma_scan_continues_if_none(a, idx, 0, Map::empty(), a.len());
    assert forall|t: nat| t <= a.len() implies #[trigger] scan_continues(a, idx, scan_pos(a, t)) by {
        assert(scan_continues(a, idx, scan_pos(a, 0 + t)));
        assert(0 + t == t);
    }
    lemma_scan_repeats(a, idx);
    let (i, j) = choose|i: nat, j: nat| i < j <= a.len() && scan_pos(a, i) == scan_pos(a, j);
    assert forall|t: nat| t <= steps implies #[trigger] scan_continues(
        a,
        idx,
        scan_pos(a, 0 + t),
    ) by {
        assert(0 + t == t);
        lemma_scan_continues_forever(a, idx, i, j, t);
    }
    lemma_scan_none_if_continues(a, idx, 0, Map::empty(), steps);
}

/// The chunk header at `pos` and the position after skipping its data:
/// `Ok(None)` where the scan stops, an error where it fails, and
/// `Ok(Some(..))` with the header and the next position otherwise.
fn scan_step(archive: &[u8], pos: u64, index_offset: u64) -> (res: Result<
    Option<(ChunkRecord, u64)>,
    AxcError,
>)
    ensures
        ({
            let a = archive@;
            let p = pos as nat;
            if p >= index_offset || p >= a.len() || a[p as int] != CHUNK_TAG {
                res matches Ok(None)
            } else if p + 34 > a.len() {
                res matches Err(e) && e@ == io_failure(IoFailure::UnexpectedEof)
            } else {
                let r = chunk_fields_at(a, p as int);
                let nx = scan_next(p, r.compressed_len);
                if seek_fails(nx) {
                    res matches Err(e) && e@ == io_failure(IoFailure::InvalidSeek)
                } else {
                    res matches Ok(Some((rec, next))) && rec == r && next == nx && p + 34
                        <= u64::MAX
                }
            }
        }),
{
    let len = archive.len() as u64;
    if pos >= index_offset || pos >= len {
        return Ok(None);
    }
    let p = pos as usize;
    if archive[p] != CHUNK_TAG {
        return Ok(None);
    }
    if len - pos < 34 {
        return Err(AxcError::Io(io_error(IoFailure::UnexpectedEof)));
    }
    let record = ChunkRecord {
        codec_id: archive[p + 1],
        chunk_id: read_le64(archive, p + 2),
        original_len: read_le64(archive, p + 10),
        compressed_len: read_le64(archive, p + 18),
        checksum_orig: read_le32(archive, p + 26),
        checksum_comp: read_le32(archive, p + 30),
    };
    assert(record == chunk_fields_at(archive@, pos as int));
    let data_offset = pos + 34;
    let cl = record.compressed_len;
    if cl < 0x8000_0000_0000_0000 {
        if cl > u64::MAX - data_offset {
            return Err(AxcError::Io(io_error(IoFailure::InvalidSeek)));
        }
        Ok(Some((record, data_offset + cl)))
    } else {
        let back = u64::MAX - cl + 1;
        if back > data_offset {
            return Err(AxcError::Io(io_error(IoFailure::InvalidSeek)));
        }
        Ok(Some((record, data_offset - back)))
    }
}

/// Builds the map from chunk id to (data offset, chunk record) by scanning
/// the data section after the file header; a later header with the same id
/// replaces an earlier one. `None` where the scan would skip past more than
/// one header per archive byte, that is, where it would never finish.
pub fn try_build_chunk_map(archive: &[u8], index_offset: u64) -> (res: Option<
    Result<HashMap<u64, (u64, ChunkRecord)>, AxcError>,
>)
    ensures
        match spec_chunk_map(archive@, index_offset as nat) {
            None => res is None,
            Some(Ok(m)) => res matches Some(Ok(h)) && h@ == m,
            Some(Err(f)) => res matches Some(Err(e)) && e@ == f,
        },
{
    broadcast use vstd::std_specs::hash::group_hash_axioms;

    let mut map: HashMap<u64, (u64, ChunkRecord)> = HashMap::new();
    let mut pos: u64 = 32;
    let mut steps: u64 = archive.len() as u64;
    loop
        invariant
            spec_chunk_map(archive@, index_offset as nat) == chunk_scan(
                archive@,
                pos as nat,
                index_offset as nat,
                map@,
                steps as nat,
            ),
        decreases steps,
    {
        match scan_step(archive, pos, index_offset) {
            Err(e) => {
                return Some(Err(e));
            },
            Ok(None) => {
                return Some(Ok(map));
            },
            Ok(Some((record, next))) => {
                if steps == 0 {
                    return None;
                }
                map.insert(record.chunk_id, (pos + 34, record));
                pos = next;
                steps = steps - 1;
            },
        }
    }
}

/// Builds the map from chunk id to (data offset, chunk record) by scanning
/// the data section after the file header; a later header with the same id
/// replaces an earlier one.
pub fn build_chunk_map(archive: &[u8], index_offset: u64) -> (res: Result<
    HashMap<u64, (u64, ChunkRecord)>,
    AxcError,
>)
    requires
        spec_chunk_map(archive@, index_offset as nat) is Some,
    ensures
        match spec_chunk_map(archive@, index_offset as nat) {
            Some(Ok(m)) => res matches Ok(h) && h@ == m,
            Some(Err(f)) => res matches Err(e) && e@ == f,
            None => false,
        },
{
    try_build_chunk_map(archive, index_offset).unwrap()
}

// ── Chunk contents ────────────────────────────────────────────────────────────

/// The original data of a chunk whose compressed data `comp` passed its
/// checksum: it is decompressed to the recorded original length and
/// checked against the recorded CRC-32 of the original.
#[verifier::opaque]
pub open spec fn spec_unpack_chunk(comp: Seq<u8>, chunk_id: u64, r: ChunkRecord) -> Result<
    Seq<u8>,
    Failure,
> {
    match spec_decompress(comp, (r.original_len as usize) as nat) {
        Err(m) => Err(Failure::CodecError(m)),
        Ok(d) => if crc32(d) != r.checksum_orig {
            Err(Failure::ChecksumMismatch { chunk_id, expected: r.checksum_orig, got: crc32(d) })
        } else {
            Ok(d)
        },
    }
}

fn unpack_chunk(comp: &[u8], chunk_id: u64, record: &ChunkRecord) -> (res: Result<Vec<u8>, AxcError>)
    ensures
        match spec_unpack_chunk(comp@, chunk_id, *record) {
            Ok(d) => res matches Ok(v) && v@ == d,
            Err(f) => res matches Err(e) && e@ == f,
        },
{
    proof {
        reveal(spec_unpack_chunk);
    }
    let decompressed = match decompress(comp, record.original_len as usize) {
        Ok(d) => d,
        Err(e) => {
            return Err(e);
        },
    };
    let actual_orig = Crc32::oneshot(decompressed.as_slice());
    if actual_orig != record.checksum_orig {
        return Err(
            AxcError::ChecksumMismatch { chunk_id, expected: record.checksum_orig, got: actual_orig },
        );
    }
    Ok(decompressed)
}

// ── Test archive ──────────────────────────────────────────────────────────────

/// A chunk record that reads ends within the archive.
pub proof fn lemma_read_chunk_within(a: Seq<u8>, pos: nat)
    ensures
        spec_read_chunk(a, pos) matches Ok((r, d)) ==> pos + 34 + d.len() <= a.len(),
{
}

/// "chunk <id> is larger than the chunk size"
pub open spec fn oversize_message(chunk_id: u64) -> Seq<char> {
    "chunk "@ + decimal_text(chunk_id as nat) + " is larger than the chunk size"@
}

/// The number of chunks verified by reading the chunk records from `pos` up
/// to the index offset, `count` of them verified already; or the first
/// failure. Every position before the index must hold a chunk record whose
/// original length is within the archive's chunk size (checked before
/// anything is decompressed) and whose data passes both checksums and
/// decompresses.
pub open spec fn test_scan(a: Seq<u8>, pos: nat, idx: nat, count: nat, chunk_size: u32) -> Result<
    nat,
    Failure,
>
    decreases scan_measure(a, pos),
{
    if pos >= idx {
        Ok(count)
    } else {
        match spec_read_chunk(a, pos) {
            Err(f) => Err(f),
            Ok((r, comp)) => if r.original_len > chunk_size {
                Err(Failure::InvalidChunk(oversize_message(r.chunk_id)))
            } else {
                match spec_unpack_chunk(comp, r.chunk_id, r) {
                    Err(f) => Err(f),
                    Ok(_) => {
                        proof {
                            lemma_read_chunk_within(a, pos);
                        }
                        test_scan(a, pos + 34 + comp.len(), idx, count + 1, chunk_size)
                    },
                }
            },
        }
    }
}

/// Testing an archive: its header and footer must read, then every chunk
/// from the end of the header up to the index must pass both checksums and
/// decompress. The result is the number of chunks verified.
pub open spec fn spec_test_archive(a: Seq<u8>) -> Result<nat, Failure> {
    match spec_read_header(a) {
        Err(f) => Err(f),
        Ok(h) => match spec_read_footer(a) {
            Err(f) => Err(f),
            Ok(ft) => test_scan(a, 32, ft.index_offset as nat, 0, h.chunk_size),
        },
    }
}

/// The position of the `k`-th chunk record from `p`, each record being its
/// 34-byte header followed by its compressed data.
pub open spec fn record_pos(a: Seq<u8>, p: nat, k: nat) -> nat
    decreases k,
{
    if k == 0 {
        p
    } else {
        record_pos(
            a,
            (p + 34 + chunk_fields_at(a, p as int).compressed_len) as nat,
            (k - 1) as nat,
        )
    }
}

/// The chunk record at `p` lies before the index and within the archive,
/// its original length is within the chunk size, its data matches its
/// compressed-data CRC-32, and the data decompresses, to the recorded
/// original length, into bytes that match its original-data CRC-32.
pub open spec fn chunk_passes(a: Seq<u8>, p: nat, idx: nat, chunk_size: u32) -> bool {
    let r = chunk_fields_at(a, p as int);
    let data = a.subrange(p + 34 as int, p + 34 + r.compressed_len);
    &&& p < idx
    &&& a[p as int] == CHUNK_TAG
    &&& p + 34 + r.compressed_len <= a.len()
    &&& crc32(data) == r.checksum_comp
    &&& r.original_len <= chunk_size
    &&& spec_decompress(data, (r.original_len as usize) as nat) matches Ok(d) && crc32(d)
        == r.checksum_orig
}

proof fn lemma_test_scan_passes(
    a: Seq<u8>,
    pos: nat,
    idx: nat,
    count: nat,
    chunk_size: u32,
    k: nat,
)
    ensures
        test_scan(a, pos, idx, count, chunk_size) matches Ok(n) ==> {
            &&& count <= n
            &&& k < n - count ==> chunk_passes(a, record_pos(a, pos, k), idx, chunk_size)
            &&& k == n - count ==> record_pos(a, pos, k) >= idx
        },
    decreases k, scan_measure(a, pos),
{
    reveal(spec_unpack_chunk);
    if pos < idx {
        match spec_read_chunk(a, pos) {
            Ok((r, comp)) => {
                if r.original_len <= chunk_size {
                    if spec_unpack_chunk(comp, r.chunk_id, r) is Ok {
                        let nx = (pos + 34 + comp.len()) as nat;
                        assert(r == chunk_fields_at(a, pos as int));
                        lemma_read_chunk_within(a, pos);
                        if k > 0 {
                            lemma_test_scan_passes(a, nx, idx, count + 1, chunk_size, (k - 1) as nat);
                        } else {
                            lemma_test_scan_passes(a, nx, idx, count + 1, chunk_size, 0);
                        }
                    }
                }
            },
            Err(_) => {},
        }
    }
}

/// Testing verifies every chunk: when testing an archive reports `n`
/// chunks, the `n` chunk records laid one after another from the end of
/// the file header all lie before the index and each passes both CRC-32
/// checks and decompresses within the chunk size, and the record after
/// them starts at or past the index. So an archive in which any chunk's
/// data or checksums disagree fails the test.
pub proof fn lemma_tested_chunks_pass(a: Seq<u8>, k: nat)
    ensures
        spec_test_archive(a) matches Ok(n) ==> spec_read_header(a) matches Ok(h)
            && spec_read_footer(a) matches Ok(ft) && {
            &&& k < n ==> chunk_passes(a, record_pos(a, 32, k), ft.index_offset as nat, h.chunk_size)
            &&& record_pos(a, 32, n) >= ft.index_offset
        },
{
    match spec_read_header(a) {
        Ok(h) => match spec_read_footer(a) {
            Ok(ft) => {
                let idx = ft.index_offset as nat;
                lemma_test_scan_passes(a, 32, idx, 0, h.chunk_size, k);
                if spec_test_archive(a) is Ok {
                    let n = spec_test_archive(a)->Ok_0;
                    lemma_test_scan_passes(a, 32, idx, 0, h.chunk_size, n);
                }
            },
            Err(_) => {},
        },
        Err(_) => {},
    }
}

/// Verifies all chunks in the archive, without writing anything.
pub fn test_archive(archive: &[u8]) -> (res: Result<usize, AxcError>)
    ensures
        match spec_test_archive(archive@) {
            Ok(n) => res matches Ok(c) && c == n,
            Err(f) => res matches Err(e) && e@ == f,
        },
{
    let header = match FileHeader::read(archive) {
        Ok(h) => h,
        Err(e) => {
            return Err(e);
        },
    };
    let footer = match Footer::read(archive) {
        Ok(f) => f,
        Err(e) => {
            return Err(e);
        },
    };
    let ghost idx = footer.index_offset as nat;
    let n_bytes: usize = archive.len();
    let len = n_bytes as u64;
    let mut pos: u64 = 32;
    let mut count: usize = 0;
    loop
        invariant
            len == archive@.len(),
            len <= usize::MAX,
            idx == footer.index_offset,
            32 <= pos <= len,
            34 * count + 32 <= pos,
            spec_test_archive(archive@) == test_scan(
                archive@,
                pos as nat,
                idx,
                count as nat,
                header.chunk_size,
            ),
        decreases scan_measure(archive@, pos as nat),
    {
        if pos >= footer.index_offset {
            return Ok(count);
        }
        let (record, comp) = match ChunkRecord::read(archive, pos) {
            Ok(r) => r,
            Err(e) => {
                return Err(e);
            },
        };
        proof {
            lemma_read_chunk_within(archive@, pos as nat);
        }
        if record.original_len > header.chunk_size as u64 {
            let mut msg = "chunk ".to_owned();
            let id = decimal(record.chunk_id);
            msg.append(id.as_str());
            msg.append(" is larger than the chunk size");
            proof {
                reveal_strlit("chunk ");
                reveal_strlit(" is larger than the chunk size");
            }
            return Err(AxcError::InvalidChunk(msg));
        }
        match unpack_chunk(comp.as_slice(), record.chunk_id, &record) {
            Ok(_) => {},
            Err(e) => {
                return Err(e);
            },
        }
        assert(pos + 34 + comp@.len() <= archive@.len());
        pos = pos + 34 + comp.len() as u64;
        count = count + 1;
    }
}

// ── Extract ───────────────────────────────────────────────────────────────────

/// The entries and the chunk map of an archive opened for extraction: its
/// header, footer and index must read, and the chunk map is built by the
/// scan of `spec_chunk_map` (`None` where that scan would not finish).
pub open spec fn spec_open_archive(a: Seq<u8>) -> Option<
    Result<(Seq<FileEntryView>, Map<u64, (u64, ChunkRecord)>), Failure>,
> {
    match spec_read_header(a) {
        Err(f) => Some(Err(f)),
        Ok(_) => match spec_read_footer(a) {
            Err(f) => Some(Err(f)),
            Ok(ft) => match entries_from(a, ft.index_offset as nat, ft.index_count as nat) {
                Err(f) => Some(Err(f)),
                Ok(es) => match spec_chunk_map(a, ft.index_offset as nat) {
                    None => None,
                    Some(Err(f)) => Some(Err(f)),
                    Some(Ok(m)) => Some(Ok((es, m))),
                },
            },
        },
    }
}

/// Opens an archive for extraction: reads its header, footer and index, and
/// builds the map from chunk id to (data offset, chunk record).
pub fn open_archive(archive: &[u8]) -> (res: Option<
    Result<(Vec<FileEntry>, HashMap<u64, (u64, ChunkRecord)>), AxcError>,
>)
    ensures
        match spec_open_archive(archive@) {
            None => res is None,
            Some(Ok((es, m))) => res matches Some(Ok((v, h))) && entry_views(v@) == es && h@ == m,
            Some(Err(f)) => res matches Some(Err(e)) && e@ == f,
        },
{
    match FileHeader::read(archive) {
        Ok(_) => {},
        Err(e) => {
            return Some(Err(e));
        },
    }
    let footer = match Footer::read(archive) {
        Ok(f) => f,
        Err(e) => {
            return Some(Err(e));
        },
    };
    let entries = match read_index(archive) {
        Ok(v) => v,
        Err(e) => {
            return Some(Err(e));
        },
    };
    match try_build_chunk_map(archive, footer.index_offset) {
        None => None,
        Some(Err(e)) => Some(Err(e)),
        Some(Ok(m)) => Some(Ok((entries, m))),
    }
}

/// "chunk <id> not found"
pub open spec fn chunk_missing_message(chunk_id: u64) -> Seq<char> {
    "chunk "@ + decimal_text(chunk_id as nat) + " not found"@
}

/// The original data of chunk `chunk_id`: found in the chunk map, its
/// compressed data read at the recorded offset and checked against the
/// recorded CRC-32, then unpacked.
pub open spec fn spec_chunk_data(
    a: Seq<u8>,
    map: Map<u64, (u64, ChunkRecord)>,
    chunk_id: u64,
) -> Result<Seq<u8>, Failure> {
    if !map.contains_key(chunk_id) {
        Err(Failure::InvalidChunk(chunk_missing_message(chunk_id)))
    } else {
        let (off, r) = map[chunk_id];
        let n = r.compressed_len;
        if n > 0 && off + n > a.len() {
            Err(io_failure(IoFailure::UnexpectedEof))
        } else {
            let comp = if n == 0 {
                seq![]
            } else {
                a.subrange(off as int, off + n)
            };
            if crc32(comp) != r.checksum_comp {
                Err(
                    Failure::ChecksumMismatch {
                        chunk_id,
                        expected: r.checksum_comp,
                        got: crc32(comp),
                    },
                )
            } else {
                spec_unpack_chunk(comp, chunk_id, r)
            }
        }
    }
}

/// Reads, checks and decompresses one chunk found through the chunk map.
pub fn extract_chunk(
    archive: &[u8],
    chunk_map: &HashMap<u64, (u64, ChunkRecord)>,
    chunk_id: u64,
) -> (res: Result<Vec<u8>, AxcError>)
    ensures
        match spec_chunk_data(archive@, chunk_map@, chunk_id) {
            Ok(d) => res matches Ok(v) && v@ == d,
            Err(f) => res matches Err(e) && e@ == f,
        },
{
    broadcast use vstd::std_specs::hash::group_hash_axioms;

    let (data_offset, record) = match chunk_map.get(&chunk_id) {
        Some(found) => *found,
        None => {
            let mut msg = "chunk ".to_owned();
            let id = decimal(chunk_id);
            msg.append(id.as_str());
            msg.append(" not found");
            proof {
                reveal_strlit("chunk ");
                reveal_strlit(" not found");
            }
            return Err(AxcError::InvalidChunk(msg));
        },
    };
    let n = record.compressed_len;
    let len = archive.len() as u64;
    let comp: Vec<u8> = if n == 0 {
        Vec::new()
    } else {
        if data_offset > len || n > len - data_offset {
            return Err(AxcError::Io(io_error(IoFailure::UnexpectedEof)));
        }
        copy_range(archive, data_offset as usize, n as usize)
    };
    let actual_comp = Crc32::oneshot(comp.as_slice());
    if actual_comp != record.checksum_comp {
        return Err(
            AxcError::ChecksumMismatch { chunk_id, expected: record.checksum_comp, got: actual_comp },
        );
    }
    unpack_chunk(comp.as_slice(), chunk_id, &record)
}

/// The id of the `i`-th chunk of a file whose first chunk is `first`
/// (wrapping past the largest id).
pub open spec fn chunk_id_at(first: u64, i: nat) -> u64 {
    if first + i > u64::MAX {
        (first + i - 0x1_0000_0000_0000_0000) as u64
    } else {
        (first + i) as u64
    }
}

/// A running total of decompressed bytes as the u64 it is reported in.
pub open spec fn reported_total(t: nat) -> u64 {
    if t > u64::MAX {
        u64::MAX
    } else {
        t as u64
    }
}

/// The data of chunks `i` to `count - 1` of a file whose first chunk is
/// `first`, concatenated, with the running total of decompressed bytes
/// (starting from `total`); a total above `limit` fails as a decompression
/// bomb.
pub open spec fn extract_from(
    a: Seq<u8>,
    map: Map<u64, (u64, ChunkRecord)>,
    first: u64,
    i: nat,
    count: nat,
    total: nat,
    limit: u64,
) -> Result<(Seq<u8>, nat), Failure>
    decreases count - i,
{
    if i >= count {
        Ok((seq![], total))
    } else if map.contains_key(chunk_id_at(first, i)) && total + map[chunk_id_at(
        first,
        i,
    )].1.original_len > limit {
        // The recorded original length is checked before anything is
        // decompressed.
        Err(
            Failure::DecompressionBomb {
                output_size: reported_total(
                    (total + map[chunk_id_at(first, i)].1.original_len) as nat,
                ),
                limit,
            },
        )
    } else {
        match spec_chunk_data(a, map, chunk_id_at(first, i)) {
            Err(f) => Err(f),
            Ok(d) => {
                let t = total + d.len();
                if t > limit {
                    Err(Failure::DecompressionBomb { output_size: reported_total(t), limit })
                } else {
                    match extract_from(a, map, first, i + 1, count, t, limit) {
                        Err(f) => Err(f),
                        Ok((rest, tt)) => Ok((d + rest, tt)),
                    }
                }
            },
        }
    }
}

/// The running total of decompressed bytes after extracting a file is the
/// total before it plus the file's length, and it never exceeds the limit.
pub proof fn lemma_extract_total_within_limit(
    a: Seq<u8>,
    map: Map<u64, (u64, ChunkRecord)>,
    first: u64,
    i: nat,
    count: nat,
    total: nat,
    limit: u64,
)
    requires
        total <= limit,
    ensures
        extract_from(a, map, first, i, count, total, limit) matches Ok((d, t)) ==> t == total
            + d.len() && t <= limit,
    decreases count - i,
{
    if i < count {
        match spec_chunk_data(a, map, chunk_id_at(first, i)) {
            Ok(d) => {
                if total + d.len() <= limit {
                    lemma_extract_total_within_limit(
                        a,
                        map,
                        first,
                        i + 1,
                        count,
                        total + d.len(),
                        limit,
                    );
                }
            },
            Err(_) => {},
        }
    }
}

/// Chunk data that reads back has passed both checksums: the compressed
/// data matches the recorded CRC-32 of the compressed data, and the data
/// matches the recorded CRC-32 of the original.
pub proof fn lemma_chunk_data_checked(
    a: Seq<u8>,
    map: Map<u64, (u64, ChunkRecord)>,
    chunk_id: u64,
)
    ensures
        spec_chunk_data(a, map, chunk_id) matches Ok(d) ==> map.contains_key(chunk_id) && crc32(d)
            == map[chunk_id].1.checksum_orig && ({
            let (off, r) = map[chunk_id];
            let comp = if r.compressed_len == 0 {
                Seq::<u8>::empty()
            } else {
                a.subrange(off as int, off + r.compressed_len)
            };
            crc32(comp) == r.checksum_comp && spec_decompress(
                comp,
                (r.original_len as usize) as nat,
            ) == Ok::<Seq<u8>, Seq<char>>(d)
        }),
{
    reveal(spec_unpack_chunk);
}

/// Rebuilds the data of one file entry from its chunks in order, given the
/// total decompressed so far in this extraction; gives the data and the new
/// total, or fails once the total exceeds `limit`.
pub fn extract_entry(
    archive: &[u8],
    chunk_map: &HashMap<u64, (u64, ChunkRecord)>,
    entry: &FileEntry,
    total: u64,
    limit: u64,
) -> (res: Result<(Vec<u8>, u64), AxcError>)
    requires
        total <= limit,
    ensures
        match extract_from(
            archive@,
            chunk_map@,
            entry.first_chunk,
            0,
            entry.chunk_count as nat,
            total as nat,
            limit,
        ) {
            Ok((d, t)) => res matches Ok((v, tt)) && v@ == d && tt == t,
            Err(f) => res matches Err(e) && e@ == f,
        },
{
    let mut file_data: Vec<u8> = Vec::new();
    let mut total_decompressed = total;
    let mut chunk_idx: u32 = 0;
    while chunk_idx < entry.chunk_count
        invariant
            chunk_idx <= entry.chunk_count,
            total_decompressed <= limit,
            extract_from(
                archive@,
                chunk_map@,
                entry.first_chunk,
                0,
                entry.chunk_count as nat,
                total as nat,
                limit,
            ) == match extract_from(
                archive@,
                chunk_map@,
                entry.first_chunk,
                chunk_idx as nat,
                entry.chunk_count as nat,
                total_decompressed as nat,
                limit,
            ) {
                Err(f) => Err(f),
                Ok((rest, tt)) => Ok((file_data@ + rest, tt)),
            },
        decreases entry.chunk_count - chunk_idx,
    {
        let chunk_id = entry.first_chunk.wrapping_add(chunk_idx as u64);
        assert(chunk_id == chunk_id_at(entry.first_chunk, chunk_idx as nat));
        match chunk_map.get(&chunk_id) {
            Some(found) => {
                let original_len = found.1.original_len;
                if original_len > limit - total_decompressed {
                    let output_size = match total_decompressed.checked_add(original_len) {
                        Some(t) => t,
                        None => u64::MAX,
                    };
                    return Err(AxcError::DecompressionBomb { output_size, limit });
                }
            },
            None => {},
        }
        let decompressed = match extract_chunk(archive, chunk_map, chunk_id) {
            Ok(d) => d,
            Err(e) => {
                return Err(e);
            },
        };
        let new_total = match total_decompressed.checked_add(decompressed.len() as u64) {
            Some(t) => t,
            None => {
                return Err(AxcError::DecompressionBomb { output_size: u64::MAX, limit });
            },
        };
        if new_total > limit {
            return Err(AxcError::DecompressionBomb { output_size: new_total, limit });
        }
        assert(chunk_id == chunk_id_at(entry.first_chunk, chunk_idx as nat));
        let ghost old_data = file_data@;
        push_all(&mut file_data, decompressed.as_slice());
        proof {
            match extract_from(
                archive@,
                chunk_map@,
                entry.first_chunk,
                (chunk_idx + 1) as nat,
                entry.chunk_count as nat,
                new_total as nat,
                limit,
            ) {
                Ok((rest, tt)) => {
                    assert(old_data + (decompressed@ + rest) =~= file_data@ + rest);
                },
                Err(_) => {},
            }
        }
        total_decompressed = new_total;
        chunk_idx = chunk_idx + 1;
    }
    assert(file_data@ + seq![] =~= file_data@);
    Ok((file_data, total_decompressed))
}

/// A chunk compressed by `compress_chunk` unpacks back to the chunk
/// whenever its block decompresses back to it, which `compress_full`
/// promises for every chunk it accepts.
pub proof fn lemma_compressed_chunk_unpacks(cid: u64, chunk: Seq<u8>, comp: Seq<u8>)
    requires
        chunk.len() <= u32::MAX,
        comp.len() <= u64::MAX,
        spec_decompress(comp, chunk.len()) == Ok::<Seq<u8>, Seq<char>>(chunk),
    ensures
        chunk_record_for(cid, chunk, comp).compressed_len == comp.len(),
        chunk_record_for(cid, chunk, comp).checksum_comp == crc32(comp),
        spec_unpack_chunk(comp, cid, chunk_record_for(cid, chunk, comp)) == Ok::<Seq<u8>, Failure>(
            chunk,
        ),
{
    reveal(spec_unpack_chunk);
    let r = chunk_record_for(cid, chunk, comp);
    assert((r.original_len as usize) as nat == chunk.len());
}

} // verus!
