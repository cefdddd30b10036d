//! Little-endian integer encodings used by the container and the codec.

use vstd::prelude::*;

verus! {

pub open spec fn le16(v: u16) -> Seq<u8> {
    seq![(v & 0xff) as u8, (v >> 8u16) as u8]
}

pub open spec fn le32(v: u32) -> Seq<u8> {
    seq![(v & 0xff) as u8, ((v >> 8u32) & 0xff) as u8, ((v >> 16u32) & 0xff) as u8, (v >> 24u32) as u8]
}

pub open spec fn le64(v: u64) -> Seq<u8> {
    seq![
        (v & 0xff) as u8,
        ((v >> 8u64) & 0xff) as u8,
        ((v >> 16u64) & 0xff) as u8,
        ((v >> 24u64) & 0xff) as u8,
        ((v >> 32u64) & 0xff) as u8,
        ((v >> 40u64) & 0xff) as u8,
        ((v >> 48u64) & 0xff) as u8,
        (v >> 56u64) as u8,
    ]
}

/// The value of the two bytes at `pos`, little-endian.
pub open spec fn get_le16(s: Seq<u8>, pos: int) -> u16 {
    (s[pos] as u16) | ((s[pos + 1] as u16) << 8u16)
}

pub open spec fn get_le32(s: Seq<u8>, pos: int) -> u32 {
    (s[pos] as u32) | ((s[pos + 1] as u32) << 8u32) | ((s[pos + 2] as u32) << 16u32) | ((s[pos
        + 3] as u32) << 24u32)
}

pub open spec fn get_le64(s: Seq<u8>, pos: int) -> u64 {
    (s[pos] as u64) | ((s[pos + 1] as u64) << 8u64) | ((s[pos + 2] as u64) << 16u64) | ((s[pos
        + 3] as u64) << 24u64) | ((s[pos + 4] as u64) << 32u64) | ((s[pos + 5] as u64) << 40u64)
        | ((s[pos + 6] as u64) << 48u64) | ((s[pos + 7] as u64) << 56u64)
}

pub proof fn lemma_le16_roundtrip(v: u16, pre: Seq<u8>, post: Seq<u8>)
    ensures
        get_le16(pre + le16(v) + post, pre.len() as int) == v,
        le16(v).len() == 2,
{
    let s = pre + le16(v) + post;
    let p = pre.len() as int;
    assert(s[p] == (v & 0xff) as u8);
    assert(s[p + 1] == (v >> 8u16) as u8);
    let b0 = (v & 0xff) as u8;
    let b1 = (v >> 8u16) as u8;
    assert((b0 as u16) | ((b1 as u16) << 8u16) == v) by (bit_vector)
        requires
            b0 == (v & 0xff) as u8,
            b1 == (v >> 8u16) as u8,
    ;
}

pub proof fn lemma_le32_roundtrip(v: u32, pre: Seq<u8>, post: Seq<u8>)
    ensures
        get_le32(pre + le32(v) + post, pre.len() as int) == v,
        le32(v).len() == 4,
{
    let s = pre + le32(v) + post;
    let p = pre.len() as int;
    let b0 = (v & 0xff) as u8;
    let b1 = ((v >> 8u32) & 0xff) as u8;
    let b2 = ((v >> 16u32) & 0xff) as u8;
    let b3 = (v >> 24u32) as u8;
    assert(s[p] == b0 && s[p + 1] == b1 && s[p + 2] == b2 && s[p + 3] == b3);
    assert((b0 as u32) | ((b1 as u32) << 8u32) | ((b2 as u32) << 16u32) | ((b3 as u32) << 24u32)
        == v) by (bit_vector)
        requires
            b0 == (v & 0xff) as u8,
            b1 == ((v >> 8u32) & 0xff) as u8,
            b2 == ((v >> 16u32) & 0xff) as u8,
            b3 == (v >> 24u32) as u8,
    ;
}

/// The four bytes at `pos` are the little-endian encoding of the value read
/// there.
pub proof fn lemma_get_le32_bytes(s: Seq<u8>, pos: int)
    requires
        0 <= pos,
        pos + 4 <= s.len(),
    ensures
        le32(get_le32(s, pos)) == s.subrange(pos, pos + 4),
{
    let b0 = s[pos];
    let b1 = s[pos + 1];
    let b2 = s[pos + 2];
    let b3 = s[pos + 3];
    let w = get_le32(s, pos);
    assert((w & 0xff) as u8 == b0 && ((w >> 8u32) & 0xff) as u8 == b1 && ((w >> 16u32) & 0xff) as u8
        == b2 && (w >> 24u32) as u8 == b3) by (bit_vector)
        requires
            w == (b0 as u32) | ((b1 as u32) << 8u32) | ((b2 as u32) << 16u32) | ((b3 as u32)
                << 24u32),
    ;
    assert(le32(w) =~= s.subrange(pos, pos + 4));
}

pub proof fn lemma_le64_roundtrip(v: u64, pre: Seq<u8>, post: Seq<u8>)
    ensures
        get_le64(pre + le64(v) + post, pre.len() as int) == v,
        le64(v).len() == 8,
{
    let s = pre + le64(v) + post;
    let p = pre.len() as int;
    let b0 = (v & 0xff) as u8;
    let b1 = ((v >> 8u64) & 0xff) as u8;
    let b2 = ((v >> 16u64) & 0xff) as u8;
    let b3 = ((v >> 24u64) & 0xff) as u8;
    let b4 = ((v >> 32u64) & 0xff) as u8;
    let b5 = ((v >> 40u64) & 0xff) as u8;
    let b6 = ((v >> 48u64) & 0xff) as u8;
    let b7 = (v >> 56u64) as u8;
    assert(s[p] == b0 && s[p + 1] == b1 && s[p + 2] == b2 && s[p + 3] == b3);
    assert(s[p + 4] == b4 && s[p + 5] == b5 && s[p + 6] == b6 && s[p + 7] == b7);
    assert((b0 as u64) | ((b1 as u64) << 8u64) | ((b2 as u64) << 16u64) | ((b3 as u64) << 24u64)
        | ((b4 as u64) << 32u64) | ((b5 as u64) << 40u64) | ((b6 as u64) << 48u64) | ((
    b7 as u64) << 56u64) == v) by (bit_vector)
        requires
            b0 == (v & 0xff) as u8,
            b1 == ((v >> 8u64) & 0xff) as u8,
            b2 == ((v >> 16u64) & 0xff) as u8,
            b3 == ((v >> 24u64) & 0xff) as u8,
            b4 == ((v >> 32u64) & 0xff) as u8,
            b5 == ((v >> 40u64) & 0xff) as u8,
            b6 == ((v >> 48u64) & 0xff) as u8,
            b7 == (v >> 56u64) as u8,
    ;
}

/// Appends the two little-endian bytes of `v`.
pub fn push_le16(out: &mut Vec<u8>, v: u16)
    ensures
        final(out)@ == old(out)@ + le16(v),
{
    out.push((v & 0xff) as u8);
    out.push((v >> 8) as u8);
    assert(final(out)@ =~= old(out)@ + le16(v));
}

pub fn push_le32(out: &mut Vec<u8>, v: u32)
    ensures
        final(out)@ == old(out)@ + le32(v),
{
    out.push((v & 0xff) as u8);
    out.push(((v >> 8) & 0xff) as u8);
    out.push(((v >> 16) & 0xff) as u8);
    out.push((v >> 24) as u8);
    assert(final(out)@ =~= old(out)@ + le32(v));
}

pub fn push_le64(out: &mut Vec<u8>, v: u64)
    ensures
        final(out)@ == old(out)@ + le64(v),
{
    out.push((v & 0xff) as u8);
    out.push(((v >> 8) & 0xff) as u8);
    out.push(((v >> 16) & 0xff) as u8);
    out.push(((v >> 24) & 0xff) as u8);
    out.push(((v >> 32) & 0xff) as u8);
    out.push(((v >> 40) & 0xff) as u8);
    out.push(((v >> 48) & 0xff) as u8);
    out.push((v >> 56) as u8);
    assert(final(out)@ =~= old(out)@ + le64(v));
}

pub fn read_le16(s: &[u8], pos: usize) -> (v: u16)
    requires
        pos + 2 <= s@.len(),
    ensures
        v == get_le16(s@, pos as int),
{
    (s[pos] as u16) | ((s[pos + 1] as u16) << 8)
}

pub fn read_le32(s: &[u8], pos: usize) -> (v: u32)
    requires
        pos + 4 <= s@.len(),
    ensures
        v == get_le32(s@, pos as int),
{
    (s[pos] as u32) | ((s[pos + 1] as u32) << 8) | ((s[pos + 2] as u32) << 16) | ((s[pos
        + 3] as u32) << 24)
}

pub fn read_le64(s: &[u8], pos: usize) -> (v: u64)
    requires
        pos + 8 <= s@.len(),
    ensures
        v == get_le64(s@, pos as int),
{
    (s[pos] as u64) | ((s[pos + 1] as u64) << 8) | ((s[pos + 2] as u64) << 16) | ((s[pos
        + 3] as u64) << 24) | ((s[pos + 4] as u64) << 32) | ((s[pos + 5] as u64) << 40) | ((s[pos
        + 6] as u64) << 48) | ((s[pos + 7] as u64) << 56)
}

/// The value read at `p` is the one whose encoding stands there.
pub proof fn lemma_get_le16_at(s: Seq<u8>, p: int, v: u16)
    requires
        0 <= p,
        p + 2 <= s.len(),
        s.subrange(p, p + 2) == le16(v),
    ensures
        get_le16(s, p) == v,
{
    let pre = s.take(p);
    let post = s.skip(p + 2);
    assert(s =~= pre + le16(v) + post);
    lemma_le16_roundtrip(v, pre, post);
}

/// The value read at `p` is the one whose encoding stands there.
pub proof fn lemma_get_le32_at(s: Seq<u8>, p: int, v: u32)
    requires
        0 <= p,
        p + 4 <= s.len(),
        s.subrange(p, p + 4) == le32(v),
    ensures
        get_le32(s, p) == v,
{
    let pre = s.take(p);
    let post = s.skip(p + 4);
    assert(s =~= pre + le32(v) + post);
    lemma_le32_roundtrip(v, pre, post);
}

/// The value read at `p` is the one whose encoding stands there.
pub proof fn lemma_get_le64_at(s: Seq<u8>, p: int, v: u64)
    requires
        0 <= p,
        p + 8 <= s.len(),
        s.subrange(p, p + 8) == le64(v),
    ensures
        get_le64(s, p) == v,
{
    let pre = s.take(p);
    let post = s.skip(p + 8);
    assert(s =~= pre + le64(v) + post);
    lemma_le64_roundtrip(v, pre, post);
}

} // verus!
