//! LZ77 compressor with hash-chain match finder.
//!
//! Token encoding (byte stream fed to ANS):
//!   LITERAL: 0x00 <byte>                               (2 bytes)
//!   MATCH:   0x01 <off_hi> <off_lo> <len_minus_min>    (4 bytes)
//!
//! Every byte value has the same two-byte literal form, so the encoding is
//! unambiguous.

use vstd::prelude::*;

use crate::bytes::get_le32;

verus! {

pub const WINDOW_SIZE: usize = 65536;

const WINDOW_MASK: usize = 65535;

const HASH_SIZE: usize = 65536;

const HASH_MASK: usize = 65535;

const MIN_MATCH: usize = 4;

const MAX_MATCH: usize = 259;

/// How many hash-chain links the match finder walks by default.
pub const DEFAULT_CHAIN_DEPTH: usize = 128;

const TAG_LIT: u8 = 0x00;

const TAG_MATCH: u8 = 0x01;

/// The multiplicative hash of the four bytes at `pos`, or zero when fewer
/// than four bytes remain.
pub open spec fn spec_hash4(data: Seq<u8>, pos: int) -> usize {
    if pos + 4 > data.len() {
        0
    } else {
        ((vstd::wrapping::u32_specs::wrapping_mul(get_le32(data, pos), 0x9E37_79B1u32)
            >> 16u32) as usize) & 0xFFFF
    }
}

fn hash4(data: &[u8], pos: usize) -> (h: usize)
    ensures
        h == spec_hash4(data@, pos as int),
        h < HASH_SIZE,
{
    if pos > data.len() || data.len() - pos < 4 {
        return 0;
    }
    let v = crate::bytes::read_le32(data, pos);
    let m = v.wrapping_mul(0x9E37_79B1);
    let h = ((m >> 16u32) as usize) & HASH_MASK;
    assert(h < 65536) by (bit_vector)
        requires
            h == ((m >> 16u32) as usize) & 0xFFFF,
    ;
    h
}

/// An abstract LZ77 token: a literal byte, or a back-reference of
/// (offset, length).
pub enum LzToken {
    Literal(u8),
    Match(u32, u32),
}

/// The byte form of one token.
pub open spec fn token_bytes(t: LzToken) -> Seq<u8> {
    match t {
        LzToken::Literal(b) => seq![0u8, b],
        LzToken::Match(off, len) => seq![
            1u8,
            ((off / 256) % 256) as u8,
            (off % 256) as u8,
            (len - 4) as u8,
        ],
    }
}

/// The byte form of a token sequence.
pub open spec fn tokens_bytes(ts: Seq<LzToken>) -> Seq<u8>
    decreases ts.len(),
{
    if ts.len() == 0 {
        seq![]
    } else {
        tokens_bytes(ts.drop_last()) + token_bytes(ts.last())
    }
}

/// Appends `n` bytes to `o`, the k-th a copy of the byte at `start + k` of
/// the output built so far (so a copy may overlap what it produces).
pub open spec fn copy_back(o: Seq<u8>, start: int, n: nat) -> Seq<u8>
    decreases n,
{
    if n == 0 {
        o
    } else {
        let p = copy_back(o, start, (n - 1) as nat);
        p.push(p[start + n - 1])
    }
}

/// The output after applying one token to output `o`.
pub open spec fn apply_token(o: Seq<u8>, t: LzToken) -> Seq<u8> {
    match t {
        LzToken::Literal(b) => o.push(b),
        LzToken::Match(off, len) => copy_back(o, o.len() - off, len as nat),
    }
}

/// The output of a token sequence.
pub open spec fn replay(ts: Seq<LzToken>) -> Seq<u8>
    decreases ts.len(),
{
    if ts.len() == 0 {
        seq![]
    } else {
        apply_token(replay(ts.drop_last()), ts.last())
    }
}

/// A token can follow `produced` output bytes: a match reaches back less
/// than the 64 KiB window (its offset fits the two offset bytes) and no
/// further than what exists, and copies 4 to 259 bytes.
pub open spec fn token_valid(t: LzToken, produced: nat) -> bool {
    match t {
        LzToken::Literal(_) => true,
        LzToken::Match(off, len) => 1 <= off < WINDOW_SIZE && off <= produced && 4 <= len <= 259,
    }
}

pub open spec fn tokens_valid(ts: Seq<LzToken>) -> bool
    decreases ts.len(),
{
    ts.len() == 0 || (tokens_valid(ts.drop_last()) && token_valid(
        ts.last(),
        replay(ts.drop_last()).len(),
    ))
}


/// The token-stream interpreter: decodes `s` after output `o`. A literal
/// cut short, a match cut short or an unknown tag ends the stream; a match
/// whose offset is zero or reaches before the output is skipped.
pub open spec fn lz_decode(s: Seq<u8>, o: Seq<u8>) -> Seq<u8>
    decreases s.len(),
{
    if s.len() == 0 {
        o
    } else if s[0] == 0 {
        if s.len() >= 2 {
            lz_decode(s.skip(2), o.push(s[1]))
        } else {
            o
        }
    } else if s[0] == 1 {
        if s.len() < 4 {
            o
        } else {
            let off = s[1] as nat * 256 + s[2] as nat;
            let n = s[3] as nat + 4;
            if off == 0 || off > o.len() {
                lz_decode(s.skip(4), o)
            } else {
                lz_decode(s.skip(4), copy_back(o, o.len() - off, n))
            }
        }
    } else {
        o
    }
}

pub(crate) proof fn lemma_copy_back_len(o: Seq<u8>, start: int, n: nat)
    ensures
        copy_back(o, start, n).len() == o.len() + n,
        copy_back(o, start, n).take(o.len() as int) == o,
    decreases n,
{
    if n > 0 {
        lemma_copy_back_len(o, start, (n - 1) as nat);
        let p = copy_back(o, start, (n - 1) as nat);
        assert(p.push(p[start + n - 1]).take(o.len() as int) =~= p.take(o.len() as int));
    }
}

/// A copy whose every byte matches the input ahead of `pos` extends the
/// prefix of the input up to `pos` by those bytes.
proof fn lemma_copy_back_matches(input: Seq<u8>, pos: int, src: int, n: nat)
    requires
        0 <= src < pos,
        pos + n <= input.len(),
        forall|k: int| 0 <= k < n ==> #[trigger] input[src + k] == input[pos + k],
    ensures
        copy_back(input.take(pos), src, n) == input.take(pos + n),
    decreases n,
{
    if n > 0 {
        lemma_copy_back_matches(input, pos, src, (n - 1) as nat);
        let p = input.take(pos + n - 1);
        assert(input[src + n - 1] == input[pos + n - 1]);
        assert(p.push(p[src + n - 1]) =~= input.take(pos + n));
    }
}

/// Decoding the byte form of one valid token applies it.
proof fn lemma_decode_token(t: LzToken, rest: Seq<u8>, o: Seq<u8>)
    requires
        token_valid(t, o.len()),
    ensures
        lz_decode(token_bytes(t) + rest, o) == lz_decode(rest, apply_token(o, t)),
{
    let s = token_bytes(t) + rest;
    match t {
        LzToken::Literal(b) => {
            assert(s.skip(2) =~= rest);
        },
        LzToken::Match(off, len) => {
            assert(s.skip(4) =~= rest);
            let hi = ((off / 256) % 256) as u8;
            let lo = (off % 256) as u8;
            assert(hi as nat * 256 + lo as nat == off);
            assert(((len - 4) as u8) as nat + 4 == len);
        },
    }
}

/// Decoding the byte form of valid tokens replays them.
pub proof fn lemma_decode_tokens(ts: Seq<LzToken>, rest: Seq<u8>)
    requires
        tokens_valid(ts),
    ensures
        lz_decode(tokens_bytes(ts) + rest, seq![]) == lz_decode(rest, replay(ts)),
    decreases ts.len(),
{
    if ts.len() == 0 {
        assert(tokens_bytes(ts) + rest =~= rest);
    } else {
        let init = ts.drop_last();
        let last = ts.last();
        assert(ts[ts.len() - 1] == last);
        lemma_decode_tokens(init, token_bytes(last) + rest);
        assert(tokens_bytes(ts) + rest =~= tokens_bytes(init) + (token_bytes(last) + rest));
        lemma_decode_token(last, rest, replay(init));
    }
}

/// Decoding the byte form of valid tokens gives back what they encode.
pub proof fn lemma_lz77_roundtrip(ts: Seq<LzToken>)
    requires
        tokens_valid(ts),
    ensures
        lz_decode(tokens_bytes(ts), seq![]) == replay(ts),
{
    lemma_decode_tokens(ts, seq![]);
    assert(tokens_bytes(ts) + Seq::<u8>::empty() =~= tokens_bytes(ts));
}

/// Decodes a token stream (`output_len` is only a size hint).
pub fn lz77_decompress(tokens: &[u8], output_len: usize) -> (out: Vec<u8>)
    ensures
        out@ == lz_decode(tokens@, seq![]),
{
    let mut out: Vec<u8> = Vec::new();
    let mut i: usize = 0;
    assert(tokens@.skip(0) =~= tokens@);
    while i < tokens.len()
        invariant_except_break
            i <= tokens@.len(),
            lz_decode(tokens@.skip(i as int), out@) == lz_decode(tokens@, seq![]),
        ensures
            out@ == lz_decode(tokens@, seq![]),
        decreases tokens@.len() - i,
    {
        let ghost s = tokens@.skip(i as int);
        let tag = tokens[i];
        assert(s[0] == tag);
        i = i + 1;
        if tag == TAG_LIT {
            if i < tokens.len() {
                assert(s.skip(2) =~= tokens@.skip(i + 1));
                out.push(tokens[i]);
                i = i + 1;
            } else {
                break;
            }
        } else if tag == TAG_MATCH {
            if tokens.len() - i <= 2 {
                break;
            }
            let off_hi = tokens[i] as usize;
            let off_lo = tokens[i + 1] as usize;
            let len_byte = tokens[i + 2] as usize;
            i = i + 3;
            assert(s.skip(4) =~= tokens@.skip(i as int));
            let offset = (off_hi << 8) | off_lo;
            assert(offset == off_hi * 256 + off_lo) by (bit_vector)
                requires
                    offset == (off_hi << 8usize) | off_lo,
                    off_hi < 256,
                    off_lo < 256,
            ;
            let mlen = len_byte + MIN_MATCH;
            if offset == 0 || offset > out.len() {
                continue;
            }
            let start = out.len() - offset;
            let ghost o0 = out@;
            let mut k: usize = 0;
            while k < mlen
                invariant
                    k <= mlen,
                    start < o0.len(),
                    start == o0.len() - offset,
                    out@ == copy_back(o0, start as int, k as nat),
                decreases mlen - k,
            {
                proof {
                    lemma_copy_back_len(o0, start as int, k as nat);
                }
                let byte = out[out.len() - offset];
                out.push(byte);
                k = k + 1;
            }
        } else {
            break;
        }
    }
    out
}

// ── The match finder ─────────────────────────────────────────────────────────

/// The length of the common run of the input at `cp` and at `pos`, counting
/// on from `k` and stopping at `max`.
pub open spec fn common_len(input: Seq<u8>, cp: int, pos: int, k: nat, max: nat) -> nat
    decreases max - k,
{
    if k < max && input[cp + k] == input[pos + k] {
        common_len(input, cp, pos, k + 1, max)
    } else {
        k
    }
}

/// The longest match (length 259 at most) for `pos` among the positions on
/// the hash chain from `cur`, walking at most `limit` links, following the
/// previous-position links in `prev` and stopping at a position that is not
/// behind `pos` or is the whole window (64 KiB) or more behind it; `best` is the best
/// (length, offset) so far, which only a strictly longer match replaces.
pub open spec fn chain_best(
    input: Seq<u8>,
    pos: int,
    prev: Seq<u32>,
    cur: u32,
    depth: nat,
    limit: nat,
    best: (nat, nat),
) -> (nat, nat)
    decreases limit - depth,
{
    if cur == u32::MAX || depth >= limit {
        best
    } else {
        let cp = cur as int;
        if cp >= pos || pos - cp >= 65536 {
            best
        } else {
            let max = if input.len() - pos < 259 {
                input.len() - pos
            } else {
                259
            };
            let mlen = common_len(input, cp, pos, 0, max as nat);
            let next = prev[cp % 65536];
            if mlen > best.0 {
                if mlen == 259 {
                    (mlen, (pos - cp) as nat)
                } else {
                    chain_best(input, pos, prev, next, depth + 1, limit, (mlen, (pos - cp) as nat))
                }
            } else {
                chain_best(input, pos, prev, next, depth + 1, limit, best)
            }
        }
    }
}

/// Puts position `p` at the head of its hash chain: the chain's old head
/// becomes its previous-position link.
pub open spec fn chain_insert(input: Seq<u8>, head: Seq<u32>, prev: Seq<u32>, p: int) -> (
    Seq<u32>,
    Seq<u32>,
) {
    let h = spec_hash4(input, p) as int;
    (head.update(h, p as u32), prev.update(p % 65536, head[h]))
}

/// After a match at `pos`, the positions `pos + skip` up to `pos + lim`
/// (exclusive) that still have four bytes ahead are put on their chains.
pub open spec fn skip_inserts(
    input: Seq<u8>,
    head: Seq<u32>,
    prev: Seq<u32>,
    pos: int,
    skip: nat,
    lim: nat,
) -> (Seq<u32>, Seq<u32>)
    decreases lim - skip,
{
    if skip >= lim {
        (head, prev)
    } else {
        let sp = pos + skip;
        let st = if input.len() - sp >= 4 {
            chain_insert(input, head, prev, sp)
        } else {
            (head, prev)
        };
        skip_inserts(input, st.0, st.1, pos, skip + 1, lim)
    }
}

/// A common run counted on from `k` ends between `k` and `max`.
pub proof fn lemma_common_len(input: Seq<u8>, cp: int, pos: int, k: nat, max: nat)
    requires
        k <= max,
    ensures
        k <= common_len(input, cp, pos, k, max) <= max,
    decreases max - k,
{
    if k < max && input[cp + k] == input[pos + k] {
        lemma_common_len(input, cp, pos, k + 1, max);
    }
}

/// The best match found on a chain is no shorter than the best so far and
/// does not run past the input.
pub proof fn lemma_chain_best_bound(
    input: Seq<u8>,
    pos: int,
    prev: Seq<u32>,
    cur: u32,
    depth: nat,
    limit: nat,
    best: (nat, nat),
)
    requires
        pos < input.len(),
        best.0 <= input.len() - pos,
    ensures
        best.0 <= chain_best(input, pos, prev, cur, depth, limit, best).0 <= input.len() - pos,
    decreases limit - depth,
{
    if !(cur == u32::MAX || depth >= limit) {
        let cp = cur as int;
        if !(cp >= pos || pos - cp >= 65536) {
            let max = if input.len() - pos < 259 {
                input.len() - pos
            } else {
                259
            };
            lemma_common_len(input, cp, pos, 0, max as nat);
            let mlen = common_len(input, cp, pos, 0, max as nat);
            let next = prev[cp % 65536];
            if mlen > best.0 {
                if mlen != 259 {
                    lemma_chain_best_bound(input, pos, prev, next, depth + 1, limit, (mlen, (pos - cp) as nat));
                }
            } else {
                lemma_chain_best_bound(input, pos, prev, next, depth + 1, limit, best);
            }
        }
    }
}

/// The token bytes that the match finder gives for the input from `pos`
/// on, its hash chains being `head` and `prev`: where a chain holds a match
/// of at least four bytes (the longest found), a match token, else a
/// literal; the last three bytes are always literals.
pub open spec fn lz_tokens_from(
    input: Seq<u8>,
    pos: nat,
    head: Seq<u32>,
    prev: Seq<u32>,
    limit: nat,
) -> Seq<u8>
    decreases input.len() - pos,
{
    if pos >= input.len() {
        seq![]
    } else if input.len() - pos < 4 {
        seq![0u8, input[pos as int]] + lz_tokens_from(input, pos + 1, head, prev, limit)
    } else {
        let h = spec_hash4(input, pos as int) as int;
        let best = chain_best(input, pos as int, prev, head[h], 0, limit, (3, 0));
        let st = chain_insert(input, head, prev, pos as int);
        if best.0 >= 4 {
            proof {
                lemma_chain_best_bound(input, pos as int, prev, head[h], 0, limit, (3, 0));
            }
            let lim = if best.0 < 8 {
                best.0
            } else {
                8
            };
            let st2 = skip_inserts(input, st.0, st.1, pos as int, 1, lim);
            seq![1u8, ((best.1 / 256) % 256) as u8, (best.1 % 256) as u8, (best.0 - 4) as u8]
                + lz_tokens_from(input, pos + best.0, st2.0, st2.1, limit)
        } else {
            seq![0u8, input[pos as int]] + lz_tokens_from(input, pos + 1, st.0, st.1, limit)
        }
    }
}

/// Empty hash chains.
pub open spec fn empty_chains() -> Seq<u32> {
    Seq::new(65536, |i: int| u32::MAX)
}

/// The token bytes of the whole input, starting from empty hash chains and
/// walking at most `depth` links of each chain.
pub open spec fn spec_lz77_depth(input: Seq<u8>, depth: nat) -> Seq<u8> {
    lz_tokens_from(input, 0, empty_chains(), empty_chains(), depth)
}

/// The token bytes of the whole input with the default chain depth.
pub open spec fn spec_lz77(input: Seq<u8>) -> Seq<u8> {
    spec_lz77_depth(input, DEFAULT_CHAIN_DEPTH as nat)
}

/// The exclusive upper bound of a usize prefix: the minimum of `a` and `b`.
fn min_usize(a: usize, b: usize) -> (m: usize)
    ensures
        m == if a < b { a } else { b },
{
    if a < b {
        a
    } else {
        b
    }
}

/// LZ77-tokenises the input with a hash-chain match finder (64 KiB window,
/// chains of up to 128 links, matches of 4 to 259 bytes).
pub fn lz77_compress(input: &[u8]) -> (out: Vec<u8>)
    ensures
        out@ == spec_lz77(input@),
        exists|ts: Seq<LzToken>|
            {
                &&& out@ == tokens_bytes(ts)
                &&& tokens_valid(ts)
                &&& replay(ts) == input@
            },
{
    lz77_compress_depth(input, DEFAULT_CHAIN_DEPTH)
}

/// LZ77-tokenises the input as `lz77_compress` does, walking at most
/// `max_depth` links of each hash chain.
pub fn lz77_compress_depth(input: &[u8], max_depth: usize) -> (out: Vec<u8>)
    ensures
        out@ == spec_lz77_depth(input@, max_depth as nat),
        exists|ts: Seq<LzToken>|
            {
                &&& out@ == tokens_bytes(ts)
                &&& tokens_valid(ts)
                &&& replay(ts) == input@
            },
{
    let ghost mut ts: Seq<LzToken> = seq![];
    if input.len() == 0 {
        assert(input@ =~= replay(ts));
        return Vec::new();
    }
    let n = input.len();
    let mut out: Vec<u8> = Vec::new();
    let mut hash_head: Vec<u32> = vec![u32::MAX; HASH_SIZE];
    let mut prev: Vec<u32> = vec![u32::MAX; WINDOW_SIZE];
    assert(hash_head@ =~= empty_chains());
    assert(prev@ =~= empty_chains());
    let mut pos: usize = 0;
    assert(input@.take(0) =~= replay(ts));
    assert(out@ + spec_lz77_depth(input@, max_depth as nat) =~= spec_lz77_depth(input@, max_depth as nat));
    while pos < n
        invariant
            n == input@.len(),
            pos <= n,
            hash_head@.len() == HASH_SIZE,
            prev@.len() == WINDOW_SIZE,
            out@ == tokens_bytes(ts),
            tokens_valid(ts),
            replay(ts) == input@.take(pos as int),
            out@ + lz_tokens_from(input@, pos as nat, hash_head@, prev@, max_depth as nat)
                == spec_lz77_depth(input@, max_depth as nat),
        decreases n - pos,
    {
        let ghost out0 = out@;
        if n - pos < MIN_MATCH {
            let ghost t = LzToken::Literal(input@[pos as int]);
            out.push(TAG_LIT);
            out.push(input[pos]);
            proof {
                assert(out@ =~= tokens_bytes(ts) + token_bytes(t));
                let ts2 = ts.push(t);
                assert(ts2.drop_last() =~= ts);
                assert(input@.take(pos + 1) =~= input@.take(pos as int).push(input@[pos as int]));
                ts = ts2;
                let rest = lz_tokens_from(input@, (pos + 1) as nat, hash_head@, prev@, max_depth as nat);
                assert(out0 + (seq![0u8, input@[pos as int]] + rest) =~= out@ + rest);
            }
            pos = pos + 1;
            continue;
        }
        let h = hash4(input, pos);
        let ghost head0 = hash_head@;
        let ghost prev0 = prev@;
        let ghost best = chain_best(input@, pos as int, prev0, head0[h as int], 0, max_depth as nat, (3, 0));
        let mut best_len: usize = MIN_MATCH - 1;
        let mut best_offset: usize = 0;
        let mut cur: u32 = hash_head[h];
        let mut depth: usize = 0;
        while cur != u32::MAX && depth < max_depth
            invariant_except_break
                n == input@.len(),
                pos + MIN_MATCH <= n,
                prev@.len() == WINDOW_SIZE,
                prev@ == prev0,
                3 <= best_len <= MAX_MATCH,
                pos + best_len <= n || best_len == 3,
                best_len >= 4 ==> 1 <= best_offset <= pos && best_offset < WINDOW_SIZE,
                best_len >= 4 ==> forall|k: int|
                    0 <= k < best_len ==> #[trigger] input@[pos - best_offset + k] == input@[pos
                        + k],
                chain_best(input@, pos as int, prev0, cur, depth as nat, max_depth as nat, (best_len as nat, best_offset as nat))
                    == best,
            ensures
                3 <= best_len <= MAX_MATCH,
                pos + best_len <= n || best_len == 3,
                best_len >= 4 ==> 1 <= best_offset <= pos && best_offset < WINDOW_SIZE,
                best_len >= 4 ==> forall|k: int|
                    0 <= k < best_len ==> #[trigger] input@[pos - best_offset + k] == input@[pos
                        + k],
                (best_len as nat, best_offset as nat) == best,
            decreases max_depth - depth,
        {
            let cp = cur as usize;
            if cp >= pos {
                break;
            }
            let offset = pos - cp;
            if offset >= WINDOW_SIZE {
                break;
            }
            let max_len = min_usize(n - pos, MAX_MATCH);
            let mut mlen: usize = 0;
            while mlen < max_len && input[cp + mlen] == input[pos + mlen]
                invariant
                    n == input@.len(),
                    cp < pos,
                    max_len <= n - pos,
                    max_len <= MAX_MATCH,
                    mlen <= max_len,
                    forall|k: int| 0 <= k < mlen ==> #[trigger] input@[cp + k] == input@[pos + k],
                    common_len(input@, cp as int, pos as int, mlen as nat, max_len as nat)
                        == common_len(input@, cp as int, pos as int, 0, max_len as nat),
                decreases max_len - mlen,
            {
                mlen = mlen + 1;
            }
            assert(cp & WINDOW_MASK < 65536usize && cp & WINDOW_MASK == cp % 65536) by (bit_vector);
            if mlen > best_len {
                best_len = mlen;
                best_offset = offset;
                assert(forall|k: int|
                    0 <= k < best_len ==> #[trigger] input@[pos - best_offset + k] == input@[pos
                        + k]) by {
                    assert(pos - best_offset == cp);
                }
                if mlen == MAX_MATCH {
                    break;
                }
            }
            cur = prev[cp & WINDOW_MASK];
            depth = depth + 1;
        }
        // Update the hash chain for the current position.
        assert(pos & WINDOW_MASK < 65536usize && pos & WINDOW_MASK == pos % 65536) by (bit_vector);
        prev.set(pos & WINDOW_MASK, hash_head[h]);
        hash_head.set(h, pos as u32);
        assert((hash_head@, prev@) == chain_insert(input@, head0, prev0, pos as int));
        if best_len >= MIN_MATCH {
            let ghost t = LzToken::Match(best_offset as u32, best_len as u32);
            out.push(TAG_MATCH);
            out.push((best_offset >> 8) as u8);
            out.push(best_offset as u8);
            out.push((best_len - MIN_MATCH) as u8);
            proof {
                assert((best_offset >> 8usize) as u8 == ((best_offset as u32 / 256) % 256) as u8
                    && best_offset as u8 == (best_offset as u32 % 256) as u8) by (bit_vector)
                    requires
                        best_offset < 65536,
                ;
                assert(out@ =~= tokens_bytes(ts) + token_bytes(t));
                let ts2 = ts.push(t);
                assert(ts2.drop_last() =~= ts);
                lemma_copy_back_matches(
                    input@,
                    pos as int,
                    pos - best_offset,
                    best_len as nat,
                );
                assert(replay(ts2) == copy_back(
                    input@.take(pos as int),
                    pos - best_offset,
                    best_len as nat,
                ));
                ts = ts2;
            }
            // Update hashes for skipped positions.
            let lim = min_usize(best_len, 8);
            let ghost after = skip_inserts(input@, hash_head@, prev@, pos as int, 1, lim as nat);
            let mut skip: usize = 1;
            while skip < lim
                invariant
                    n == input@.len(),
                    lim <= 8,
                    pos + best_len <= n,
                    lim <= best_len,
                    1 <= skip,
                    hash_head@.len() == HASH_SIZE,
                    prev@.len() == WINDOW_SIZE,
                    skip_inserts(input@, hash_head@, prev@, pos as int, skip as nat, lim as nat)
                        == after,
                decreases lim - skip,
            {
                let sp = pos + skip;
                if n - sp >= MIN_MATCH {
                    let sh = hash4(input, sp);
                    assert(sp & WINDOW_MASK < 65536usize && sp & WINDOW_MASK == sp % 65536)
                        by (bit_vector);
                    let ghost hh = hash_head@;
                    let ghost pp = prev@;
                    prev.set(sp & WINDOW_MASK, hash_head[sh]);
                    hash_head.set(sh, sp as u32);
                    assert((hash_head@, prev@) == chain_insert(input@, hh, pp, sp as int));
                }
                skip = skip + 1;
            }
            proof {
                let rest = lz_tokens_from(input@, (pos + best_len) as nat, hash_head@, prev@, max_depth as nat);
                assert(out0 + (seq![
                    1u8,
                    ((best_offset / 256) % 256) as u8,
                    (best_offset % 256) as u8,
                    (best_len - 4) as u8,
                ] + rest) =~= out@ + rest);
            }
            pos = pos + best_len;
        } else {
            let ghost t = LzToken::Literal(input@[pos as int]);
            out.push(TAG_LIT);
            out.push(input[pos]);
            proof {
                assert(out@ =~= tokens_bytes(ts) + token_bytes(t));
                let ts2 = ts.push(t);
                assert(ts2.drop_last() =~= ts);
                assert(input@.take(pos + 1) =~= input@.take(pos as int).push(input@[pos as int]));
                ts = ts2;
                let rest = lz_tokens_from(input@, (pos + 1) as nat, hash_head@, prev@, max_depth as nat);
                assert(out0 + (seq![0u8, input@[pos as int]] + rest) =~= out@ + rest);
            }
            pos = pos + 1;
        }
    }
    assert(input@.take(n as int) =~= input@);
    assert(out@ + Seq::<u8>::empty() =~= out@);
    out
}

} // verus!
