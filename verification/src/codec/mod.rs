//! LZ-ANS++ codec: LZ77 tokenisation followed by rANS entropy coding, with a
//! fall-back to rANS alone when the tokens do not help.

use vstd::prelude::*;

pub mod ans;
pub mod lz77;

use crate::bytes::{get_le32, le32, push_le32, read_le32};
use crate::error::{hex_byte, hex_byte_text, AxcError};
use ans::{ans_decode, ans_encode, spec_ans_decode, spec_ans_encode};
use lz77::{lz77_compress_depth, lz77_decompress, lz_decode, spec_lz77_depth, replay, tokens_bytes, tokens_valid, LzToken};

verus! {

/// Compression level: controls the LZ77 chain depth; the rANS table is
/// built the same way at every level.
#[derive(Clone, Copy, Debug, PartialEq, Eq, Structural)]
pub enum Level {
    Fast,
    Balanced,
    Max,
}

impl Default for Level {
    fn default() -> (l: Self)
        ensures
            l == Level::Balanced,
    {
        Level::Balanced
    }
}

/// How many hash-chain links the LZ77 match finder walks at each level:
/// few for `Fast`, the default for `Balanced`, many for `Max`.
pub open spec fn chain_depth_of(l: Level) -> nat {
    match l {
        Level::Fast => 8,
        Level::Balanced => 128,
        Level::Max => 1024,
    }
}

impl Level {
    /// The LZ77 chain depth of this level.
    pub fn chain_depth(self) -> (d: usize)
        ensures
            d == chain_depth_of(self),
    {
        match self {
            Level::Fast => 8,
            Level::Balanced => 128,
            Level::Max => 1024,
        }
    }

    pub fn from_u8(v: u8) -> (l: Self)
        ensures
            l == (if v == 1 {
                Level::Fast
            } else if v == 3 {
                Level::Max
            } else {
                Level::Balanced
            }),
    {
        match v {
            1 => Level::Fast,
            3 => Level::Max,
            _ => Level::Balanced,
        }
    }

    pub fn to_u8(self) -> (v: u8)
        ensures
            v == match self {
                Level::Fast => 1u8,
                Level::Balanced => 2u8,
                Level::Max => 3u8,
            },
    {
        match self {
            Level::Fast => 1,
            Level::Balanced => 2,
            Level::Max => 3,
        }
    }
}

/// Codec identifier stored in the chunk header.
#[derive(Clone, Copy, Debug, PartialEq, Eq, Structural)]
pub enum CodecId {
    /// No compression (stored), 0x00.
    Raw,
    /// LZ77 + rANS, 0x01.
    LzAns,
}

impl CodecId {
    pub fn from_u8(v: u8) -> (c: Option<Self>)
        ensures
            c == (if v == 0 {
                Some(CodecId::Raw)
            } else if v == 1 {
                Some(CodecId::LzAns)
            } else {
                None
            }),
    {
        match v {
            0x00 => Some(CodecId::Raw),
            0x01 => Some(CodecId::LzAns),
            _ => None,
        }
    }

    /// The byte stored for this codec.
    pub fn to_u8(self) -> (v: u8)
        ensures
            v == match self {
                CodecId::Raw => 0u8,
                CodecId::LzAns => 1u8,
            },
    {
        match self {
            CodecId::Raw => 0x00,
            CodecId::LzAns => 0x01,
        }
    }
}

/// An LZ-ANS block: flag 1, the token count as u32, the rANS block of the
/// tokens.
pub open spec fn lz_block(tk: Seq<u8>) -> Seq<u8> {
    seq![1u8] + le32(tk.len() as u32) + spec_ans_encode(tk)
}

/// A rANS-only block: flag 0, the rANS block of the input.
pub open spec fn raw_block(input: Seq<u8>) -> Seq<u8> {
    seq![0u8] + spec_ans_encode(input)
}

/// The output of `compress` for `input` tokenised as `tk`: the LZ-ANS block
/// when the tokens encode no larger than the input, else the rANS-only
/// block.
pub open spec fn compress_output(input: Seq<u8>, tk: Seq<u8>) -> Seq<u8> {
    if input.len() == 0 {
        seq![]
    } else if spec_ans_encode(tk).len() <= spec_ans_encode(input).len() {
        lz_block(tk)
    } else {
        raw_block(input)
    }
}

/// Whether `compress_full` takes the LZ77 path for `input` tokenised as `tk`.
pub open spec fn full_uses_tokens(input: Seq<u8>, tk: Seq<u8>) -> bool {
    1 + 4 + spec_ans_encode(tk).len() <= 1 + spec_ans_encode(input).len()
}

/// The output of `compress_full` for `input` tokenised as `tk`: a flag byte,
/// then on the LZ77 path the token count as u32 and the rANS block of the
/// tokens, otherwise the rANS block of the input.
pub open spec fn compress_full_output(input: Seq<u8>, tk: Seq<u8>) -> Seq<u8> {
    if input.len() == 0 {
        seq![]
    } else if full_uses_tokens(input, tk) {
        lz_block(tk)
    } else {
        raw_block(input)
    }
}

/// The decompression of `data` into `original_len` bytes, or the message of
/// the failure.
pub open spec fn spec_decompress(data: Seq<u8>, original_len: nat) -> Result<Seq<u8>, Seq<char>> {
    if data.len() == 0 {
        Ok(seq![])
    } else if data[0] == 1 {
        if data.len() < 5 {
            Err("truncated LZ-ANS header"@)
        } else if get_le32(data, 1) > 2 * original_len {
            Err("token count exceeds twice the original length"@)
        } else {
            match spec_ans_decode(data.skip(5), get_le32(data, 1) as nat) {
                Ok(tokens) => Ok(lz_decode(tokens, seq![])),
                Err(m) => Err(m),
            }
        }
    } else if data[0] == 0 {
        spec_ans_decode(data.skip(1), original_len)
    } else {
        Err("unknown codec flag: "@ + hex_byte_text(data[0]))
    }
}


proof fn lemma_tokens_bytes_len(ts: Seq<LzToken>)
    requires
        tokens_valid(ts),
    ensures
        tokens_bytes(ts).len() <= 2 * replay(ts).len(),
    decreases ts.len(),
{
    if ts.len() > 0 {
        lemma_tokens_bytes_len(ts.drop_last());
        match ts.last() {
            LzToken::Literal(_) => {},
            LzToken::Match(off, len) => {
                lz77::lemma_copy_back_len(
                    replay(ts.drop_last()),
                    replay(ts.drop_last()).len() - off,
                    len as nat,
                );
            },
        }
    }
}

/// Compress `input` with LZ77 → ANS, falling back to ANS alone when the
/// tokens encode larger.
pub fn compress(input: &[u8], level: Level) -> (out: Vec<u8>)
    requires
        input@.len() <= 0x7FFF_FFF0,
    ensures
        out@ == compress_output(input@, spec_lz77_depth(input@, chain_depth_of(level))),
        spec_decompress(out@, input@.len()) == Ok::<Seq<u8>, Seq<char>>(input@),
{
    if input.len() == 0 {
        let ghost ts: Seq<LzToken> = seq![];
        assert(replay(ts) =~= input@);
        return Vec::new();
    }
    let tokens = lz77_compress_depth(input, level.chain_depth());
    let ghost ts = choose|ts: Seq<LzToken>|
        {
            &&& tokens@ == tokens_bytes(ts)
            &&& tokens_valid(ts)
            &&& replay(ts) == input@
        };
    proof {
        lemma_tokens_bytes_len(ts);
    }
    let encoded_tokens = ans_encode(&tokens);
    let encoded_raw = ans_encode(input);
    let mut out: Vec<u8> = Vec::new();
    if encoded_tokens.len() <= encoded_raw.len() {
        out.push(0x01u8);
        push_le32(&mut out, tokens.len() as u32);
        crate::format::push_all(&mut out, encoded_tokens.as_slice());
    } else {
        out.push(0x00u8);
        crate::format::push_all(&mut out, encoded_raw.as_slice());
    }
    assert(out@ =~= compress_output(input@, tokens_bytes(ts)));
    proof {
        lemma_blocks_roundtrip(input@, ts);
    }
    out
}

/// `out` is the `compress_full` block of `input`, and it decompresses
/// back to the input.
pub open spec fn is_full_compression(out: Seq<u8>, input: Seq<u8>, level: Level) -> bool {
    &&& out == compress_full_output(input, spec_lz77_depth(input, chain_depth_of(level)))
    &&& spec_decompress(out, input.len()) == Ok::<Seq<u8>, Seq<char>>(input)
}

/// Compress with a token-length header so that `decompress` can recover it.
pub fn compress_full(input: &[u8], level: Level) -> (out: Vec<u8>)
    requires
        input@.len() <= 0x7FFF_FFF0,
    ensures
        out@ == compress_full_output(input@, spec_lz77_depth(input@, chain_depth_of(level))),
        is_full_compression(out@, input@, level),
{
    if input.len() == 0 {
        assert(input@ =~= Seq::<u8>::empty());
        assert(out_empty_decodes(input@));
        return Vec::new();
    }
    let tokens = lz77_compress_depth(input, level.chain_depth());
    let ghost ts = choose|ts: Seq<LzToken>|
        {
            &&& tokens@ == tokens_bytes(ts)
            &&& tokens_valid(ts)
            &&& replay(ts) == input@
        };
    proof {
        lemma_tokens_bytes_len(ts);
    }
    let token_len = tokens.len() as u32;
    let encoded_tokens = ans_encode(&tokens);
    let encoded_raw = ans_encode(input);
    let mut out: Vec<u8> = Vec::new();
    if encoded_tokens.len() <= encoded_raw.len() && encoded_raw.len() - encoded_tokens.len() >= 4 {
        out.push(0x01u8);
        push_le32(&mut out, token_len);
        crate::format::push_all(&mut out, encoded_tokens.as_slice());
    } else {
        out.push(0x00u8);
        crate::format::push_all(&mut out, encoded_raw.as_slice());
    }
    assert(out@ =~= compress_full_output(input@, tokens_bytes(ts)));
    proof {
        lemma_blocks_roundtrip(input@, ts);
    }
    out
}

spec fn out_empty_decodes(input: Seq<u8>) -> bool {
    spec_decompress(seq![], input.len()) == Ok::<Seq<u8>, Seq<char>>(input)
}

/// The rANS-only block of an input decompresses back to it, and so does
/// its LZ-ANS block whenever that block is no larger than the rANS-only
/// one (which is when `compress` and `compress_full` choose it).
proof fn lemma_blocks_roundtrip(input: Seq<u8>, ts: Seq<LzToken>)
    requires
        0 < input.len() <= 0x7FFF_FFF0,
        tokens_valid(ts),
        replay(ts) == input,
        tokens_bytes(ts).len() <= 2 * input.len(),
    ensures
        spec_ans_encode(tokens_bytes(ts)).len() <= spec_ans_encode(input).len() ==> spec_decompress(
            lz_block(tokens_bytes(ts)),
            input.len(),
        ) == Ok::<Seq<u8>, Seq<char>>(input),
        spec_decompress(raw_block(input), input.len()) == Ok::<Seq<u8>, Seq<char>>(input),
{
    let tk = tokens_bytes(ts);
    ans::lemma_ans_lengths(input);
    ans::lemma_ans_roundtrip(input);
    assert(raw_block(input).skip(1) =~= spec_ans_encode(input));
    if spec_ans_encode(tk).len() <= spec_ans_encode(input).len() {
        if tk.len() > 0 {
            ans::lemma_ans_lengths(tk);
        }
        assert(ans::ans_payload_fits(tk));
        ans::lemma_ans_roundtrip(tk);
        lz77::lemma_lz77_roundtrip(ts);
        let et = spec_ans_encode(tk);
        let out = lz_block(tk);
        crate::bytes::lemma_le32_roundtrip(tk.len() as u32, seq![1u8], et);
        assert(out.skip(5) =~= et);
        assert(get_le32(out, 1) == tk.len());
    }
}

/// Decompress the output of `compress` or `compress_full`; `original_len`
/// sizes the output of the rANS-only path and bounds the token count of the
/// LZ-ANS path (at most two token bytes per output byte), so that no length
/// field is trusted before allocating.
pub fn decompress(data: &[u8], original_len: usize) -> (res: Result<Vec<u8>, AxcError>)
    ensures
        match spec_decompress(data@, original_len as nat) {
            Ok(v) => res matches Ok(o) && o@ == v,
            Err(m) => res matches Err(AxcError::CodecError(msg)) && msg@ == m,
        },
{
    if data.len() == 0 {
        return Ok(Vec::new());
    }
    let flag = data[0];
    let payload = vstd::slice::slice_subrange(data, 1, data.len());
    if flag == 0x01 {
        if payload.len() < 4 {
            return Err(AxcError::CodecError("truncated LZ-ANS header".to_owned()));
        }
        let token_count = read_le32(payload, 0);
        assert(get_le32(payload@, 0) == get_le32(data@, 1));
        if (original_len as u64) < 0x8000_0000 && token_count as u64 > 2 * (original_len as u64) {
            return Err(
                AxcError::CodecError("token count exceeds twice the original length".to_owned()),
            );
        }
        let token_len = token_count as usize;
        let ans_data = vstd::slice::slice_subrange(payload, 4, payload.len());
        assert(ans_data@ =~= data@.skip(5));
        assert(get_le32(payload@, 0) == get_le32(data@, 1));
        let tokens = match ans_decode(ans_data, token_len) {
            Ok(t) => t,
            Err(e) => {
                return Err(e);
            },
        };
        let output = lz77_decompress(&tokens, original_len);
        Ok(output)
    } else if flag == 0x00 {
        assert(payload@ =~= data@.skip(1));
        ans_decode(payload, original_len)
    } else {
        let mut msg = "unknown codec flag: ".to_owned();
        let hex = hex_byte(flag);
        msg.append(hex.as_str());
        Err(AxcError::CodecError(msg))
    }
}

} // verus!
