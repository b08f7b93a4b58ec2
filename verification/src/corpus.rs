//! The binary corpus format: a 24-byte header (the signature
//! `CLUX_CORPUS\0`, a little-endian `u32` version and a little-endian `u64`
//! token count) followed by the UBC tokens, two little-endian bytes each.

use vstd::prelude::*;

use crate::ubc::{lemma_ubc_codes_concat, ubc_codes, UbcEngine, UbcToken};

verus! {

broadcast use vstd::slice::group_slice_axioms;

/// The format version written into every header.
pub const CORPUS_VERSION: u32 = 1;

/// The 12 signature bytes, `CLUX_CORPUS` and a NUL.
pub open spec fn corpus_magic() -> Seq<u8> {
    seq![0x43u8, 0x4C, 0x55, 0x58, 0x5F, 0x43, 0x4F, 0x52, 0x50, 0x55, 0x53, 0x00]
}

/// Little-endian bytes of a `u16`.
pub open spec fn le_u16(v: u16) -> Seq<u8> {
    seq![v as u8, (v >> 8u16) as u8]
}

/// Little-endian bytes of a `u32`.
pub open spec fn le_u32(v: u32) -> Seq<u8> {
    seq![v as u8, (v >> 8u32) as u8, (v >> 16u32) as u8, (v >> 24u32) as u8]
}

/// Little-endian bytes of a `u64`.
pub open spec fn le_u64(v: u64) -> Seq<u8> {
    seq![
        v as u8,
        (v >> 8u64) as u8,
        (v >> 16u64) as u8,
        (v >> 24u64) as u8,
        (v >> 32u64) as u8,
        (v >> 40u64) as u8,
        (v >> 48u64) as u8,
        (v >> 56u64) as u8,
    ]
}

/// The `u32` whose little-endian bytes are `b[0..4]`.
pub open spec fn u32_from_le(b: Seq<u8>) -> u32 {
    (b[0] as u32) | ((b[1] as u32) << 8u32) | ((b[2] as u32) << 16u32) | ((b[3] as u32) << 24u32)
}

/// The `u64` whose little-endian bytes are `b[0..8]`.
pub open spec fn u64_from_le(b: Seq<u8>) -> u64 {
    (b[0] as u64) | ((b[1] as u64) << 8u64) | ((b[2] as u64) << 16u64) | ((b[3] as u64) << 24u64)
        | ((b[4] as u64) << 32u64) | ((b[5] as u64) << 40u64) | ((b[6] as u64) << 48u64) | ((
    b[7] as u64) << 56u64)
}

/// The header of a corpus holding `count` tokens.
pub open spec fn corpus_header(count: u64) -> Seq<u8> {
    corpus_magic() + le_u32(CORPUS_VERSION) + le_u64(count)
}

/// The token stream: token `i` is bytes `2i` (low) and `2i + 1` (high).
pub open spec fn token_stream(codes: Seq<u16>) -> Seq<u8> {
    Seq::new(
        2 * codes.len(),
        |k: int|
            if k % 2 == 0 {
                codes[k / 2] as u8
            } else {
                (codes[k / 2] >> 8u16) as u8
            },
    )
}

/// Why a byte string is not a corpus header.
#[derive(Debug, Clone, Copy, PartialEq, Eq, Structural)]
pub enum CorpusError {
    /// The bytes end before the header does.
    Truncated,
    /// The first 12 bytes are not the signature.
    InvalidSignature,
}

/// What reading a header from the front of `b` gives: the signature is
/// checked once its 12 bytes are there, then version and token count are
/// read.
pub open spec fn header_of(b: Seq<u8>) -> Result<(u32, u64), CorpusError> {
    if b.len() < 12 {
        Err(CorpusError::Truncated)
    } else if b.take(12) != corpus_magic() {
        Err(CorpusError::InvalidSignature)
    } else if b.len() < 24 {
        Err(CorpusError::Truncated)
    } else {
        Ok((u32_from_le(b.subrange(12, 16)), u64_from_le(b.subrange(16, 24))))
    }
}

fn push_u16_le(out: &mut Vec<u8>, v: u16)
    ensures
        final(out)@ == old(out)@ + le_u16(v),
{
    out.push(v as u8);
    out.push((v >> 8u16) as u8);
    assert(final(out)@ =~= old(out)@ + le_u16(v));
}

fn push_u32_le(out: &mut Vec<u8>, v: u32)
    ensures
        final(out)@ == old(out)@ + le_u32(v),
{
    out.push(v as u8);
    out.push((v >> 8u32) as u8);
    out.push((v >> 16u32) as u8);
    out.push((v >> 24u32) as u8);
    assert(final(out)@ =~= old(out)@ + le_u32(v));
}

fn push_u64_le(out: &mut Vec<u8>, v: u64)
    ensures
        final(out)@ == old(out)@ + le_u64(v),
{
    out.push(v as u8);
    out.push((v >> 8u64) as u8);
    out.push((v >> 16u64) as u8);
    out.push((v >> 24u64) as u8);
    out.push((v >> 32u64) as u8);
    out.push((v >> 40u64) as u8);
    out.push((v >> 48u64) as u8);
    out.push((v >> 56u64) as u8);
    assert(final(out)@ =~= old(out)@ + le_u64(v));
}

pub struct CorpusCompiler;

impl CorpusCompiler {
    /// The header of a corpus of `token_count` tokens.
    pub fn header_bytes(token_count: u64) -> (v: Vec<u8>)
        ensures
            v@ == corpus_header(token_count),
    {
        let mut v: Vec<u8> = Vec::new();
        let sig: [u8; 12] = [0x43, 0x4C, 0x55, 0x58, 0x5F, 0x43, 0x4F, 0x52, 0x50, 0x55, 0x53, 0x00];
        let mut i: usize = 0;
        while i < 12
            invariant
                i <= 12,
                sig@ == corpus_magic(),
                v@ == corpus_magic().take(i as int),
            decreases 12 - i,
        {
            v.push(sig[i]);
            i = i + 1;
            assert(v@ =~= corpus_magic().take(i as int));
        }
        assert(corpus_magic().take(12) =~= corpus_magic());
        push_u32_le(&mut v, CORPUS_VERSION);
        push_u64_le(&mut v, token_count);
        v
    }

    /// The stream bytes of `tokens`, in order.
    pub fn token_bytes(tokens: &[UbcToken]) -> (v: Vec<u8>)
        ensures
            v@ == token_stream(tokens@.map_values(|t: UbcToken| t.0)),
    {
        let ghost codes = tokens@.map_values(|t: UbcToken| t.0);
        let mut v: Vec<u8> = Vec::new();
        let mut i: usize = 0;
        while i < tokens.len()
            invariant
                i <= tokens@.len(),
                codes == tokens@.map_values(|t: UbcToken| t.0),
                v@ == token_stream(codes.take(i as int)),
            decreases tokens@.len() - i,
        {
            let ghost before = v@;
            push_u16_le(&mut v, tokens[i].0);
            proof {
                let nxt = codes.take(i + 1);
                assert(v@ =~= token_stream(nxt)) by {
                    assert forall|k: int| 0 <= k < 2 * i implies #[trigger] token_stream(nxt)[k]
                        == before[k] by {
                        assert(nxt[k / 2] == codes.take(i as int)[k / 2]);
                    }
                    assert(nxt[i as int] == tokens@[i as int].0);
                }
            }
            i = i + 1;
        }
        assert(codes.take(tokens@.len() as int) =~= codes);
        v
    }

    /// Compiles one line of text: the stream bytes of its UBC tokens, and
    /// the running token count advanced by the number of tokens.
    pub fn compile_line(line: &str, total: u64) -> (r: (Vec<u8>, u64))
        requires
            total + line@.len() <= u64::MAX,
        ensures
            r.0@ == token_stream(ubc_codes(line@)),
            r.1 == total + line@.len(),
    {
        let tokens = UbcEngine::encode_str(line);
        let bytes = Self::token_bytes(tokens.as_slice());
        let n = tokens.len() as u64;
        (bytes, total + n)
    }

    /// Reads the version and token count from the header at the front of
    /// `bytes`.
    pub fn parse_header(bytes: &[u8]) -> (r: Result<(u32, u64), CorpusError>)
        ensures
            r == header_of(bytes@),
    {
        if bytes.len() < 12 {
            return Err(CorpusError::Truncated);
        }
        let sig: [u8; 12] = [0x43, 0x4C, 0x55, 0x58, 0x5F, 0x43, 0x4F, 0x52, 0x50, 0x55, 0x53, 0x00];
        let mut i: usize = 0;
        while i < 12
            invariant
                i <= 12,
                12 <= bytes@.len(),
                sig@ == corpus_magic(),
                forall|k: int| 0 <= k < i ==> bytes@[k] == corpus_magic()[k],
            decreases 12 - i,
        {
            if bytes[i] != sig[i] {
                assert(bytes@.take(12)[i as int] != corpus_magic()[i as int]);
                return Err(CorpusError::InvalidSignature);
            }
            i = i + 1;
        }
        assert(bytes@.take(12) =~= corpus_magic());
        if bytes.len() < 24 {
            return Err(CorpusError::Truncated);
        }
        let version = (bytes[12] as u32) | ((bytes[13] as u32) << 8u32) | ((bytes[14] as u32)
            << 16u32) | ((bytes[15] as u32) << 24u32);
        let count = (bytes[16] as u64) | ((bytes[17] as u64) << 8u64) | ((bytes[18] as u64)
            << 16u64) | ((bytes[19] as u64) << 24u64) | ((bytes[20] as u64) << 32u64) | ((
        bytes[21] as u64) << 40u64) | ((bytes[22] as u64) << 48u64) | ((bytes[23] as u64)
            << 56u64);
        Ok((version, count))
    }
}

proof fn lemma_le_u32_roundtrip(v: u32)
    ensures
        u32_from_le(le_u32(v)) == v,
{
    let (b0, b1, b2, b3) = (v as u8, (v >> 8u32) as u8, (v >> 16u32) as u8, (v >> 24u32) as u8);
    assert(((b0 as u32) | ((b1 as u32) << 8u32) | ((b2 as u32) << 16u32) | ((b3 as u32) << 24u32))
        == v) by (bit_vector)
        requires
            b0 == v as u8,
            b1 == (v >> 8u32) as u8,
            b2 == (v >> 16u32) as u8,
            b3 == (v >> 24u32) as u8,
    ;
}

proof fn lemma_le_u64_roundtrip(v: u64)
    ensures
        u64_from_le(le_u64(v)) == v,
{
    let b = le_u64(v);
    let (b0, b1, b2, b3, b4, b5, b6, b7) = (b[0], b[1], b[2], b[3], b[4], b[5], b[6], b[7]);
    assert(((b0 as u64) | ((b1 as u64) << 8u64) | ((b2 as u64) << 16u64) | ((b3 as u64) << 24u64)
        | ((b4 as u64) << 32u64) | ((b5 as u64) << 40u64) | ((b6 as u64) << 48u64) | ((b7 as u64)
        << 56u64)) == v) by (bit_vector)
        requires
            b0 == v as u8,
            b1 == (v >> 8u64) as u8,
            b2 == (v >> 16u64) as u8,
            b3 == (v >> 24u64) as u8,
            b4 == (v >> 32u64) as u8,
            b5 == (v >> 40u64) as u8,
            b6 == (v >> 48u64) as u8,
            b7 == (v >> 56u64) as u8,
    ;
}

/// A written header reads back: whatever follows it, the bytes start with
/// the current version and the token count that was written.
pub proof fn lemma_header_roundtrip(count: u64, rest: Seq<u8>)
    ensures
        header_of(corpus_header(count) + rest) == Ok::<(u32, u64), CorpusError>((CORPUS_VERSION, count)),
{
    let b = corpus_header(count) + rest;
    assert(b.take(12) =~= corpus_magic());
    assert(b.subrange(12, 16) =~= le_u32(CORPUS_VERSION));
    assert(b.subrange(16, 24) =~= le_u64(count));
    lemma_le_u32_roundtrip(CORPUS_VERSION);
    lemma_le_u64_roundtrip(count);
}


/// The stream of a concatenation is the concatenation of the streams, so
/// writing tokens in pieces gives the same bytes as writing them at once.
pub proof fn lemma_token_stream_concat(a: Seq<u16>, b: Seq<u16>)
    ensures
        token_stream(a + b) == token_stream(a) + token_stream(b),
{
    let l = token_stream(a + b);
    let r = token_stream(a) + token_stream(b);
    assert forall|k: int| 0 <= k < l.len() implies #[trigger] l[k] == r[k] by {
        if k < 2 * a.len() {
            assert((a + b)[k / 2] == a[k / 2]);
        } else {
            let k2 = k - 2 * a.len();
            assert(k2 / 2 == k / 2 - a.len() && k2 % 2 == k % 2);
            assert((a + b)[k / 2] == b[k2 / 2]);
        }
    }
    assert(l =~= r);
}

/// Compiling text line by line gives the bytes of compiling it whole: the
/// stream of two pieces of text is the stream of the two together.
pub proof fn lemma_text_stream_concat(a: Seq<char>, b: Seq<char>)
    ensures
        token_stream(ubc_codes(a + b)) == token_stream(ubc_codes(a)) + token_stream(ubc_codes(b)),
{
    lemma_ubc_codes_concat(a, b);
    lemma_token_stream_concat(ubc_codes(a), ubc_codes(b));
}

} // verus!
