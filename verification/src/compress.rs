//! LZ4 payload compression with hard decompression caps.
//!
//! A tiny compressed blob that claims to expand to gigabytes is the classic way to take down every
//! relay in a mesh. The framing prepends the uncompressed length, and nothing claiming more than an
//! absolute byte cap is ever allocated or decoded, so output is bounded whatever the input claims.

use vstd::prelude::*;

use crate::bytes::{append_bytes, be_u32_of, lemma_u32_be_roundtrip, push_u32_be, read_u32_be, u32_be};
use crate::config::Tunables;
use crate::error::Error;

verus! {

/// The LZ4 block encoding of `data` (`lz4_flex::block::compress`, deterministic).
pub uninterp spec fn lz4_block(data: Seq<u8>) -> Seq<u8>;

/// What `lz4_flex::block::decompress(body, size)` yields: the decoded bytes, or `None` when the
/// block is malformed or decodes to more than `size` bytes.
pub uninterp spec fn lz4_unblock(body: Seq<u8>, size: nat) -> Option<Seq<u8>>;

/// Calls `lz4_flex::block::compress`. Claimed: the result is `lz4_block(input)`.
#[verifier::external_body]
fn lz4_compress(input: &[u8]) -> (out: Vec<u8>)
    ensures
        out@ == lz4_block(input@),
{
    lz4_flex::block::compress(input)
}

/// Calls `lz4_flex::block::decompress` with `size` as the output buffer size. Claimed: the result is
/// `lz4_unblock(body, size)`; it never holds more than `size` bytes (the decoder writes into a
/// buffer of exactly that size); and the block encoding of any `x` no longer than `size` decodes back
/// to `x` (LZ4 is lossless). The error text comes from the decoder and is not stated.
#[verifier::external_body]
fn lz4_decompress(body: &[u8], size: usize) -> (r: Result<Vec<u8>, String>)
    ensures
        r is Ok <==> lz4_unblock(body@, size as nat) is Some,
        r is Ok ==> r->Ok_0@ == lz4_unblock(body@, size as nat)->Some_0,
        r is Ok ==> r->Ok_0@.len() <= size,
        forall|x: Seq<u8>|
            x.len() <= size && #[trigger] lz4_block(x) == body@ ==> r is Ok && r->Ok_0@ == x,
{
    match lz4_flex::block::decompress(body, size) {
        Ok(v) => Ok(v),
        Err(e) => Err(format!("lz4: {e}")),
    }
}

/// The framed form of `data`: its length as four big-endian bytes, then its LZ4 block.
pub open spec fn framed(data: Seq<u8>) -> Seq<u8> {
    u32_be(data.len()) + lz4_block(data)
}

/// What [`maybe_compress`] returns.
pub open spec fn spec_maybe_compress(data: Seq<u8>, cfg: Tunables) -> Option<Seq<u8>> {
    if data.len() <= cfg.compress_min_bytes {
        None
    } else if framed(data).len() < data.len() {
        Some(framed(data))
    } else {
        None
    }
}

/// Why [`decompress`] refuses a blob, if it does (`None` when the blob is accepted).
pub enum DecompressFailure {
    TruncatedPrefix,
    OverCap,
    Malformed,
    LengthMismatch,
}

/// The length a framed blob declares.
pub open spec fn declared_len(blob: Seq<u8>) -> nat {
    be_u32_of(blob.subrange(0, 4))
}

/// The outcome of decompressing `blob` under `cfg`: the bytes, or why it was refused.
pub open spec fn spec_decompress(blob: Seq<u8>, cfg: Tunables) -> Result<Seq<u8>, DecompressFailure> {
    if blob.len() < 4 {
        Err(DecompressFailure::TruncatedPrefix)
    } else if declared_len(blob) > cfg.decompress_max_bytes {
        Err(DecompressFailure::OverCap)
    } else {
        match lz4_unblock(blob.subrange(4, blob.len() as int), declared_len(blob)) {
            None => Err(DecompressFailure::Malformed),
            Some(out) => if out.len() != declared_len(blob) {
                Err(DecompressFailure::LengthMismatch)
            } else {
                Ok(out)
            },
        }
    }
}

/// Compress `input`, prepending a 4-byte big-endian length. Returns `None` when compression is
/// not worthwhile (input not above the threshold, or it did not actually shrink).
pub fn maybe_compress(input: &[u8], cfg: &Tunables) -> (r: Option<Vec<u8>>)
    ensures
        r is Some <==> spec_maybe_compress(input@, *cfg) is Some,
        r is Some ==> r->Some_0@ == spec_maybe_compress(input@, *cfg)->Some_0,
{
    if input.len() <= cfg.compress_min_bytes {
        return None;
    }
    let body = lz4_compress(input);
    let mut out: Vec<u8> = Vec::new();
    push_u32_be(&mut out, input.len());
    append_bytes(&mut out, body.as_slice());
    assert(out@ =~= framed(input@));
    if out.len() < input.len() {
        Some(out)
    } else {
        None
    }
}

/// Decompress a length-prepended LZ4 blob, enforcing the caps in `cfg`. A blob that
/// [`maybe_compress`] produced for data within the cap decodes back to that data.
pub fn decompress(input: &[u8], cfg: &Tunables) -> (r: Result<Vec<u8>, Error>)
    ensures
        r is Ok <==> spec_decompress(input@, *cfg) is Ok,
        r is Ok ==> r->Ok_0@ == spec_decompress(input@, *cfg)->Ok_0,
        r is Ok ==> r->Ok_0@.len() <= cfg.decompress_max_bytes,
        r is Err ==> r->Err_0 is Compress,
        forall|data: Seq<u8>|
            #[trigger] framed(data) == input@ && data.len() <= cfg.decompress_max_bytes
                && data.len() <= u32::MAX ==> r is Ok && r->Ok_0@ == data,
{
    proof {
        assert forall|data: Seq<u8>|
            #[trigger] framed(data) == input@ && data.len() <= cfg.decompress_max_bytes
                && data.len() <= u32::MAX implies input@.len() >= 4 && declared_len(input@)
            == data.len() && input@.subrange(4, input@.len() as int) == lz4_block(data) by {
            lemma_u32_be_roundtrip(data.len());
            assert(input@.subrange(0, 4) =~= u32_be(data.len()));
            assert(input@.subrange(4, input@.len() as int) =~= lz4_block(data));
        }
    }
    if input.len() < 4 {
        return Err(Error::Compress("truncated length prefix".to_string()));
    }
    let declared = read_u32_be(input, 0);
    // The absolute output cap is the real zip-bomb defense: nothing over it is ever produced, so a
    // tiny blob claiming gigabytes is rejected before any allocation.
    if declared > cfg.decompress_max_bytes {
        return Err(Error::Compress("declared size exceeds cap".to_string()));
    }
    let (_, body) = input.split_at(4);
    let out = match lz4_decompress(body, declared) {
        Ok(v) => v,
        Err(msg) => return Err(Error::Compress(msg)),
    };
    if out.len() != declared {
        return Err(Error::Compress("length mismatch after decompress".to_string()));
    }
    Ok(out)
}

} // verus!
