//! Block-compression codecs, wrapped with trusted contracts.
//!
//! Three codecs are used: the dictionary-seeded block codec, the plain block
//! codec, and a block codec with a caller-supplied speed parameter that
//! prepends the payload size. Each compressed form is named by an
//! uninterpreted function of the inputs, since all three codecs are
//! deterministic; the round-trip facts the codec crates document are stated
//! on the compression wrappers and carried to verified round-trip functions.

use vstd::prelude::*;

verus! {

/// What the dictionary-seeded block compressor produces for a payload and a
/// dictionary.
pub uninterp spec fn lz4_dict_compressed(data: Seq<u8>, dict: Seq<u8>) -> Seq<u8>;

/// What the dictionary-seeded block decompressor recovers from an input and
/// a dictionary, when it accepts the input.
pub uninterp spec fn lz4_dict_decompressed(data: Seq<u8>, dict: Seq<u8>) -> Option<Seq<u8>>;

/// What the plain block compressor produces for a payload.
pub uninterp spec fn lz4_block_compressed(data: Seq<u8>) -> Seq<u8>;

/// What the plain block decompressor recovers from an input, when it accepts
/// the input.
pub uninterp spec fn lz4_block_decompressed(data: Seq<u8>) -> Option<Seq<u8>>;

/// What the speed-parameterized, size-prefixed block compressor produces for
/// a payload and a speed setting.
pub uninterp spec fn lz4_fast_compressed(data: Seq<u8>, speed: i32) -> Seq<u8>;

/// What the size-prefixed block decompressor recovers from an input, when it
/// accepts the input.
pub uninterp spec fn lz4_fast_decompressed(data: Seq<u8>) -> Option<Seq<u8>>;

/// The block format's documented worst-case compressed size for a payload of
/// `n` bytes: a sufficient output-buffer size for the block compressors.
pub open spec fn spec_max_compressed_len(n: nat) -> nat {
    20 + n * 110 / 100
}

/// The largest payload the size-prefixed block codec accepts.
pub open spec fn spec_fast_input_cap() -> nat {
    0x7E00_0000
}

#[verifier::external_type_specification]
#[verifier::external_body]
pub struct ExCompressError(lz4_flex::block::CompressError);

#[verifier::external_type_specification]
#[verifier::external_body]
pub struct ExDecompressError(lz4_flex::block::DecompressError);

#[verifier::external_type_specification]
#[verifier::external_body]
pub struct ExIoError(std::io::Error);

/// Relies on lz4_flex::block::compress_into_with_dict: deterministic block
/// compression of `data` under `dict` into the front of `out`, failing
/// exactly when `out` is smaller than the documented worst case;
/// decompressing the result under the same dictionary recovers `data`.
#[verifier::external_body]
pub(crate) fn lz4_compress_into_with_dict(data: &[u8], out: &mut Vec<u8>, dict: &[u8]) -> (r:
    Result<usize, lz4_flex::block::CompressError>)
    ensures
        final(out)@.len() == old(out)@.len(),
        r is Err <==> old(out)@.len() < spec_max_compressed_len(data@.len()),
        match r {
            Result::Ok(n) => {
                &&& n <= final(out)@.len()
                &&& final(out)@.subrange(0, n as int) == lz4_dict_compressed(data@, dict@)
                &&& lz4_dict_decompressed(lz4_dict_compressed(data@, dict@), dict@)
                    == Option::Some(data@)
            },
            Result::Err(_) => true,
        },
{
    lz4_flex::block::compress_into_with_dict(data, out.as_mut_slice(), dict)
}

/// Relies on lz4_flex::block::decompress_into_with_dict: deterministic block
/// decompression under a dictionary into the front of `out`; it succeeds
/// exactly when the input is acceptable and the recovered bytes fit `out`.
#[verifier::external_body]
pub(crate) fn lz4_decompress_into_with_dict(data: &[u8], out: &mut Vec<u8>, dict: &[u8]) -> (r:
    Result<usize, lz4_flex::block::DecompressError>)
    ensures
        final(out)@.len() == old(out)@.len(),
        match r {
            Result::Ok(n) => {
                &&& n <= final(out)@.len()
                &&& lz4_dict_decompressed(data@, dict@) == Option::Some(
                    final(out)@.subrange(0, n as int),
                )
            },
            Result::Err(_) => !(lz4_dict_decompressed(data@, dict@) matches Option::Some(p)
                && p.len() <= old(out)@.len()),
        },
{
    lz4_flex::block::decompress_into_with_dict(data, out.as_mut_slice(), dict)
}

/// Relies on lz4_flex::block::compress_into: deterministic block compression
/// of `data` into the front of `out`, failing exactly when `out` is smaller
/// than the documented worst case; decompressing the result recovers `data`.
#[verifier::external_body]
pub(crate) fn lz4_compress_into(data: &[u8], out: &mut Vec<u8>) -> (r: Result<
    usize,
    lz4_flex::block::CompressError,
>)
    ensures
        final(out)@.len() == old(out)@.len(),
        r is Err <==> old(out)@.len() < spec_max_compressed_len(data@.len()),
        match r {
            Result::Ok(n) => {
                &&& n <= final(out)@.len()
                &&& final(out)@.subrange(0, n as int) == lz4_block_compressed(data@)
                &&& lz4_block_decompressed(lz4_block_compressed(data@)) == Option::Some(data@)
            },
            Result::Err(_) => true,
        },
{
    lz4_flex::block::compress_into(data, out.as_mut_slice())
}

/// Relies on lz4_flex::block::decompress_into: deterministic block
/// decompression into the front of `out`; it succeeds exactly when the input
/// is acceptable and the recovered bytes fit `out`.
#[verifier::external_body]
pub(crate) fn lz4_decompress_into(data: &[u8], out: &mut Vec<u8>) -> (r: Result<
    usize,
    lz4_flex::block::DecompressError,
>)
    ensures
        final(out)@.len() == old(out)@.len(),
        match r {
            Result::Ok(n) => {
                &&& n <= final(out)@.len()
                &&& lz4_block_decompressed(data@) == Option::Some(
                    final(out)@.subrange(0, n as int),
                )
            },
            Result::Err(_) => !(lz4_block_decompressed(data@) matches Option::Some(p) && p.len()
                <= old(out)@.len()),
        },
{
    lz4_flex::block::decompress_into(data, out.as_mut_slice())
}

/// Relies on lz4::block::compress in FAST mode with the size prefix:
/// deterministic in the payload and the speed setting, failing exactly when
/// the payload exceeds the codec's input cap; decompressing the result
/// recovers the payload.
#[verifier::external_body]
pub(crate) fn lz4_fast_compress(data: &[u8], speed: i32) -> (r: Result<Vec<u8>, std::io::Error>)
    ensures
        r is Err <==> data@.len() > spec_fast_input_cap(),
        match r {
            Result::Ok(v) => {
                &&& v@ == lz4_fast_compressed(data@, speed)
                &&& lz4_fast_decompressed(lz4_fast_compressed(data@, speed)) == Option::Some(data@)
            },
            Result::Err(_) => true,
        },
{
    lz4::block::compress(data, Some(lz4::block::CompressionMode::FAST(speed)), true)
}

/// Relies on lz4::block::decompress with the size read from the input's
/// prefix: deterministic, succeeding exactly on acceptable inputs.
#[verifier::external_body]
pub(crate) fn lz4_fast_decompress(data: &[u8]) -> (r: Result<Vec<u8>, std::io::Error>)
    ensures
        match r {
            Result::Ok(v) => lz4_fast_decompressed(data@) == Option::Some(v@),
            Result::Err(_) => lz4_fast_decompressed(data@) is None,
        },
{
    lz4::block::decompress(data, None)
}

/// Equality of two byte slices.
pub fn slices_eq(a: &[u8], b: &[u8]) -> (r: bool)
    ensures
        r == (a@ == b@),
{
    if a.len() != b.len() {
        return false;
    }
    let mut i: usize = 0;
    while i < a.len()
        invariant
            i <= a@.len(),
            a@.len() == b@.len(),
            forall|j: int| 0 <= j < i ==> a@[j] == b@[j],
        decreases a@.len() - i,
    {
        if a[i] != b[i] {
            return false;
        }
        i = i + 1;
    }
    proof {
        assert(a@ =~= b@);
    }
    true
}

/// Round trip under a dictionary: any payload compressed with a dictionary
/// and decompressed with the same dictionary comes back exactly; a large
/// enough scratch buffer guarantees success.
pub fn dict_round_trip(payload: &[u8], dict: &[u8], scratch: &mut Vec<u8>) -> (r: Option<Vec<u8>>)
    ensures
        final(scratch)@.len() == old(scratch)@.len(),
        r matches Option::Some(v) ==> v@ == payload@,
        old(scratch)@.len() >= spec_max_compressed_len(payload@.len()) ==> r is Some,
{
    match lz4_compress_into_with_dict(payload, scratch, dict) {
        Ok(n) => {
            let compressed = vstd::slice::slice_to_vec(
                vstd::slice::slice_subrange(scratch.as_slice(), 0, n),
            );
            let mut out: Vec<u8> = alloc_bytes(payload.len());
            match lz4_decompress_into_with_dict(compressed.as_slice(), &mut out, dict) {
                Ok(m) => {
                    out.truncate(m);
                    proof {
                        assert(out@ =~= payload@);
                    }
                    Some(out)
                },
                Err(_) => None,
            }
        },
        Err(_) => None,
    }
}

/// Round trip of the plain block codec: any payload compressed and
/// decompressed with it comes back exactly; a large enough scratch buffer
/// guarantees success.
pub fn block_round_trip(payload: &[u8], scratch: &mut Vec<u8>) -> (r: Option<Vec<u8>>)
    ensures
        final(scratch)@.len() == old(scratch)@.len(),
        r matches Option::Some(v) ==> v@ == payload@,
        old(scratch)@.len() >= spec_max_compressed_len(payload@.len()) ==> r is Some,
{
    match lz4_compress_into(payload, scratch) {
        Ok(n) => {
            let compressed = vstd::slice::slice_to_vec(
                vstd::slice::slice_subrange(scratch.as_slice(), 0, n),
            );
            let mut out: Vec<u8> = alloc_bytes(payload.len());
            match lz4_decompress_into(compressed.as_slice(), &mut out) {
                Ok(m) => {
                    out.truncate(m);
                    proof {
                        assert(out@ =~= payload@);
                    }
                    Some(out)
                },
                Err(_) => None,
            }
        },
        Err(_) => None,
    }
}

/// Round trip of the speed-parameterized codec: any payload within the input
/// cap compressed at any speed and decompressed again comes back exactly.
pub fn fast_round_trip(payload: &[u8], speed: i32) -> (r: Option<Vec<u8>>)
    ensures
        r matches Option::Some(v) ==> v@ == payload@,
        payload@.len() <= spec_fast_input_cap() ==> r is Some,
{
    match lz4_fast_compress(payload, speed) {
        Ok(compressed) => {
            match lz4_fast_decompress(compressed.as_slice()) {
                Ok(v) => Some(v),
                Err(_) => None,
            }
        },
        Err(_) => None,
    }
}

/// A zero-filled byte buffer of the given length.
pub fn alloc_bytes(len: usize) -> (r: Vec<u8>)
    ensures
        r@.len() == len,
        forall|i: int| 0 <= i < len ==> r@[i] == 0,
{
    let mut r: Vec<u8> = Vec::new();
    let mut i: usize = 0;
    while i < len
        invariant
            r@.len() == i,
            i <= len,
            forall|j: int| 0 <= j < i ==> r@[j] == 0,
        decreases len - i,
    {
        r.push(0);
        i = i + 1;
    }
    r
}

} // verus!
