use crate::error::SaveEditorError;
use vstd::prelude::*;

verus! {

/// Upper bound, in bytes, on the size a payload may decompress to.
/// Decompression of a stream whose output would exceed this bound fails
/// instead of allocating without limit.
pub const MAX_DECOMPRESSED_LEN: usize = 0x2000000;

/// What `lzf::decompress` recovers from the given stream when the output
/// bound is large enough: the decoded bytes, or `None` when the stream is
/// not well-formed LZF data.
pub uninterp spec fn lzf_decompressed(data: Seq<u8>) -> Option<Seq<u8>>;

/// True when the stream decodes as LZF data whose output fits in `max` bytes.
pub open spec fn decompressible(data: Seq<u8>, max: int) -> bool {
    lzf_decompressed(data) matches Some(d) && d.len() <= max
}

#[verifier::external_type_specification]
#[verifier::external_body]
pub struct ExLzfError(lzf::LzfError);

/// Relies on `lzf::decompress`: decoding is deterministic in the input
/// bytes; it returns the decoded bytes exactly when the stream is
/// well-formed and the output fits in `out_len_should` bytes, and an error
/// (`DataCorrupted` or `BufferTooSmall`) otherwise. Bounds past `i32::MAX`
/// are excluded: the function tracks back-reference positions in an `i32`,
/// which wraps when the output crosses that size.
pub assume_specification[ lzf::decompress ](data: &[u8], out_len_should: usize) -> (r: Result<
    Vec<u8>,
    lzf::LzfError,
>)
    requires
        out_len_should <= 0x7fff_ffff,
    ensures
        r is Ok <==> decompressible(data@, out_len_should as int),
        r matches Ok(v) ==> lzf_decompressed(data@) == Some(v@),
;

/// Decompresses a payload, failing with `BadFormat` when the stream is
/// malformed or its output would exceed `MAX_DECOMPRESSED_LEN` bytes.
pub fn decompress_payload(data: &Vec<u8>) -> (r: Result<Vec<u8>, SaveEditorError>)
    ensures
        r is Ok <==> decompressible(data@, MAX_DECOMPRESSED_LEN as int),
        r matches Ok(v) ==> lzf_decompressed(data@) == Some(v@) && v@.len()
            <= MAX_DECOMPRESSED_LEN,
        r matches Err(e) ==> e == SaveEditorError::BadFormat,
{
    match lzf::decompress(data.as_slice(), MAX_DECOMPRESSED_LEN) {
        Ok(v) => Ok(v),
        Err(_) => Err(SaveEditorError::BadFormat),
    }
}

} // verus!
