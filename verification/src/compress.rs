//! The two codecs the store relies on: Zstandard for blocks at rest and
//! framed Snappy for blocks in flight.

use vstd::prelude::*;
use std::io::Read;

verus! {

/// `std::io::Error`, the error of both codecs: carried, never looked into.
#[verifier::external_type_specification]
#[verifier::external_body]
pub struct ExIoError(std::io::Error);

/// The Zstandard frame that compressing `data` at `level` yields, if the
/// compression succeeds.
pub uninterp spec fn zstd_frame(data: Seq<u8>, level: int) -> Option<Seq<u8>>;

/// What decompressing `frame` as Zstandard yields, if it is a valid frame.
pub uninterp spec fn zstd_content(frame: Seq<u8>) -> Option<Seq<u8>>;

/// What decoding `stream` as framed Snappy yields, if it is a valid stream.
pub uninterp spec fn snappy_content(stream: Seq<u8>) -> Option<Seq<u8>>;

/// Calls `zstd::encode_all` on the bytes. The result is named by
/// `zstd_frame`: the frame where the compression succeeds, an error where
/// it does not. Compression being lossless, the frame decompresses to the
/// input.
#[verifier::external_body]
pub(crate) fn zstd_encode(data: &[u8], level: i32) -> (r: Result<Vec<u8>, std::io::Error>)
    ensures
        r is Ok ==> zstd_frame(data@, level as int) == Some(r.unwrap()@),
        r is Ok ==> zstd_content(r.unwrap()@) == Some(data@),
        r is Err ==> zstd_frame(data@, level as int) is None,
{
    zstd::encode_all(data, level)
}

/// Calls `zstd::decode_all` on the bytes. The result is named by
/// `zstd_content`: the decompressed bytes of a valid frame, an error for
/// anything else.
#[verifier::external_body]
pub(crate) fn zstd_decode(frame: &[u8]) -> (r: Result<Vec<u8>, std::io::Error>)
    ensures
        r is Ok ==> zstd_content(frame@) == Some(r.unwrap()@),
        r is Err ==> zstd_content(frame@) is None,
{
    zstd::decode_all(frame)
}

/// Reads the bytes through `snap::read::FrameDecoder` to the end. The result
/// is named by `snappy_content`: the decoded bytes of a valid stream, an
/// error for anything else.
#[verifier::external_body]
pub(crate) fn snappy_decode(stream: &[u8]) -> (r: Result<Vec<u8>, std::io::Error>)
    ensures
        r is Ok ==> snappy_content(stream@) == Some(r.unwrap()@),
        r is Err ==> snappy_content(stream@) is None,
{
    let mut out = Vec::new();
    snap::read::FrameDecoder::new(stream).read_to_end(&mut out)?;
    Ok(out)
}

} // verus!
