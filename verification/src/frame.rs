//! Compressed frames.

use vstd::prelude::*;

verus! {

/// The error type of input and output.
#[verifier::external_type_specification]
#[verifier::external_body]
pub struct ExIoError(std::io::Error);

/// What `zstd::decode_all` reads from bytes, or `None` where it fails.
pub uninterp spec fn zstd_content(frame: Seq<u8>) -> Option<Seq<u8>>;

/// What `zstd::encode_all` makes of bytes at a level, or `None` where it fails.
pub uninterp spec fn zstd_frame(data: Seq<u8>, level: i32) -> Option<Seq<u8>>;

/// Calls `zstd::decode_all`: whether it succeeds, and what it returns, depends on
/// the bytes alone, as long as there is memory for it. Which bytes are frames, and
/// what their content is, is not described further.
#[verifier::external_body]
fn decode_all(frame: &[u8]) -> (r: Result<Vec<u8>, std::io::Error>)
    ensures
        match r {
            Ok(v) => zstd_content(frame@) == Some(v@),
            Err(_) => zstd_content(frame@) is None,
        },
{
    zstd::decode_all(frame)
}

/// Calls `zstd::encode_all`: whether it succeeds, and what it returns, depends on
/// the bytes and the level alone, as long as there is memory for it, and what it
/// returns decodes to the bytes. How long it is, and that it succeeds, is not said.
#[verifier::external_body]
fn encode_all(data: &[u8], level: i32) -> (r: Result<Vec<u8>, std::io::Error>)
    ensures
        match r {
            Ok(v) => zstd_frame(data@, level) == Some(v@) && zstd_content(v@) == Some(data@),
            Err(_) => zstd_frame(data@, level) is None,
        },
{
    zstd::encode_all(data, level)
}

/// The content of a frame.
pub fn decompress(frame: &[u8]) -> (r: Option<Vec<u8>>)
    ensures
        match r {
            Some(v) => zstd_content(frame@) == Some(v@),
            None => zstd_content(frame@) is None,
        },
{
    match decode_all(frame) {
        Ok(v) => Some(v),
        Err(_) => None,
    }
}

/// A frame with some content.
pub fn compress(data: &[u8], level: i32) -> (r: Option<Vec<u8>>)
    ensures
        match r {
            Some(v) => zstd_frame(data@, level) == Some(v@) && zstd_content(v@) == Some(data@),
            None => zstd_frame(data@, level) is None,
        },
{
    match encode_all(data, level) {
        Ok(v) => Some(v),
        Err(_) => None,
    }
}

} // verus!
