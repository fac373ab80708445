//! zstd frames.

use vstd::prelude::*;

verus! {

/// The content of a zstd frame, or `None` when `frame` is not a valid one.
pub uninterp spec fn zstd_decoded(frame: Seq<u8>) -> Option<Seq<u8>>;

/// The frame `zstd::stream::encode_all` produces for `data` at `level`.
pub uninterp spec fn zstd_encoded(data: Seq<u8>, level: int) -> Seq<u8>;

/// Calls `zstd::stream::decode_all`. The contract claims that decoding
/// succeeds exactly on valid frames and yields their content, a function of
/// the frame bytes alone; the error text is left unsaid.
#[verifier::external_body]
pub fn zstd_decode(frame: &[u8]) -> (res: Result<Vec<u8>, String>)
    ensures
        res is Ok <==> zstd_decoded(frame@) is Some,
        res matches Ok(v) ==> v@ == zstd_decoded(frame@)->0,
{
    match zstd::stream::decode_all(std::io::Cursor::new(frame)) {
        Ok(v) => Ok(v),
        Err(e) => Err(e.to_string()),
    }
}

/// Calls `zstd::stream::encode_all`. The contract claims that a produced
/// frame is the one named for the input and level, and that it decodes back
/// to the input (the crate's compress/decompress round trip); and that at
/// level 3 (a valid level, zstd's default) compressing from memory into
/// memory succeeds.
#[verifier::external_body]
pub fn zstd_encode(data: &[u8], level: i32) -> (res: Result<Vec<u8>, String>)
    ensures
        level == 3 ==> res is Ok,
        res matches Ok(v) ==> v@ == zstd_encoded(data@, level as int) && zstd_decoded(v@) == Some(
            data@,
        ),
{
    match zstd::stream::encode_all(std::io::Cursor::new(data), level) {
        Ok(v) => Ok(v),
        Err(e) => Err(e.to_string()),
    }
}

} // verus!
