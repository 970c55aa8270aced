//! The zstd calls that the movie format makes, and what their contracts claim.
use vstd::prelude::*;

verus! {

/// `std::io::Error`, carried through as the payload of a codec failure.
#[verifier::external_type_specification]
#[verifier::external_body]
pub struct ExIoError(std::io::Error);

/// What `zstd::stream::encode_all` produces from `raw` at compression level
/// `level`; `None` when it reports an error.
pub uninterp spec fn zstd_encoded(raw: Seq<u8>, level: i32) -> Option<Seq<u8>>;

/// What `zstd::stream::decode_all` produces from `compressed`; `None` when it
/// reports an error.
pub uninterp spec fn zstd_decoded(compressed: Seq<u8>) -> Option<Seq<u8>>;

/// Calls `zstd::stream::encode_all` on `raw`.  The result is a function of
/// `raw` and `level` alone, named `zstd_encoded`; nothing more is claimed of
/// the compressed bytes.
#[verifier::external_body]
pub(crate) fn compress(raw: &[u8], level: i32) -> (res: Result<Vec<u8>, std::io::Error>)
    ensures
        match res {
            Ok(out) => zstd_encoded(raw@, level) == Some(out@),
            Err(_) => zstd_encoded(raw@, level) is None,
        },
{
    zstd::stream::encode_all(std::io::Cursor::new(raw), level)
}

/// Calls `zstd::stream::decode_all` on `compressed`.  The result is named
/// `zstd_decoded`; beyond that the contract claims only that zstd is
/// lossless: a frame that `encode_all` produced from `raw` decodes to `raw`.
#[verifier::external_body]
pub(crate) fn decompress(compressed: &[u8]) -> (res: Result<Vec<u8>, std::io::Error>)
    ensures
        match res {
            Ok(out) => zstd_decoded(compressed@) == Some(out@),
            Err(_) => zstd_decoded(compressed@) is None,
        },
        res is Ok || forall|raw: Seq<u8>, level: i32|
            #[trigger] zstd_encoded(raw, level) != Some(compressed@),
        res matches Ok(out) ==> forall|raw: Seq<u8>, level: i32|
            #[trigger] zstd_encoded(raw, level) == Some(compressed@) ==> out@ == raw,
{
    zstd::stream::decode_all(std::io::Cursor::new(compressed))
}

} // verus!
