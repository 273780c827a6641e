//! Undoing the compression of what an archive holds.
use crate::error::ArchiveError;
use vstd::prelude::*;

verus! {

/// The data that Zstandard finds in a compressed stream, where it decompresses the stream.
pub uninterp spec fn zstd_decoded(stream: Seq<u8>) -> Seq<u8>;

/// Calls `zstd::decode_all`. Claimed: where it succeeds, the stream alone determines the data.
/// Whether a malformed stream is refused, and in which words, depends on the machine, and is
/// not claimed; nor is that a stream decompresses.
#[verifier::external_body]
pub(crate) fn zstd_decode(stream: &[u8]) -> (res: Result<Vec<u8>, String>)
    ensures
        res matches Ok(data) ==> data@ == zstd_decoded(stream@),
{
    match zstd::decode_all(stream) {
        Ok(data) => Ok(data),
        Err(error) => Err(error.to_string()),
    }
}

/// What the decompressor gave, with an error of the library for its words.
pub fn decompressed(outcome: Result<Vec<u8>, String>) -> (res: Result<Vec<u8>, ArchiveError>)
    ensures
        res == match outcome {
            Ok(data) => Ok::<Vec<u8>, ArchiveError>(data),
            Err(reason) => Err(ArchiveError::Decompression { reason }),
        },
{
    match outcome {
        Ok(data) => Ok(data),
        Err(reason) => Err(ArchiveError::Decompression { reason }),
    }
}

/// The decompressor gave `outcome` for `stream`.
pub closed spec fn decoder_gave(stream: &[u8], outcome: Result<Vec<u8>, String>) -> bool {
    call_ensures(zstd_decode, (stream,), outcome)
}

/// Decompresses what an archive holds: it fails only where the decompressor does, and then
/// with the words of the decompressor.
pub fn decompress(stream: &[u8]) -> (res: Result<Vec<u8>, ArchiveError>)
    ensures
        match res {
            Ok(data) => data@ == zstd_decoded(stream@),
            Err(error) => error is Decompression,
        },
        match res {
            Ok(data) => decoder_gave(stream, Ok(data)),
            Err(error) => decoder_gave(stream, Err(error->reason)),
        },
{
    decompressed(zstd_decode(stream))
}

/// What `decompress` returns is what the call of the decompressor on the whole stream gave:
/// the data where that call succeeded, and the words of its error where it failed.
pub(crate) proof fn lemma_decompress_is_one_call(
    stream: &[u8],
    res: Result<Vec<u8>, ArchiveError>,
)
    requires
        call_ensures(decompress, (stream,), res),
    ensures
        match res {
            Ok(data) => call_ensures(zstd_decode, (stream,), Ok(data)),
            Err(ArchiveError::Decompression { reason }) => call_ensures(
                zstd_decode,
                (stream,),
                Err(reason),
            ),
            Err(_) => false,
        },
{
}

} // verus!
