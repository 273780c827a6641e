//! Opening an archive.
use crate::crypto;
use crate::crypto::KEY_SIZE;
use crate::error::ArchiveError;
use crate::layout;
use crate::layout::Final;
use crate::layout::Frame;
use crate::layout::FrameView;
use crate::layout::Header;
use crate::layout::HeaderView;
use crate::layout::FINAL_SEAL_PLAINTEXT_LEN;
use crate::layout::NONCE_SIZE;
use crate::layout::SALT_SIZE;
use vstd::prelude::*;

verus! {

// ---------------------------------------------------------------------------------------
// What opening an archive gives
// ---------------------------------------------------------------------------------------

/// What an archive holds: the metadata of its header, and its chunks joined.
pub struct Contents {
    pub metadata: Seq<u8>,
    pub payload: Seq<u8>,
}

/// What the chunks of an archive give: their plaintexts joined, how many they are, whether
/// each has the number of its place, and the bytes after the end marker.
pub struct ChunksView {
    pub payload: Seq<u8>,
    pub count: u32,
    pub in_order: bool,
    pub rest: Seq<u8>,
}

/// An archive that opened: what it holds, and the bytes after its final record, which are
/// not looked at.
pub struct OpenedView {
    pub contents: Contents,
    pub count: u32,
    pub rest: Seq<u8>,
}

/// The plaintext of a chunk: it has the nonce of the counter in its record, and the metadata
/// as associated data.
pub open spec fn record_plaintext(
    key: Seq<u8>,
    header: HeaderView,
    record: layout::Record,
) -> Option<Seq<u8>> {
    crypto::aes256gcm_opened(
        key,
        crypto::chunk_nonce(header.base_nonce, record.counter),
        header.metadata,
        record.ciphertext,
    )
}

/// Decrypts chunk after chunk, up to the end marker; `count` chunks have come before. Whether
/// the chunks have the numbers of their places is found out on the way, and decided on when
/// their number is known to be right.
#[verifier::opaque]
pub open spec fn chunks_outcome(
    key: Seq<u8>,
    header: HeaderView,
    bytes: Seq<u8>,
    count: u32,
) -> Result<ChunksView, ArchiveError>
    decreases bytes.len(),
{
    match layout::frame_of(bytes) {
        Err(error) => Err(error),
        Ok(FrameView::End { rest }) => Ok(
            ChunksView { payload: Seq::empty(), count, in_order: true, rest },
        ),
        Ok(FrameView::Chunk { record, rest }) => match record_plaintext(key, header, record) {
            None => Err(ArchiveError::Decryption),
            Some(plaintext) => if count == u32::MAX {
                Err(ArchiveError::TooManyChunks)
            } else {
                prepended(
                    plaintext,
                    record.counter == count,
                    chunks_outcome(key, header, rest, (count + 1) as u32),
                )
            },
        },
    }
}

/// The outcome of the chunks after some with the given plaintext, together with them;
/// `in_order` says whether those have the numbers of their places.
pub open spec fn prepended(
    plaintext: Seq<u8>,
    in_order: bool,
    later: Result<ChunksView, ArchiveError>,
) -> Result<ChunksView, ArchiveError> {
    match later {
        Err(error) => Err(error),
        Ok(chunks) => Ok(
            ChunksView {
                payload: plaintext + chunks.payload,
                count: chunks.count,
                in_order: in_order && chunks.in_order,
                rest: chunks.rest,
            },
        ),
    }
}

/// Holds the plaintext of a final seal against the number of chunks found. It is a chunk
/// count, and nothing more.
pub open spec fn seal_outcome(plaintext: Seq<u8>, found: u32) -> Result<(), ArchiveError> {
    let expected = layout::be_value(plaintext);
    if plaintext.len() != FINAL_SEAL_PLAINTEXT_LEN {
        Err(ArchiveError::SealLength { len: plaintext.len() as usize })
    } else if found != expected {
        Err(ArchiveError::ChunkCountMismatch { expected, found })
    } else {
        Ok(())
    }
}

/// Reads what follows the end marker and checks the final seal, whose associated data is the
/// metadata. The bytes after the seal come back.
pub open spec fn final_outcome(
    key: Seq<u8>,
    metadata: Seq<u8>,
    bytes: Seq<u8>,
    found: u32,
) -> Result<Seq<u8>, ArchiveError> {
    match layout::final_of(bytes) {
        Err(error) => Err(error),
        Ok(last) => match crypto::aes256gcm_opened(key, last.nonce, metadata, last.seal) {
            None => Err(ArchiveError::Decryption),
            Some(plaintext) => match seal_outcome(plaintext, found) {
                Err(error) => Err(error),
                Ok(_) => Ok(last.rest),
            },
        },
    }
}

/// Opens the archive `data` with a key, step by step.
pub open spec fn opened(key: Seq<u8>, data: Seq<u8>) -> Result<OpenedView, ArchiveError> {
    match layout::salt_of(data) {
        Err(error) => Err(error),
        Ok(_) => match layout::header_of(data) {
            Err(error) => Err(error),
            Ok(header) => match chunks_outcome(key, header, header.rest, 0) {
                Err(error) => Err(error),
                Ok(chunks) => match final_outcome(key, header.metadata, chunks.rest, chunks.count) {
                    Err(error) => Err(error),
                    Ok(rest) => if !chunks.in_order {
                        Err(ArchiveError::ChunkOutOfOrder)
                    } else {
                        Ok(
                            OpenedView {
                                contents: Contents {
                                    metadata: header.metadata,
                                    payload: chunks.payload,
                                },
                                count: chunks.count,
                                rest,
                            },
                        )
                    },
                },
            },
        },
    }
}

/// What opening the archive `data` with a key gives.
pub open spec fn keyed_outcome(key: Seq<u8>, data: Seq<u8>) -> Result<Contents, ArchiveError> {
    match opened(key, data) {
        Err(error) => Err(error),
        Ok(archive) => Ok(archive.contents),
    }
}

/// What opening the archive `data` with a password gives. The signature is checked before
/// the key is derived.
pub open spec fn archive_outcome(password: Seq<char>, data: Seq<u8>) -> Result<
    Contents,
    ArchiveError,
> {
    match layout::salt_of(data) {
        Err(error) => Err(error),
        Ok(salt) => match crypto::derived_key(password, salt) {
            None => Err(ArchiveError::KeyDerivation),
            Some(key) => keyed_outcome(key, data),
        },
    }
}

// ---------------------------------------------------------------------------------------
// Opening
// ---------------------------------------------------------------------------------------

/// An archive that has been opened: the metadata of its header, and its chunks joined, which
/// are still compressed.
pub struct OpenedArchive {
    pub metadata: Vec<u8>,
    pub payload: Vec<u8>,
}

impl View for OpenedArchive {
    type V = Contents;

    open spec fn view(&self) -> Contents {
        Contents { metadata: self.metadata@, payload: self.payload@ }
    }
}

/// Holds the plaintext of a final seal against the number of chunks found.
pub fn check_seal(plaintext: &[u8], found: u32) -> (res: Result<(), ArchiveError>)
    ensures
        res == seal_outcome(plaintext@, found),
{
    if plaintext.len() != FINAL_SEAL_PLAINTEXT_LEN {
        return Err(ArchiveError::SealLength { len: plaintext.len() });
    }
    let expected: u32 = layout::from_be_bytes(plaintext);
    assert(plaintext@.take(4) =~= plaintext@);
    if found != expected {
        return Err(ArchiveError::ChunkCountMismatch { expected, found });
    }
    Ok(())
}

/// Decrypts the chunks of an archive, up to the end marker. What comes back is their
/// plaintexts joined, their number, whether each has the number of its place, and the bytes
/// after the end marker.
fn open_chunks<'a>(key: &[u8; KEY_SIZE], header: &Header<'a>) -> (res: Result<
    (Vec<u8>, u32, bool, &'a [u8]),
    ArchiveError,
>)
    ensures
        match res {
            Ok((payload, count, in_order, rest)) => chunks_outcome(
                key@,
                header@,
                header.rest@,
                0,
            ) == Ok::<ChunksView, ArchiveError>(
                ChunksView { payload: payload@, count, in_order, rest: rest@ },
            ),
            Err(error) => chunks_outcome(key@, header@, header.rest@, 0) == Err::<
                ChunksView,
                ArchiveError,
            >(error),
        },
{
    let mut payload: Vec<u8> = Vec::new();
    let mut count: u32 = 0;
    let mut in_order: bool = true;
    let mut bytes: &'a [u8] = header.rest;
    let ghost total = chunks_outcome(key@, header@, header.rest@, 0);
    assert(prepended(payload@, true, total) == total) by {
        if let Ok(chunks) = total {
            assert(payload@ + chunks.payload =~= chunks.payload);
        }
    }
    loop
        invariant
            total == chunks_outcome(key@, header@, header.rest@, 0),
            total == prepended(payload@, in_order, chunks_outcome(key@, header@, bytes@, count)),
        decreases bytes@.len(),
    {
        reveal(chunks_outcome);
        match layout::read_frame(bytes) {
            Err(error) => {
                return Err(error);
            },
            Ok(Frame::End { rest }) => {
                assert(payload@ + Seq::<u8>::empty() =~= payload@);
                return Ok((payload, count, in_order, rest));
            },
            Ok(Frame::Chunk { counter, ciphertext, rest }) => {
                let nonce: [u8; NONCE_SIZE] = crypto::nonce_for_chunk(&header.base_nonce, counter);
                match crypto::decrypt_chunk(key, &nonce, header.metadata, ciphertext) {
                    Err(error) => {
                        return Err(error);
                    },
                    Ok(plaintext) => {
                        if count == u32::MAX {
                            return Err(ArchiveError::TooManyChunks);
                        }
                        let ghost before = payload@;
                        layout::append_bytes(&mut payload, plaintext.as_slice());
                        if counter != count {
                            in_order = false;
                        }
                        count = count + 1;
                        proof {
                            if let Ok(chunks) = chunks_outcome(key@, header@, rest@, count) {
                                assert(before + (plaintext@ + chunks.payload) =~= payload@
                                    + chunks.payload);
                            }
                        }
                        bytes = rest;
                    },
                }
            },
        }
    }
}

/// Opens the archive `data` with a key: checks its signature, decrypts its chunks, holds
/// their number against the final seal, and the number of each against its place.
pub fn open_with_key(data: &[u8], key: &[u8; KEY_SIZE]) -> (res: Result<
    OpenedArchive,
    ArchiveError,
>)
    ensures
        layout::viewed(res) == keyed_outcome(key@, data@),
{
    if let Err(error) = layout::read_salt(data) {
        return Err(error);
    }
    let header: Header<'_> = match layout::read_header(data) {
        Ok(header) => header,
        Err(error) => {
            return Err(error);
        },
    };
    let (payload, count, in_order, rest) = match open_chunks(key, &header) {
        Ok(chunks) => chunks,
        Err(error) => {
            return Err(error);
        },
    };
    let last: Final<'_> = match layout::read_final(rest) {
        Ok(last) => last,
        Err(error) => {
            return Err(error);
        },
    };
    let seal: Vec<u8> = match crypto::decrypt_chunk(key, &last.nonce, header.metadata, last.seal) {
        Ok(seal) => seal,
        Err(error) => {
            return Err(error);
        },
    };
    if let Err(error) = check_seal(seal.as_slice(), count) {
        return Err(error);
    }
    if !in_order {
        return Err(ArchiveError::ChunkOutOfOrder);
    }
    let mut metadata: Vec<u8> = Vec::new();
    layout::append_bytes(&mut metadata, header.metadata);
    assert(metadata@ =~= header.metadata@);
    Ok(OpenedArchive { metadata, payload })
}

/// Opens the archive `data` with a password. The derived key is overwritten when it is no
/// longer needed.
pub fn open_archive(data: &[u8], password: &str) -> (res: Result<OpenedArchive, ArchiveError>)
    ensures
        layout::viewed(res) == archive_outcome(password@, data@),
{
    let salt: [u8; SALT_SIZE] = match layout::read_salt(data) {
        Ok(salt) => salt,
        Err(error) => {
            return Err(error);
        },
    };
    let mut key: [u8; KEY_SIZE] = match crypto::derive_key(password, &salt) {
        Ok(key) => key,
        Err(error) => {
            return Err(error);
        },
    };
    let res: Result<OpenedArchive, ArchiveError> = open_with_key(data, &key);
    crypto::wipe(&mut key);
    res
}

} // verus!
