//! Writing an archive, chunk by chunk.
use crate::crypto;
use crate::crypto::KEY_SIZE;
use crate::crypto::TAG_SIZE;
use crate::error::ArchiveError;
use crate::laws;
use crate::layout;
use crate::layout::Record;
use crate::layout::FINAL_SEAL_PLAINTEXT_LEN;
use crate::layout::MAX_CHUNK_SIZE;
use crate::layout::NONCE_SIZE;
use crate::layout::SALT_SIZE;
use crate::reader;
use crate::reader::Contents;
use crate::reader::OpenedView;
use vstd::prelude::*;

verus! {

/// An archive that is being written: what its header was made of, and the chunks that have
/// gone in.
pub struct ArchiveDraft {
    pub key: Seq<u8>,
    pub salt: Seq<u8>,
    pub base_nonce: Seq<u8>,
    pub chunk_size: u32,
    pub metadata: Seq<u8>,
    pub chunks: Seq<Seq<u8>>,
}

impl ArchiveDraft {
    /// The ciphertext of the chunk with number `counter`, if that chunk is `plaintext`.
    pub open spec fn ciphertext(self, counter: u32, plaintext: Seq<u8>) -> Seq<u8> {
        crypto::aes256gcm_sealed(
            self.key,
            crypto::chunk_nonce(self.base_nonce, counter),
            self.metadata,
            plaintext,
        )
    }

    /// The record of the chunk with number `i`.
    pub open spec fn record(self, i: int) -> Record {
        Record { counter: i as u32, ciphertext: self.ciphertext(i as u32, self.chunks[i]) }
    }

    /// The records of all chunks.
    pub open spec fn records(self) -> Seq<Record> {
        Seq::new(self.chunks.len(), |i: int| self.record(i))
    }

    /// The bytes that have been written: header and chunk records.
    pub open spec fn bytes(self) -> Seq<u8> {
        layout::header_bytes(self.salt, self.base_nonce, self.chunk_size, self.metadata)
            + layout::records_bytes(self.records())
    }

    /// The final seal under `nonce`: the encrypted number of chunks.
    pub open spec fn seal(self, nonce: Seq<u8>) -> Seq<u8> {
        crypto::aes256gcm_sealed(
            self.key,
            nonce,
            self.metadata,
            layout::be_bytes(self.chunks.len() as u32),
        )
    }

    /// The final seal under `nonce` opens to the number of chunks.
    pub open spec fn sealed_under(self, nonce: Seq<u8>) -> bool {
        &&& nonce.len() == NONCE_SIZE
        &&& self.seal(nonce).len() == FINAL_SEAL_PLAINTEXT_LEN + TAG_SIZE
        &&& crypto::aes256gcm_opened(self.key, nonce, self.metadata, self.seal(nonce)) == Some(
            layout::be_bytes(self.chunks.len() as u32),
        )
    }

    /// The draft with one more chunk.
    pub open spec fn with_chunk(self, chunk: Seq<u8>) -> ArchiveDraft {
        ArchiveDraft { chunks: self.chunks.push(chunk), ..self }
    }

    /// Every length fits into the 32 bits that the format has for it, no chunk is empty or
    /// longer than the chunk size, and every ciphertext opens to the chunk that it was made
    /// of.
    pub open spec fn opens(self) -> bool {
        &&& self.salt.len() == SALT_SIZE
        &&& self.base_nonce.len() == NONCE_SIZE
        &&& 1 <= self.chunk_size <= MAX_CHUNK_SIZE
        &&& self.metadata.len() <= u32::MAX
        &&& self.chunks.len() <= u32::MAX
        &&& forall|i: int| #![trigger self.chunks[i]]
            0 <= i < self.chunks.len() ==> {
                &&& 1 <= self.chunks[i].len() <= self.chunk_size
                &&& self.record(i).ciphertext.len() == self.chunks[i].len() + TAG_SIZE
                &&& crypto::aes256gcm_opened(
                    self.key,
                    crypto::chunk_nonce(self.base_nonce, i as u32),
                    self.metadata,
                    self.record(i).ciphertext,
                ) == Some(self.chunks[i])
            }
    }
}

/// The chunk sizes that an archive can have: at least one byte, and no more than leaves room
/// for the tag in the 32 bits of a ciphertext's length.
pub open spec fn valid_chunk_size(chunk_size: usize) -> bool {
    1 <= chunk_size <= MAX_CHUNK_SIZE
}

/// Hands back a chunk size that an archive can have, and refuses any other.
pub fn checked_chunk_size(chunk_size: usize) -> (res: Result<usize, ArchiveError>)
    ensures
        res == if valid_chunk_size(chunk_size) {
            Ok::<usize, ArchiveError>(chunk_size)
        } else {
            Err(ArchiveError::InvalidChunkSize { chunk_size })
        },
{
    if chunk_size < 1 || chunk_size > MAX_CHUNK_SIZE as usize {
        return Err(ArchiveError::InvalidChunkSize { chunk_size });
    }
    Ok(chunk_size)
}

/// Refuses a length of metadata that does not fit into the 32 bits that the format has for
/// it.
pub fn check_metadata_len(len: usize) -> (res: Result<(), ArchiveError>)
    ensures
        res == if len <= u32::MAX {
            Ok::<(), ArchiveError>(())
        } else {
            Err(ArchiveError::MetadataTooLong { len })
        },
{
    if len as u64 > u32::MAX as u64 {
        return Err(ArchiveError::MetadataTooLong { len });
    }
    Ok(())
}

/// Writes an archive: it starts with a header, takes the compressed stream piece by piece,
/// and ends with the final seal. What is to be stored comes back from each call.
pub struct ArchiveWriter<'a> {
    key: &'a [u8; KEY_SIZE],
    base_nonce: [u8; NONCE_SIZE],
    metadata: Vec<u8>,
    counter: u32,
    salt: Ghost<Seq<u8>>,
    chunk_size: Ghost<u32>,
    chunks: Ghost<Seq<Seq<u8>>>,
}

impl View for ArchiveWriter<'_> {
    type V = ArchiveDraft;

    closed spec fn view(&self) -> ArchiveDraft {
        ArchiveDraft {
            key: self.key@,
            salt: self.salt@,
            base_nonce: self.base_nonce@,
            chunk_size: self.chunk_size@,
            metadata: self.metadata@,
            chunks: self.chunks@,
        }
    }
}

impl<'a> ArchiveWriter<'a> {
    /// What holds of every writer.
    pub closed spec fn wf(&self) -> bool {
        &&& self.counter == self@.chunks.len()
        &&& self@.opens()
    }

    /// What a writer has taken in opens again: the condition under which the laws speak of
    /// the archive that it writes.
    pub proof fn lemma_draft_opens(&self)
        requires
            self.wf(),
        ensures
            self@.opens(),
    {
    }

    /// Starts an archive under a given base nonce. The header comes back with the writer. A
    /// chunk size that no archive can have is refused, and metadata that is too long for one.
    pub fn with_base_nonce(
        key: &'a [u8; KEY_SIZE],
        salt: &[u8; SALT_SIZE],
        base_nonce: [u8; NONCE_SIZE],
        chunk_size: usize,
        metadata: Vec<u8>,
    ) -> (res: Result<(ArchiveWriter<'a>, Vec<u8>), ArchiveError>)
        ensures
            match res {
                Ok((writer, header)) => {
                    &&& valid_chunk_size(chunk_size)
                    &&& metadata@.len() <= u32::MAX
                    &&& writer.wf()
                    &&& writer@ == (ArchiveDraft {
                        key: key@,
                        salt: salt@,
                        base_nonce: base_nonce@,
                        chunk_size: chunk_size as u32,
                        metadata: metadata@,
                        chunks: Seq::empty(),
                    })
                    &&& header@ == writer@.bytes()
                    &&& header@ == layout::header_bytes(
                        salt@,
                        writer@.base_nonce,
                        chunk_size as u32,
                        metadata@,
                    )
                },
                Err(error) => if !valid_chunk_size(chunk_size) {
                    error == (ArchiveError::InvalidChunkSize { chunk_size })
                } else {
                    metadata@.len() > u32::MAX && error == (ArchiveError::MetadataTooLong {
                        len: metadata@.len() as usize,
                    })
                },
            },
    {
        if let Err(error) = checked_chunk_size(chunk_size) {
            return Err(error);
        }
        if let Err(error) = check_metadata_len(metadata.len()) {
            return Err(error);
        }
        let header: Vec<u8> = layout::encode_header(
            salt,
            &base_nonce,
            chunk_size,
            metadata.as_slice(),
        );
        let writer = ArchiveWriter {
            key,
            base_nonce,
            metadata,
            counter: 0,
            salt: Ghost(salt@),
            chunk_size: Ghost(chunk_size as u32),
            chunks: Ghost(Seq::empty()),
        };
        assert(layout::records_bytes(writer@.records()) =~= Seq::<u8>::empty());
        assert(writer@.bytes() =~= header@);
        Ok((writer, header))
    }

    /// Starts an archive under a fresh base nonce. The header comes back with the writer. A
    /// chunk size that no archive can have is refused, and metadata that is too long for one.
    pub fn begin(
        key: &'a [u8; KEY_SIZE],
        salt: &[u8; SALT_SIZE],
        chunk_size: usize,
        metadata: Vec<u8>,
    ) -> (res: Result<(ArchiveWriter<'a>, Vec<u8>), ArchiveError>)
        ensures
            match res {
                Ok((writer, header)) => {
                    &&& valid_chunk_size(chunk_size)
                    &&& metadata@.len() <= u32::MAX
                    &&& writer.wf()
                    &&& writer@ == (ArchiveDraft {
                        key: key@,
                        salt: salt@,
                        base_nonce: writer@.base_nonce,
                        chunk_size: chunk_size as u32,
                        metadata: metadata@,
                        chunks: Seq::empty(),
                    })
                    &&& exists|draw: [u8; NONCE_SIZE]| #[trigger]
                        crypto::drawn_nonce(draw) && writer@.base_nonce == draw@
                    &&& header@ == writer@.bytes()
                    &&& header@ == layout::header_bytes(
                        salt@,
                        writer@.base_nonce,
                        chunk_size as u32,
                        metadata@,
                    )
                },
                Err(error) => if !valid_chunk_size(chunk_size) {
                    error == (ArchiveError::InvalidChunkSize { chunk_size })
                } else {
                    metadata@.len() > u32::MAX && error == (ArchiveError::MetadataTooLong {
                        len: metadata@.len() as usize,
                    })
                },
            },
    {
        ArchiveWriter::with_base_nonce(key, salt, crypto::random_nonce(), chunk_size, metadata)
    }

    /// The number of chunks that have gone in.
    pub fn chunk_count(&self) -> (count: u32)
        requires
            self.wf(),
        ensures
            count == self@.chunks.len(),
    {
        self.counter
    }

    /// Takes what one read of the compressed stream gave. An empty read is the end of the
    /// stream, and gives nothing to store; any other becomes a chunk, whose record comes
    /// back. No read may be longer than the chunk size, and no archive takes more chunks
    /// than a chunk count can express.
    pub fn push(&mut self, read: &[u8]) -> (res: Result<Option<Vec<u8>>, ArchiveError>)
        requires
            old(self).wf(),
            read@.len() <= old(self)@.chunk_size,
            read@.len() + TAG_SIZE <= isize::MAX,
        ensures
            final(self).wf(),
            match res {
                Ok(None) => read@.len() == 0 && final(self)@ == old(self)@,
                Ok(Some(record)) => {
                    &&& read@.len() > 0
                    &&& old(self)@.chunks.len() < u32::MAX
                    &&& final(self)@ == old(self)@.with_chunk(read@)
                    &&& record@ == layout::record_bytes(
                        final(self)@.record(old(self)@.chunks.len() as int),
                    )
                    &&& record@ == layout::record_bytes(
                        Record {
                            counter: old(self)@.chunks.len() as u32,
                            ciphertext: crypto::aes256gcm_sealed(
                                old(self)@.key,
                                crypto::chunk_nonce(
                                    old(self)@.base_nonce,
                                    old(self)@.chunks.len() as u32,
                                ),
                                old(self)@.metadata,
                                read@,
                            ),
                        },
                    )
                    &&& final(self)@.bytes() == old(self)@.bytes() + record@
                },
                Err(error) => {
                    &&& read@.len() > 0
                    &&& old(self)@.chunks.len() == u32::MAX
                    &&& error == ArchiveError::TooManyChunks
                    &&& final(self)@ == old(self)@
                },
            },
    {
        if read.len() == 0 {
            return Ok(None);
        }
        let counter: u32 = self.counter;
        if counter == u32::MAX {
            return Err(ArchiveError::TooManyChunks);
        }
        let nonce: [u8; NONCE_SIZE] = crypto::nonce_for_chunk(&self.base_nonce, counter);
        let ciphertext: Vec<u8> = match crypto::encrypt_chunk(
            self.key,
            &nonce,
            self.metadata.as_slice(),
            read,
        ) {
            Ok(ciphertext) => ciphertext,
            Err(error) => {
                return Err(error);
            },
        };
        let record: Vec<u8> = layout::encode_record(counter, ciphertext.as_slice());
        self.counter = counter + 1;
        self.chunks = Ghost(self.chunks@.push(read@));
        proof {
            let before = old(self)@;
            let after = self@;
            assert(after == before.with_chunk(read@));
            assert forall|i: int| 0 <= i < before.chunks.len() implies after.record(i)
                == before.record(i) by {
                assert(after.chunks[i] == before.chunks[i]);
            }
            assert forall|i: int| #![trigger after.chunks[i]]
                0 <= i < after.chunks.len() implies {
                &&& 1 <= after.chunks[i].len() <= after.chunk_size
                &&& after.record(i).ciphertext.len() == after.chunks[i].len() + TAG_SIZE
                &&& crypto::aes256gcm_opened(
                    after.key,
                    crypto::chunk_nonce(after.base_nonce, i as u32),
                    after.metadata,
                    after.record(i).ciphertext,
                ) == Some(after.chunks[i])
            } by {
                if i < before.chunks.len() {
                    assert(before.chunks[i] == after.chunks[i]);
                }
            }
            assert(after.records() =~= before.records().push(after.record(counter as int)));
            layout::lemma_records_bytes_push(before.records(), after.record(counter as int));
            assert(after.bytes() =~= before.bytes() + record@);
        }
        Ok(Some(record))
    }

    /// Ends the archive under a given nonce. What comes back completes it: the archive opens,
    /// with the key, to the metadata and the chunks joined. No length that an archive can
    /// have is beyond the cipher, so the call succeeds.
    pub fn finish_with_nonce(self, nonce: [u8; NONCE_SIZE]) -> (res: Result<Vec<u8>, ArchiveError>)
        requires
            self.wf(),
        ensures
            res matches Ok(last) && {
                &&& last@ == layout::final_bytes(nonce@, self@.seal(nonce@))
                &&& last@ == layout::final_bytes(
                    nonce@,
                    crypto::aes256gcm_sealed(
                        self@.key,
                        nonce@,
                        self@.metadata,
                        layout::be_bytes(self@.chunks.len() as u32),
                    ),
                )
                &&& last@.len() == 40
                &&& self@.sealed_under(nonce@)
                &&& reads_back(self@, last@)
            },
    {
        let count: [u8; 4] = layout::to_be_bytes(self.counter);
        let seal: Vec<u8> = match crypto::encrypt_chunk(
            self.key,
            &nonce,
            self.metadata.as_slice(),
            count.as_slice(),
        ) {
            Ok(seal) => seal,
            Err(error) => {
                return Err(error);
            },
        };
        let last: Vec<u8> = layout::encode_final(&nonce, seal.as_slice());
        assert(last@.len() == 40);
        proof {
            laws::lemma_archive_reads_back(self@, nonce@, last@);
        }
        Ok(last)
    }

    /// Ends the archive under a fresh nonce, which is that of no chunk. What comes back completes it: the archive opens,
    /// with the key, to the metadata and the chunks joined. No length that an archive can
    /// have is beyond the cipher, so the call succeeds.
    pub fn finish(self) -> (res: Result<Vec<u8>, ArchiveError>)
        requires
            self.wf(),
        ensures
            res matches Ok(last) && {
                &&& exists|nonce: Seq<u8>|
                    #[trigger] self@.sealed_under(nonce) && last@ == layout::final_bytes(
                        nonce,
                        self@.seal(nonce),
                    )
                &&& exists|draw: [u8; NONCE_SIZE], nonce: Seq<u8>|
                    #![trigger crypto::drawn_nonce(draw), self@.sealed_under(nonce)]
                    {
                        &&& crypto::drawn_nonce(draw)
                        &&& self@.sealed_under(nonce)
                        &&& laws::nonces_apart(self@, nonce)
                        &&& nonce == if draw@.take(8) == self@.base_nonce.take(8) {
                            draw@.update(0, draw@[0] ^ 1)
                        } else {
                            draw@
                        }
                        &&& last@ == layout::final_bytes(
                            nonce,
                            crypto::aes256gcm_sealed(
                                self@.key,
                                nonce,
                                self@.metadata,
                                layout::be_bytes(self@.chunks.len() as u32),
                            ),
                        )
                    }
                &&& last@.len() == 40
                &&& reads_back(self@, last@)
            },
    {
        let draw: [u8; NONCE_SIZE] = crypto::random_nonce();
        let nonce: [u8; NONCE_SIZE] = crypto::set_apart(draw, &self.base_nonce);
        proof {
            laws::lemma_set_apart(self@, nonce@);
        }
        self.finish_with_nonce(nonce)
    }
}

/// The draft, completed by `last`, opens to what went in, and to its last byte: with the key,
/// and with every password that gives the key.
pub open spec fn reads_back(draft: ArchiveDraft, last: Seq<u8>) -> bool {
    let contents = Contents { metadata: draft.metadata, payload: draft.chunks.flatten() };
    &&& reader::opened(draft.key, draft.bytes() + last) == Ok::<OpenedView, ArchiveError>(
        OpenedView { contents, count: draft.chunks.len() as u32, rest: Seq::empty() },
    )
    &&& forall|password: Seq<char>| #[trigger]
        crypto::derived_key(password, draft.salt) == Some(draft.key) ==> reader::archive_outcome(
            password,
            draft.bytes() + last,
        ) == Ok::<Contents, ArchiveError>(contents)
}

} // verus!
