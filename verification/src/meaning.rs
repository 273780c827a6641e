//! What calls of the library do, said of their arguments and results alone: bytes, numbers and
//! texts, what the ciphers give, and what the outside world gave.
use crate::crypto;
use crate::crypto::KEY_SIZE;
use crate::error;
use crate::error::ArchiveError;
use crate::laws;
use crate::laws::ArchiveParts;
use crate::layout;
use crate::layout::Record;
use crate::layout::FINAL_MARKER;
use crate::layout::NONCE_SIZE;
use crate::layout::SALT_SIZE;
use crate::metadata;
use crate::metadata::Metadata;
use crate::password;
use crate::password::PasswordStep;
use crate::reader;
use crate::reader::OpenedArchive;
use crate::writer;
use crate::writer::ArchiveWriter;
use vstd::prelude::*;

verus! {

// ---------------------------------------------------------------------------------------
// Numbers
// ---------------------------------------------------------------------------------------

/// The four bytes of a number spell it, the most significant first.
pub proof fn lemma_number_is_big_endian(n: u32)
    ensures
        layout::be_bytes(n).len() == 4,
        layout::be_bytes(n)[0] * 0x100_0000 + layout::be_bytes(n)[1] * 0x1_0000
            + layout::be_bytes(n)[2] * 0x100 + layout::be_bytes(n)[3] == n,
        layout::be_bytes(n) == seq![
            (n >> 24) as u8,
            (n >> 16) as u8,
            (n >> 8) as u8,
            n as u8,
        ],
{
    assert((n / 0x100_0000) as u8 == (n >> 24) as u8) by (bit_vector);
    assert((n / 0x1_0000 % 0x100) as u8 == (n >> 16) as u8) by (bit_vector);
    assert((n / 0x100 % 0x100) as u8 == (n >> 8) as u8) by (bit_vector);
    assert((n % 0x100) as u8 == n as u8) by (bit_vector);
}

/// Four bytes are read as the number that they spell, the most significant first.
pub proof fn lemma_bytes_spell_a_number(b: Seq<u8>)
    requires
        b.len() == 4,
    ensures
        layout::be_value(b) == b[0] * 0x100_0000 + b[1] * 0x1_0000 + b[2] * 0x100 + b[3],
{
}

/// Writing a number gives the four bytes that spell it.
pub proof fn lemma_to_be_bytes(n: u32, b: [u8; 4])
    requires
        call_ensures(layout::to_be_bytes, (n,), b),
    ensures
        b@[0] * 0x100_0000 + b@[1] * 0x1_0000 + b@[2] * 0x100 + b@[3] == n,
{
    lemma_number_is_big_endian(n);
}

/// Reading a number takes the first four bytes, the most significant first.
pub proof fn lemma_from_be_bytes(b: &[u8], n: u32)
    requires
        b@.len() >= 4,
        call_ensures(layout::from_be_bytes, (b,), n),
    ensures
        n == b@[0] * 0x100_0000 + b@[1] * 0x1_0000 + b@[2] * 0x100 + b@[3],
{
}

/// A length is stored without what is beyond 32 bits.
pub proof fn lemma_stored_len(len: usize, n: u32)
    requires
        call_ensures(layout::stored_len, (len,), n),
    ensures
        n == len as nat % 0x1_0000_0000,
        len <= 0xFFFF_FFFF ==> n == len,
{
}

// ---------------------------------------------------------------------------------------
// Layout
// ---------------------------------------------------------------------------------------

/// What stands where in a header: `SCRYPT07`, the version 7, 16 bytes of salt, 12 bytes of
/// base nonce, the chunk size, the length of the metadata, and the metadata.
pub proof fn lemma_header_layout(
    salt: Seq<u8>,
    base_nonce: Seq<u8>,
    chunk_size: u32,
    metadata: Seq<u8>,
)
    requires
        salt.len() == 16,
        base_nonce.len() == 12,
    ensures
        ({
            let out = layout::header_bytes(salt, base_nonce, chunk_size, metadata);
            &&& out.len() == 45 + metadata.len()
            &&& out.take(9) == seq![
                0x53u8,
                0x43u8,
                0x52u8,
                0x59u8,
                0x50u8,
                0x54u8,
                0x30u8,
                0x37u8,
                7u8,
            ]
            &&& out.subrange(9, 25) == salt
            &&& out.subrange(25, 37) == base_nonce
            &&& out[37] * 0x100_0000 + out[38] * 0x1_0000 + out[39] * 0x100 + out[40] == chunk_size
            &&& out[41] * 0x100_0000 + out[42] * 0x1_0000 + out[43] * 0x100 + out[44]
                == metadata.len() % 0x1_0000_0000
            &&& out.skip(45) == metadata
        }),
{
    let out = layout::header_bytes(salt, base_nonce, chunk_size, metadata);
    let len = layout::low32(metadata.len());
    lemma_number_is_big_endian(chunk_size);
    lemma_number_is_big_endian(len);
    assert(layout::signature() =~= seq![
        0x53u8,
        0x43u8,
        0x52u8,
        0x59u8,
        0x50u8,
        0x54u8,
        0x30u8,
        0x37u8,
        7u8,
    ]);
    assert(out.take(9) =~= layout::signature());
    assert(out.subrange(9, 25) =~= salt);
    assert(out.subrange(25, 37) =~= base_nonce);
    assert(out.subrange(37, 41) =~= layout::be_bytes(chunk_size));
    assert(out.subrange(41, 45) =~= layout::be_bytes(len));
    assert(out.skip(45) =~= metadata);
}

/// What stands where in the record of a chunk: its number, the length of its ciphertext, and
/// the ciphertext.
pub proof fn lemma_record_layout(record: Record)
    ensures
        ({
            let out = layout::record_bytes(record);
            &&& out.len() == 8 + record.ciphertext.len()
            &&& out[0] * 0x100_0000 + out[1] * 0x1_0000 + out[2] * 0x100 + out[3] == record.counter
            &&& out[4] * 0x100_0000 + out[5] * 0x1_0000 + out[6] * 0x100 + out[7]
                == record.ciphertext.len() % 0x1_0000_0000
            &&& out.skip(8) == record.ciphertext
        }),
{
    let out = layout::record_bytes(record);
    lemma_number_is_big_endian(record.counter);
    lemma_number_is_big_endian(layout::low32(record.ciphertext.len()));
    assert(out.skip(8) =~= record.ciphertext);
}

/// Records stand one after the other.
pub proof fn lemma_records_layout(records: Seq<Record>, record: Record)
    ensures
        layout::records_bytes(Seq::empty()) == Seq::<u8>::empty(),
        layout::records_bytes(records.push(record)) == layout::records_bytes(records)
            + layout::record_bytes(record),
{
    layout::lemma_records_bytes_push(records, record);
}

/// What stands where in a final record: four bytes 0xFF, 12 bytes of nonce, the length of the
/// seal, and the seal.
pub proof fn lemma_final_layout(nonce: Seq<u8>, seal: Seq<u8>)
    requires
        nonce.len() == 12,
    ensures
        ({
            let out = layout::final_bytes(nonce, seal);
            &&& out.len() == 20 + seal.len()
            &&& out.take(4) == seq![0xFFu8, 0xFFu8, 0xFFu8, 0xFFu8]
            &&& out.subrange(4, 16) == nonce
            &&& out[16] * 0x100_0000 + out[17] * 0x1_0000 + out[18] * 0x100 + out[19] == seal.len()
                % 0x1_0000_0000
            &&& out.skip(20) == seal
        }),
{
    let out = layout::final_bytes(nonce, seal);
    lemma_number_is_big_endian(layout::low32(seal.len()));
    assert(out.take(4) =~= seq![0xFFu8, 0xFFu8, 0xFFu8, 0xFFu8]);
    assert(out.subrange(4, 16) =~= nonce);
    assert(out.skip(20) =~= seal);
}

/// The encoding functions give the bytes of that layout.
pub proof fn lemma_encoding_calls(
    salt: &[u8; SALT_SIZE],
    base_nonce: &[u8; NONCE_SIZE],
    chunk_size: usize,
    metadata: &[u8],
    header: Vec<u8>,
    counter: u32,
    ciphertext: &[u8],
    record: Vec<u8>,
    nonce: &[u8; NONCE_SIZE],
    seal: &[u8],
    last: Vec<u8>,
)
    requires
        call_ensures(layout::encode_header, (salt, base_nonce, chunk_size, metadata), header),
        call_ensures(layout::encode_record, (counter, ciphertext), record),
        call_ensures(layout::encode_final, (nonce, seal), last),
    ensures
        header@ == layout::header_bytes(
            salt@,
            base_nonce@,
            (chunk_size as nat % 0x1_0000_0000) as u32,
            metadata@,
        ),
        record@ == layout::record_bytes(Record { counter, ciphertext: ciphertext@ }),
        last@ == layout::final_bytes(nonce@, seal@),
{
}

/// The salt is the 16 bytes after the magic bytes and the version.
pub proof fn lemma_read_salt(data: &[u8], res: Result<[u8; SALT_SIZE], ArchiveError>)
    requires
        call_ensures(layout::read_salt, (data,), res),
    ensures
        ({
            let magic = seq![0x53u8, 0x43u8, 0x52u8, 0x59u8, 0x50u8, 0x54u8, 0x30u8, 0x37u8];
            match res {
                Ok(salt) => data@.len() >= 25 && data@.take(8) == magic && data@[8] == 7 && salt@
                    == data@.subrange(9, 25),
                Err(error) => if data@.len() < 8 {
                    error == ArchiveError::UnexpectedEof
                } else if data@.take(8) != magic {
                    error == ArchiveError::BadMagic
                } else if data@.len() < 9 {
                    error == ArchiveError::NumberCutShort
                } else if data@[8] != 7 {
                    error == (ArchiveError::UnsupportedVersion { version: data@[8] })
                } else {
                    data@.len() < 25 && error == ArchiveError::UnexpectedEof
                },
            }
        }),
{
    assert(layout::MAGIC@ =~= seq![
        0x53u8,
        0x43u8,
        0x52u8,
        0x59u8,
        0x50u8,
        0x54u8,
        0x30u8,
        0x37u8,
    ]);
}

/// After the salt come the base nonce, the chunk size, and the metadata with its length.
pub proof fn lemma_read_header(data: &[u8], res: Result<layout::Header<'_>, ArchiveError>)
    requires
        call_ensures(layout::read_header, (data,), res),
    ensures
        match res {
            Ok(header) => {
                let len = layout::be_value(data@.subrange(41, 45));
                &&& data@.len() >= 45 + len
                &&& header.base_nonce@ == data@.subrange(25, 37)
                &&& header.chunk_size == layout::be_value(data@.subrange(37, 41))
                &&& header.metadata@ == data@.subrange(45, 45 + len)
                &&& header.rest@ == data@.skip(45 + len)
            },
            Err(error) => if 37 <= data@.len() < 45 {
                error == ArchiveError::NumberCutShort
            } else {
                &&& data@.len() < 37 || data@.len() < 45 + layout::be_value(data@.subrange(41, 45))
                &&& error == ArchiveError::UnexpectedEof
            },
        },
{
}

/// What follows a header or a record is the end marker, or a record.
pub proof fn lemma_read_frame(bytes: &[u8], res: Result<layout::Frame<'_>, ArchiveError>)
    requires
        call_ensures(layout::read_frame, (bytes,), res),
    ensures
        match res {
            Ok(layout::Frame::End { rest }) => bytes@.len() >= 4 && layout::be_value(bytes@.take(4))
                == 0xFFFF_FFFF && rest@ == bytes@.skip(4),
            Ok(layout::Frame::Chunk { counter, ciphertext, rest }) => {
                let len = layout::be_value(bytes@.subrange(4, 8));
                &&& bytes@.len() >= 8 + len
                &&& counter == layout::be_value(bytes@.take(4))
                &&& counter != 0xFFFF_FFFF
                &&& ciphertext@ == bytes@.subrange(8, 8 + len)
                &&& rest@ == bytes@.skip(8 + len)
            },
            Err(error) => if bytes@.len() < 8 {
                &&& bytes@.len() < 4 || layout::be_value(bytes@.take(4)) != 0xFFFF_FFFF
                &&& error == ArchiveError::NumberCutShort
            } else {
                &&& layout::be_value(bytes@.take(4)) != 0xFFFF_FFFF
                &&& bytes@.len() < 8 + layout::be_value(bytes@.subrange(4, 8))
                &&& error == ArchiveError::UnexpectedEof
            },
        },
{
}

/// After the end marker come the final nonce, and the seal with its length.
pub proof fn lemma_read_final(bytes: &[u8], res: Result<layout::Final<'_>, ArchiveError>)
    requires
        call_ensures(layout::read_final, (bytes,), res),
    ensures
        match res {
            Ok(last) => {
                let len = layout::be_value(bytes@.subrange(12, 16));
                &&& bytes@.len() >= 16 + len
                &&& last.nonce@ == bytes@.take(12)
                &&& last.seal@ == bytes@.subrange(16, 16 + len)
                &&& last.rest@ == bytes@.skip(16 + len)
            },
            Err(error) => if 12 <= bytes@.len() < 16 {
                error == ArchiveError::NumberCutShort
            } else {
                &&& bytes@.len() < 12 || bytes@.len() < 16 + layout::be_value(
                    bytes@.subrange(12, 16),
                )
                &&& error == ArchiveError::UnexpectedEof
            },
        },
{
}

// ---------------------------------------------------------------------------------------
// Keys, nonces and chunks
// ---------------------------------------------------------------------------------------

/// The key of a password is Argon2id, at 65536 KiB, 3 passes and 4 lanes, of all bytes of the
/// password and of the salt. Only a password of more than 2^32 - 1 bytes has none.
pub proof fn lemma_key_is_of_the_whole_password(
    password: &str,
    salt: &[u8; SALT_SIZE],
    res: Result<[u8; KEY_SIZE], ArchiveError>,
)
    requires
        call_ensures(crypto::derive_key, (password, salt), res),
    ensures
        match res {
            Ok(key) => {
                &&& vstd::utf8::encode_utf8(password@).len() <= 0xFFFF_FFFF
                &&& key@ == crypto::argon2id_hash(
                    vstd::utf8::encode_utf8(password@),
                    salt@,
                    65536,
                    3,
                    4,
                )
            },
            Err(error) => vstd::utf8::encode_utf8(password@).len() > 0xFFFF_FFFF && error
                == ArchiveError::KeyDerivation,
        },
{
}

/// The key with which an archive is written and opened, said of all bytes of the password.
pub proof fn lemma_derived_key_is_of_the_whole_password(password: Seq<char>, salt: Seq<u8>)
    ensures
        crypto::derived_key(password, salt) == if vstd::utf8::encode_utf8(password).len()
            <= 0xFFFF_FFFF {
            Some(
                crypto::argon2id_hash(vstd::utf8::encode_utf8(password), salt, 65536, 3, 4),
            )
        } else {
            None
        },
{
}

/// A chunk's nonce is the base nonce, with the number of the chunk, the most significant byte
/// first, XORed into its last four bytes.
pub proof fn lemma_chunk_nonce(base_nonce: Seq<u8>, counter: u32)
    requires
        base_nonce.len() == 12,
    ensures
        crypto::chunk_nonce(base_nonce, counter) == base_nonce.take(8) + seq![
            base_nonce[8] ^ ((counter >> 24) as u8),
            base_nonce[9] ^ ((counter >> 16) as u8),
            base_nonce[10] ^ ((counter >> 8) as u8),
            base_nonce[11] ^ (counter as u8),
        ],
{
    lemma_number_is_big_endian(counter);
    assert(crypto::chunk_nonce(base_nonce, counter) =~= base_nonce.take(8) + seq![
        base_nonce[8] ^ ((counter >> 24) as u8),
        base_nonce[9] ^ ((counter >> 16) as u8),
        base_nonce[10] ^ ((counter >> 8) as u8),
        base_nonce[11] ^ (counter as u8),
    ]);
}

/// The nonce that is computed for a chunk.
pub proof fn lemma_nonce_for_chunk(
    base_nonce: &[u8; NONCE_SIZE],
    counter: u32,
    nonce: [u8; NONCE_SIZE],
)
    requires
        call_ensures(crypto::nonce_for_chunk, (base_nonce, counter), nonce),
    ensures
        forall|i: int| 0 <= i < 8 ==> nonce@[i] == base_nonce@[i],
        nonce@[8] == base_nonce@[8] ^ ((counter >> 24) as u8),
        nonce@[9] == base_nonce@[9] ^ ((counter >> 16) as u8),
        nonce@[10] == base_nonce@[10] ^ ((counter >> 8) as u8),
        nonce@[11] == base_nonce@[11] ^ (counter as u8),
{
    lemma_number_is_big_endian(counter);
    lemma_chunk_nonce(base_nonce@, counter);
}

/// The nonce of a later chunk is that of the first with its number XORed in: XORing the number
/// in once more gives the base nonce back.
pub proof fn lemma_nonces_of_two_chunks(
    base_nonce: &[u8; NONCE_SIZE],
    nonce: [u8; NONCE_SIZE],
    counter: u32,
    back: [u8; NONCE_SIZE],
)
    requires
        call_ensures(crypto::nonce_for_chunk, (base_nonce, counter), nonce),
        call_ensures(crypto::nonce_for_chunk, (&nonce, counter), back),
    ensures
        back@ == base_nonce@,
{
    lemma_nonce_for_chunk(base_nonce, counter, nonce);
    lemma_nonce_for_chunk(&nonce, counter, back);
    assert forall|i: int| 0 <= i < 12 implies back@[i] == base_nonce@[i] by {
        if i >= 8 {
            let b = base_nonce@[i];
            let c = layout::be_bytes(counter)[i - 8];
            lemma_number_is_big_endian(counter);
            assert(nonce@[i] == b ^ c);
            assert(back@[i] == nonce@[i] ^ c);
            assert((b ^ c) ^ c == b) by (bit_vector);
        }
    }
    assert(back@ =~= base_nonce@);
}

/// What is encrypted is what the cipher makes of the key, the nonce, the associated data and
/// the message; it fails only beyond 64 GiB, and decrypts to the message again.
pub proof fn lemma_encrypted_chunk_decrypts(
    key: &[u8; KEY_SIZE],
    nonce: &[u8; NONCE_SIZE],
    aad: &[u8],
    plaintext: &[u8],
    encrypted: Result<Vec<u8>, ArchiveError>,
    ciphertext: &[u8],
    decrypted: Result<Vec<u8>, ArchiveError>,
)
    requires
        call_ensures(crypto::encrypt_chunk, (key, nonce, aad, plaintext), encrypted),
        call_ensures(crypto::decrypt_chunk, (key, nonce, aad, ciphertext), decrypted),
        encrypted matches Ok(out) ==> ciphertext@ == out@,
    ensures
        match encrypted {
            Ok(out) => {
                &&& aad@.len() <= 0x10_0000_0000
                &&& plaintext@.len() <= 0x10_0000_0000
                &&& out@ == crypto::aes256gcm_sealed(key@, nonce@, aad@, plaintext@)
                &&& out@.len() == plaintext@.len() + 16
                &&& decrypted matches Ok(message) && message@ == plaintext@
            },
            Err(error) => (aad@.len() > 0x10_0000_0000 || plaintext@.len() > 0x10_0000_0000)
                && error == ArchiveError::Encryption,
        },
{
}

/// What is decrypted is what the cipher finds under the key, the nonce and the associated
/// data, and nothing where it finds nothing.
pub proof fn lemma_decrypted_chunk(
    key: &[u8; KEY_SIZE],
    nonce: &[u8; NONCE_SIZE],
    aad: &[u8],
    ciphertext: &[u8],
    res: Result<Vec<u8>, ArchiveError>,
)
    requires
        call_ensures(crypto::decrypt_chunk, (key, nonce, aad, ciphertext), res),
    ensures
        match crypto::aes256gcm_opened(key@, nonce@, aad@, ciphertext@) {
            Some(plaintext) => res matches Ok(message) && message@ == plaintext,
            None => res matches Err(error) && error == ArchiveError::Decryption,
        },
{
}

// ---------------------------------------------------------------------------------------
// Writing
// ---------------------------------------------------------------------------------------

/// The chunk sizes of an archive are 1 to 2^32 - 17, and its metadata has up to 2^32 - 1 bytes.
pub proof fn lemma_limits(
    chunk_size: usize,
    size: Result<usize, ArchiveError>,
    len: usize,
    fits: Result<(), ArchiveError>,
)
    requires
        call_ensures(writer::checked_chunk_size, (chunk_size,), size),
        call_ensures(writer::check_metadata_len, (len,), fits),
    ensures
        if 1 <= chunk_size <= 4294967279 {
            size == Ok::<usize, ArchiveError>(chunk_size)
        } else {
            size == Err::<usize, ArchiveError>(ArchiveError::InvalidChunkSize { chunk_size })
        },
        if len <= 4294967295 {
            fits == Ok::<(), ArchiveError>(())
        } else {
            fits == Err::<(), ArchiveError>(ArchiveError::MetadataTooLong { len })
        },
{
}

/// An archive is started, under a given base nonce, for every chunk size and all metadata
/// within the limits, and its header holds what it was given.
pub proof fn lemma_begun_under_a_nonce(
    key: &[u8; KEY_SIZE],
    salt: &[u8; SALT_SIZE],
    base_nonce: [u8; NONCE_SIZE],
    chunk_size: usize,
    metadata: Vec<u8>,
    res: Result<(ArchiveWriter<'_>, Vec<u8>), ArchiveError>,
)
    requires
        call_ensures(
            ArchiveWriter::with_base_nonce,
            (key, salt, base_nonce, chunk_size, metadata),
            res,
        ),
    ensures
        match res {
            Ok((writer, header)) => {
                &&& 1 <= chunk_size <= 4294967279
                &&& metadata@.len() <= 4294967295
                &&& header@ == layout::header_bytes(
                    salt@,
                    base_nonce@,
                    chunk_size as u32,
                    metadata@,
                )
                &&& writer@.key == key@
                &&& writer@.base_nonce == base_nonce@
                &&& writer@.metadata == metadata@
                &&& writer@.chunk_size == chunk_size
                &&& writer@.chunks.len() == 0
            },
            Err(error) => if 1 <= chunk_size <= 4294967279 {
                metadata@.len() > 4294967295 && error == (ArchiveError::MetadataTooLong {
                    len: metadata@.len() as usize,
                })
            } else {
                error == (ArchiveError::InvalidChunkSize { chunk_size })
            },
        },
{
}

/// An archive is started for every chunk size and all metadata within the limits. Its header
/// holds what it was given, and a base nonce that came from a call of the random source.
pub(crate) proof fn lemma_begun_archive(
    key: &[u8; KEY_SIZE],
    salt: &[u8; SALT_SIZE],
    chunk_size: usize,
    metadata: Vec<u8>,
    res: Result<(ArchiveWriter<'_>, Vec<u8>), ArchiveError>,
) -> (draw: [u8; NONCE_SIZE])
    requires
        call_ensures(ArchiveWriter::begin, (key, salt, chunk_size, metadata), res),
    ensures
        match res {
            Ok((writer, header)) => {
                &&& 1 <= chunk_size <= 4294967279
                &&& metadata@.len() <= 4294967295
                &&& call_ensures(crypto::random_array::<NONCE_SIZE>, (), draw)
                &&& header@ == layout::header_bytes(salt@, draw@, chunk_size as u32, metadata@)
                &&& header@.subrange(25, 37) == draw@
                &&& writer@.key == key@
                &&& writer@.base_nonce == draw@
                &&& writer@.metadata == metadata@
                &&& writer@.chunk_size == chunk_size
                &&& writer@.chunks.len() == 0
            },
            Err(error) => if 1 <= chunk_size <= 4294967279 {
                metadata@.len() > 4294967295 && error == (ArchiveError::MetadataTooLong {
                    len: metadata@.len() as usize,
                })
            } else {
                error == (ArchiveError::InvalidChunkSize { chunk_size })
            },
        },
{
    if let Ok((writer, header)) = res {
        let draw = choose|draw: [u8; NONCE_SIZE]| #[trigger]
            crypto::drawn_nonce(draw) && writer@.base_nonce == draw@;
        crypto::lemma_drawn_nonce(draw);
        lemma_header_layout(salt@, draw@, chunk_size as u32, metadata@);
        draw
    } else {
        arbitrary()
    }
}

/// What ends an archive holds a nonce that came from a call of the random source, and is that
/// of no chunk: it does not begin as the base nonce does. A draw that does gets another first
/// byte. After the nonce comes the number of chunks, encrypted under it, with the metadata as
/// associated data.
pub(crate) proof fn lemma_finished_archive(
    writer: ArchiveWriter<'_>,
    res: Result<Vec<u8>, ArchiveError>,
) -> (draw: [u8; NONCE_SIZE])
    requires
        writer.wf(),
        call_ensures(ArchiveWriter::finish, (writer,), res),
    ensures
        call_ensures(crypto::random_array::<NONCE_SIZE>, (), draw),
        res matches Ok(last) && {
            let nonce = last@.subrange(4, 16);
            &&& last@.len() == 40
            &&& nonce == if draw@.take(8) == writer@.base_nonce.take(8) {
                draw@.update(0, draw@[0] ^ 1)
            } else {
                draw@
            }
            &&& nonce.take(8) != writer@.base_nonce.take(8)
            &&& forall|counter: u32|
                #[trigger] crypto::chunk_nonce(writer@.base_nonce, counter) != nonce
            &&& last@ == layout::final_bytes(
                nonce,
                crypto::aes256gcm_sealed(
                    writer@.key,
                    nonce,
                    writer@.metadata,
                    layout::be_bytes(writer@.chunks.len() as u32),
                ),
            )
        },
{
    let last = res->Ok_0;
    let (draw, nonce) = choose|draw: [u8; NONCE_SIZE], nonce: Seq<u8>|
        #![trigger crypto::drawn_nonce(draw), writer@.sealed_under(nonce)]
        {
            &&& crypto::drawn_nonce(draw)
            &&& writer@.sealed_under(nonce)
            &&& laws::nonces_apart(writer@, nonce)
            &&& nonce == if draw@.take(8) == writer@.base_nonce.take(8) {
                draw@.update(0, draw@[0] ^ 1)
            } else {
                draw@
            }
            &&& last@ == layout::final_bytes(
                nonce,
                crypto::aes256gcm_sealed(
                    writer@.key,
                    nonce,
                    writer@.metadata,
                    layout::be_bytes(writer@.chunks.len() as u32),
                ),
            )
        };
    crypto::lemma_drawn_nonce(draw);
    writer.lemma_draft_opens();
    lemma_final_layout(
        nonce,
        crypto::aes256gcm_sealed(
            writer@.key,
            nonce,
            writer@.metadata,
            layout::be_bytes(writer@.chunks.len() as u32),
        ),
    );
    assert(last@.subrange(4, 16) == nonce);
    if draw@.take(8) == writer@.base_nonce.take(8) {
        let first = draw@[0];
        assert(first ^ 1 != first) by (bit_vector);
        assert(nonce.take(8)[0] == first ^ 1);
        assert(draw@.take(8)[0] == first);
    }
    draw
}

// ---------------------------------------------------------------------------------------
// Opening
// ---------------------------------------------------------------------------------------

/// The plaintext of a final seal is held against the number of chunks: it is four bytes, which
/// spell that number.
pub proof fn lemma_checked_seal(plaintext: &[u8], found: u32, res: Result<(), ArchiveError>)
    requires
        call_ensures(reader::check_seal, (plaintext, found), res),
    ensures
        plaintext@.len() != 4 ==> res == Err::<(), ArchiveError>(
            ArchiveError::SealLength { len: plaintext@.len() as usize },
        ),
        plaintext@.len() == 4 ==> {
            let expected = (plaintext@[0] * 0x100_0000 + plaintext@[1] * 0x1_0000 + plaintext@[2]
                * 0x100 + plaintext@[3]) as u32;
            res == if expected == found {
                Ok::<(), ArchiveError>(())
            } else {
                Err(ArchiveError::ChunkCountMismatch { expected, found })
            }
        },
{
}

/// Data that does not begin with a signature and a salt is refused, whatever the password.
pub proof fn lemma_signature_is_checked(
    data: &[u8],
    password: &str,
    res: Result<OpenedArchive, ArchiveError>,
    key: &[u8; KEY_SIZE],
    keyed: Result<OpenedArchive, ArchiveError>,
)
    requires
        call_ensures(reader::open_archive, (data, password), res),
        call_ensures(reader::open_with_key, (data, key), keyed),
    ensures
        ({
            let magic = seq![0x53u8, 0x43u8, 0x52u8, 0x59u8, 0x50u8, 0x54u8, 0x30u8, 0x37u8];
            let early = Err::<OpenedArchive, ArchiveError>(ArchiveError::UnexpectedEof);
            let cut = Err::<OpenedArchive, ArchiveError>(ArchiveError::NumberCutShort);
            let bad = Err::<OpenedArchive, ArchiveError>(ArchiveError::BadMagic);
            let other = Err::<OpenedArchive, ArchiveError>(
                ArchiveError::UnsupportedVersion { version: data@[8] },
            );
            &&& data@.len() < 8 ==> res == early && keyed == early
            &&& data@.len() >= 8 && data@.take(8) != magic ==> res == bad && keyed == bad
            &&& data@.len() == 8 && data@.take(8) == magic ==> res == cut && keyed == cut
            &&& data@.len() >= 9 && data@.take(8) == magic && data@[8] != 7 ==> res == other
                && keyed == other
            &&& 9 <= data@.len() < 25 && data@.take(8) == magic && data@[8] == 7 ==> res == early
                && keyed == early
        }),
{
    assert(layout::MAGIC@ =~= seq![
        0x53u8,
        0x43u8,
        0x52u8,
        0x59u8,
        0x50u8,
        0x54u8,
        0x30u8,
        0x37u8,
    ]);
}

/// Opening with a password is opening with the key of that password and of the salt, which are
/// the 16 bytes from the tenth on. A password without a key is refused.
pub proof fn lemma_password_opens_as_its_key(
    data: &[u8],
    password: &str,
    res: Result<OpenedArchive, ArchiveError>,
    key: &[u8; KEY_SIZE],
    keyed: Result<OpenedArchive, ArchiveError>,
)
    requires
        data@.len() >= 25,
        data@.take(9) == seq![
            0x53u8,
            0x43u8,
            0x52u8,
            0x59u8,
            0x50u8,
            0x54u8,
            0x30u8,
            0x37u8,
            7u8,
        ],
        call_ensures(reader::open_archive, (data, password), res),
        call_ensures(reader::open_with_key, (data, key), keyed),
        key@ == crypto::argon2id_hash(
            vstd::utf8::encode_utf8(password@),
            data@.subrange(9, 25),
            65536,
            3,
            4,
        ),
    ensures
        vstd::utf8::encode_utf8(password@).len() > 0xFFFF_FFFF ==> res == Err::<
            OpenedArchive,
            ArchiveError,
        >(ArchiveError::KeyDerivation),
        vstd::utf8::encode_utf8(password@).len() <= 0xFFFF_FFFF ==> match keyed {
            Ok(archive) => res matches Ok(same) && same.metadata@ == archive.metadata@
                && same.payload@ == archive.payload@,
            Err(error) => res matches Err(same) && same == error,
        },
{
    assert(data@[8] == data@.take(9)[8]);
    assert forall|i: int| 0 <= i < 8 implies data@.take(8)[i] == layout::MAGIC@[i] by {
        assert(data@.take(9)[i] == data@.take(8)[i]);
    }
    assert(data@.take(8) =~= layout::MAGIC@);
}

/// A header that is cut short is refused.
pub proof fn lemma_cut_header(
    data: &[u8],
    key: &[u8; KEY_SIZE],
    res: Result<OpenedArchive, ArchiveError>,
)
    requires
        data@.len() >= 25,
        data@.take(9) == seq![
            0x53u8,
            0x43u8,
            0x52u8,
            0x59u8,
            0x50u8,
            0x54u8,
            0x30u8,
            0x37u8,
            7u8,
        ],
        call_ensures(reader::open_with_key, (data, key), res),
    ensures
        data@.len() < 37 ==> res == Err::<OpenedArchive, ArchiveError>(ArchiveError::UnexpectedEof),
        37 <= data@.len() < 45 ==> res == Err::<OpenedArchive, ArchiveError>(
            ArchiveError::NumberCutShort,
        ),
        45 <= data@.len() < 45 + layout::be_value(data@.subrange(41, 45)) ==> res == Err::<
            OpenedArchive,
            ArchiveError,
        >(ArchiveError::UnexpectedEof),
{
    assert(data@[8] == data@.take(9)[8]);
    assert forall|i: int| 0 <= i < 8 implies data@.take(8)[i] == layout::MAGIC@[i] by {
        assert(data@.take(9)[i] == data@.take(8)[i]);
    }
    assert(data@.take(8) =~= layout::MAGIC@);
}

/// Reading comes past a header and chunks that authenticate, to what follows them.
proof fn lemma_reading_comes_to(
    key: Seq<u8>,
    data: Seq<u8>,
    salt: Seq<u8>,
    base_nonce: Seq<u8>,
    chunk_size: u32,
    metadata: Seq<u8>,
    records: Seq<Record>,
    plaintexts: Seq<Seq<u8>>,
    tail: Seq<u8>,
) -> (header: layout::HeaderView)
    requires
        salt.len() == 16,
        base_nonce.len() == 12,
        metadata.len() <= 0xFFFF_FFFF,
        records.len() == plaintexts.len() <= 0xFFFF_FFFF,
        forall|i: int|
            #![trigger records[i]]
            0 <= i < records.len() ==> {
                &&& records[i].counter != 0xFFFF_FFFF
                &&& records[i].ciphertext.len() <= 0xFFFF_FFFF
                &&& crypto::aes256gcm_opened(
                    key,
                    crypto::chunk_nonce(base_nonce, records[i].counter),
                    metadata,
                    records[i].ciphertext,
                ) == Some(plaintexts[i])
            },
        data == layout::header_bytes(salt, base_nonce, chunk_size, metadata)
            + layout::records_bytes(records) + tail,
    ensures
        layout::salt_of(data) == Ok::<Seq<u8>, ArchiveError>(salt),
        layout::header_of(data) == Ok::<layout::HeaderView, ArchiveError>(header),
        header.base_nonce == base_nonce,
        header.metadata == metadata,
        reader::chunks_outcome(key, header, header.rest, 0) == reader::prepended(
            plaintexts.flatten(),
            layout::numbered_from(records, 0),
            reader::chunks_outcome(key, header, tail, records.len() as u32),
        ),
{
    let body = layout::records_bytes(records) + tail;
    assert(data =~= layout::header_bytes(salt, base_nonce, chunk_size, metadata) + body);
    layout::lemma_header_reads_back(salt, base_nonce, chunk_size, metadata, body);
    let header = layout::HeaderView { base_nonce, chunk_size, metadata, rest: body };
    assert forall|i: int| #![trigger records[i]] 0 <= i < records.len() implies {
        &&& records[i].counter != FINAL_MARKER
        &&& records[i].ciphertext.len() <= u32::MAX
        &&& reader::record_plaintext(key, header, records[i]) == Some(plaintexts[i])
    } by {
        let record = records[i];
    }
    laws::lemma_records_read_back(key, header, records, plaintexts, tail, 0);
    header
}

/// A record that is not complete, does not authenticate, or is one too many.
proof fn lemma_refused_record(
    key: Seq<u8>,
    header: layout::HeaderView,
    tail: Seq<u8>,
    count: u32,
)
    requires
        tail.take(4) != seq![0xFFu8, 0xFFu8, 0xFFu8, 0xFFu8],
    ensures
        ({
            let outcome = reader::chunks_outcome(key, header, tail, count);
            let counter = layout::be_value(tail.take(4));
            let len = layout::be_value(tail.subrange(4, 8));
            let opened = crypto::aes256gcm_opened(
                key,
                crypto::chunk_nonce(header.base_nonce, counter),
                header.metadata,
                tail.subrange(8, 8 + len),
            );
            &&& tail.len() < 8 ==> outcome == Err::<reader::ChunksView, ArchiveError>(
                ArchiveError::NumberCutShort,
            )
            &&& 8 <= tail.len() < 8 + len ==> outcome == Err::<reader::ChunksView, ArchiveError>(
                ArchiveError::UnexpectedEof,
            )
            &&& tail.len() >= 8 + len && opened is None ==> outcome == Err::<
                reader::ChunksView,
                ArchiveError,
            >(ArchiveError::Decryption)
            &&& tail.len() >= 8 + len && opened is Some && count == 0xFFFF_FFFF ==> outcome
                == Err::<reader::ChunksView, ArchiveError>(ArchiveError::TooManyChunks)
        }),
{
    reveal(reader::chunks_outcome);
    if tail.len() >= 4 && layout::be_value(tail.take(4)) == FINAL_MARKER {
        layout::lemma_be_bytes_of_value(tail.take(4));
        assert(tail.take(4) =~= seq![0xFFu8, 0xFFu8, 0xFFu8, 0xFFu8]);
    }
}

/// What follows chunks that authenticate, if it is no end marker: another record, which must be
/// complete, must authenticate, and must not be one too many.
pub proof fn lemma_next_record(
    data: &[u8],
    key: &[u8; KEY_SIZE],
    res: Result<OpenedArchive, ArchiveError>,
    salt: Seq<u8>,
    base_nonce: Seq<u8>,
    chunk_size: u32,
    metadata: Seq<u8>,
    records: Seq<Record>,
    plaintexts: Seq<Seq<u8>>,
    tail: Seq<u8>,
)
    requires
        call_ensures(reader::open_with_key, (data, key), res),
        salt.len() == 16,
        base_nonce.len() == 12,
        metadata.len() <= 0xFFFF_FFFF,
        records.len() == plaintexts.len() <= 0xFFFF_FFFF,
        forall|i: int|
            #![trigger records[i]]
            0 <= i < records.len() ==> {
                &&& records[i].counter != 0xFFFF_FFFF
                &&& records[i].ciphertext.len() <= 0xFFFF_FFFF
                &&& crypto::aes256gcm_opened(
                    key@,
                    crypto::chunk_nonce(base_nonce, records[i].counter),
                    metadata,
                    records[i].ciphertext,
                ) == Some(plaintexts[i])
            },
        data@ == layout::header_bytes(salt, base_nonce, chunk_size, metadata)
            + layout::records_bytes(records) + tail,
        tail.take(4) != seq![0xFFu8, 0xFFu8, 0xFFu8, 0xFFu8],
    ensures
        tail.len() < 8 ==> res == Err::<OpenedArchive, ArchiveError>(ArchiveError::NumberCutShort),
        tail.len() >= 8 ==> {
            let counter = layout::be_value(tail.take(4));
            let len = layout::be_value(tail.subrange(4, 8));
            let opened = crypto::aes256gcm_opened(
                key@,
                crypto::chunk_nonce(base_nonce, counter),
                metadata,
                tail.subrange(8, 8 + len),
            );
            &&& tail.len() < 8 + len ==> res == Err::<OpenedArchive, ArchiveError>(
                ArchiveError::UnexpectedEof,
            )
            &&& tail.len() >= 8 + len && opened is None ==> res == Err::<
                OpenedArchive,
                ArchiveError,
            >(ArchiveError::Decryption)
            &&& tail.len() >= 8 + len && opened is Some && records.len() == 0xFFFF_FFFF
                ==> res == Err::<OpenedArchive, ArchiveError>(ArchiveError::TooManyChunks)
        },
{
    let header = lemma_reading_comes_to(
        key@,
        data@,
        salt,
        base_nonce,
        chunk_size,
        metadata,
        records,
        plaintexts,
        tail,
    );
    lemma_refused_record(key@, header, tail, records.len() as u32);
}

/// What follows the end marker after chunks that authenticate: a final record, which must be
/// complete and authenticate, whose seal must be the number of chunks, and the chunks must have
/// the numbers of their places. Then the archive opens to its metadata and the chunks joined.
pub proof fn lemma_end_of_the_archive(
    data: &[u8],
    key: &[u8; KEY_SIZE],
    res: Result<OpenedArchive, ArchiveError>,
    salt: Seq<u8>,
    base_nonce: Seq<u8>,
    chunk_size: u32,
    metadata: Seq<u8>,
    records: Seq<Record>,
    plaintexts: Seq<Seq<u8>>,
    after: Seq<u8>,
)
    requires
        call_ensures(reader::open_with_key, (data, key), res),
        salt.len() == 16,
        base_nonce.len() == 12,
        metadata.len() <= 0xFFFF_FFFF,
        records.len() == plaintexts.len() <= 0xFFFF_FFFF,
        forall|i: int|
            #![trigger records[i]]
            0 <= i < records.len() ==> {
                &&& records[i].counter != 0xFFFF_FFFF
                &&& records[i].ciphertext.len() <= 0xFFFF_FFFF
                &&& crypto::aes256gcm_opened(
                    key@,
                    crypto::chunk_nonce(base_nonce, records[i].counter),
                    metadata,
                    records[i].ciphertext,
                ) == Some(plaintexts[i])
            },
        data@ == layout::header_bytes(salt, base_nonce, chunk_size, metadata)
            + layout::records_bytes(records) + (seq![0xFFu8, 0xFFu8, 0xFFu8, 0xFFu8] + after),
    ensures
        after.len() < 12 ==> res == Err::<OpenedArchive, ArchiveError>(ArchiveError::UnexpectedEof),
        12 <= after.len() < 16 ==> res == Err::<OpenedArchive, ArchiveError>(
            ArchiveError::NumberCutShort,
        ),
        after.len() >= 16 ==> {
            let len = layout::be_value(after.subrange(12, 16));
            let opened = crypto::aes256gcm_opened(
                key@,
                after.take(12),
                metadata,
                after.subrange(16, 16 + len),
            );
            &&& after.len() < 16 + len ==> res == Err::<OpenedArchive, ArchiveError>(
                ArchiveError::UnexpectedEof,
            )
            &&& after.len() >= 16 + len ==> match opened {
                None => res == Err::<OpenedArchive, ArchiveError>(ArchiveError::Decryption),
                Some(count) => if count.len() != 4 {
                    res == Err::<OpenedArchive, ArchiveError>(
                        ArchiveError::SealLength { len: count.len() as usize },
                    )
                } else if layout::be_value(count) != records.len() {
                    res == Err::<OpenedArchive, ArchiveError>(
                        ArchiveError::ChunkCountMismatch {
                            expected: layout::be_value(count),
                            found: records.len() as u32,
                        },
                    )
                } else if exists|i: int|
                    0 <= i < records.len() && (#[trigger] records[i]).counter != i {
                    res == Err::<OpenedArchive, ArchiveError>(ArchiveError::ChunkOutOfOrder)
                } else {
                    res matches Ok(archive) && archive.metadata@ == metadata && archive.payload@
                        == plaintexts.flatten()
                },
            }
        },
{
    let marker = seq![0xFFu8, 0xFFu8, 0xFFu8, 0xFFu8];
    let tail = marker + after;
    let header = lemma_reading_comes_to(
        key@,
        data@,
        salt,
        base_nonce,
        chunk_size,
        metadata,
        records,
        plaintexts,
        tail,
    );
    let count = records.len() as u32;
    assert(reader::chunks_outcome(key@, header, tail, count) == Ok::<
        reader::ChunksView,
        ArchiveError,
    >(reader::ChunksView { payload: Seq::empty(), count, in_order: true, rest: after })) by {
        reveal(reader::chunks_outcome);
        assert(tail.take(4) =~= marker);
        assert(tail.skip(4) =~= after);
    }
    assert(plaintexts.flatten() + Seq::<u8>::empty() =~= plaintexts.flatten());
}

/// Whatever opens is a header, chunk records numbered from 0, each of which authenticates with
/// the metadata of the header under the nonce of its number, a final record whose seal
/// authenticates to the number of chunks, and bytes that are not looked at. What comes out is
/// that metadata and the plaintexts of the chunks joined.
pub proof fn lemma_what_opened(
    data: &[u8],
    key: &[u8; KEY_SIZE],
    archive: OpenedArchive,
) -> (opened: (ArchiveParts, Seq<Seq<u8>>, Seq<u8>))
    requires
        call_ensures(reader::open_with_key, (data, key), Ok(archive)),
    ensures
        ({
            let (parts, plaintexts, rest) = opened;
            &&& parts.salt.len() == 16
            &&& parts.base_nonce.len() == 12
            &&& parts.nonce.len() == 12
            &&& parts.records.len() == plaintexts.len()
            &&& data@ == layout::header_bytes(
                parts.salt,
                parts.base_nonce,
                parts.chunk_size,
                parts.metadata,
            ) + layout::records_bytes(parts.records) + layout::final_bytes(parts.nonce, parts.seal)
                + rest
            &&& forall|i: int|
                #![trigger parts.records[i]]
                0 <= i < parts.records.len() ==> {
                    &&& parts.records[i].counter == i
                    &&& crypto::aes256gcm_opened(
                        key@,
                        crypto::chunk_nonce(parts.base_nonce, parts.records[i].counter),
                        parts.metadata,
                        parts.records[i].ciphertext,
                    ) == Some(plaintexts[i])
                }
            &&& crypto::aes256gcm_opened(key@, parts.nonce, parts.metadata, parts.seal) == Some(
                layout::be_bytes(parts.records.len() as u32),
            )
            &&& archive.metadata@ == parts.metadata
            &&& archive.payload@ == plaintexts.flatten()
        }),
{
    let rest = reader::opened(key@, data@)->Ok_0.rest;
    let parts = laws::lemma_opened_is_authentic(key@, data@);
    let plaintexts = parts.plaintexts(key@, parts.records.len());
    layout::lemma_be_bytes_of_value(parts.sealed(key@)->Some_0);
    assert forall|i: int| #![trigger parts.records[i]] 0 <= i < parts.records.len() implies {
        &&& parts.records[i].counter == i
        &&& crypto::aes256gcm_opened(
            key@,
            crypto::chunk_nonce(parts.base_nonce, parts.records[i].counter),
            parts.metadata,
            parts.records[i].ciphertext,
        ) == Some(plaintexts[i])
    } by {
        assert(parts.plaintext(key@, i) is Some);
    }
    (parts, plaintexts, rest)
}

// ---------------------------------------------------------------------------------------
// Metadata
// ---------------------------------------------------------------------------------------

/// The metadata of an archive names what it was given, and the version and the compression of
/// the tool.
pub proof fn lemma_described(
    original_path: &str,
    timestamp: i64,
    os: &str,
    compression_level: i32,
    is_directory: bool,
    metadata: Metadata,
)
    requires
        call_ensures(
            Metadata::describe,
            (original_path, timestamp, os, compression_level, is_directory),
            metadata,
        ),
    ensures
        metadata.original_path@ == original_path@,
        metadata.created_at == timestamp as u64,
        timestamp >= 0 ==> metadata.created_at == timestamp,
        metadata.tool_version@ == "0.7.0"@,
        metadata.os@ == os@,
        metadata.compression.algorithm@ == "zstd"@,
        metadata.compression.level == compression_level,
        metadata.is_directory == is_directory,
{
}

/// The metadata of an archive made now is that of an archive made at a time that a reading of
/// the system clock gave.
pub(crate) proof fn lemma_described_now(
    original_path: &str,
    os: &str,
    compression_level: i32,
    is_directory: bool,
    metadata: Metadata,
) -> (seconds: i64)
    requires
        call_ensures(
            Metadata::describe_now,
            (original_path, os, compression_level, is_directory),
            metadata,
        ),
    ensures
        call_ensures(metadata::utc_timestamp, (), seconds),
        metadata.created_at == seconds as u64,
        seconds >= 0 ==> metadata.created_at == seconds,
        metadata.original_path@ == original_path@,
        metadata.tool_version@ == "0.7.0"@,
        metadata.os@ == os@,
        metadata.compression.algorithm@ == "zstd"@,
        metadata.compression.level == compression_level,
        metadata.is_directory == is_directory,
{
    metadata::lemma_created_at_is_read_from_the_clock(
        original_path,
        os,
        compression_level,
        is_directory,
        metadata,
    )
}

/// A directory goes into its archive under the last component of its path, or as `data`.
pub proof fn lemma_root_name(file_name: Option<&str>, name: String)
    requires
        call_ensures(metadata::root_name, (file_name,), name),
    ensures
        match file_name {
            Some(component) => name@ == component@,
            None => name@ == "data"@,
        },
{
}

// ---------------------------------------------------------------------------------------
// Passwords
// ---------------------------------------------------------------------------------------

/// Of the sources of a password the first that is there decides: the password itself, a file,
/// an environment variable, and else a prompt.
pub proof fn lemma_first_step(
    password: Option<&str>,
    password_file: Option<&str>,
    password_env: Option<&str>,
    step: PasswordStep,
)
    requires
        call_ensures(password::first_step, (password, password_file, password_env), step),
    ensures
        password matches Some(given) ==> step matches PasswordStep::Use { password: used }
            && used@ == given@,
        password is None ==> (password_file matches Some(named)
            ==> step matches PasswordStep::ReadFile { path } && path@ == named@),
        password is None && password_file is None ==> (password_env matches Some(named)
            ==> step matches PasswordStep::ReadEnv { variable } && variable@ == named@),
        password is None && password_file is None && password_env is None ==> step is Prompt,
{
}

/// The password in a file is what the file holds, up to the white space at its end: what is
/// taken away is white space, and what stays does not end in any.
pub proof fn lemma_password_in_a_file(content: &str, step: PasswordStep)
    requires
        call_ensures(password::step_after_file, (content,), step),
    ensures
        step matches PasswordStep::Use { password: used } && {
            let kept = used@.len() as int;
            &&& kept <= content@.len()
            &&& used@ == content@.take(kept)
            &&& forall|i: int|
                kept <= i < content@.len() ==> white_space((#[trigger] content@[i]) as int)
            &&& kept > 0 ==> !white_space(used@[kept - 1] as int)
        },
{
    lemma_trimmed_end(content@);
}

/// The code points with the Unicode property White_Space.
pub open spec fn white_space(n: int) -> bool {
    ||| 0x9 <= n <= 0xd
    ||| n == 0x20
    ||| n == 0x85
    ||| n == 0xa0
    ||| n == 0x1680
    ||| 0x2000 <= n <= 0x200a
    ||| n == 0x2028
    ||| n == 0x2029
    ||| n == 0x202f
    ||| n == 0x205f
    ||| n == 0x3000
}

/// What trimming keeps and what it takes away.
proof fn lemma_trimmed_end(text: Seq<char>)
    ensures
        ({
            let kept = password::trimmed_end(text).len() as int;
            &&& kept <= text.len()
            &&& password::trimmed_end(text) == text.take(kept)
            &&& forall|i: int| kept <= i < text.len() ==> white_space((#[trigger] text[i]) as int)
            &&& kept > 0 ==> !white_space(text[kept - 1] as int)
        }),
    decreases text.len(),
{
    let kept = password::trimmed_end(text).len() as int;
    if text.len() > 0 && password::is_whitespace(text.last()) {
        let shorter = text.drop_last();
        lemma_trimmed_end(shorter);
        assert(shorter.take(kept) =~= text.take(kept));
        assert forall|i: int| kept <= i < text.len() implies white_space(
            (#[trigger] text[i]) as int,
        ) by {
            if i < shorter.len() {
                assert(shorter[i] == text[i]);
            }
        }
        if kept > 0 {
            assert(shorter[kept - 1] == text[kept - 1]);
        }
    } else {
        assert(text.take(kept) =~= text);
    }
}

/// The value of an environment variable is the password as it is; without one, a prompt asks.
pub proof fn lemma_password_in_the_environment(value: Option<String>, step: PasswordStep)
    requires
        call_ensures(password::step_after_env, (value,), step),
    ensures
        match value {
            Some(given) => step matches PasswordStep::Use { password: used } && used@ == given@,
            None => step is Prompt,
        },
{
}

// ---------------------------------------------------------------------------------------
// Messages
// ---------------------------------------------------------------------------------------

/// Decimal digits: the last is the remainder by ten, and those before it are the quotient.
pub proof fn lemma_decimal(n: nat)
    ensures
        n < 10 ==> error::decimal(n) == seq![(48 + n) as char],
        n >= 10 ==> error::decimal(n) == error::decimal(n / 10).push((48 + n % 10) as char),
{
}

/// The text of each error.
pub proof fn lemma_messages(error: &ArchiveError, text: String)
    requires
        call_ensures(ArchiveError::message, (error,), text),
    ensures
        text@ == match *error {
            ArchiveError::UnexpectedEof => "early eof"@,
            ArchiveError::NumberCutShort => "unexpected end of file"@,
            ArchiveError::BadMagic => "Invalid .senc file: bad magic bytes"@,
            ArchiveError::UnsupportedVersion { version } =>
                "Unsupported .senc version: expected "@ + error::decimal(7) + ", got "@
                    + error::decimal(version as nat),
            ArchiveError::KeyDerivation => "Key derivation error"@,
            ArchiveError::Encryption => "Encryption error: encryption error"@,
            ArchiveError::Decryption => "Decryption error: encryption error"@,
            ArchiveError::SealLength { len } =>
                "File integrity error: expected a final seal of "@ + error::decimal(4)
                    + " bytes but found "@ + error::decimal(len as nat)
                    + " \u{2014} file may be corrupted"@,
            ArchiveError::TooManyChunks => "Too many chunks: an archive holds at most "@
                + error::decimal(4294967295),
            ArchiveError::ChunkCountMismatch { expected, found } =>
                "File integrity error: expected "@ + error::decimal(expected as nat)
                    + " chunks but found "@ + error::decimal(found as nat)
                    + " \u{2014} file may be truncated or corrupted"@,
            ArchiveError::ChunkOutOfOrder =>
                "File integrity error: chunks are out of order \u{2014} file may be corrupted"@,
            ArchiveError::InvalidChunkSize { chunk_size } =>
                "Invalid chunk size: expected 1 to "@ + error::decimal(4294967279)
                    + " bytes, got "@ + error::decimal(chunk_size as nat),
            ArchiveError::MetadataTooLong { len } => "Metadata too long: expected at most "@
                + error::decimal(4294967295) + " bytes, got "@ + error::decimal(len as nat),
            ArchiveError::Decompression { reason } => reason@,
        },
{
}

} // verus!
