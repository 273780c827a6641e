use s_crypt::crypto::encrypt_chunk;
use s_crypt::crypto::nonce_for_chunk;
use s_crypt::error::ArchiveError;
use s_crypt::layout::encode_final;
use s_crypt::layout::encode_header;
use s_crypt::layout::encode_record;
use s_crypt::layout::read_final;
use s_crypt::layout::read_frame;
use s_crypt::layout::read_header;
use s_crypt::layout::read_salt;
use s_crypt::layout::Frame;
use s_crypt::reader::check_seal;
use s_crypt::reader::open_with_key;
use s_crypt::writer::check_metadata_len;
use s_crypt::writer::checked_chunk_size;
use s_crypt::writer::ArchiveWriter;

const KEY: [u8; 32] = [7; 32];
const SALT: [u8; 16] = [1; 16];
const BASE: [u8; 12] = [2; 12];
const LAST: [u8; 12] = [3; 12];
const METADATA: &[u8] = b"{\"is_directory\":false}";

/// An archive of the given chunks.
fn archive(chunks: &[&[u8]]) -> Vec<u8> {
    let (mut writer, mut bytes) =
        ArchiveWriter::with_base_nonce(&KEY, &SALT, BASE, 16, METADATA.to_vec()).ok().unwrap();
    for (i, chunk) in chunks.iter().enumerate() {
        assert_eq!(writer.chunk_count(), i as u32);
        bytes.extend(writer.push(chunk).unwrap().unwrap());
    }
    bytes.extend(writer.finish_with_nonce(LAST).unwrap());
    bytes
}

/// The record of a chunk as a writer with `BASE` makes it.
fn record(counter: u32, chunk: &[u8]) -> Vec<u8> {
    let nonce = nonce_for_chunk(&BASE, counter);
    encode_record(counter, &encrypt_chunk(&KEY, &nonce, METADATA, chunk).unwrap())
}

/// A final record that seals the given bytes.
fn sealing(plaintext: &[u8]) -> Vec<u8> {
    encode_final(&LAST, &encrypt_chunk(&KEY, &LAST, METADATA, plaintext).unwrap())
}

fn open_err(bytes: &[u8]) -> ArchiveError {
    match open_with_key(bytes, &KEY) {
        Ok(_) => panic!("the archive should not open"),
        Err(error) => error,
    }
}

#[test]
fn header_layout() {
    let header = encode_header(&SALT, &BASE, 0x0102_0304, b"meta");
    let mut expected = b"SCRYPT07".to_vec();
    expected.push(7);
    expected.extend_from_slice(&[1; 16]);
    expected.extend_from_slice(&[2; 12]);
    expected.extend_from_slice(&[1, 2, 3, 4]);
    expected.extend_from_slice(&[0, 0, 0, 4]);
    expected.extend_from_slice(b"meta");
    assert_eq!(header, expected);
}

#[test]
fn chunk_size_keeps_its_low_32_bits() {
    let header = encode_header(&SALT, &BASE, 0x7_0000_0010, b"");
    assert_eq!(header[37..41], [0, 0, 0, 0x10]);
}

#[test]
fn record_and_final_layout() {
    assert_eq!(
        encode_record(0x0001_0203, b"xyz"),
        vec![0, 1, 2, 3, 0, 0, 0, 3, b'x', b'y', b'z']
    );
    let mut expected = vec![0xff, 0xff, 0xff, 0xff];
    expected.extend_from_slice(&[3; 12]);
    expected.extend_from_slice(&[0, 0, 0, 2, b'o', b'k']);
    assert_eq!(encode_final(&LAST, b"ok"), expected);
}

#[test]
fn parts_read_back() {
    let mut bytes = encode_header(&SALT, &BASE, 99, b"meta");
    bytes.extend_from_slice(b"tail");
    assert_eq!(read_salt(&bytes).unwrap(), SALT);
    let header = read_header(&bytes).ok().unwrap();
    assert_eq!(header.base_nonce, BASE);
    assert_eq!(header.chunk_size, 99);
    assert_eq!(header.metadata, b"meta");
    assert_eq!(header.rest, b"tail");

    let mut bytes = encode_record(5, b"abc");
    bytes.extend_from_slice(b"tail");
    match read_frame(&bytes).ok().unwrap() {
        Frame::Chunk { counter, ciphertext, rest } => {
            assert_eq!(counter, 5);
            assert_eq!(ciphertext, b"abc");
            assert_eq!(rest, b"tail");
        }
        Frame::End { .. } => panic!("a chunk"),
    }

    let bytes = encode_final(&LAST, b"seal");
    match read_frame(&bytes).ok().unwrap() {
        Frame::Chunk { .. } => panic!("the end marker"),
        Frame::End { rest } => {
            let last = read_final(rest).ok().unwrap();
            assert_eq!(last.nonce, LAST);
            assert_eq!(last.seal, b"seal");
            assert!(last.rest.is_empty());
        }
    }
}

#[test]
fn lengths_beyond_the_input_are_refused() {
    assert_eq!(read_frame(&[0, 0, 0]).err().unwrap(), ArchiveError::NumberCutShort);
    assert_eq!(read_frame(&[0, 0, 0, 0, 0, 0, 0]).err().unwrap(), ArchiveError::NumberCutShort);
    assert_eq!(
        read_frame(&[0, 0, 0, 0, 0, 0, 0, 2, 9]).err().unwrap(),
        ArchiveError::UnexpectedEof
    );
    assert_eq!(
        read_frame(&[0, 0, 0, 0, 0xff, 0xff, 0xff, 0xff, 9]).err().unwrap(),
        ArchiveError::UnexpectedEof
    );
    assert_eq!(read_final(&[0; 11]).err().unwrap(), ArchiveError::UnexpectedEof);
    assert_eq!(read_final(&[0; 15]).err().unwrap(), ArchiveError::NumberCutShort);
    assert_eq!(read_final(&[1; 16]).err().unwrap(), ArchiveError::UnexpectedEof);
    assert_eq!(read_header(&[0; 36]).err().unwrap(), ArchiveError::UnexpectedEof);
    assert_eq!(read_header(&[0; 44]).err().unwrap(), ArchiveError::NumberCutShort);
    assert_eq!(read_header(&[1; 45]).err().unwrap(), ArchiveError::UnexpectedEof);
}

#[test]
fn writer_and_parts_agree() {
    let mut expected = encode_header(&SALT, &BASE, 16, METADATA);
    expected.extend(record(0, b"one"));
    expected.extend(record(1, b"two"));
    expected.extend(sealing(&[0, 0, 0, 2]));
    assert_eq!(archive(&[b"one", b"two"]), expected);
}

#[test]
fn chunks_join_in_order() {
    let opened = open_with_key(&archive(&[b"one", b"two", b"three"]), &KEY).ok().unwrap();
    assert_eq!(opened.payload, b"onetwothree");
    assert_eq!(opened.metadata, METADATA);
}

#[test]
fn chunking_does_not_show() {
    let whole = open_with_key(&archive(&[b"onetwothree"]), &KEY).ok().unwrap();
    let parts = open_with_key(&archive(&[b"o", b"netwo", b"three"]), &KEY).ok().unwrap();
    assert_eq!(whole.payload, parts.payload);
    assert_eq!(whole.metadata, parts.metadata);
}

#[test]
fn chunks_out_of_order_are_refused() {
    for records in [
        [record(9, b"nine"), record(4, b"four")],
        [record(1, b"two"), record(0, b"one")],
        [record(0, b"one"), record(0, b"one")],
        [record(1, b"two"), record(1, b"two")],
        [record(0, b"one"), record(2, b"three")],
    ] {
        let mut bytes = encode_header(&SALT, &BASE, 16, METADATA);
        bytes.extend(records.concat());
        bytes.extend(sealing(&[0, 0, 0, 2]));
        assert_eq!(open_err(&bytes), ArchiveError::ChunkOutOfOrder);
    }
}

#[test]
fn count_is_checked_before_the_order() {
    let mut bytes = encode_header(&SALT, &BASE, 16, METADATA);
    bytes.extend(record(1, b"two"));
    bytes.extend(sealing(&[0, 0, 0, 2]));
    assert_eq!(open_err(&bytes), ArchiveError::ChunkCountMismatch { expected: 2, found: 1 });
}

#[test]
fn chunk_sizes_that_an_archive_can_have() {
    assert_eq!(checked_chunk_size(1), Ok(1));
    assert_eq!(checked_chunk_size(1048576), Ok(1048576));
    assert_eq!(checked_chunk_size(4294967279), Ok(4294967279));
    for chunk_size in [0, 4294967280, 4294967295, 4294967296, 4294967297] {
        assert_eq!(
            checked_chunk_size(chunk_size),
            Err(ArchiveError::InvalidChunkSize { chunk_size })
        );
        let refused = ArchiveWriter::with_base_nonce(&KEY, &SALT, BASE, chunk_size, vec![]);
        assert_eq!(refused.err(), Some(ArchiveError::InvalidChunkSize { chunk_size }));
        let refused = ArchiveWriter::begin(&KEY, &SALT, chunk_size, vec![]);
        assert_eq!(refused.err(), Some(ArchiveError::InvalidChunkSize { chunk_size }));
    }
}

#[test]
fn drawn_bytes_are_stored() {
    let bytes = archive(&[b"one", b"two"]);
    assert_eq!(bytes[9..25], SALT);
    assert_eq!(bytes[25..37], BASE);
    let last = bytes.len() - 40;
    assert_eq!(bytes[last + 4..last + 16], LAST);
}

#[test]
fn archive_without_chunks_opens() {
    let opened = open_with_key(&archive(&[]), &KEY).ok().unwrap();
    assert!(opened.payload.is_empty());
}

#[test]
fn every_cut_is_refused() {
    let bytes = archive(&[b"one", b"two"]);
    let body = 45 + METADATA.len();
    let last = body + 2 * 27;
    for m in 0..bytes.len() {
        let in_number = m == 8
            || (37..45).contains(&m)
            || (body..body + 8).contains(&m)
            || (body + 27..body + 35).contains(&m)
            || (last..last + 4).contains(&m)
            || (last + 16..last + 20).contains(&m);
        let expected =
            if in_number { ArchiveError::NumberCutShort } else { ArchiveError::UnexpectedEof };
        assert_eq!(open_err(&bytes[..m]), expected);
    }
}

#[test]
fn unfinished_archive_is_refused() {
    let (mut writer, mut bytes) =
        ArchiveWriter::with_base_nonce(&KEY, &SALT, BASE, 16, METADATA.to_vec()).ok().unwrap();
    assert_eq!(open_err(&bytes), ArchiveError::NumberCutShort);
    bytes.extend(writer.push(b"one").unwrap().unwrap());
    assert_eq!(open_err(&bytes), ArchiveError::NumberCutShort);
    assert!(writer.push(b"").unwrap().is_none());
    assert_eq!(writer.chunk_count(), 1);
}

#[test]
fn trailing_bytes_are_ignored() {
    let mut bytes = archive(&[b"one", b"two"]);
    bytes.extend_from_slice(b"anything");
    assert_eq!(open_with_key(&bytes, &KEY).ok().unwrap().payload, b"onetwo");
}

#[test]
fn written_size() {
    let bytes = archive(&[b"one", b"four"]);
    assert_eq!(bytes.len(), 45 + METADATA.len() + 2 * 24 + 7 + 40);
}

#[test]
fn unsupported_version() {
    let mut bytes = archive(&[b"one"]);
    bytes[8] = 6;
    assert_eq!(open_err(&bytes), ArchiveError::UnsupportedVersion { version: 6 });
}

#[test]
fn bad_magic() {
    let mut bytes = archive(&[b"one"]);
    bytes[7] = b'6';
    assert_eq!(open_err(&bytes), ArchiveError::BadMagic);
}

#[test]
fn wrong_key_is_refused_at_the_first_chunk() {
    let bytes = archive(&[b"one"]);
    let mut after_first = encode_header(&SALT, &BASE, 16, METADATA);
    after_first.extend(record(0, b"one"));
    for data in [&bytes[..], &after_first[..]] {
        match open_with_key(data, &[8; 32]) {
            Ok(_) => panic!("the archive should not open"),
            Err(error) => assert_eq!(error, ArchiveError::Decryption),
        }
    }
}

#[test]
fn tampering_is_refused() {
    let bytes = archive(&[b"one", b"two"]);
    let metadata_at = 45;
    let nonce_at = 25;
    let ciphertext_at = 45 + METADATA.len() + 8;
    let seal_at = bytes.len() - 1;
    for at in [metadata_at, nonce_at, ciphertext_at, seal_at] {
        let mut changed = bytes.clone();
        changed[at] ^= 1;
        assert_eq!(open_err(&changed), ArchiveError::Decryption);
    }
}

#[test]
fn every_changed_byte_is_refused() {
    let bytes = archive(&[b"one", b"two"]);
    for at in (0..9).chain(25..37).chain(41..bytes.len()) {
        for bit in 0..8 {
            let mut changed = bytes.clone();
            changed[at] ^= 1 << bit;
            open_err(&changed);
        }
    }
}

#[test]
fn changed_chunk_size_does_not_matter() {
    for at in 37..41 {
        let mut changed = archive(&[b"one", b"two"]);
        changed[at] ^= 1;
        assert_eq!(open_with_key(&changed, &KEY).ok().unwrap().payload, b"onetwo");
    }
}

#[test]
fn changed_number_of_a_chunk_is_refused() {
    let mut bytes = archive(&[b"one", b"two"]);
    bytes[45 + METADATA.len() + 3] ^= 1;
    assert_eq!(open_err(&bytes), ArchiveError::Decryption);
}

#[test]
fn missing_chunk_is_noticed() {
    let mut bytes = encode_header(&SALT, &BASE, 16, METADATA);
    bytes.extend(record(0, b"one"));
    bytes.extend(sealing(&[0, 0, 0, 2]));
    assert_eq!(open_err(&bytes), ArchiveError::ChunkCountMismatch { expected: 2, found: 1 });
}

#[test]
fn seal_of_another_length() {
    for plaintext in [&[][..], &[0, 0], &[0, 0, 0], &[0, 0, 0, 0, 0], &[0; 8]] {
        let mut bytes = encode_header(&SALT, &BASE, 16, METADATA);
        bytes.extend(sealing(plaintext));
        assert_eq!(open_err(&bytes), ArchiveError::SealLength { len: plaintext.len() });
    }
}

#[test]
fn metadata_lengths_that_an_archive_can_have() {
    assert_eq!(check_metadata_len(0), Ok(()));
    assert_eq!(check_metadata_len(4294967295), Ok(()));
    assert_eq!(
        check_metadata_len(4294967296),
        Err(ArchiveError::MetadataTooLong { len: 4294967296 })
    );
}

#[test]
fn seal_is_held_against_the_count() {
    assert_eq!(check_seal(&[0, 0, 0, 5], 5), Ok(()));
    assert_eq!(check_seal(&[0, 0, 1, 2], 258), Ok(()));
    assert_eq!(
        check_seal(&[0, 0, 0, 5], 0),
        Err(ArchiveError::ChunkCountMismatch { expected: 5, found: 0 })
    );
    assert_eq!(check_seal(&[0, 0, 0], 0), Err(ArchiveError::SealLength { len: 3 }));
    assert_eq!(check_seal(&[0, 0, 0, 5, 0], 5), Err(ArchiveError::SealLength { len: 5 }));
}
