use s_crypt::compression::decompress;
use s_crypt::compression::decompressed;
use s_crypt::crypto::decrypt_chunk;
use s_crypt::crypto::derive_key;
use s_crypt::crypto::encrypt_chunk;
use s_crypt::crypto::fresh_key;
use s_crypt::crypto::nonce_for_chunk;
use s_crypt::error::ArchiveError;
use s_crypt::layout::from_be_bytes;
use s_crypt::layout::stored_len;
use s_crypt::layout::to_be_bytes;
use s_crypt::metadata::root_name;
use s_crypt::metadata::Metadata;
use s_crypt::password::first_step;
use s_crypt::password::step_after_env;
use s_crypt::password::step_after_file;
use s_crypt::password::PasswordStep;
use s_crypt::reader::open_archive;
use s_crypt::writer::ArchiveWriter;

#[test]
fn numbers_are_big_endian() {
    assert_eq!(to_be_bytes(0x0102_0304), [1, 2, 3, 4]);
    assert_eq!(from_be_bytes(&[0xff, 0xee, 0xdd, 0xcc, 1]), 0xffee_ddcc);
    assert_eq!(stored_len(5), 5);
    assert_eq!(stored_len(0x1_0000_0007), 7);
}

#[test]
fn nonce_is_base_xor_counter() {
    let base = [0xf0; 12];
    assert_eq!(nonce_for_chunk(&base, 0), base);
    assert_eq!(
        nonce_for_chunk(&base, 0x0102_0304),
        [0xf0, 0xf0, 0xf0, 0xf0, 0xf0, 0xf0, 0xf0, 0xf0, 0xf1, 0xf2, 0xf3, 0xf4]
    );
    assert_ne!(nonce_for_chunk(&base, 1), nonce_for_chunk(&base, 256));
}

#[test]
fn aes_256_gcm_test_vector() {
    let ciphertext = encrypt_chunk(&[0; 32], &[0; 12], b"", &[0; 16]).unwrap();
    assert_eq!(
        ciphertext,
        vec![
            0xce, 0xa7, 0x40, 0x3d, 0x4d, 0x60, 0x6b, 0x6e, 0x07, 0x4e, 0xc5, 0xd3, 0xba, 0xf3,
            0x9d, 0x18, 0xd0, 0xd1, 0xc8, 0xa7, 0x99, 0x99, 0x6b, 0xf0, 0x26, 0x5b, 0x98, 0xb5,
            0xd4, 0x8a, 0xb9, 0x19
        ]
    );
    assert_eq!(decrypt_chunk(&[0; 32], &[0; 12], b"", &ciphertext).unwrap(), vec![0; 16]);
    assert_eq!(
        decrypt_chunk(&[0; 32], &[0; 12], b"x", &ciphertext),
        Err(ArchiveError::Decryption)
    );
    assert_eq!(decrypt_chunk(&[0; 32], &[0; 12], b"", &[0; 15]), Err(ArchiveError::Decryption));
}

#[test]
fn key_is_argon2id_at_the_documented_cost() {
    let salt = [9u8; 16];
    let mut expected = [0u8; 32];
    argon2::Argon2::new(
        argon2::Algorithm::Argon2id,
        argon2::Version::V0x13,
        argon2::Params::new(65536, 3, 4, Some(32)).unwrap(),
    )
    .hash_password_into("pässword".as_bytes(), &salt, &mut expected)
    .unwrap();
    assert_eq!(derive_key("pässword", &salt).unwrap(), expected);
}

#[test]
fn fresh_key_belongs_to_its_salt() {
    let fresh = fresh_key("pass").unwrap();
    assert_eq!(derive_key("pass", &fresh.salt).unwrap(), fresh.key);
}

#[test]
fn forgotten_key_is_zero() {
    let mut fresh = fresh_key("pass").unwrap();
    let salt = fresh.salt;
    assert_ne!(fresh.key, [0; 32]);
    fresh.forget();
    assert_eq!(fresh.key, [0; 32]);
    assert_eq!(fresh.salt, salt);
}

#[test]
fn opening_with_the_password_derives_the_key() {
    let salt = [4u8; 16];
    let key = derive_key("pass", &salt).unwrap();
    let (mut writer, mut bytes) =
        ArchiveWriter::with_base_nonce(&key, &salt, [5; 12], 1048576, b"{}".to_vec()).ok().unwrap();
    bytes.extend(writer.push(b"stream").unwrap().unwrap());
    bytes.extend(writer.finish_with_nonce([6; 12]).unwrap());
    let opened = open_archive(&bytes, "pass").ok().unwrap();
    assert_eq!(opened.payload, b"stream");
    assert_eq!(opened.metadata, b"{}");

    for at in [9, 24] {
        let mut changed = bytes.clone();
        changed[at] ^= 1;
        assert_eq!(open_archive(&changed, "pass").err(), Some(ArchiveError::Decryption));
    }
}

#[test]
fn signature_is_checked_before_the_password() {
    assert_eq!(open_archive(b"SCRYPT0", "pass").err().unwrap(), ArchiveError::UnexpectedEof);
    assert_eq!(open_archive(b"SCRYPT08", "pass").err().unwrap(), ArchiveError::BadMagic);
    assert_eq!(open_archive(b"SCRYPT07", "pass").err().unwrap(), ArchiveError::NumberCutShort);
    assert_eq!(
        open_archive(b"SCRYPT07\x08", "pass").err().unwrap(),
        ArchiveError::UnsupportedVersion { version: 8 }
    );
    assert_eq!(open_archive(b"SCRYPT07\x07", "pass").err().unwrap(), ArchiveError::UnexpectedEof);
}

#[test]
fn decompression() {
    let data: Vec<u8> = (0..20000u32).map(|i| (i % 251) as u8).collect();
    let stream = zstd::encode_all(&data[..], 10).unwrap();
    assert_ne!(stream, data);
    assert_eq!(decompress(&stream).unwrap(), data);
    assert!(matches!(decompress(b"no such stream"), Err(ArchiveError::Decompression { .. })));
    assert!(matches!(
        decompress(&stream[..stream.len() / 2]),
        Err(ArchiveError::Decompression { .. })
    ));
}

#[test]
fn words_of_the_decompressor_are_kept() {
    assert_eq!(decompressed(Ok(vec![1, 2])), Ok(vec![1, 2]));
    assert_eq!(
        decompressed(Err("bad frame".to_string())),
        Err(ArchiveError::Decompression { reason: "bad frame".to_string() })
    );
}

#[test]
fn metadata_of_a_file() {
    let metadata = Metadata::describe("/path/to/input", 1743960000, "linux", 10, true);
    assert_eq!(metadata.original_path, "/path/to/input");
    assert_eq!(metadata.created_at, 1743960000);
    assert_eq!(metadata.tool_version, "0.7.0");
    assert_eq!(metadata.os, "linux");
    assert_eq!(metadata.compression.algorithm, "zstd");
    assert_eq!(metadata.compression.level, 10);
    assert!(metadata.is_directory);
    assert_eq!(Metadata::describe("", -1, "", 0, false).created_at, u64::MAX);
}

#[test]
fn metadata_has_the_time_of_the_clock() {
    let before = std::time::SystemTime::now()
        .duration_since(std::time::UNIX_EPOCH)
        .unwrap()
        .as_secs();
    let metadata = Metadata::describe_now("a", "b", 3, false);
    assert!(metadata.created_at >= before && metadata.created_at <= before + 60);
    assert_eq!(metadata.original_path, "a");
    assert_eq!(metadata.os, "b");
    assert_eq!(metadata.compression.level, 3);
    assert!(!metadata.is_directory);
}

#[test]
fn root_of_a_directory_archive() {
    assert_eq!(root_name(Some("project")), "project");
    assert_eq!(root_name(None), "data");
}

#[test]
fn password_sources_in_order() {
    assert!(matches!(
        first_step(Some("a"), Some("b"), Some("c")),
        PasswordStep::Use { password } if password == "a"
    ));
    assert!(matches!(
        first_step(None, Some("b"), Some("c")),
        PasswordStep::ReadFile { path } if path == "b"
    ));
    assert!(matches!(
        first_step(None, None, Some("c")),
        PasswordStep::ReadEnv { variable } if variable == "c"
    ));
    assert!(matches!(first_step(None, None, None), PasswordStep::Prompt));
}

#[test]
fn password_from_the_environment() {
    assert!(matches!(
        step_after_env(Some("pass \n".to_string())),
        PasswordStep::Use { password } if password == "pass \n"
    ));
    assert!(matches!(step_after_env(None), PasswordStep::Prompt));
}

#[test]
fn password_file_loses_white_space_at_its_end_only() {
    assert!(matches!(
        step_after_file(" two words \t\u{3000}\r\n\n"),
        PasswordStep::Use { password } if password == " two words"
    ));
    assert!(matches!(
        step_after_file("\n \n"),
        PasswordStep::Use { password } if password.is_empty()
    ));
    assert!(matches!(
        step_after_file("plain\u{200b}"),
        PasswordStep::Use { password } if password == "plain\u{200b}"
    ));
}

#[test]
fn white_space_is_as_listed() {
    for n in 0..=0x10ffff_u32 {
        if let Some(c) = char::from_u32(n) {
            let listed = matches!(
                n,
                0x9..=0xd
                    | 0x20
                    | 0x85
                    | 0xa0
                    | 0x1680
                    | 0x2000..=0x200a
                    | 0x2028
                    | 0x2029
                    | 0x202f
                    | 0x205f
                    | 0x3000
            );
            let trimmed = c.to_string().trim_end().is_empty();
            assert_eq!(trimmed, listed);
        }
    }
}

#[test]
fn error_messages() {
    assert_eq!(ArchiveError::UnexpectedEof.message(), "early eof");
    assert_eq!(
        ArchiveError::NumberCutShort.message(),
        std::io::Error::from(std::io::ErrorKind::UnexpectedEof).to_string()
    );
    assert_eq!(ArchiveError::NumberCutShort.message(), "unexpected end of file");
    assert_eq!(ArchiveError::BadMagic.message(), "Invalid .senc file: bad magic bytes");
    assert_eq!(
        ArchiveError::UnsupportedVersion { version: 250 }.message(),
        "Unsupported .senc version: expected 7, got 250"
    );
    assert_eq!(ArchiveError::KeyDerivation.message(), "Key derivation error");
    assert_eq!(ArchiveError::Encryption.message(), "Encryption error: encryption error");
    assert_eq!(ArchiveError::Decryption.message(), "Decryption error: encryption error");
    assert_eq!(
        ArchiveError::SealLength { len: 3 }.message(),
        "File integrity error: expected a final seal of 4 bytes but found 3 \u{2014} file may be corrupted"
    );
    assert_eq!(
        ArchiveError::TooManyChunks.message(),
        "Too many chunks: an archive holds at most 4294967295"
    );
    assert_eq!(
        ArchiveError::ChunkOutOfOrder.message(),
        "File integrity error: chunks are out of order \u{2014} file may be corrupted"
    );
    assert_eq!(
        ArchiveError::InvalidChunkSize { chunk_size: 0 }.message(),
        "Invalid chunk size: expected 1 to 4294967279 bytes, got 0"
    );
    assert_eq!(
        ArchiveError::MetadataTooLong { len: 4294967296 }.message(),
        "Metadata too long: expected at most 4294967295 bytes, got 4294967296"
    );
    assert_eq!(
        ArchiveError::ChunkCountMismatch { expected: 5, found: 0 }.message(),
        "File integrity error: expected 5 chunks but found 0 \u{2014} file may be truncated or corrupted"
    );
    assert_eq!(
        ArchiveError::ChunkCountMismatch { expected: 4294967295, found: 1000 }.message(),
        "File integrity error: expected 4294967295 chunks but found 1000 \u{2014} file may be truncated or corrupted"
    );
    assert_eq!(
        ArchiveError::Decompression { reason: "bad frame".to_string() }.message(),
        "bad frame"
    );
}
