use s_crypt::compression::decompress;
use s_crypt::crypto::fresh_key;
use s_crypt::error::ArchiveError;
use s_crypt::password::first_step;
use s_crypt::password::step_after_file;
use s_crypt::password::PasswordStep;
use s_crypt::reader::open_archive;
use s_crypt::reader::OpenedArchive;
use s_crypt::writer::ArchiveWriter;
use std::io::Read;

const METADATA: &[u8] = br#"{"original_path":"input.txt","created_at":1743960000,"tool_version":"0.7.0","os":"linux","compression":{"algorithm":"zstd","level":3},"is_directory":false}"#;

/// Compresses `data` and writes it as an archive, in reads of at most `chunk_size` bytes.
fn encrypt(data: &[u8], password: &str, chunk_size: usize, level: i32) -> Vec<u8> {
    let stream = zstd::encode_all(data, level).unwrap();
    let fresh = fresh_key(password).unwrap();
    let (mut writer, mut archive) =
        ArchiveWriter::begin(&fresh.key, &fresh.salt, chunk_size, METADATA.to_vec())
            .ok()
            .unwrap();
    for read in stream.chunks(chunk_size) {
        archive.extend(writer.push(read).unwrap().unwrap());
    }
    assert!(writer.push(&[]).unwrap().is_none());
    archive.extend(writer.finish().unwrap());
    archive
}

fn decrypt(archive: &[u8], password: &str) -> Result<Vec<u8>, ArchiveError> {
    let opened: OpenedArchive = open_archive(archive, password)?;
    assert_eq!(opened.metadata, METADATA);
    decompress(&opened.payload)
}

#[test]
fn test_encrypt_decrypt_file_roundtrip() {
    let original_data = b"Hello, World! This is a test file for s-crypt encryption and decryption.";
    let encrypted = encrypt(original_data, "testpassword123", 1048576, 3);
    assert!(!encrypted.is_empty(), "Encrypted file should exist");
    let result_data = decrypt(&encrypted, "testpassword123").unwrap();
    assert_eq!(original_data.to_vec(), result_data, "Decrypted content should match original");
}

#[test]
fn test_encrypt_decrypt_file_small_chunk() {
    let original_data = b"Testing with small chunks to verify multi-chunk encryption.";
    let encrypted = encrypt(original_data, "pass", 16, 3);
    let result_data = decrypt(&encrypted, "pass").unwrap();
    assert_eq!(
        original_data.to_vec(),
        result_data,
        "Decrypted content should match original with small chunks"
    );
}

#[test]
fn test_wrong_password_fails() {
    let encrypted = encrypt(b"secret data", "correct_password", 1048576, 3);
    let result = decrypt(&encrypted, "wrong_password");
    assert!(result.is_err(), "Decryption with wrong password should fail");
    assert_eq!(result.unwrap_err(), ArchiveError::Decryption);
}

#[test]
fn test_truncated_file_detected() {
    let encrypted = encrypt(b"This file will be truncated after encryption", "password", 16, 3);
    let truncated_size = encrypted.len() / 2;
    let result = decrypt(&encrypted[..truncated_size], "password");
    assert!(result.is_err(), "Decryption of truncated file should fail");
    assert_eq!(result.unwrap_err(), ArchiveError::UnexpectedEof);
}

#[test]
fn test_corrupted_magic_rejected() {
    let mut data = b"BADMAGIC".to_vec();
    data.extend_from_slice(&[0u8; 100]);
    let result = decrypt(&data, "password");
    assert!(result.is_err(), "Decryption with invalid magic bytes should fail");
    assert_eq!(result.unwrap_err(), ArchiveError::BadMagic);
}

#[test]
fn test_password_file() {
    let original_data = b"Testing password file authentication";
    let password = match first_step(None, Some("password.txt"), None) {
        PasswordStep::ReadFile { path } => {
            assert_eq!(path, "password.txt");
            match step_after_file("file_password\n") {
                PasswordStep::Use { password } => password,
                _ => panic!("the file decides"),
            }
        }
        _ => panic!("the file is to be read"),
    };
    assert_eq!(password, "file_password");
    let encrypted = encrypt(original_data, &password, 1048576, 3);
    let result_data = decrypt(&encrypted, &password).unwrap();
    assert_eq!(
        original_data.to_vec(),
        result_data,
        "Decrypted content should match original with password file"
    );
}

#[test]
fn test_encrypt_decrypt_dir_roundtrip() {
    let files: [(&str, &[u8]); 3] = [
        ("input_dir/file1.txt", b"File 1 content"),
        ("input_dir/file2.txt", b"File 2 content"),
        ("input_dir/subdir/file3.txt", b"File 3 content"),
    ];
    let mut builder = tar::Builder::new(Vec::new());
    for (path, content) in files {
        let mut header = tar::Header::new_gnu();
        header.set_size(content.len() as u64);
        header.set_mode(0o644);
        builder.append_data(&mut header, path, content).unwrap();
    }
    let tar_data = builder.into_inner().unwrap();
    let encrypted = encrypt(&tar_data, "dirpassword", 1048576, 3);
    assert!(!encrypted.is_empty(), "Encrypted file should exist");

    let restored = decrypt(&encrypted, "dirpassword").unwrap();
    assert_eq!(restored, tar_data);
    let mut archive = tar::Archive::new(&restored[..]);
    let mut found: Vec<(String, Vec<u8>)> = Vec::new();
    for entry in archive.entries().unwrap() {
        let mut entry = entry.unwrap();
        let path = entry.path().unwrap().to_string_lossy().to_string();
        let mut content = Vec::new();
        entry.read_to_end(&mut content).unwrap();
        assert!(!content.is_empty(), "{} should exist in decrypted output", path);
        found.push((path, content));
    }
    assert_eq!(found.len(), 3);
    for (i, (path, content)) in files.iter().enumerate() {
        assert_eq!(found[i].0, *path);
        assert_eq!(found[i].1, *content);
    }
}

#[test]
fn archives_of_the_same_input_differ() {
    let first = encrypt(b"secret data", "pass", 1048576, 3);
    let second = encrypt(b"secret data", "pass", 1048576, 3);
    assert_eq!(first.len(), second.len());
    assert_ne!(first[9..25], second[9..25]);
    assert_ne!(first[25..37], second[25..37]);
    assert_eq!(decrypt(&first, "pass").unwrap(), decrypt(&second, "pass").unwrap());
}
