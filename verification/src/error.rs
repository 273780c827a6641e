//! What can go wrong, and how a user is told of it.
use crate::layout::FINAL_SEAL_PLAINTEXT_LEN;
use crate::layout::MAX_CHUNK_SIZE;
use crate::layout::VERSION;
use vstd::prelude::*;

verus! {

/// Why an archive could not be written or read.
#[derive(Debug, PartialEq, Eq)]
pub enum ArchiveError {
    /// The input ends before the bytes that are being read do.
    UnexpectedEof,
    /// The input ends before the number that is being read does.
    NumberCutShort,
    /// The first eight bytes are not the magic bytes of the format.
    BadMagic,
    /// The version byte is not the one this library reads.
    UnsupportedVersion { version: u8 },
    /// The key derivation refused its input.
    KeyDerivation,
    /// The cipher refused to encrypt.
    Encryption,
    /// A chunk or the final seal does not authenticate.
    Decryption,
    /// The final seal authenticates, and does not hold the four bytes of a chunk count.
    SealLength { len: usize },
    /// The archive holds more chunks than a chunk count can express.
    TooManyChunks,
    /// The final seal speaks of another number of chunks than the archive holds.
    ChunkCountMismatch { expected: u32, found: u32 },
    /// A chunk does not have the number of the place where it stands.
    ChunkOutOfOrder,
    /// No archive can be made of chunks of this size.
    InvalidChunkSize { chunk_size: usize },
    /// The metadata is longer than an archive can say.
    MetadataTooLong { len: usize },
    /// The recovered stream does not decompress; the decompressor's own words.
    Decompression { reason: String },
}

/// A decimal digit.
pub open spec fn digit(d: nat) -> char {
    ('0' as u32 + d) as char
}

/// `n` in decimal digits.
pub open spec fn decimal(n: nat) -> Seq<char>
    decreases n,
{
    if n < 10 {
        seq![digit(n)]
    } else {
        decimal(n / 10).push(digit(n % 10))
    }
}

/// A decimal digit, as text.
fn digit_text(d: u64) -> (text: &'static str)
    requires
        d < 10,
    ensures
        text@ == seq![digit(d as nat)],
{
    proof {
        reveal_strlit("0");
        reveal_strlit("1");
        reveal_strlit("2");
        reveal_strlit("3");
        reveal_strlit("4");
        reveal_strlit("5");
        reveal_strlit("6");
        reveal_strlit("7");
        reveal_strlit("8");
        reveal_strlit("9");
    }
    let text: &'static str = match d {
        0 => "0",
        1 => "1",
        2 => "2",
        3 => "3",
        4 => "4",
        5 => "5",
        6 => "6",
        7 => "7",
        8 => "8",
        _ => "9",
    };
    assert(text@ =~= seq![digit(d as nat)]);
    text
}

/// `n` in decimal digits.
fn decimal_text(n: u64) -> (text: String)
    ensures
        text@ == decimal(n as nat),
    decreases n,
{
    if n < 10 {
        digit_text(n).to_owned()
    } else {
        let mut text: String = decimal_text(n / 10);
        text.append(digit_text(n % 10));
        assert(text@ =~= decimal(n as nat));
        text
    }
}

impl ArchiveError {
    /// The input ended too early.
    pub open spec fn ends_early(&self) -> bool {
        self is UnexpectedEof || self is NumberCutShort
    }

    /// The text that tells a user of the error.
    pub open spec fn text(&self) -> Seq<char> {
        match *self {
            ArchiveError::UnexpectedEof => "early eof"@,
            ArchiveError::NumberCutShort => "unexpected end of file"@,
            ArchiveError::BadMagic => "Invalid .senc file: bad magic bytes"@,
            ArchiveError::UnsupportedVersion { version } =>
                "Unsupported .senc version: expected "@ + decimal(VERSION as nat) + ", got "@
                    + decimal(version as nat),
            ArchiveError::KeyDerivation => "Key derivation error"@,
            ArchiveError::Encryption => "Encryption error: encryption error"@,
            ArchiveError::Decryption => "Decryption error: encryption error"@,
            ArchiveError::SealLength { len } =>
                "File integrity error: expected a final seal of "@ + decimal(
                    FINAL_SEAL_PLAINTEXT_LEN as nat,
                ) + " bytes but found "@ + decimal(len as nat)
                    + " \u{2014} file may be corrupted"@,
            ArchiveError::TooManyChunks => "Too many chunks: an archive holds at most "@ + decimal(
                u32::MAX as nat,
            ),
            ArchiveError::ChunkCountMismatch { expected, found } =>
                "File integrity error: expected "@ + decimal(expected as nat)
                    + " chunks but found "@ + decimal(found as nat)
                    + " \u{2014} file may be truncated or corrupted"@,
            ArchiveError::ChunkOutOfOrder =>
                "File integrity error: chunks are out of order \u{2014} file may be corrupted"@,
            ArchiveError::InvalidChunkSize { chunk_size } => "Invalid chunk size: expected 1 to "@
                + decimal(MAX_CHUNK_SIZE as nat) + " bytes, got "@ + decimal(chunk_size as nat),
            ArchiveError::MetadataTooLong { len } => "Metadata too long: expected at most "@
                + decimal(u32::MAX as nat) + " bytes, got "@ + decimal(len as nat),
            ArchiveError::Decompression { reason } => reason@,
        }
    }

    /// The text that tells a user of the error.
    pub fn message(&self) -> (text: String)
        ensures
            text@ == self.text(),
    {
        match self {
            ArchiveError::UnexpectedEof => "early eof".to_owned(),
            ArchiveError::NumberCutShort => "unexpected end of file".to_owned(),
            ArchiveError::BadMagic => "Invalid .senc file: bad magic bytes".to_owned(),
            ArchiveError::UnsupportedVersion { version } => {
                let mut text: String = "Unsupported .senc version: expected ".to_owned();
                text.append(decimal_text(VERSION as u64).as_str());
                text.append(", got ");
                text.append(decimal_text(*version as u64).as_str());
                text
            },
            ArchiveError::KeyDerivation => "Key derivation error".to_owned(),
            ArchiveError::Encryption => "Encryption error: encryption error".to_owned(),
            ArchiveError::Decryption => "Decryption error: encryption error".to_owned(),
            ArchiveError::SealLength { len } => {
                let mut text: String =
                    "File integrity error: expected a final seal of ".to_owned();
                text.append(decimal_text(FINAL_SEAL_PLAINTEXT_LEN as u64).as_str());
                text.append(" bytes but found ");
                text.append(decimal_text(*len as u64).as_str());
                text.append(" \u{2014} file may be corrupted");
                text
            },
            ArchiveError::TooManyChunks => {
                let mut text: String = "Too many chunks: an archive holds at most ".to_owned();
                text.append(decimal_text(u32::MAX as u64).as_str());
                text
            },
            ArchiveError::ChunkCountMismatch { expected, found } => {
                let mut text: String = "File integrity error: expected ".to_owned();
                text.append(decimal_text(*expected as u64).as_str());
                text.append(" chunks but found ");
                text.append(decimal_text(*found as u64).as_str());
                text.append(" \u{2014} file may be truncated or corrupted");
                text
            },
            ArchiveError::ChunkOutOfOrder =>
                "File integrity error: chunks are out of order \u{2014} file may be corrupted".to_owned(),
            ArchiveError::InvalidChunkSize { chunk_size } => {
                let mut text: String = "Invalid chunk size: expected 1 to ".to_owned();
                text.append(decimal_text(MAX_CHUNK_SIZE as u64).as_str());
                text.append(" bytes, got ");
                text.append(decimal_text(*chunk_size as u64).as_str());
                text
            },
            ArchiveError::MetadataTooLong { len } => {
                let mut text: String = "Metadata too long: expected at most ".to_owned();
                text.append(decimal_text(u32::MAX as u64).as_str());
                text.append(" bytes, got ");
                text.append(decimal_text(*len as u64).as_str());
                text
            },
            ArchiveError::Decompression { reason } => reason.clone(),
        }
    }
}

} // verus!
