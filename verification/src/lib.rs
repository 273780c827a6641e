//! Authenticated archival encryption: the `.senc` container format, its key derivation and
//! its chunked encryption.
pub mod compression;
pub mod crypto;
pub mod error;
pub mod laws;
pub mod layout;
pub mod meaning;
pub mod metadata;
pub mod password;
pub mod reader;
pub mod writer;
