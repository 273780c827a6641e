//! What an archive says of itself.
use vstd::prelude::*;

verus! {

/// The version of the tool that an archive names.
pub const TOOL_VERSION: &'static str = "0.7.0";

/// The compression that an archive names.
pub const COMPRESSION_ALGORITHM: &'static str = "zstd";

/// The name under which a directory goes into its archive, if its path ends in none.
pub const DEFAULT_ROOT_NAME: &'static str = "data";

/// How the contents of an archive were compressed.
pub struct CompressionInfo {
    pub algorithm: String,
    pub level: i32,
}

/// What an archive says of its contents. It is stored in the clear, and authenticated with
/// every chunk.
pub struct Metadata {
    pub original_path: String,
    pub created_at: u64,
    pub tool_version: String,
    pub os: String,
    pub compression: CompressionInfo,
    pub is_directory: bool,
}

/// Calls `chrono::Utc::now` and `timestamp` of what it returns: the seconds since the start
/// of 1970. Nothing is claimed of the number. The call panics where the clock of the system
/// stands before 1970.
#[verifier::external_body]
pub(crate) fn utc_timestamp() -> (seconds: i64) {
    chrono::Utc::now().timestamp()
}

/// The system clock gave `seconds`.
pub closed spec fn clock_gave(seconds: i64) -> bool {
    call_ensures(utc_timestamp, (), seconds)
}

impl Metadata {
    /// What an archive made at `timestamp`, in seconds since the start of 1970, says of its
    /// contents.
    pub fn describe(
        original_path: &str,
        timestamp: i64,
        os: &str,
        compression_level: i32,
        is_directory: bool,
    ) -> (metadata: Metadata)
        ensures
            metadata.original_path@ == original_path@,
            metadata.created_at == timestamp as u64,
            metadata.tool_version@ == TOOL_VERSION@,
            metadata.os@ == os@,
            metadata.compression.algorithm@ == COMPRESSION_ALGORITHM@,
            metadata.compression.level == compression_level,
            metadata.is_directory == is_directory,
    {
        Metadata {
            original_path: original_path.to_owned(),
            created_at: timestamp as u64,
            tool_version: TOOL_VERSION.to_owned(),
            os: os.to_owned(),
            compression: CompressionInfo {
                algorithm: COMPRESSION_ALGORITHM.to_owned(),
                level: compression_level,
            },
            is_directory,
        }
    }

    /// What an archive made now says of its contents. The time is that of the system clock.
    pub fn describe_now(
        original_path: &str,
        os: &str,
        compression_level: i32,
        is_directory: bool,
    ) -> (metadata: Metadata)
        ensures
            exists|seconds: i64| #[trigger]
                clock_gave(seconds) && metadata.created_at == seconds as u64,
            metadata.original_path@ == original_path@,
            metadata.tool_version@ == TOOL_VERSION@,
            metadata.os@ == os@,
            metadata.compression.algorithm@ == COMPRESSION_ALGORITHM@,
            metadata.compression.level == compression_level,
            metadata.is_directory == is_directory,
    {
        let seconds: i64 = utc_timestamp();
        assert(clock_gave(seconds));
        Metadata::describe(original_path, seconds, os, compression_level, is_directory)
    }
}

/// The time in the metadata of an archive made now is the number of seconds that a reading of
/// the system clock gave, for a file and for a directory alike.
pub(crate) proof fn lemma_created_at_is_read_from_the_clock(
    original_path: &str,
    os: &str,
    compression_level: i32,
    is_directory: bool,
    metadata: Metadata,
) -> (seconds: i64)
    requires
        call_ensures(
            Metadata::describe_now,
            (original_path, os, compression_level, is_directory),
            metadata,
        ),
    ensures
        call_ensures(utc_timestamp, (), seconds),
        metadata.created_at == seconds as u64,
{
    choose|seconds: i64| #[trigger]
        clock_gave(seconds) && metadata.created_at == seconds as u64
}

/// The name under which a directory goes into its archive: the last component of its path,
/// if there is one.
pub fn root_name(file_name: Option<&str>) -> (name: String)
    ensures
        name@ == match file_name {
            Some(component) => component@,
            None => DEFAULT_ROOT_NAME@,
        },
{
    match file_name {
        Some(component) => component.to_owned(),
        None => DEFAULT_ROOT_NAME.to_owned(),
    }
}

} // verus!
