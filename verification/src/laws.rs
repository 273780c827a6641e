//! What holds of archives as a whole.
use crate::compression;
use crate::crypto;
use crate::crypto::TAG_SIZE;
use crate::error::ArchiveError;
use crate::layout;
use crate::layout::FrameView;
use crate::layout::HeaderView;
use crate::layout::Record;
use crate::layout::FINAL_MARKER;
use crate::layout::NONCE_SIZE;
use crate::layout::SALT_SIZE;
use crate::reader;
use crate::reader::ChunksView;
use crate::reader::Contents;
use crate::writer;
use crate::writer::ArchiveDraft;
use vstd::prelude::*;

verus! {

// ---------------------------------------------------------------------------------------
// What was written is read back
// ---------------------------------------------------------------------------------------

/// Records of chunks that authenticate read as their plaintexts joined; reading goes on with
/// the bytes after them.
pub proof fn lemma_records_read_back(
    key: Seq<u8>,
    header: HeaderView,
    records: Seq<Record>,
    plaintexts: Seq<Seq<u8>>,
    rest: Seq<u8>,
    count: u32,
)
    requires
        records.len() == plaintexts.len(),
        count + records.len() <= u32::MAX,
        forall|i: int|
            #![trigger records[i]]
            0 <= i < records.len() ==> {
                &&& records[i].counter != FINAL_MARKER
                &&& records[i].ciphertext.len() <= u32::MAX
                &&& reader::record_plaintext(key, header, records[i]) == Some(plaintexts[i])
            },
    ensures
        reader::chunks_outcome(key, header, layout::records_bytes(records) + rest, count)
            == reader::prepended(
            plaintexts.flatten(),
            layout::numbered_from(records, count as int),
            reader::chunks_outcome(key, header, rest, (count + records.len()) as u32),
        ),
    decreases records.len(),
{
    reveal(reader::chunks_outcome);
    let later = reader::chunks_outcome(key, header, rest, (count + records.len()) as u32);
    if records.len() == 0 {
        assert(layout::records_bytes(records) + rest =~= rest);
        if let Ok(chunks) = later {
            assert(plaintexts.flatten() + chunks.payload =~= chunks.payload);
        }
    } else {
        let bytes = layout::records_bytes(records) + rest;
        let first = records.first();
        let rest_records = records.drop_first();
        let after = layout::records_bytes(rest_records) + rest;
        assert(records[0] == first);
        assert(layout::frame_of(bytes) == Ok::<FrameView, ArchiveError>(
            FrameView::Chunk { record: first, rest: after },
        )) by {
            assert(bytes =~= layout::record_bytes(first) + after);
            layout::lemma_record_reads_back(first, after);
        }
        assert forall|i: int| #![trigger rest_records[i]] 0 <= i < rest_records.len() implies {
            &&& rest_records[i].counter != FINAL_MARKER
            &&& rest_records[i].ciphertext.len() <= u32::MAX
            &&& reader::record_plaintext(key, header, rest_records[i]) == Some(
                plaintexts.drop_first()[i],
            )
        } by {
            assert(records[i + 1] == rest_records[i]);
        }
        lemma_records_read_back(
            key,
            header,
            rest_records,
            plaintexts.drop_first(),
            rest,
            (count + 1) as u32,
        );
        lemma_numbered_split(records, count as int);
        if let Ok(chunks) = later {
            assert(plaintexts.first() + (plaintexts.drop_first().flatten() + chunks.payload)
                =~= plaintexts.flatten() + chunks.payload);
        }
    }
}

/// Records are numbered in order if the first has its number, and the others are.
proof fn lemma_numbered_split(records: Seq<Record>, count: int)
    requires
        records.len() > 0,
    ensures
        layout::numbered_from(records, count) == (records.first().counter == count
            && layout::numbered_from(records.drop_first(), count + 1)),
{
    let later = records.drop_first();
    if layout::numbered_from(records, count) {
        assert(records[0].counter == count);
        assert forall|i: int| 0 <= i < later.len() implies (#[trigger] later[i]).counter == count
            + 1 + i by {
            assert(records[i + 1].counter == count + 1 + i);
        }
    }
    if records.first().counter == count && layout::numbered_from(later, count + 1) {
        assert forall|i: int| 0 <= i < records.len() implies (#[trigger] records[i]).counter
            == count + i by {
            if i > 0 {
                assert(later[i - 1].counter == count + i);
            }
        }
    }
}

/// Reading a draft, continued by `rest`, comes past the header and all its chunks.
proof fn lemma_draft_reads_back(draft: ArchiveDraft, rest: Seq<u8>) -> (header: HeaderView)
    requires
        draft.opens(),
    ensures
        layout::salt_of(draft.bytes() + rest) == Ok::<Seq<u8>, ArchiveError>(draft.salt),
        layout::header_of(draft.bytes() + rest) == Ok::<HeaderView, ArchiveError>(header),
        header.metadata == draft.metadata,
        header.base_nonce == draft.base_nonce,
        reader::chunks_outcome(draft.key, header, header.rest, 0) == reader::prepended(
            draft.chunks.flatten(),
            true,
            reader::chunks_outcome(draft.key, header, rest, draft.chunks.len() as u32),
        ),
{
    let records = draft.records();
    let body = layout::records_bytes(records) + rest;
    assert(draft.bytes() + rest =~= layout::header_bytes(
        draft.salt,
        draft.base_nonce,
        draft.chunk_size,
        draft.metadata,
    ) + body);
    layout::lemma_header_reads_back(
        draft.salt,
        draft.base_nonce,
        draft.chunk_size,
        draft.metadata,
        body,
    );
    let header = HeaderView {
        base_nonce: draft.base_nonce,
        chunk_size: draft.chunk_size,
        metadata: draft.metadata,
        rest: body,
    };
    assert forall|i: int| #![trigger records[i]] 0 <= i < records.len() implies {
        &&& records[i].counter != FINAL_MARKER
        &&& records[i].ciphertext.len() <= u32::MAX
        &&& reader::record_plaintext(draft.key, header, records[i]) == Some(draft.chunks[i])
    } by {
        let chunk = draft.chunks[i];
        assert(records[i] == draft.record(i));
    }
    lemma_records_read_back(draft.key, header, records, draft.chunks, rest, 0);
    header
}

/// A draft that the final record completes opens to the metadata and the chunks joined, in
/// the order in which they went in: with the key, and with every password that gives the key.
pub proof fn lemma_archive_reads_back(draft: ArchiveDraft, nonce: Seq<u8>, last: Seq<u8>)
    requires
        draft.opens(),
        draft.sealed_under(nonce),
        last == layout::final_bytes(nonce, draft.seal(nonce)),
    ensures
        writer::reads_back(draft, last),
{
    let seal = draft.seal(nonce);
    let count = draft.chunks.len() as u32;
    let payload = draft.chunks.flatten();
    let header = lemma_draft_reads_back(draft, last);
    lemma_last_reads_back(draft.key, header, nonce, seal, count);
    assert(payload + Seq::<u8>::empty() =~= payload);
    assert(reader::chunks_outcome(draft.key, header, header.rest, 0) == Ok::<
        ChunksView,
        ArchiveError,
    >(ChunksView { payload, count, in_order: true, rest: last.skip(4) }));
}

/// A final record whose seal holds the number of chunks ends an archive.
proof fn lemma_last_reads_back(
    key: Seq<u8>,
    header: HeaderView,
    nonce: Seq<u8>,
    seal: Seq<u8>,
    count: u32,
)
    requires
        nonce.len() == NONCE_SIZE,
        seal.len() <= u32::MAX,
        crypto::aes256gcm_opened(key, nonce, header.metadata, seal) == Some(
            layout::be_bytes(count),
        ),
    ensures
        reader::chunks_outcome(key, header, layout::final_bytes(nonce, seal), count) == Ok::<
            ChunksView,
            ArchiveError,
        >(
            ChunksView {
                payload: Seq::empty(),
                count,
                in_order: true,
                rest: layout::final_bytes(nonce, seal).skip(4),
            },
        ),
        reader::final_outcome(
            key,
            header.metadata,
            layout::final_bytes(nonce, seal).skip(4),
            count,
        ) == Ok::<Seq<u8>, ArchiveError>(Seq::empty()),
{
    reveal(reader::chunks_outcome);
    let last = layout::final_bytes(nonce, seal);
    layout::lemma_final_reads_back(nonce, seal, Seq::empty());
    assert(last + Seq::<u8>::empty() =~= last);
    layout::lemma_be_value_of_bytes(count);
}

/// What went through compression before it was written comes back: if the chunks join to a
/// stream in which the decompressor finds `plain`, it finds `plain` in what the archive opens
/// to.
pub proof fn lemma_compressed_data_comes_back(
    draft: ArchiveDraft,
    last: Seq<u8>,
    password: Seq<char>,
    plain: Seq<u8>,
)
    requires
        writer::reads_back(draft, last),
        crypto::derived_key(password, draft.salt) == Some(draft.key),
        compression::zstd_decoded(draft.chunks.flatten()) == plain,
    ensures
        reader::archive_outcome(password, draft.bytes() + last) matches Ok(contents)
            && contents.metadata == draft.metadata && compression::zstd_decoded(contents.payload)
            == plain,
{
}

/// How the stream was divided into chunks does not show: archives of the same metadata whose
/// chunks join to the same stream open to the same.
pub proof fn lemma_chunking_does_not_show(
    draft: ArchiveDraft,
    last: Seq<u8>,
    other: ArchiveDraft,
    other_last: Seq<u8>,
)
    requires
        writer::reads_back(draft, last),
        writer::reads_back(other, other_last),
        draft.metadata == other.metadata,
        draft.chunks.flatten() == other.chunks.flatten(),
    ensures
        reader::keyed_outcome(draft.key, draft.bytes() + last) == reader::keyed_outcome(
            other.key,
            other.bytes() + other_last,
        ),
{
}

// ---------------------------------------------------------------------------------------
// What is cut short is refused
// ---------------------------------------------------------------------------------------

/// Chunks of which some bytes are missing, before the end marker or in it, end too early.
proof fn lemma_cut_chunks(key: Seq<u8>, header: HeaderView, bytes: Seq<u8>, count: u32, m: int)
    requires
        0 <= m <= bytes.len(),
        match reader::chunks_outcome(key, header, bytes, count) {
            Ok(chunks) => m < bytes.len() - chunks.rest.len(),
            Err(error) => error.ends_early(),
        },
    ensures
        reader::chunks_outcome(key, header, bytes.take(m), count) matches Err(error)
            && error.ends_early(),
    decreases bytes.len(),
{
    reveal(reader::chunks_outcome);
    let cut = bytes.take(m);
    if m >= 4 {
        assert(cut.take(4) =~= bytes.take(4));
        if m >= 8 {
            assert(cut.subrange(4, 8) =~= bytes.subrange(4, 8));
        }
        if let Ok(FrameView::Chunk { record, rest }) = layout::frame_of(bytes) {
            let end = bytes.len() - rest.len();
            if m >= end {
                assert(cut.subrange(8, end) =~= bytes.subrange(8, end));
                assert(cut.skip(end) =~= rest.take(m - end));
                lemma_cut_chunks(key, header, rest, (count + 1) as u32, m - end);
            }
        }
    }
}

/// Chunks read the same if the bytes after the end marker are others.
proof fn lemma_chunks_ignore_rest(
    key: Seq<u8>,
    header: HeaderView,
    bytes: Seq<u8>,
    other: Seq<u8>,
    count: u32,
)
    requires
        reader::chunks_outcome(key, header, bytes, count) matches Ok(chunks) && {
            let end = bytes.len() - chunks.rest.len();
            other.len() >= end && other.take(end) == bytes.take(end)
        },
    ensures
        reader::chunks_outcome(key, header, bytes, count) matches Ok(chunks) && {
            let end = bytes.len() - chunks.rest.len();
            &&& 4 <= end <= bytes.len()
            &&& chunks.rest == bytes.skip(end)
            &&& reader::chunks_outcome(key, header, other, count) == Ok::<ChunksView, ArchiveError>(
                ChunksView {
                    payload: chunks.payload,
                    count: chunks.count,
                    in_order: chunks.in_order,
                    rest: other.skip(end),
                },
            )
        },
    decreases bytes.len(),
{
    reveal(reader::chunks_outcome);
    let chunks = reader::chunks_outcome(key, header, bytes, count)->Ok_0;
    let end = bytes.len() - chunks.rest.len();
    lemma_chunks_rest(key, header, bytes, count);
    assert forall|i: int| 0 <= i < end implies other[i] == bytes[i] by {
        assert(other.take(end)[i] == bytes.take(end)[i]);
    }
    assert(other.take(4) =~= bytes.take(4));
    if let Ok(FrameView::Chunk { record, rest }) = layout::frame_of(bytes) {
        let start = bytes.len() - rest.len();
        lemma_chunks_rest(key, header, rest, (count + 1) as u32);
        assert(other.subrange(4, 8) =~= bytes.subrange(4, 8));
        assert(other.subrange(8, start) =~= bytes.subrange(8, start));
        assert(other.skip(start).take(end - start) =~= rest.take(end - start));
        lemma_chunks_ignore_rest(key, header, rest, other.skip(start), (count + 1) as u32);
        assert(other.skip(start).skip(end - start) =~= other.skip(end));
    }
}

/// The bytes after the end marker are the last bytes.
proof fn lemma_chunks_rest(key: Seq<u8>, header: HeaderView, bytes: Seq<u8>, count: u32)
    requires
        reader::chunks_outcome(key, header, bytes, count) is Ok,
    ensures
        reader::chunks_outcome(key, header, bytes, count) matches Ok(chunks) && {
            let end = bytes.len() - chunks.rest.len();
            4 <= end <= bytes.len() && chunks.rest == bytes.skip(end)
        },
    decreases bytes.len(),
{
    reveal(reader::chunks_outcome);
    let chunks = reader::chunks_outcome(key, header, bytes, count)->Ok_0;
    if let Ok(FrameView::Chunk { record, rest }) = layout::frame_of(bytes) {
        lemma_chunks_rest(key, header, rest, (count + 1) as u32);
        assert(rest.skip(rest.len() - chunks.rest.len()) =~= bytes.skip(
            bytes.len() - chunks.rest.len(),
        ));
    }
}

/// An archive that opens no longer does when it is cut anywhere before the end of its final
/// record: with the key, the end of the input comes too early.
pub proof fn lemma_truncated_rejected(key: Seq<u8>, data: Seq<u8>, m: int)
    requires
        reader::opened(key, data) matches Ok(archive) && 0 <= m < data.len() - archive.rest.len(),
    ensures
        reader::keyed_outcome(key, data.take(m)) matches Err(error)
            && error.ends_early(),
{
    let cut = data.take(m);
    if m >= 8 {
        assert(cut.take(8) =~= data.take(8));
    }
    if m >= 45 {
        assert(cut.subrange(41, 45) =~= data.subrange(41, 45));
        let header = layout::header_of(data)->Ok_0;
        let start = data.len() - header.rest.len();
        if m >= start {
            let chunks = reader::chunks_outcome(key, header, header.rest, 0)->Ok_0;
            let end = header.rest.len() - chunks.rest.len();
            let bytes = header.rest.take(m - start);
            assert(cut.subrange(25, 37) =~= data.subrange(25, 37));
            assert(cut.subrange(37, 41) =~= data.subrange(37, 41));
            assert(cut.subrange(45, start) =~= data.subrange(45, start));
            assert(cut.skip(start) =~= bytes);
            let cut_header = HeaderView { rest: bytes, ..header };
            assert(layout::header_of(cut) == Ok::<HeaderView, ArchiveError>(cut_header));
            lemma_chunks_rest(key, header, header.rest, 0);
            lemma_same_header(key, header, cut_header, bytes, 0);
            if m - start < end {
                lemma_cut_chunks(key, header, header.rest, 0, m - start);
            } else {
                assert(bytes.take(end) =~= header.rest.take(end));
                lemma_chunks_ignore_rest(key, header, header.rest, bytes, 0);
                let after = bytes.skip(end);
                assert(after =~= chunks.rest.take(m - start - end));
                if after.len() >= 16 {
                    assert(after.subrange(12, 16) =~= chunks.rest.subrange(12, 16));
                }
            }
        }
    }
}

/// Only the base nonce and the metadata of a header matter to the chunks.
proof fn lemma_same_header(
    key: Seq<u8>,
    header: HeaderView,
    other: HeaderView,
    bytes: Seq<u8>,
    count: u32,
)
    requires
        header.base_nonce == other.base_nonce,
        header.metadata == other.metadata,
    ensures
        reader::chunks_outcome(key, header, bytes, count) == reader::chunks_outcome(
            key,
            other,
            bytes,
            count,
        ),
    decreases bytes.len(),
{
    reveal(reader::chunks_outcome);
    if let Ok(FrameView::Chunk { record, rest }) = layout::frame_of(bytes) {
        if count < u32::MAX {
            lemma_same_header(key, header, other, rest, (count + 1) as u32);
        }
    }
}

/// An archive that opens with a password no longer does when it is cut anywhere before the
/// end of its final record: the end of the input comes too early.
pub proof fn lemma_truncated_rejected_with_password(
    password: Seq<char>,
    key: Seq<u8>,
    data: Seq<u8>,
    m: int,
)
    requires
        layout::salt_of(data) matches Ok(salt) && crypto::derived_key(password, salt) == Some(key),
        reader::opened(key, data) matches Ok(archive) && 0 <= m < data.len() - archive.rest.len(),
    ensures
        reader::archive_outcome(password, data.take(m)) matches Err(error)
            && error.ends_early(),
{
    lemma_truncated_rejected(key, data, m);
    let cut = data.take(m);
    if m >= 8 {
        assert(cut.take(8) =~= data.take(8));
        if m >= 25 {
            assert(cut.subrange(9, 25) =~= data.subrange(9, 25));
        }
    }
}

/// An archive that has been written to its end does not open when it is cut anywhere: neither
/// with its key nor with a password that gives the key.
pub proof fn lemma_written_archive_cut_rejected(
    draft: ArchiveDraft,
    last: Seq<u8>,
    password: Seq<char>,
    m: int,
)
    requires
        draft.salt.len() == SALT_SIZE,
        draft.base_nonce.len() == NONCE_SIZE,
        draft.metadata.len() <= u32::MAX,
        writer::reads_back(draft, last),
        crypto::derived_key(password, draft.salt) == Some(draft.key),
        0 <= m < (draft.bytes() + last).len(),
    ensures
        reader::keyed_outcome(draft.key, (draft.bytes() + last).take(m)) matches Err(error)
            && error.ends_early(),
        reader::archive_outcome(password, (draft.bytes() + last).take(m)) matches Err(error)
            && error.ends_early(),
{
    let data = draft.bytes() + last;
    assert(layout::salt_of(data) == Ok::<Seq<u8>, ArchiveError>(draft.salt)) by {
        let body = layout::records_bytes(draft.records()) + last;
        assert(data =~= layout::header_bytes(
            draft.salt,
            draft.base_nonce,
            draft.chunk_size,
            draft.metadata,
        ) + body);
        layout::lemma_header_reads_back(
            draft.salt,
            draft.base_nonce,
            draft.chunk_size,
            draft.metadata,
            body,
        );
    }
    lemma_truncated_rejected(draft.key, data, m);
    lemma_truncated_rejected_with_password(password, draft.key, data, m);
}

/// An archive whose writing was interrupted, at any byte before the final record, opens
/// neither with its key nor with a password that gives the key: the end of the input comes
/// too early.
pub proof fn lemma_unfinished_rejected(draft: ArchiveDraft, password: Seq<char>, m: int)
    requires
        draft.opens(),
        crypto::derived_key(password, draft.salt) == Some(draft.key),
        0 <= m <= draft.bytes().len(),
    ensures
        reader::keyed_outcome(draft.key, draft.bytes().take(m)) matches Err(error)
            && error.ends_early(),
        reader::archive_outcome(password, draft.bytes().take(m)) matches Err(error)
            && error.ends_early(),
{
    reveal(reader::chunks_outcome);
    let data = draft.bytes();
    let cut = data.take(m);
    let header = lemma_draft_reads_back(draft, Seq::empty());
    assert(data + Seq::<u8>::empty() =~= data);
    if m >= 8 {
        assert(cut.take(8) =~= data.take(8));
    }
    if m >= 25 {
        assert(cut.subrange(9, 25) =~= data.subrange(9, 25));
    }
    if m >= 45 {
        assert(cut.subrange(41, 45) =~= data.subrange(41, 45));
        let start = data.len() - header.rest.len();
        if m >= start {
            let bytes = header.rest.take(m - start);
            assert(cut.subrange(25, 37) =~= data.subrange(25, 37));
            assert(cut.subrange(37, 41) =~= data.subrange(37, 41));
            assert(cut.subrange(45, start) =~= data.subrange(45, start));
            assert(cut.skip(start) =~= bytes);
            let cut_header = HeaderView { rest: bytes, ..header };
            assert(layout::header_of(cut) == Ok::<HeaderView, ArchiveError>(cut_header));
            lemma_cut_chunks(draft.key, header, header.rest, 0, m - start);
            lemma_same_header(draft.key, header, cut_header, bytes, 0);
        }
    }
}

/// Bytes after the final record change nothing.
pub proof fn lemma_trailing_bytes_ignored(key: Seq<u8>, data: Seq<u8>, extra: Seq<u8>)
    requires
        reader::opened(key, data) is Ok,
    ensures
        reader::keyed_outcome(key, data + extra) == reader::keyed_outcome(key, data),
        layout::salt_of(data + extra) == layout::salt_of(data),
{
    let longer = data + extra;
    let header = layout::header_of(data)->Ok_0;
    let start = data.len() - header.rest.len();
    let chunks = reader::chunks_outcome(key, header, header.rest, 0)->Ok_0;
    let bytes = header.rest + extra;
    let end = header.rest.len() - chunks.rest.len();
    assert(longer.take(8) =~= data.take(8));
    assert(longer.subrange(9, 25) =~= data.subrange(9, 25));
    assert(longer.subrange(41, 45) =~= data.subrange(41, 45));
    assert(longer.subrange(25, 37) =~= data.subrange(25, 37));
    assert(longer.subrange(37, 41) =~= data.subrange(37, 41));
    assert(longer.subrange(45, start) =~= data.subrange(45, start));
    assert(longer.skip(start) =~= bytes);
    let longer_header = HeaderView { rest: bytes, ..header };
    assert(layout::header_of(longer) == Ok::<HeaderView, ArchiveError>(longer_header));
    lemma_chunks_rest(key, header, header.rest, 0);
    assert(bytes.take(end) =~= header.rest.take(end));
    lemma_chunks_ignore_rest(key, header, header.rest, bytes, 0);
    lemma_same_header(key, header, longer_header, bytes, 0);
    let last = layout::final_of(chunks.rest)->Ok_0;
    let after = bytes.skip(end);
    let seal_end = chunks.rest.len() - last.rest.len();
    assert(after =~= chunks.rest + extra);
    assert(after.take(12) =~= last.nonce);
    assert(after.subrange(12, 16) =~= chunks.rest.subrange(12, 16));
    assert(after.subrange(16, seal_end) =~= last.seal);
}

/// Bytes after the final record change nothing, with a password either.
pub proof fn lemma_trailing_bytes_ignored_with_password(
    password: Seq<char>,
    data: Seq<u8>,
    extra: Seq<u8>,
)
    requires
        reader::archive_outcome(password, data) is Ok,
    ensures
        reader::archive_outcome(password, data + extra) == reader::archive_outcome(password, data),
{
    let key = crypto::derived_key(password, layout::salt_of(data)->Ok_0)->Some_0;
    lemma_trailing_bytes_ignored(key, data, extra);
}

// ---------------------------------------------------------------------------------------
// What does not authenticate is refused
// ---------------------------------------------------------------------------------------

/// An archive as it stands in a file: the parts of its header, its chunk records, and its
/// final record.
pub struct ArchiveParts {
    pub salt: Seq<u8>,
    pub base_nonce: Seq<u8>,
    pub chunk_size: u32,
    pub metadata: Seq<u8>,
    pub records: Seq<Record>,
    pub nonce: Seq<u8>,
    pub seal: Seq<u8>,
}

impl ArchiveParts {
    /// Every part has a length that the format can express, and no record is the end marker.
    pub open spec fn valid(self) -> bool {
        &&& self.salt.len() == SALT_SIZE
        &&& self.base_nonce.len() == NONCE_SIZE
        &&& self.metadata.len() <= u32::MAX
        &&& self.nonce.len() == NONCE_SIZE
        &&& self.seal.len() <= u32::MAX
        &&& self.records.len() <= u32::MAX
        &&& forall|i: int|
            #![trigger self.records[i]]
            0 <= i < self.records.len() ==> self.records[i].counter != FINAL_MARKER
                && self.records[i].ciphertext.len() <= u32::MAX
    }

    /// The bytes of the archive.
    pub open spec fn bytes(self) -> Seq<u8> {
        layout::header_bytes(self.salt, self.base_nonce, self.chunk_size, self.metadata)
            + layout::records_bytes(self.records) + layout::final_bytes(self.nonce, self.seal)
    }

    /// The plaintext of the chunk at `i`, if it authenticates. The metadata is the associated
    /// data, and the nonce is that of the counter in the record.
    pub open spec fn plaintext(self, key: Seq<u8>, i: int) -> Option<Seq<u8>> {
        crypto::aes256gcm_opened(
            key,
            crypto::chunk_nonce(self.base_nonce, self.records[i].counter),
            self.metadata,
            self.records[i].ciphertext,
        )
    }

    /// The first `n` chunks authenticate.
    pub open spec fn authentic(self, key: Seq<u8>, n: int) -> bool {
        forall|i: int| 0 <= i < n ==> #[trigger] self.plaintext(key, i) is Some
    }

    /// Every record has the number of its place.
    pub open spec fn in_order(self) -> bool {
        layout::numbered_from(self.records, 0)
    }

    /// The plaintext of the final seal, if it authenticates. The metadata is the associated
    /// data.
    pub open spec fn sealed(self, key: Seq<u8>) -> Option<Seq<u8>> {
        crypto::aes256gcm_opened(key, self.nonce, self.metadata, self.seal)
    }

    /// The plaintexts of the first `n` chunks, if they authenticate.
    pub open spec fn plaintexts(self, key: Seq<u8>, n: nat) -> Seq<Seq<u8>> {
        Seq::new(n, |i: int| self.plaintext(key, i)->Some_0)
    }

    /// The plaintexts of all chunks, joined.
    pub open spec fn payload(self, key: Seq<u8>) -> Seq<u8> {
        self.plaintexts(key, self.records.len()).flatten()
    }
}

/// Reading an archive comes past its first `n` chunks, if they authenticate.
proof fn lemma_parts_read(key: Seq<u8>, parts: ArchiveParts, n: int) -> (header: HeaderView)
    requires
        parts.valid(),
        0 <= n <= parts.records.len(),
        parts.authentic(key, n),
    ensures
        layout::salt_of(parts.bytes()) == Ok::<Seq<u8>, ArchiveError>(parts.salt),
        layout::header_of(parts.bytes()) == Ok::<HeaderView, ArchiveError>(header),
        header.metadata == parts.metadata,
        header.base_nonce == parts.base_nonce,
        reader::chunks_outcome(key, header, header.rest, 0) == reader::prepended(
            parts.plaintexts(key, n as nat).flatten(),
            layout::numbered_from(parts.records.take(n), 0),
            reader::chunks_outcome(
                key,
                header,
                layout::records_bytes(parts.records.skip(n)) + layout::final_bytes(
                    parts.nonce,
                    parts.seal,
                ),
                n as u32,
            ),
        ),
{
    let first = parts.records.take(n);
    let later = parts.records.skip(n);
    let last = layout::final_bytes(parts.nonce, parts.seal);
    let rest = layout::records_bytes(later) + last;
    let body = layout::records_bytes(parts.records) + last;
    let start = layout::header_bytes(
        parts.salt,
        parts.base_nonce,
        parts.chunk_size,
        parts.metadata,
    );
    assert(parts.bytes() =~= start + body);
    assert(parts.records =~= first + later);
    lemma_records_bytes_concat(first, later);
    assert(body =~= layout::records_bytes(first) + rest);
    layout::lemma_header_reads_back(
        parts.salt,
        parts.base_nonce,
        parts.chunk_size,
        parts.metadata,
        body,
    );
    let header = HeaderView {
        base_nonce: parts.base_nonce,
        chunk_size: parts.chunk_size,
        metadata: parts.metadata,
        rest: body,
    };
    let plaintexts = parts.plaintexts(key, n as nat);
    assert forall|i: int| #![trigger first[i]] 0 <= i < first.len() implies {
        &&& first[i].counter != FINAL_MARKER
        &&& first[i].ciphertext.len() <= u32::MAX
        &&& reader::record_plaintext(key, header, first[i]) == Some(plaintexts[i])
    } by {
        assert(first[i] == parts.records[i]);
        assert(parts.plaintext(key, i) is Some);
    }
    lemma_records_read_back(key, header, first, plaintexts, rest, 0);
    header
}

/// Records after records are their bytes after each other.
pub proof fn lemma_records_bytes_concat(first: Seq<Record>, later: Seq<Record>)
    ensures
        layout::records_bytes(first + later) == layout::records_bytes(first)
            + layout::records_bytes(later),
    decreases first.len(),
{
    let all = first + later;
    if first.len() == 0 {
        assert(all =~= later);
        assert(layout::records_bytes(first) + layout::records_bytes(later)
            =~= layout::records_bytes(later));
    } else {
        assert(all.drop_first() =~= first.drop_first() + later);
        lemma_records_bytes_concat(first.drop_first(), later);
        assert(layout::records_bytes(all) =~= layout::records_bytes(first)
            + layout::records_bytes(later));
    }
}

/// One chunk that does not authenticate refuses the whole archive, wherever it stands: a
/// wrong key already at the first chunk.
pub proof fn lemma_unauthentic_chunk_rejected(key: Seq<u8>, parts: ArchiveParts, i: int)
    requires
        parts.valid(),
        0 <= i < parts.records.len(),
        parts.authentic(key, i),
        parts.plaintext(key, i) is None,
    ensures
        reader::keyed_outcome(key, parts.bytes()) == Err::<Contents, ArchiveError>(
            ArchiveError::Decryption,
        ),
{
    reveal(reader::chunks_outcome);
    let header = lemma_parts_read(key, parts, i);
    let later = parts.records.skip(i);
    let last = layout::final_bytes(parts.nonce, parts.seal);
    let after = layout::records_bytes(later.drop_first()) + last;
    assert(later.first() == parts.records[i]);
    layout::lemma_record_reads_back(later.first(), after);
    assert(layout::records_bytes(later) + last =~= layout::record_bytes(later.first()) + after);
}

/// A password whose key does not authenticate the first chunk is refused there, whatever
/// follows.
pub proof fn lemma_wrong_password_rejected(password: Seq<char>, parts: ArchiveParts)
    requires
        parts.valid(),
        parts.records.len() > 0,
        crypto::derived_key(password, parts.salt) matches Some(key) && parts.plaintext(
            key,
            0,
        ) is None,
    ensures
        reader::archive_outcome(password, parts.bytes()) == Err::<Contents, ArchiveError>(
            ArchiveError::Decryption,
        ),
{
    let key = crypto::derived_key(password, parts.salt)->Some_0;
    lemma_unauthentic_chunk_rejected(key, parts, 0);
    let header = lemma_parts_read(key, parts, 0);
}

/// Reading an archive whose chunks all authenticate comes to its final record.
proof fn lemma_all_chunks_read(key: Seq<u8>, parts: ArchiveParts) -> (header: HeaderView)
    requires
        parts.valid(),
        parts.authentic(key, parts.records.len() as int),
    ensures
        layout::salt_of(parts.bytes()) == Ok::<Seq<u8>, ArchiveError>(parts.salt),
        layout::header_of(parts.bytes()) == Ok::<HeaderView, ArchiveError>(header),
        header.metadata == parts.metadata,
        reader::chunks_outcome(key, header, header.rest, 0) == Ok::<ChunksView, ArchiveError>(
            ChunksView {
                payload: parts.payload(key),
                count: parts.records.len() as u32,
                in_order: parts.in_order(),
                rest: layout::final_bytes(parts.nonce, parts.seal).skip(4),
            },
        ),
        layout::final_of(layout::final_bytes(parts.nonce, parts.seal).skip(4)) == Ok::<
            layout::FinalView,
            ArchiveError,
        >(layout::FinalView { nonce: parts.nonce, seal: parts.seal, rest: Seq::empty() }),
{
    reveal(reader::chunks_outcome);
    let count = parts.records.len() as u32;
    let header = lemma_parts_read(key, parts, count as int);
    let later = parts.records.skip(count as int);
    let last = layout::final_bytes(parts.nonce, parts.seal);
    assert(parts.records.take(count as int) =~= parts.records);
    assert(layout::records_bytes(later) =~= Seq::<u8>::empty());
    assert(layout::records_bytes(later) + last =~= last);
    layout::lemma_final_reads_back(parts.nonce, parts.seal, Seq::empty());
    assert(last + Seq::<u8>::empty() =~= last);
    let payload = parts.payload(key);
    assert(payload + Seq::<u8>::empty() =~= payload);
    header
}

/// What an archive gives whose chunks all authenticate: the final seal decides, and then the
/// order of the chunks.
pub proof fn lemma_seal_decides(key: Seq<u8>, parts: ArchiveParts)
    requires
        parts.valid(),
        parts.authentic(key, parts.records.len() as int),
    ensures
        reader::keyed_outcome(key, parts.bytes()) == match parts.sealed(key) {
            None => Err::<Contents, ArchiveError>(ArchiveError::Decryption),
            Some(plaintext) => match reader::seal_outcome(plaintext, parts.records.len() as u32) {
                Err(error) => Err(error),
                Ok(_) => if parts.in_order() {
                    Ok(Contents { metadata: parts.metadata, payload: parts.payload(key) })
                } else {
                    Err(ArchiveError::ChunkOutOfOrder)
                },
            },
        },
{
    let header = lemma_all_chunks_read(key, parts);
}

/// Taking whole chunks out of an archive, or putting some in, is noticed: an authentic seal
/// that counts another number of chunks refuses the archive, though every chunk authenticates.
pub proof fn lemma_wrong_count_rejected(key: Seq<u8>, parts: ArchiveParts, count: u32)
    requires
        parts.valid(),
        parts.authentic(key, parts.records.len() as int),
        parts.sealed(key) == Some(layout::be_bytes(count)),
        count != parts.records.len(),
    ensures
        reader::keyed_outcome(key, parts.bytes()) == Err::<Contents, ArchiveError>(
            ArchiveError::ChunkCountMismatch {
                expected: count,
                found: parts.records.len() as u32,
            },
        ),
{
    lemma_seal_decides(key, parts);
    layout::lemma_be_value_of_bytes(count);
}

/// One chunk that does not have the number of its place refuses the whole archive, though
/// every chunk authenticates and the seal counts them right.
pub proof fn lemma_out_of_order_rejected(key: Seq<u8>, parts: ArchiveParts, i: int)
    requires
        parts.valid(),
        parts.authentic(key, parts.records.len() as int),
        parts.sealed(key) == Some(layout::be_bytes(parts.records.len() as u32)),
        0 <= i < parts.records.len(),
        parts.records[i].counter != i,
    ensures
        reader::keyed_outcome(key, parts.bytes()) == Err::<Contents, ArchiveError>(
            ArchiveError::ChunkOutOfOrder,
        ),
{
    let count = parts.records.len() as u32;
    lemma_seal_decides(key, parts);
    layout::lemma_be_value_of_bytes(count);
    if parts.in_order() {
        assert(parts.records[i].counter == 0 + i);
    }
}

/// A draft's archive under the final nonce `nonce`, with the records `records` in place of
/// its own.
pub open spec fn with_records(
    draft: ArchiveDraft,
    nonce: Seq<u8>,
    records: Seq<Record>,
) -> ArchiveParts {
    ArchiveParts {
        salt: draft.salt,
        base_nonce: draft.base_nonce,
        chunk_size: draft.chunk_size,
        metadata: draft.metadata,
        records,
        nonce,
        seal: draft.seal(nonce),
    }
}

/// Written records in another order, or with copies of some in the places of others, are
/// refused: with the key, and with every password that gives the key. Which record stands at
/// place `j` is `picked[j]`; at place `i` it is another than was written there.
pub proof fn lemma_rearranged_rejected(
    draft: ArchiveDraft,
    nonce: Seq<u8>,
    password: Seq<char>,
    picked: Seq<int>,
    i: int,
)
    requires
        draft.opens(),
        draft.sealed_under(nonce),
        crypto::derived_key(password, draft.salt) == Some(draft.key),
        picked.len() == draft.chunks.len(),
        forall|j: int| 0 <= j < picked.len() ==> 0 <= #[trigger] picked[j] < draft.chunks.len(),
        0 <= i < picked.len(),
        picked[i] != i,
    ensures
        ({
            let records = Seq::new(picked.len(), |j: int| draft.record(picked[j]));
            let data = with_records(draft, nonce, records).bytes();
            &&& reader::keyed_outcome(draft.key, data) == Err::<Contents, ArchiveError>(
                ArchiveError::ChunkOutOfOrder,
            )
            &&& reader::archive_outcome(password, data) == Err::<Contents, ArchiveError>(
                ArchiveError::ChunkOutOfOrder,
            )
        }),
{
    let records = Seq::new(picked.len(), |j: int| draft.record(picked[j]));
    let parts = with_records(draft, nonce, records);
    assert forall|j: int| 0 <= j < records.len() implies {
        &&& (#[trigger] parts.records[j]).counter != FINAL_MARKER
        &&& parts.records[j].ciphertext.len() <= u32::MAX
        &&& parts.plaintext(draft.key, j) is Some
    } by {
        let chunk = draft.chunks[picked[j]];
        assert(parts.records[j] == draft.record(picked[j]));
    }
    assert forall|j: int| 0 <= j < records.len() implies #[trigger] parts.plaintext(
        draft.key,
        j,
    ) is Some by {
        let record = parts.records[j];
    }
    assert(0 <= picked[i] < draft.chunks.len());
    assert(parts.records[i] == draft.record(picked[i]));
    lemma_out_of_order_rejected(draft.key, parts, i);
    let header = lemma_parts_read(draft.key, parts, 0);
}

// ---------------------------------------------------------------------------------------
// What opens is authentic throughout
// ---------------------------------------------------------------------------------------

/// The plaintexts of chunk records under a header, if they authenticate.
spec fn plaintexts_of(key: Seq<u8>, header: HeaderView, records: Seq<Record>) -> Seq<Seq<u8>> {
    Seq::new(records.len(), |i: int| reader::record_plaintext(key, header, records[i])->Some_0)
}

/// Chunks that read are records that authenticate, and the end marker.
proof fn lemma_chunks_are_records(key: Seq<u8>, header: HeaderView, bytes: Seq<u8>, count: u32) -> (
records: Seq<Record>)
    requires
        reader::chunks_outcome(key, header, bytes, count) is Ok,
    ensures
        reader::chunks_outcome(key, header, bytes, count) matches Ok(chunks) && {
            &&& bytes == layout::records_bytes(records) + layout::be_bytes(FINAL_MARKER)
                + chunks.rest
            &&& chunks.count == count + records.len()
            &&& chunks.in_order == layout::numbered_from(records, count as int)
            &&& chunks.payload == plaintexts_of(key, header, records).flatten()
            &&& forall|i: int|
                #![trigger records[i]]
                0 <= i < records.len() ==> {
                    &&& records[i].counter != FINAL_MARKER
                    &&& records[i].ciphertext.len() <= u32::MAX
                    &&& reader::record_plaintext(key, header, records[i]) is Some
                }
        },
    decreases bytes.len(),
{
    reveal(reader::chunks_outcome);
    let chunks = reader::chunks_outcome(key, header, bytes, count)->Ok_0;
    layout::lemma_frame_is_what_reads(bytes);
    match layout::frame_of(bytes)->Ok_0 {
        FrameView::End { rest } => {
            let records = Seq::<Record>::empty();
            assert(bytes =~= layout::records_bytes(records) + layout::be_bytes(FINAL_MARKER)
                + rest);
            assert(chunks.payload =~= plaintexts_of(key, header, records).flatten());
            records
        },
        FrameView::Chunk { record, rest } => {
            let later = lemma_chunks_are_records(key, header, rest, (count + 1) as u32);
            let records = seq![record] + later;
            assert(records.drop_first() =~= later);
            lemma_numbered_split(records, count as int);
            assert(bytes =~= layout::records_bytes(records) + layout::be_bytes(FINAL_MARKER)
                + chunks.rest);
            let plaintexts = plaintexts_of(key, header, records);
            assert(plaintexts.drop_first() =~= plaintexts_of(key, header, later));
            assert(chunks.payload =~= plaintexts.flatten());
            assert forall|i: int| #![trigger records[i]] 0 <= i < records.len() implies {
                &&& records[i].counter != FINAL_MARKER
                &&& records[i].ciphertext.len() <= u32::MAX
                &&& reader::record_plaintext(key, header, records[i]) is Some
            } by {
                if i > 0 {
                    assert(records[i] == later[i - 1]);
                }
            }
            records
        },
    }
}

/// Joins the pieces of an archive.
proof fn lemma_join(
    head: Seq<u8>,
    records: Seq<u8>,
    marker: Seq<u8>,
    after: Seq<u8>,
    last: Seq<u8>,
    rest: Seq<u8>,
)
    requires
        marker + after == last + rest,
    ensures
        head + (records + marker + after) == head + records + last + rest,
{
    assert(head + (records + marker + after) =~= head + records + (marker + after));
    assert(head + records + (last + rest) =~= head + records + last + rest);
}

/// Whatever opens is an archive, possibly with bytes after it, in which every chunk and the
/// final seal authenticate together with the very metadata of its header, in which every chunk
/// has the number of its place, and in which the seal holds the number of chunks. What comes
/// out is that metadata and the chunks joined.
pub proof fn lemma_opened_is_authentic(key: Seq<u8>, data: Seq<u8>) -> (parts: ArchiveParts)
    requires
        reader::opened(key, data) is Ok,
    ensures
        reader::opened(key, data) matches Ok(archive) && {
            &&& parts.valid()
            &&& data == parts.bytes() + archive.rest
            &&& parts.authentic(key, parts.records.len() as int)
            &&& forall|i: int|
                0 <= i < parts.records.len() ==> (#[trigger] parts.records[i]).counter == i
            &&& parts.sealed(key) matches Some(plaintext) && reader::seal_outcome(
                plaintext,
                parts.records.len() as u32,
            ) is Ok
            &&& archive.count == parts.records.len()
            &&& archive.contents == Contents {
                metadata: parts.metadata,
                payload: parts.payload(key),
            }
        },
{
    let archive = reader::opened(key, data)->Ok_0;
    let header = layout::header_of(data)->Ok_0;
    let chunks = reader::chunks_outcome(key, header, header.rest, 0)->Ok_0;
    let last = layout::final_of(chunks.rest)->Ok_0;
    let records = lemma_chunks_are_records(key, header, header.rest, 0);
    let parts = ArchiveParts {
        salt: data.subrange(9, 25),
        base_nonce: header.base_nonce,
        chunk_size: header.chunk_size,
        metadata: header.metadata,
        records,
        nonce: last.nonce,
        seal: last.seal,
    };
    layout::lemma_header_is_what_reads(data);
    layout::lemma_final_is_what_reads(chunks.rest);
    lemma_join(
        layout::header_bytes(parts.salt, parts.base_nonce, parts.chunk_size, parts.metadata),
        layout::records_bytes(records),
        layout::be_bytes(FINAL_MARKER),
        chunks.rest,
        layout::final_bytes(parts.nonce, parts.seal),
        archive.rest,
    );
    assert forall|i: int| 0 <= i < records.len() implies #[trigger] parts.plaintext(key, i)
        == reader::record_plaintext(key, header, records[i]) by {}
    assert forall|i: int| 0 <= i < records.len() implies #[trigger] parts.plaintext(
        key,
        i,
    ) is Some by {
        let record = records[i];
    }
    assert(parts.plaintexts(key, records.len()) =~= plaintexts_of(key, header, records));
    parts
}

// ---------------------------------------------------------------------------------------
// What was changed is refused
// ---------------------------------------------------------------------------------------

/// The ciphertext is one that the writing of an archive made, with this key, this nonce and
/// this associated data: that of a chunk, or the final seal.
pub open spec fn written(
    draft: ArchiveDraft,
    final_nonce: Seq<u8>,
    key: Seq<u8>,
    nonce: Seq<u8>,
    aad: Seq<u8>,
    ciphertext: Seq<u8>,
) -> bool {
    &&& key == draft.key
    &&& aad == draft.metadata
    &&& {
        ||| nonce == final_nonce && ciphertext == draft.seal(final_nonce)
        ||| exists|k: int|
            0 <= k < draft.chunks.len() && nonce == crypto::chunk_nonce(
                draft.base_nonce,
                k as u32,
            ) && ciphertext == (#[trigger] draft.record(k)).ciphertext
    }
}

/// Whatever authenticates among the parts of an archive was written.
pub open spec fn parts_unforged(
    draft: ArchiveDraft,
    final_nonce: Seq<u8>,
    key: Seq<u8>,
    parts: ArchiveParts,
) -> bool {
    &&& forall|i: int|
        0 <= i < parts.records.len() && (#[trigger] parts.plaintext(key, i)) is Some ==> written(
            draft,
            final_nonce,
            key,
            crypto::chunk_nonce(parts.base_nonce, parts.records[i].counter),
            parts.metadata,
            parts.records[i].ciphertext,
        )
    &&& parts.sealed(key) is Some ==> written(
        draft,
        final_nonce,
        key,
        parts.nonce,
        parts.metadata,
        parts.seal,
    )
}

/// Nothing in `data` is forged: of the archive with which it begins, if it begins with one,
/// only what was written authenticates.
pub open spec fn unforged(
    draft: ArchiveDraft,
    final_nonce: Seq<u8>,
    key: Seq<u8>,
    data: Seq<u8>,
) -> bool {
    forall|parts: ArchiveParts|
        parts.valid() && (#[trigger] parts.bytes()).is_prefix_of(data) ==> parts_unforged(
            draft,
            final_nonce,
            key,
            parts,
        )
}

/// The final nonce is not that of a chunk.
pub open spec fn nonces_apart(draft: ArchiveDraft, final_nonce: Seq<u8>) -> bool {
    forall|counter: u32|
        #[trigger] crypto::chunk_nonce(draft.base_nonce, counter) != final_nonce
}

/// A final nonce that begins otherwise than the base nonce is not that of a chunk.
pub proof fn lemma_set_apart(draft: ArchiveDraft, final_nonce: Seq<u8>)
    requires
        draft.base_nonce.len() == NONCE_SIZE,
        final_nonce.len() == NONCE_SIZE,
        final_nonce.take(8) != draft.base_nonce.take(8),
    ensures
        nonces_apart(draft, final_nonce),
{
    assert forall|counter: u32|
        #[trigger] crypto::chunk_nonce(draft.base_nonce, counter) != final_nonce by {
        let nonce = crypto::chunk_nonce(draft.base_nonce, counter);
        assert(nonce.take(8) =~= draft.base_nonce.take(8));
    }
}

/// No two of the ciphertexts that were written are the same.
pub open spec fn ciphertexts_apart(draft: ArchiveDraft, final_nonce: Seq<u8>) -> bool {
    &&& forall|i: int, j: int|
        0 <= i < j < draft.chunks.len() ==> (#[trigger] draft.record(i)).ciphertext != (
        #[trigger] draft.record(j)).ciphertext
    &&& forall|i: int|
        0 <= i < draft.chunks.len() ==> (#[trigger] draft.record(i)).ciphertext != draft.seal(
            final_nonce,
        )
}

/// The byte `byte` at `at` makes a written archive end early: it turns the number of a chunk
/// into the end marker, by chance the bytes after that number are the nonce of a chunk, and by
/// chance that chunk is the number itself, so that its ciphertext could stand for the seal.
pub open spec fn ends_early_by_chance(draft: ArchiveDraft, at: int, byte: u8) -> bool {
    exists|i: int, j: int|
        #![trigger draft.record(i), draft.record(j)]
        {
            let ciphertext = draft.record(i).ciphertext;
            let start = 45 + draft.metadata.len() + layout::records_bytes(
                draft.records().take(i),
            ).len();
            &&& 0 <= i < draft.chunks.len()
            &&& 0 <= j < draft.chunks.len()
            &&& start <= at < start + 4
            &&& layout::be_bytes(i as u32).update(at - start, byte) == layout::be_bytes(
                FINAL_MARKER,
            )
            &&& layout::be_bytes(ciphertext.len() as u32) + ciphertext.take(8)
                == crypto::chunk_nonce(draft.base_nonce, j as u32)
            &&& draft.chunks[j] == layout::be_bytes(i as u32)
        }
}

/// As long as nothing is forged, whatever opens under the base nonce of a written archive
/// holds its metadata, and its first chunks: each in its place, none changed, none put in.
pub proof fn lemma_unforged_chunks_are_written(
    draft: ArchiveDraft,
    final_nonce: Seq<u8>,
    key: Seq<u8>,
    data: Seq<u8>,
) -> (parts: ArchiveParts)
    requires
        draft.opens(),
        nonces_apart(draft, final_nonce),
        reader::opened(key, data) is Ok,
        unforged(draft, final_nonce, key, data),
        layout::header_of(data) matches Ok(header) && header.base_nonce == draft.base_nonce,
    ensures
        reader::opened(key, data) matches Ok(archive) && {
            &&& parts.valid()
            &&& data == parts.bytes() + archive.rest
            &&& key == draft.key
            &&& parts.base_nonce == draft.base_nonce
            &&& archive.contents.metadata == draft.metadata
            &&& parts.metadata == draft.metadata
            &&& parts.records.len() <= draft.chunks.len()
            &&& parts.records == draft.records().take(parts.records.len() as int)
            &&& archive.contents.payload == draft.chunks.take(
                parts.records.len() as int,
            ).flatten()
            &&& parts.sealed(key) matches Some(plaintext) && reader::seal_outcome(
                plaintext,
                parts.records.len() as u32,
            ) is Ok
            &&& written(draft, final_nonce, key, parts.nonce, parts.metadata, parts.seal)
        },
{
    let archive = reader::opened(key, data)->Ok_0;
    let parts = lemma_opened_is_authentic(key, data);
    let m = parts.records.len() as int;
    lemma_parts_header(parts, archive.rest);
    assert(parts.bytes().is_prefix_of(data));
    assert(parts_unforged(draft, final_nonce, key, parts));
    assert forall|i: int| 0 <= i < m implies i < draft.chunks.len() && (
    #[trigger] parts.records[i]) == draft.record(i) && parts.plaintext(key, i) == Some(
        draft.chunks[i],
    ) by {
        assert(parts.plaintext(key, i) is Some);
        assert(parts.records[i].counter == i);
        let nonce = crypto::chunk_nonce(draft.base_nonce, i as u32);
        assert(nonce != final_nonce);
        let k = choose|k: int|
            0 <= k < draft.chunks.len() && nonce == crypto::chunk_nonce(draft.base_nonce, k as u32)
                && parts.records[i].ciphertext == (#[trigger] draft.record(k)).ciphertext;
        if k != i {
            lemma_chunk_nonces_unique(draft.base_nonce, i as u32, k as u32);
        }
        let chunk = draft.chunks[i];
    }
    if m > draft.chunks.len() {
        let record = parts.records[draft.chunks.len() as int];
    }
    assert(parts.records =~= draft.records().take(m));
    assert forall|i: int| 0 <= i < m implies #[trigger] parts.plaintexts(key, m as nat)[i]
        == draft.chunks[i] by {
        let record = parts.records[i];
    }
    assert(parts.plaintexts(key, m as nat) =~= draft.chunks.take(m));
    parts
}

/// What stands where in the header of an archive.
proof fn lemma_parts_header(parts: ArchiveParts, rest: Seq<u8>)
    requires
        parts.valid(),
    ensures
        ({
            let data = parts.bytes() + rest;
            let start = 45 + parts.metadata.len() as int;
            &&& data.take(9) == layout::signature()
            &&& data.subrange(9, 25) == parts.salt
            &&& data.subrange(25, 37) == parts.base_nonce
            &&& data.subrange(37, 41) == layout::be_bytes(parts.chunk_size)
            &&& data.subrange(41, 45) == layout::be_bytes(layout::low32(parts.metadata.len()))
            &&& data.subrange(45, start) == parts.metadata
            &&& data.skip(start) == layout::records_bytes(parts.records) + layout::final_bytes(
                parts.nonce,
                parts.seal,
            ) + rest
            &&& layout::salt_of(data) == Ok::<Seq<u8>, ArchiveError>(parts.salt)
            &&& layout::header_of(data) matches Ok(header) && header.base_nonce == parts.base_nonce
        }),
{
    let data = parts.bytes() + rest;
    let start = 45 + parts.metadata.len() as int;
    let body = layout::records_bytes(parts.records) + layout::final_bytes(parts.nonce, parts.seal)
        + rest;
    let head = layout::header_bytes(
        parts.salt,
        parts.base_nonce,
        parts.chunk_size,
        parts.metadata,
    );
    assert(data =~= head + body);
    layout::lemma_header_reads_back(
        parts.salt,
        parts.base_nonce,
        parts.chunk_size,
        parts.metadata,
        body,
    );
    assert(head.len() == start);
    assert(data.take(9) =~= layout::signature());
    assert(data.subrange(9, 25) =~= parts.salt);
    assert(data.subrange(25, 37) =~= parts.base_nonce);
    assert(data.subrange(37, 41) =~= layout::be_bytes(parts.chunk_size));
    assert(data.subrange(41, 45) =~= layout::be_bytes(layout::low32(parts.metadata.len())));
    assert(data.subrange(45, start) =~= parts.metadata);
    assert(data.skip(start) =~= body);
}

/// Records that read as a first record and others begin with that record.
proof fn lemma_same_first_record(
    records: Seq<Record>,
    nonce: Seq<u8>,
    seal: Seq<u8>,
    rest: Seq<u8>,
    first: Record,
    after: Seq<u8>,
)
    requires
        records.len() > 0 ==> records[0].counter != FINAL_MARKER && records[0].ciphertext.len()
            <= u32::MAX,
        nonce.len() == NONCE_SIZE,
        seal.len() <= u32::MAX,
        first.counter != FINAL_MARKER,
        first.ciphertext.len() <= u32::MAX,
        layout::records_bytes(records) + layout::final_bytes(nonce, seal) + rest
            == layout::record_bytes(first) + after,
    ensures
        records.len() > 0,
        records[0] == first,
{
    let last = layout::final_bytes(nonce, seal);
    layout::lemma_record_reads_back(first, after);
    if records.len() == 0 {
        assert(layout::records_bytes(records) + last + rest =~= last + rest);
        layout::lemma_final_reads_back(nonce, seal, rest);
    } else {
        let others = layout::records_bytes(records.drop_first()) + last + rest;
        assert(layout::records_bytes(records) + last + rest =~= layout::record_bytes(records[0])
            + others);
        layout::lemma_record_reads_back(records[0], others);
    }
}

/// The nonce of the first chunk gives the base nonce.
proof fn lemma_first_nonce_gives_base(base_nonce: Seq<u8>, other: Seq<u8>)
    requires
        base_nonce.len() == NONCE_SIZE,
        other.len() == NONCE_SIZE,
        crypto::chunk_nonce(base_nonce, 0) == crypto::chunk_nonce(other, 0),
    ensures
        base_nonce == other,
{
    let nonce = crypto::chunk_nonce(base_nonce, 0);
    let other_nonce = crypto::chunk_nonce(other, 0);
    let zero = layout::be_bytes(0);
    assert forall|i: int| 0 <= i < NONCE_SIZE implies base_nonce[i] == other[i] by {
        assert(nonce[i] == other_nonce[i]);
        if i >= 8 {
            let (x, y, z) = (base_nonce[i], other[i], zero[i - 8]);
            assert(nonce[i] == x ^ z);
            assert(other_nonce[i] == y ^ z);
            assert(x ^ z == y ^ z ==> x == y) by (bit_vector);
        } else {
            assert(nonce[i] == base_nonce[i]);
            assert(other_nonce[i] == other[i]);
        }
    }
    assert(base_nonce =~= other);
}

/// The first record of a written archive authenticates under no other base nonce.
proof fn lemma_base_nonce_is_bound(
    draft: ArchiveDraft,
    final_nonce: Seq<u8>,
    key: Seq<u8>,
    parts: ArchiveParts,
)
    requires
        draft.base_nonce.len() == NONCE_SIZE,
        draft.chunks.len() > 0,
        ciphertexts_apart(draft, final_nonce),
        parts.base_nonce.len() == NONCE_SIZE,
        parts.records.len() > 0,
        parts.records[0] == draft.record(0),
        parts.plaintext(key, 0) is Some,
        parts_unforged(draft, final_nonce, key, parts),
    ensures
        parts.base_nonce == draft.base_nonce,
{
    let nonce = crypto::chunk_nonce(parts.base_nonce, 0);
    let k = choose|k: int|
        0 <= k < draft.chunks.len() && nonce == crypto::chunk_nonce(draft.base_nonce, k as u32)
            && parts.records[0].ciphertext == (#[trigger] draft.record(k)).ciphertext;
    assert(k == 0);
    lemma_first_nonce_gives_base(parts.base_nonce, draft.base_nonce);
}

/// Two byte strings that start alike, and go on with different final records, differ in more
/// than one byte, if the seals differ.
proof fn lemma_final_records_differ(
    head: Seq<u8>,
    nonce: Seq<u8>,
    seal: Seq<u8>,
    other_nonce: Seq<u8>,
    other_seal: Seq<u8>,
    rest: Seq<u8>,
    at: int,
    byte: u8,
)
    requires
        nonce.len() == NONCE_SIZE,
        other_nonce.len() == NONCE_SIZE,
        seal.len() <= u32::MAX,
        other_seal.len() <= u32::MAX,
        0 <= at < (head + layout::final_bytes(nonce, seal)).len(),
        head + layout::final_bytes(other_nonce, other_seal) + rest == (head + layout::final_bytes(
            nonce,
            seal,
        )).update(at, byte),
    ensures
        nonce == other_nonce || seal == other_seal,
{
    let data = head + layout::final_bytes(nonce, seal);
    let other = head + layout::final_bytes(other_nonce, other_seal) + rest;
    let start = head.len() as int;
    if nonce != other_nonce {
        if !(start + 4 <= at < start + 16) {
            assert forall|i: int| 0 <= i < NONCE_SIZE implies nonce[i] == other_nonce[i] by {
                assert(data[start + 4 + i] == other[start + 4 + i]);
            }
            assert(nonce =~= other_nonce);
        }
        let len = layout::be_bytes(layout::low32(seal.len()));
        let other_len = layout::be_bytes(layout::low32(other_seal.len()));
        assert forall|i: int| 0 <= i < 4 implies len[i] == other_len[i] by {
            assert(data[start + 16 + i] == len[i]);
            assert(other[start + 16 + i] == other_len[i]);
        }
        assert(len =~= other_len);
        layout::lemma_be_value_of_bytes(layout::low32(seal.len()));
        layout::lemma_be_value_of_bytes(layout::low32(other_seal.len()));
        assert forall|i: int| 0 <= i < seal.len() implies seal[i] == other_seal[i] by {
            assert(data[start + 20 + i] == seal[i]);
            assert(other[start + 20 + i] == other_seal[i]);
        }
        assert(seal =~= other_seal);
    }
}

/// What one byte must do to make an end marker of the number of a chunk.
proof fn lemma_early_marker(
    head: Seq<u8>,
    number: u32,
    nonce: Seq<u8>,
    tail: Seq<u8>,
    other_nonce: Seq<u8>,
    other_tail: Seq<u8>,
    at: int,
    byte: u8,
)
    requires
        number != FINAL_MARKER,
        nonce.len() == NONCE_SIZE,
        other_nonce.len() == NONCE_SIZE,
        0 <= at < (head + (layout::be_bytes(number) + nonce + tail)).len(),
        head + (layout::be_bytes(FINAL_MARKER) + other_nonce + other_tail) == (head + (
        layout::be_bytes(number) + nonce + tail)).update(at, byte),
    ensures
        head.len() <= at < head.len() + 4,
        layout::be_bytes(number).update(at - head.len(), byte) == layout::be_bytes(FINAL_MARKER),
        nonce == other_nonce,
{
    let data = head + (layout::be_bytes(number) + nonce + tail);
    let other = head + (layout::be_bytes(FINAL_MARKER) + other_nonce + other_tail);
    let start = head.len() as int;
    let bytes = layout::be_bytes(number);
    let marker = layout::be_bytes(FINAL_MARKER);
    if !(start <= at < start + 4) {
        assert forall|i: int| 0 <= i < 4 implies bytes[i] == marker[i] by {
            assert(data[start + i] == bytes[i]);
            assert(other[start + i] == marker[i]);
        }
        assert(bytes =~= marker);
        layout::lemma_be_value_of_bytes(number);
        layout::lemma_be_value_of_bytes(FINAL_MARKER);
    }
    assert forall|i: int| 0 <= i < 4 implies bytes.update(at - start, byte)[i] == marker[i] by {
        assert(data[start + i] == bytes[i]);
        assert(other[start + i] == marker[i]);
    }
    assert(bytes.update(at - start, byte) =~= marker);
    assert forall|i: int| 0 <= i < NONCE_SIZE implies nonce[i] == other_nonce[i] by {
        assert(data[start + 4 + i] == nonce[i]);
        assert(other[start + 4 + i] == other_nonce[i]);
    }
    assert(nonce =~= other_nonce);
}

/// A written archive has parts that the format can express.
proof fn lemma_draft_parts(draft: ArchiveDraft, final_nonce: Seq<u8>)
    requires
        draft.opens(),
        draft.sealed_under(final_nonce),
    ensures
        with_records(draft, final_nonce, draft.records()).valid(),
{
    let own = with_records(draft, final_nonce, draft.records());
    assert forall|i: int| #![trigger own.records[i]] 0 <= i < own.records.len() implies
        own.records[i].counter != FINAL_MARKER && own.records[i].ciphertext.len() <= u32::MAX by {
        let chunk = draft.chunks[i];
        assert(own.records[i] == draft.record(i));
    }
}

/// The records of a written archive authenticate under no other base nonce.
proof fn lemma_changed_base_nonce(
    draft: ArchiveDraft,
    final_nonce: Seq<u8>,
    key: Seq<u8>,
    parts: ArchiveParts,
    rest: Seq<u8>,
)
    requires
        draft.opens(),
        draft.chunks.len() > 0,
        ciphertexts_apart(draft, final_nonce),
        parts.valid(),
        parts.authentic(key, parts.records.len() as int),
        parts_unforged(draft, final_nonce, key, parts),
        layout::records_bytes(parts.records) + layout::final_bytes(parts.nonce, parts.seal) + rest
            == layout::records_bytes(draft.records()) + layout::final_bytes(
            final_nonce,
            draft.seal(final_nonce),
        ),
    ensures
        parts.base_nonce == draft.base_nonce,
{
    let records = draft.records();
    let first = draft.record(0);
    let last = layout::final_bytes(final_nonce, draft.seal(final_nonce));
    let after = layout::records_bytes(records.drop_first()) + last;
    let chunk = draft.chunks[0];
    assert(records.first() == first);
    assert(layout::records_bytes(records) + last =~= layout::record_bytes(first) + after);
    lemma_same_first_record(parts.records, parts.nonce, parts.seal, rest, first, after);
    assert(parts.plaintext(key, 0) is Some);
    lemma_base_nonce_is_bound(draft, final_nonce, key, parts);
}

/// A change in the header of a written archive, outside of its salt and its chunk size, is
/// noticed.
proof fn lemma_changed_header_rejected(
    draft: ArchiveDraft,
    final_nonce: Seq<u8>,
    key: Seq<u8>,
    at: int,
    byte: u8,
)
    requires
        draft.opens(),
        draft.sealed_under(final_nonce),
        0 <= at < 45 + draft.metadata.len(),
        !(9 <= at < 25),
        !(37 <= at < 41),
        25 <= at < 37 ==> draft.chunks.len() > 0 && ciphertexts_apart(draft, final_nonce),
        ({
            let data = with_records(draft, final_nonce, draft.records()).bytes();
            data[at] != byte && unforged(draft, final_nonce, key, data.update(at, byte))
        }),
    ensures
        reader::opened(
            key,
            with_records(draft, final_nonce, draft.records()).bytes().update(at, byte),
        ) is Err,
{
    let own = with_records(draft, final_nonce, draft.records());
    let data = own.bytes();
    let changed = data.update(at, byte);
    lemma_draft_parts(draft, final_nonce);
    assert(data + Seq::<u8>::empty() =~= data);
    if reader::opened(key, changed) is Ok {
        let rest = reader::opened(key, changed)->Ok_0.rest;
        let parts = lemma_opened_is_authentic(key, changed);
        assert(parts.bytes().is_prefix_of(changed));
        assert(parts_unforged(draft, final_nonce, key, parts));
        lemma_same_headers_agree(own, Seq::empty(), parts, rest, at, byte);
        lemma_changed_base_nonce(draft, final_nonce, key, parts, rest);
    }
}

/// Two archives of the same metadata that differ in one byte of the header, outside of salt
/// and chunk size, differ in the base nonce alone.
proof fn lemma_same_headers_agree(
    own: ArchiveParts,
    own_rest: Seq<u8>,
    parts: ArchiveParts,
    rest: Seq<u8>,
    at: int,
    byte: u8,
)
    requires
        own.valid(),
        parts.valid(),
        own.metadata == parts.metadata,
        0 <= at < 45 + own.metadata.len(),
        !(9 <= at < 25),
        !(37 <= at < 41),
        (own.bytes() + own_rest)[at] != byte,
        parts.bytes() + rest == (own.bytes() + own_rest).update(at, byte),
    ensures
        25 <= at < 37,
        own.base_nonce != parts.base_nonce,
        layout::records_bytes(parts.records) + layout::final_bytes(parts.nonce, parts.seal) + rest
            == layout::records_bytes(own.records) + layout::final_bytes(own.nonce, own.seal)
            + own_rest,
{
    let data = own.bytes() + own_rest;
    let changed = parts.bytes() + rest;
    let start = 45 + own.metadata.len() as int;
    lemma_parts_header(own, own_rest);
    lemma_parts_header(parts, rest);
    if at < 9 {
        assert(changed.take(9)[at] == data.take(9)[at]);
    } else if at < 37 {
        assert(changed.skip(start) =~= data.skip(start));
        assert(changed.subrange(25, 37)[at - 25] != data.subrange(25, 37)[at - 25]);
    } else if at < 45 {
        assert(changed.subrange(41, 45)[at - 41] == data.subrange(41, 45)[at - 41]);
    } else {
        assert(changed.subrange(45, start)[at - 45] == data.subrange(45, start)[at - 45]);
    }
}

/// A change after the header of a written archive is noticed.
proof fn lemma_changed_body_rejected(
    draft: ArchiveDraft,
    final_nonce: Seq<u8>,
    key: Seq<u8>,
    at: int,
    byte: u8,
)
    requires
        draft.opens(),
        draft.sealed_under(final_nonce),
        !ends_early_by_chance(draft, at, byte),
        nonces_apart(draft, final_nonce),
        ciphertexts_apart(draft, final_nonce),
        ({
            let data = with_records(draft, final_nonce, draft.records()).bytes();
            &&& 45 + draft.metadata.len() <= at < data.len()
            &&& data[at] != byte
            &&& unforged(draft, final_nonce, key, data.update(at, byte))
        }),
    ensures
        reader::opened(
            key,
            with_records(draft, final_nonce, draft.records()).bytes().update(at, byte),
        ) is Err,
{
    let own = with_records(draft, final_nonce, draft.records());
    let data = own.bytes();
    let changed = data.update(at, byte);
    lemma_draft_parts(draft, final_nonce);
    assert(data + Seq::<u8>::empty() =~= data);
    lemma_parts_header(own, Seq::empty());
    if reader::opened(key, changed) is Ok {
        let rest = reader::opened(key, changed)->Ok_0.rest;
        assert(changed.subrange(25, 37) =~= data.subrange(25, 37));
        assert(layout::header_of(changed)->Ok_0.base_nonce == draft.base_nonce);
        let parts = lemma_unforged_chunks_are_written(draft, final_nonce, key, changed);
        lemma_parts_header(parts, rest);
        assert(changed.subrange(9, 25) =~= data.subrange(9, 25));
        assert(changed.subrange(37, 41) =~= data.subrange(37, 41));
        layout::lemma_be_value_of_bytes(parts.chunk_size);
        layout::lemma_be_value_of_bytes(draft.chunk_size);
        lemma_seal_is_written(draft, final_nonce, parts);
        lemma_one_byte_apart(draft, final_nonce, parts, rest, at, byte);
    }
}

/// An archive that begins as a written one, and ends after fewer records, differs from it in
/// one byte only if that byte is in the number of a chunk, and what follows is a nonce.
proof fn lemma_fewer_records(
    head: Seq<u8>,
    records: Seq<Record>,
    later: Seq<Record>,
    last: Seq<u8>,
    nonce: Seq<u8>,
    seal: Seq<u8>,
    rest: Seq<u8>,
    at: int,
    byte: u8,
)
    requires
        later.len() > 0,
        later.first().counter != FINAL_MARKER,
        8 <= later.first().ciphertext.len() <= u32::MAX,
        nonce.len() == NONCE_SIZE,
        0 <= at < (head + layout::records_bytes(records + later) + last).len(),
        head + layout::records_bytes(records) + layout::final_bytes(nonce, seal) + rest == (head
            + layout::records_bytes(records + later) + last).update(at, byte),
    ensures
        ({
            let record = later.first();
            let start = head.len() + layout::records_bytes(records).len();
            &&& start <= at < start + 4
            &&& layout::be_bytes(record.counter).update(at - start, byte) == layout::be_bytes(
                FINAL_MARKER,
            )
            &&& layout::be_bytes(record.ciphertext.len() as u32) + record.ciphertext.take(8)
                == nonce
        }),
{
    let record = later.first();
    let ciphertext = record.ciphertext;
    let start = head + layout::records_bytes(records);
    let field = layout::be_bytes(ciphertext.len() as u32) + ciphertext.take(8);
    let tail = ciphertext.skip(8) + (layout::records_bytes(later.drop_first()) + last);
    let other_tail = layout::be_bytes(layout::low32(seal.len())) + seal + rest;
    lemma_records_bytes_concat(records, later);
    lemma_record_regrouped(record);
    lemma_regrouped(
        head,
        layout::records_bytes(records),
        layout::be_bytes(record.counter) + field,
        ciphertext.skip(8),
        layout::records_bytes(later.drop_first()),
        last,
    );
    assert(start + layout::final_bytes(nonce, seal) + rest =~= start + (layout::be_bytes(
        FINAL_MARKER,
    ) + nonce + other_tail));
    lemma_early_marker(start, record.counter, field, tail, nonce, other_tail, at, byte);
}

/// The length of a record and the first eight bytes of its ciphertext stand together.
proof fn lemma_record_regrouped(record: Record)
    requires
        8 <= record.ciphertext.len() <= u32::MAX,
    ensures
        layout::record_bytes(record) == layout::be_bytes(record.counter) + (layout::be_bytes(
            record.ciphertext.len() as u32,
        ) + record.ciphertext.take(8)) + record.ciphertext.skip(8),
{
    let ciphertext = record.ciphertext;
    let len = layout::be_bytes(ciphertext.len() as u32);
    assert(layout::low32(ciphertext.len()) == ciphertext.len());
    assert(ciphertext =~= ciphertext.take(8) + ciphertext.skip(8));
    assert(layout::record_bytes(record) =~= layout::be_bytes(record.counter) + (len
        + ciphertext.take(8)) + ciphertext.skip(8));
}

/// Joins the pieces of an archive in another way.
proof fn lemma_regrouped(
    head: Seq<u8>,
    records: Seq<u8>,
    start: Seq<u8>,
    end: Seq<u8>,
    others: Seq<u8>,
    last: Seq<u8>,
)
    ensures
        head + (records + (start + end + others)) + last == (head + records) + (start + (end + (
        others + last))),
{
    assert(head + (records + (start + end + others)) + last =~= (head + records) + (start + (end
        + (others + last))));
}

/// What was written and reads as the seal of an archive is the final seal, which counts the
/// chunks, or else the ciphertext of a chunk that is the count.
proof fn lemma_seal_is_written(draft: ArchiveDraft, final_nonce: Seq<u8>, parts: ArchiveParts)
    requires
        draft.opens(),
        draft.sealed_under(final_nonce),
        nonces_apart(draft, final_nonce),
        ciphertexts_apart(draft, final_nonce),
        written(draft, final_nonce, draft.key, parts.nonce, parts.metadata, parts.seal),
        parts.sealed(draft.key) matches Some(plaintext) && reader::seal_outcome(
            plaintext,
            parts.records.len() as u32,
        ) is Ok,
        parts.records.len() <= u32::MAX,
    ensures
        seals_as_written(draft, final_nonce, parts),
{
    let count = draft.chunks.len() as u32;
    layout::lemma_be_value_of_bytes(count);
    if parts.nonce != final_nonce {
        let k = choose|k: int|
            0 <= k < draft.chunks.len() && parts.nonce == crypto::chunk_nonce(
                draft.base_nonce,
                k as u32,
            ) && parts.seal == (#[trigger] draft.record(k)).ciphertext;
        layout::lemma_be_bytes_of_value(draft.chunks[k]);
    }
}

/// The final record of an archive is the written one, after all chunks, or is made of the
/// nonce and the ciphertext of a chunk that is the number of records before it.
spec fn seals_as_written(
    draft: ArchiveDraft,
    final_nonce: Seq<u8>,
    parts: ArchiveParts,
) -> bool {
    if parts.nonce == final_nonce {
        parts.seal == draft.seal(final_nonce) && parts.records.len() == draft.chunks.len()
    } else {
        &&& parts.seal != draft.seal(final_nonce)
        &&& exists|k: int|
            #![trigger draft.record(k)]
            0 <= k < draft.chunks.len() && parts.nonce == crypto::chunk_nonce(
                draft.base_nonce,
                k as u32,
            ) && draft.chunks[k] == layout::be_bytes(parts.records.len() as u32)
    }
}

/// No archive with a written header and the first of its records, and with a final record that
/// was written, differs from the written archive in one byte.
proof fn lemma_one_byte_apart(
    draft: ArchiveDraft,
    final_nonce: Seq<u8>,
    parts: ArchiveParts,
    rest: Seq<u8>,
    at: int,
    byte: u8,
)
    requires
        draft.opens(),
        !ends_early_by_chance(draft, at, byte),
        final_nonce.len() == NONCE_SIZE,
        draft.seal(final_nonce).len() <= u32::MAX,
        parts.valid(),
        parts.salt == draft.salt,
        parts.base_nonce == draft.base_nonce,
        parts.chunk_size == draft.chunk_size,
        parts.metadata == draft.metadata,
        parts.records.len() <= draft.chunks.len(),
        parts.records == draft.records().take(parts.records.len() as int),
        seals_as_written(draft, final_nonce, parts),
        0 <= at < with_records(draft, final_nonce, draft.records()).bytes().len(),
        with_records(draft, final_nonce, draft.records()).bytes()[at] != byte,
    ensures
        parts.bytes() + rest != with_records(draft, final_nonce, draft.records()).bytes().update(
            at,
            byte,
        ),
{
    let records = draft.records();
    let m = parts.records.len() as int;
    let head = layout::header_bytes(draft.salt, draft.base_nonce, draft.chunk_size, draft.metadata);
    let seal = draft.seal(final_nonce);
    let last = layout::final_bytes(final_nonce, seal);
    let data = head + layout::records_bytes(records) + last;
    if parts.bytes() + rest == data.update(at, byte) {
        if m < draft.chunks.len() {
            let later = records.skip(m);
            assert(records =~= parts.records + later);
            assert(later.first() == draft.record(m));
            let chunk = draft.chunks[m];
            lemma_fewer_records(
                head,
                parts.records,
                later,
                last,
                parts.nonce,
                parts.seal,
                rest,
                at,
                byte,
            );
            let k = choose|k: int|
                #![trigger draft.record(k)]
                0 <= k < draft.chunks.len() && parts.nonce == crypto::chunk_nonce(
                    draft.base_nonce,
                    k as u32,
                ) && draft.chunks[k] == layout::be_bytes(m as u32);
            let other = draft.record(k);
            assert(head.len() == 45 + draft.metadata.len());
        } else {
            assert(parts.records =~= records);
            if parts.nonce == final_nonce {
                assert((data + rest)[at] == data[at]);
            } else {
                lemma_final_records_differ(
                    head + layout::records_bytes(records),
                    final_nonce,
                    seal,
                    parts.nonce,
                    parts.seal,
                    rest,
                    at,
                    byte,
                );
            }
        }
    }
}

/// A written archive in which one byte is another, outside of the chunk size, does not open
/// with its password, as long as nothing is forged. The chunk size, which is not needed to
/// open an archive, is the one part that nothing protects.
///
/// Left to chance, and left out here: that a changed salt still gives the same key, that the
/// final nonce is that of a chunk, that two ciphertexts of the archive are the same, and that
/// the changed byte makes an end marker before what could be a final record. Left out too: a
/// changed base nonce over no chunks, which nothing uses.
pub proof fn lemma_changed_byte_rejected(
    draft: ArchiveDraft,
    final_nonce: Seq<u8>,
    password: Seq<char>,
    at: int,
    byte: u8,
)
    requires
        draft.opens(),
        draft.sealed_under(final_nonce),
        crypto::derived_key(password, draft.salt) == Some(draft.key),
        ({
            let data = draft.bytes() + layout::final_bytes(final_nonce, draft.seal(final_nonce));
            let changed = data.update(at, byte);
            &&& 0 <= at < data.len()
            &&& data[at] != byte
            &&& !(37 <= at < 41)
            &&& 25 <= at < 37 ==> draft.chunks.len() > 0 && ciphertexts_apart(draft, final_nonce)
            &&& 45 + draft.metadata.len() <= at ==> {
                &&& !ends_early_by_chance(draft, at, byte)
                &&& nonces_apart(draft, final_nonce)
                &&& ciphertexts_apart(draft, final_nonce)
            }
            &&& 9 <= at < 25 ==> crypto::derived_key(password, changed.subrange(9, 25)) != Some(
                draft.key,
            )
            &&& crypto::derived_key(password, changed.subrange(9, 25)) matches Some(key)
                ==> unforged(draft, final_nonce, key, changed)
        }),
    ensures
        reader::archive_outcome(
            password,
            (draft.bytes() + layout::final_bytes(final_nonce, draft.seal(final_nonce))).update(
                at,
                byte,
            ),
        ) is Err,
{
    let data = draft.bytes() + layout::final_bytes(final_nonce, draft.seal(final_nonce));
    let changed = data.update(at, byte);
    assert(data =~= with_records(draft, final_nonce, draft.records()).bytes());
    if reader::archive_outcome(password, changed) is Ok {
        let key = crypto::derived_key(password, changed.subrange(9, 25))->Some_0;
        if 9 <= at < 25 {
            let parts = lemma_opened_is_authentic(key, changed);
            assert(parts.bytes().is_prefix_of(changed));
            assert(parts_unforged(draft, final_nonce, key, parts));
        } else if at < 45 + draft.metadata.len() {
            lemma_changed_header_rejected(draft, final_nonce, key, at, byte);
        } else {
            lemma_changed_body_rejected(draft, final_nonce, key, at, byte);
        }
    }
}

// ---------------------------------------------------------------------------------------
// Nonces and sizes
// ---------------------------------------------------------------------------------------

/// No two chunks of an archive have the same nonce.
pub proof fn lemma_chunk_nonces_unique(base_nonce: Seq<u8>, c1: u32, c2: u32)
    requires
        c1 != c2,
    ensures
        crypto::chunk_nonce(base_nonce, c1) != crypto::chunk_nonce(base_nonce, c2),
{
    let n1 = crypto::chunk_nonce(base_nonce, c1);
    let n2 = crypto::chunk_nonce(base_nonce, c2);
    if n1 == n2 {
        let b1 = layout::be_bytes(c1);
        let b2 = layout::be_bytes(c2);
        assert forall|i: int| 0 <= i < 4 implies b1[i] == b2[i] by {
            let (x, y, z) = (base_nonce[i + 8], b1[i], b2[i]);
            assert(n1[i + 8] == x ^ y);
            assert(n2[i + 8] == x ^ z);
            assert(x ^ y == x ^ z ==> y == z) by (bit_vector);
        }
        assert(b1 =~= b2);
        layout::lemma_be_value_of_bytes(c1);
        layout::lemma_be_value_of_bytes(c2);
    }
}

/// The bytes that were drawn for an archive stand in it as they were drawn: the salt of its
/// key, its base nonce and its final nonce.
pub proof fn lemma_drawn_bytes_are_stored(draft: ArchiveDraft, final_nonce: Seq<u8>)
    requires
        draft.salt.len() == SALT_SIZE,
        draft.base_nonce.len() == NONCE_SIZE,
        final_nonce.len() == NONCE_SIZE,
    ensures
        ({
            let start = draft.bytes().len() as int;
            let data = draft.bytes() + layout::final_bytes(final_nonce, draft.seal(final_nonce));
            &&& data.subrange(9, 25) == draft.salt
            &&& data.subrange(25, 37) == draft.base_nonce
            &&& data.subrange(start + 4, start + 16) == final_nonce
        }),
{
    let start = draft.bytes().len() as int;
    let data = draft.bytes() + layout::final_bytes(final_nonce, draft.seal(final_nonce));
    assert(data.subrange(9, 25) =~= draft.salt);
    assert(data.subrange(25, 37) =~= draft.base_nonce);
    assert(data.subrange(start + 4, start + 16) =~= final_nonce);
}

/// The size of what has been written: 45 bytes and the metadata for the header, and 24 bytes
/// more than the chunk itself for each chunk.
pub proof fn lemma_written_size(draft: ArchiveDraft)
    requires
        draft.opens(),
    ensures
        draft.bytes().len() == 45 + draft.metadata.len() + 24 * draft.chunks.len()
            + draft.chunks.flatten().len(),
{
    assert forall|i: int| #![trigger draft.records()[i]]
        0 <= i < draft.chunks.len() implies draft.records()[i].ciphertext.len()
        == draft.chunks[i].len() + TAG_SIZE by {
        assert(draft.records()[i] == draft.record(i));
    }
    lemma_records_size(draft.records(), draft.chunks);
}

/// The size of the records of chunks.
proof fn lemma_records_size(records: Seq<Record>, chunks: Seq<Seq<u8>>)
    requires
        records.len() == chunks.len(),
        forall|i: int|
            #![trigger records[i]]
            0 <= i < records.len() ==> records[i].ciphertext.len() == chunks[i].len() + TAG_SIZE,
    ensures
        layout::records_bytes(records).len() == 24 * chunks.len() + chunks.flatten().len(),
    decreases records.len(),
{
    if records.len() > 0 {
        assert(records.first() == records[0]);
        assert forall|i: int| #![trigger records.drop_first()[i]]
            0 <= i < records.drop_first().len() implies records.drop_first()[i].ciphertext.len()
            == chunks.drop_first()[i].len() + TAG_SIZE by {
            assert(records.drop_first()[i] == records[i + 1]);
        }
        lemma_records_size(records.drop_first(), chunks.drop_first());
    }
}

} // verus!
