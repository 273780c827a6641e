//! The `.senc` layout: what the bytes of a header, of a chunk record and of the final record
//! are, and how they are read back.
use crate::error::ArchiveError;
use vstd::prelude::*;

verus! {

/// The bytes `SCRYPT07`, with which every archive starts.
pub const MAGIC: [u8; 8] = [0x53, 0x43, 0x52, 0x59, 0x50, 0x54, 0x30, 0x37];

/// The format version, the byte after the magic bytes.
pub const VERSION: u8 = 7;

/// Stands where a chunk's counter would, after the last chunk.
pub const FINAL_MARKER: u32 = 0xFFFF_FFFF;

/// How many bytes of the final seal's plaintext hold the chunk count.
pub const FINAL_SEAL_PLAINTEXT_LEN: usize = 4;

/// Length of a nonce in bytes.
pub const NONCE_SIZE: usize = 12;

/// Length of the key derivation salt in bytes.
pub const SALT_SIZE: usize = 16;

/// The longest chunk whose ciphertext, with its tag, has a length of 32 bits.
pub const MAX_CHUNK_SIZE: u32 = 0xFFFF_FFEF;

// ---------------------------------------------------------------------------------------
// Numbers
// ---------------------------------------------------------------------------------------

/// The four bytes of `n`, most significant first.
pub open spec fn be_bytes(n: u32) -> Seq<u8> {
    seq![
        (n / 0x100_0000) as u8,
        (n / 0x1_0000 % 0x100) as u8,
        (n / 0x100 % 0x100) as u8,
        (n % 0x100) as u8,
    ]
}

/// The number that four bytes spell, most significant first.
pub open spec fn be_value(b: Seq<u8>) -> u32 {
    (b[0] * 0x100_0000 + b[1] * 0x1_0000 + b[2] * 0x100 + b[3]) as u32
}

/// What is left of a length when it is stored in 32 bits.
pub open spec fn low32(len: nat) -> u32 {
    (len % 0x1_0000_0000) as u32
}

/// Reading back the four bytes of a number gives the number.
pub proof fn lemma_be_value_of_bytes(n: u32)
    ensures
        be_bytes(n).len() == 4,
        be_value(be_bytes(n)) == n,
{
}

/// Four bytes are the bytes of the number that they spell.
pub proof fn lemma_be_bytes_of_value(b: Seq<u8>)
    requires
        b.len() == 4,
    ensures
        be_bytes(be_value(b)) == b,
{
    let (b0, b1, b2, b3) = (b[0] as int, b[1] as int, b[2] as int, b[3] as int);
    let n = b0 * 0x100_0000 + b1 * 0x1_0000 + b2 * 0x100 + b3;
    assert(0 <= n <= u32::MAX);
    assert(n / 0x100_0000 == b0);
    assert(n / 0x1_0000 == b0 * 0x100 + b1);
    assert(n / 0x100 == b0 * 0x1_0000 + b1 * 0x100 + b2);
    assert((b0 * 0x100 + b1) % 0x100 == b1);
    assert((b0 * 0x1_0000 + b1 * 0x100 + b2) % 0x100 == b2);
    assert(n % 0x100 == b3);
    assert(be_value(b) == n);
    assert(be_bytes(be_value(b)) =~= b);
}

/// The four bytes of `n`, most significant first.
pub fn to_be_bytes(n: u32) -> (b: [u8; 4])
    ensures
        b@ == be_bytes(n),
{
    [
        (n / 0x100_0000) as u8,
        (n / 0x1_0000 % 0x100) as u8,
        (n / 0x100 % 0x100) as u8,
        (n % 0x100) as u8,
    ]
}

/// The number that the first four of `b` spell, most significant first.
pub fn from_be_bytes(b: &[u8]) -> (n: u32)
    requires
        b@.len() >= 4,
    ensures
        n == be_value(b@.take(4)),
{
    b[0] as u32 * 0x100_0000 + b[1] as u32 * 0x1_0000 + b[2] as u32 * 0x100 + b[3] as u32
}

/// A length as the format stores it, its low 32 bits.
pub fn stored_len(len: usize) -> (n: u32)
    ensures
        n == low32(len as nat),
{
    (len as u64 % 0x1_0000_0000) as u32
}

// ---------------------------------------------------------------------------------------
// Layout
// ---------------------------------------------------------------------------------------

/// One chunk as it stands in an archive.
pub struct Record {
    pub counter: u32,
    pub ciphertext: Seq<u8>,
}

/// Magic bytes and version.
pub open spec fn signature() -> Seq<u8> {
    MAGIC@ + seq![VERSION]
}

/// A header: signature, salt, base nonce, chunk size, metadata length, metadata.
pub open spec fn header_bytes(
    salt: Seq<u8>,
    base_nonce: Seq<u8>,
    chunk_size: u32,
    metadata: Seq<u8>,
) -> Seq<u8> {
    signature() + salt + base_nonce + be_bytes(chunk_size) + be_bytes(low32(metadata.len()))
        + metadata
}

/// A chunk record: counter, ciphertext length, ciphertext.
pub open spec fn record_bytes(record: Record) -> Seq<u8> {
    be_bytes(record.counter) + be_bytes(low32(record.ciphertext.len())) + record.ciphertext
}

/// Chunk records one after the other.
pub open spec fn records_bytes(records: Seq<Record>) -> Seq<u8>
    decreases records.len(),
{
    if records.len() == 0 {
        Seq::empty()
    } else {
        record_bytes(records.first()) + records_bytes(records.drop_first())
    }
}

/// The records have the numbers from `count` on, one after the other.
pub open spec fn numbered_from(records: Seq<Record>, count: int) -> bool {
    forall|i: int| 0 <= i < records.len() ==> (#[trigger] records[i]).counter == count + i
}

/// A record that is added to others stands after them.
pub proof fn lemma_records_bytes_push(records: Seq<Record>, record: Record)
    ensures
        records_bytes(records.push(record)) == records_bytes(records) + record_bytes(record),
    decreases records.len(),
{
    let all = records.push(record);
    if records.len() == 0 {
        assert(all.drop_first() =~= Seq::<Record>::empty());
        assert(records_bytes(all.drop_first()) =~= Seq::<u8>::empty());
        assert(records_bytes(all) =~= records_bytes(records) + record_bytes(record));
    } else {
        assert(all.drop_first() =~= records.drop_first().push(record));
        lemma_records_bytes_push(records.drop_first(), record);
        assert(records_bytes(all) =~= records_bytes(records) + record_bytes(record));
    }
}

/// The final record: end marker, nonce, seal length, seal.
pub open spec fn final_bytes(nonce: Seq<u8>, seal: Seq<u8>) -> Seq<u8> {
    be_bytes(FINAL_MARKER) + nonce + be_bytes(low32(seal.len())) + seal
}

/// Appends `tail` to `out`.
pub(crate) fn append_bytes(out: &mut Vec<u8>, tail: &[u8])
    ensures
        final(out)@ == old(out)@ + tail@,
{
    out.extend_from_slice(tail);
    assert(out@ =~= old(out)@ + tail@);
}

/// The header of an archive. A chunk size or a metadata length beyond 32 bits is stored
/// without its high bits.
pub fn encode_header(
    salt: &[u8; SALT_SIZE],
    base_nonce: &[u8; NONCE_SIZE],
    chunk_size: usize,
    metadata: &[u8],
) -> (out: Vec<u8>)
    ensures
        out@ == header_bytes(salt@, base_nonce@, low32(chunk_size as nat), metadata@),
{
    let mut out: Vec<u8> = Vec::new();
    append_bytes(&mut out, MAGIC.as_slice());
    out.push(VERSION);
    append_bytes(&mut out, salt.as_slice());
    append_bytes(&mut out, base_nonce.as_slice());
    append_bytes(&mut out, to_be_bytes(stored_len(chunk_size)).as_slice());
    append_bytes(&mut out, to_be_bytes(stored_len(metadata.len())).as_slice());
    append_bytes(&mut out, metadata);
    assert(out@ =~= header_bytes(salt@, base_nonce@, low32(chunk_size as nat), metadata@));
    out
}

/// The record of one encrypted chunk. A length beyond 32 bits is stored without its high
/// bits.
pub fn encode_record(counter: u32, ciphertext: &[u8]) -> (out: Vec<u8>)
    ensures
        out@ == record_bytes(Record { counter, ciphertext: ciphertext@ }),
{
    let mut out: Vec<u8> = Vec::new();
    append_bytes(&mut out, to_be_bytes(counter).as_slice());
    append_bytes(&mut out, to_be_bytes(stored_len(ciphertext.len())).as_slice());
    append_bytes(&mut out, ciphertext);
    assert(out@ =~= record_bytes(Record { counter, ciphertext: ciphertext@ }));
    out
}

/// The final record around an encrypted chunk count.
pub fn encode_final(nonce: &[u8; NONCE_SIZE], seal: &[u8]) -> (out: Vec<u8>)
    ensures
        out@ == final_bytes(nonce@, seal@),
{
    let mut out: Vec<u8> = Vec::new();
    append_bytes(&mut out, to_be_bytes(FINAL_MARKER).as_slice());
    append_bytes(&mut out, nonce.as_slice());
    append_bytes(&mut out, to_be_bytes(stored_len(seal.len())).as_slice());
    append_bytes(&mut out, seal);
    assert(out@ =~= final_bytes(nonce@, seal@));
    out
}

// ---------------------------------------------------------------------------------------
// Reading
// ---------------------------------------------------------------------------------------

/// What a header holds besides signature and salt, and the bytes after it.
pub struct HeaderView {
    pub base_nonce: Seq<u8>,
    pub chunk_size: u32,
    pub metadata: Seq<u8>,
    pub rest: Seq<u8>,
}

/// What stands at the start of the bytes after a header or a chunk record.
pub enum FrameView {
    /// A chunk record, and the bytes after it.
    Chunk { record: Record, rest: Seq<u8> },
    /// The end marker, and the bytes after it.
    End { rest: Seq<u8> },
}

/// What follows the end marker, and the bytes after it.
pub struct FinalView {
    pub nonce: Seq<u8>,
    pub seal: Seq<u8>,
    pub rest: Seq<u8>,
}

/// The salt of the archive `data`, once its signature is as it must be.
pub open spec fn salt_of(data: Seq<u8>) -> Result<Seq<u8>, ArchiveError> {
    if data.len() < 8 {
        Err(ArchiveError::UnexpectedEof)
    } else if data.take(8) != MAGIC@ {
        Err(ArchiveError::BadMagic)
    } else if data.len() < 9 {
        Err(ArchiveError::NumberCutShort)
    } else if data[8] != VERSION {
        Err(ArchiveError::UnsupportedVersion { version: data[8] })
    } else if data.len() < 25 {
        Err(ArchiveError::UnexpectedEof)
    } else {
        Ok(data.subrange(9, 25))
    }
}

/// The part of the header of `data` after the salt.
pub open spec fn header_of(data: Seq<u8>) -> Result<HeaderView, ArchiveError> {
    let metadata_len = be_value(data.subrange(41, 45));
    if data.len() < 37 {
        Err(ArchiveError::UnexpectedEof)
    } else if data.len() < 45 {
        Err(ArchiveError::NumberCutShort)
    } else if data.len() < 45 + metadata_len {
        Err(ArchiveError::UnexpectedEof)
    } else {
        Ok(
            HeaderView {
                base_nonce: data.subrange(25, 37),
                chunk_size: be_value(data.subrange(37, 41)),
                metadata: data.subrange(45, 45 + metadata_len),
                rest: data.skip(45 + metadata_len),
            },
        )
    }
}

/// The chunk record or the end marker at the start of `bytes`.
pub open spec fn frame_of(bytes: Seq<u8>) -> Result<FrameView, ArchiveError> {
    if bytes.len() < 4 {
        Err(ArchiveError::NumberCutShort)
    } else if be_value(bytes.take(4)) == FINAL_MARKER {
        Ok(FrameView::End { rest: bytes.skip(4) })
    } else {
        let len = be_value(bytes.subrange(4, 8));
        if bytes.len() < 8 {
            Err(ArchiveError::NumberCutShort)
        } else if bytes.len() < 8 + len {
            Err(ArchiveError::UnexpectedEof)
        } else {
            Ok(
                FrameView::Chunk {
                    record: Record {
                        counter: be_value(bytes.take(4)),
                        ciphertext: bytes.subrange(8, 8 + len),
                    },
                    rest: bytes.skip(8 + len),
                },
            )
        }
    }
}

/// The part of the final record after the end marker, at the start of `bytes`.
pub open spec fn final_of(bytes: Seq<u8>) -> Result<FinalView, ArchiveError> {
    let len = be_value(bytes.subrange(12, 16));
    if bytes.len() < 12 {
        Err(ArchiveError::UnexpectedEof)
    } else if bytes.len() < 16 {
        Err(ArchiveError::NumberCutShort)
    } else if bytes.len() < 16 + len {
        Err(ArchiveError::UnexpectedEof)
    } else {
        Ok(
            FinalView {
                nonce: bytes.take(12),
                seal: bytes.subrange(16, 16 + len),
                rest: bytes.skip(16 + len),
            },
        )
    }
}

/// A header that has been read; it borrows the archive.
pub struct Header<'a> {
    pub base_nonce: [u8; NONCE_SIZE],
    pub chunk_size: u32,
    pub metadata: &'a [u8],
    pub rest: &'a [u8],
}

impl View for Header<'_> {
    type V = HeaderView;

    open spec fn view(&self) -> HeaderView {
        HeaderView {
            base_nonce: self.base_nonce@,
            chunk_size: self.chunk_size,
            metadata: self.metadata@,
            rest: self.rest@,
        }
    }
}

/// A chunk record or the end marker that has been read; it borrows the archive.
pub enum Frame<'a> {
    Chunk { counter: u32, ciphertext: &'a [u8], rest: &'a [u8] },
    End { rest: &'a [u8] },
}

impl View for Frame<'_> {
    type V = FrameView;

    open spec fn view(&self) -> FrameView {
        match *self {
            Frame::Chunk { counter, ciphertext, rest } => FrameView::Chunk {
                record: Record { counter, ciphertext: ciphertext@ },
                rest: rest@,
            },
            Frame::End { rest } => FrameView::End { rest: rest@ },
        }
    }
}

/// The final record that has been read; it borrows the archive.
pub struct Final<'a> {
    pub nonce: [u8; NONCE_SIZE],
    pub seal: &'a [u8],
    pub rest: &'a [u8],
}

impl View for Final<'_> {
    type V = FinalView;

    open spec fn view(&self) -> FinalView {
        FinalView { nonce: self.nonce@, seal: self.seal@, rest: self.rest@ }
    }
}

/// The result of a reading function, with what was read taken by its view.
pub open spec fn viewed<T: View>(res: Result<T, ArchiveError>) -> Result<T::V, ArchiveError> {
    match res {
        Ok(value) => Ok(value@),
        Err(error) => Err(error),
    }
}

/// `N` bytes of `data` from `pos` on.
fn array_at<const N: usize>(data: &[u8], pos: usize) -> (out: [u8; N])
    requires
        pos + N <= data@.len(),
    ensures
        out@ == data@.subrange(pos as int, pos + N),
{
    let len: usize = data.len();
    let mut out: [u8; N] = vstd::array::array_fill_for_copy_types::<u8, N>(0);
    let mut i: usize = 0;
    while i < N
        invariant
            i <= N,
            pos + N <= data@.len(),
            len == data@.len(),
            forall|j: int| 0 <= j < i ==> out@[j] == data@[pos + j],
        decreases N - i,
    {
        out[i] = data[pos + i];
        i = i + 1;
    }
    assert(out@ =~= data@.subrange(pos as int, pos + N));
    out
}

/// The bytes of `data` from `start` to `end`.
fn part(data: &[u8], start: usize, end: usize) -> (out: &[u8])
    requires
        start <= end <= data@.len(),
    ensures
        out@ == data@.subrange(start as int, end as int),
{
    vstd::slice::slice_subrange(data, start, end)
}

/// Checks the signature of `data` and returns the salt.
pub fn read_salt(data: &[u8]) -> (res: Result<[u8; SALT_SIZE], ArchiveError>)
    ensures
        viewed(res) == salt_of(data@),
{
    if data.len() < 8 {
        return Err(ArchiveError::UnexpectedEof);
    }
    let mut i: usize = 0;
    while i < 8
        invariant
            i <= 8 <= data@.len(),
            forall|j: int| 0 <= j < i ==> MAGIC@[j] == data@[j],
        decreases 8 - i,
    {
        if data[i] != MAGIC[i] {
            assert(data@.take(8)[i as int] != MAGIC@[i as int]);
            return Err(ArchiveError::BadMagic);
        }
        i = i + 1;
    }
    assert(data@.take(8) =~= MAGIC@);
    if data.len() < 9 {
        return Err(ArchiveError::NumberCutShort);
    }
    if data[8] != VERSION {
        return Err(ArchiveError::UnsupportedVersion { version: data[8] });
    }
    if data.len() < 25 {
        return Err(ArchiveError::UnexpectedEof);
    }
    Ok(array_at::<SALT_SIZE>(data, 9))
}

/// Reads the part of the header of `data` after the salt.
pub fn read_header<'a>(data: &'a [u8]) -> (res: Result<Header<'a>, ArchiveError>)
    ensures
        viewed(res) == header_of(data@),
{
    if data.len() < 37 {
        return Err(ArchiveError::UnexpectedEof);
    }
    if data.len() < 45 {
        return Err(ArchiveError::NumberCutShort);
    }
    let metadata_len: usize = from_be_bytes(part(data, 41, 45)) as usize;
    assert(data@.subrange(41, 45).take(4) =~= data@.subrange(41, 45));
    if data.len() - 45 < metadata_len {
        return Err(ArchiveError::UnexpectedEof);
    }
    let chunk_size: u32 = from_be_bytes(part(data, 37, 41));
    assert(data@.subrange(37, 41).take(4) =~= data@.subrange(37, 41));
    Ok(
        Header {
            base_nonce: array_at::<NONCE_SIZE>(data, 25),
            chunk_size,
            metadata: part(data, 45, 45 + metadata_len),
            rest: part(data, 45 + metadata_len, data.len()),
        },
    )
}

/// Reads the chunk record or the end marker at the start of `bytes`.
pub fn read_frame<'a>(bytes: &'a [u8]) -> (res: Result<Frame<'a>, ArchiveError>)
    ensures
        viewed(res) == frame_of(bytes@),
{
    if bytes.len() < 4 {
        return Err(ArchiveError::NumberCutShort);
    }
    let counter: u32 = from_be_bytes(bytes);
    if counter == FINAL_MARKER {
        return Ok(Frame::End { rest: part(bytes, 4, bytes.len()) });
    }
    if bytes.len() < 8 {
        return Err(ArchiveError::NumberCutShort);
    }
    let len: usize = from_be_bytes(part(bytes, 4, 8)) as usize;
    assert(bytes@.subrange(4, 8).take(4) =~= bytes@.subrange(4, 8));
    if bytes.len() - 8 < len {
        return Err(ArchiveError::UnexpectedEof);
    }
    Ok(
        Frame::Chunk {
            counter,
            ciphertext: part(bytes, 8, 8 + len),
            rest: part(bytes, 8 + len, bytes.len()),
        },
    )
}

/// Reads the part of the final record after the end marker, at the start of `bytes`.
pub fn read_final<'a>(bytes: &'a [u8]) -> (res: Result<Final<'a>, ArchiveError>)
    ensures
        viewed(res) == final_of(bytes@),
{
    if bytes.len() < 12 {
        return Err(ArchiveError::UnexpectedEof);
    }
    if bytes.len() < 16 {
        return Err(ArchiveError::NumberCutShort);
    }
    let len: usize = from_be_bytes(part(bytes, 12, 16)) as usize;
    assert(bytes@.subrange(12, 16).take(4) =~= bytes@.subrange(12, 16));
    if bytes.len() - 16 < len {
        return Err(ArchiveError::UnexpectedEof);
    }
    let nonce: [u8; NONCE_SIZE] = array_at::<NONCE_SIZE>(bytes, 0);
    assert(bytes@.subrange(0, 12) =~= bytes@.take(12));
    Ok(Final { nonce, seal: part(bytes, 16, 16 + len), rest: part(bytes, 16 + len, bytes.len()) })
}

// ---------------------------------------------------------------------------------------
// What is written is what is read
// ---------------------------------------------------------------------------------------

/// A header reads back as what it was made of, and leaves the bytes after it.
pub proof fn lemma_header_reads_back(
    salt: Seq<u8>,
    base_nonce: Seq<u8>,
    chunk_size: u32,
    metadata: Seq<u8>,
    rest: Seq<u8>,
)
    requires
        salt.len() == SALT_SIZE,
        base_nonce.len() == NONCE_SIZE,
        metadata.len() <= u32::MAX,
    ensures
        salt_of(header_bytes(salt, base_nonce, chunk_size, metadata) + rest) == Ok::<
            Seq<u8>,
            ArchiveError,
        >(salt),
        header_of(header_bytes(salt, base_nonce, chunk_size, metadata) + rest) == Ok::<
            HeaderView,
            ArchiveError,
        >(HeaderView { base_nonce, chunk_size, metadata, rest }),
{
    let data = header_bytes(salt, base_nonce, chunk_size, metadata) + rest;
    let len = low32(metadata.len());
    lemma_be_value_of_bytes(chunk_size);
    lemma_be_value_of_bytes(len);
    assert(data.take(8) =~= MAGIC@);
    assert(data.subrange(9, 25) =~= salt);
    assert(data.subrange(25, 37) =~= base_nonce);
    assert(data.subrange(37, 41) =~= be_bytes(chunk_size));
    assert(data.subrange(41, 45) =~= be_bytes(len));
    assert(data.subrange(45, 45 + len) =~= metadata);
    assert(data.skip(45 + len) =~= rest);
}

/// A chunk record reads back as itself, and leaves the bytes after it.
pub proof fn lemma_record_reads_back(record: Record, rest: Seq<u8>)
    requires
        record.counter != FINAL_MARKER,
        record.ciphertext.len() <= u32::MAX,
    ensures
        frame_of(record_bytes(record) + rest) == Ok::<FrameView, ArchiveError>(
            FrameView::Chunk { record, rest },
        ),
{
    let bytes = record_bytes(record) + rest;
    let len = low32(record.ciphertext.len());
    lemma_be_value_of_bytes(record.counter);
    lemma_be_value_of_bytes(len);
    assert(len == record.ciphertext.len());
    assert(bytes.len() == 8 + len + rest.len());
    assert(bytes.take(4) =~= be_bytes(record.counter));
    assert(bytes.subrange(4, 8) =~= be_bytes(len));
    assert(bytes.subrange(8, 8 + len) =~= record.ciphertext);
    assert(bytes.skip(8 + len) =~= rest);
}

/// A final record reads back as an end marker and what it was made of, and leaves the bytes
/// after it.
pub proof fn lemma_final_reads_back(nonce: Seq<u8>, seal: Seq<u8>, rest: Seq<u8>)
    requires
        nonce.len() == NONCE_SIZE,
        seal.len() <= u32::MAX,
    ensures
        frame_of(final_bytes(nonce, seal) + rest) matches Ok(FrameView::End { rest: after })
            && final_of(after) == Ok::<FinalView, ArchiveError>(FinalView { nonce, seal, rest }),
{
    let bytes = final_bytes(nonce, seal) + rest;
    let after = bytes.skip(4);
    let len = low32(seal.len());
    lemma_be_value_of_bytes(FINAL_MARKER);
    lemma_be_value_of_bytes(len);
    assert(bytes.take(4) =~= be_bytes(FINAL_MARKER));
    assert(after.take(12) =~= nonce);
    assert(after.subrange(12, 16) =~= be_bytes(len));
    assert(after.subrange(16, 16 + len) =~= seal);
    assert(after.skip(16 + len) =~= rest);
}

/// Bytes that read as a header are that header and the bytes after it.
pub proof fn lemma_header_is_what_reads(data: Seq<u8>)
    requires
        salt_of(data) is Ok,
        header_of(data) is Ok,
    ensures
        ({
            let salt = salt_of(data)->Ok_0;
            let header = header_of(data)->Ok_0;
            &&& salt.len() == SALT_SIZE
            &&& header.base_nonce.len() == NONCE_SIZE
            &&& header.metadata.len() <= u32::MAX
            &&& data == header_bytes(salt, header.base_nonce, header.chunk_size, header.metadata)
                + header.rest
        }),
{
    let header = header_of(data)->Ok_0;
    let salt = data.subrange(9, 25);
    lemma_be_bytes_of_value(data.subrange(37, 41));
    lemma_be_bytes_of_value(data.subrange(41, 45));
    assert(data.take(9) =~= data.take(8) + seq![data[8]]);
    assert(data.take(25) =~= data.take(9) + salt);
    assert(data.take(37) =~= data.take(25) + header.base_nonce);
    assert(data.take(41) =~= data.take(37) + data.subrange(37, 41));
    assert(data.take(45) =~= data.take(41) + data.subrange(41, 45));
    assert(data =~= data.take(45) + header.metadata + header.rest);
}

/// Bytes that read as a chunk record are that record and the bytes after it; bytes that read
/// as the end marker are the marker and the bytes after it.
pub proof fn lemma_frame_is_what_reads(bytes: Seq<u8>)
    requires
        frame_of(bytes) is Ok,
    ensures
        match frame_of(bytes)->Ok_0 {
            FrameView::Chunk { record, rest } => record.counter != FINAL_MARKER
                && record.ciphertext.len() <= u32::MAX && bytes == record_bytes(record) + rest,
            FrameView::End { rest } => bytes == be_bytes(FINAL_MARKER) + rest,
        },
{
    lemma_be_bytes_of_value(bytes.take(4));
    match frame_of(bytes)->Ok_0 {
        FrameView::Chunk { record, rest } => {
            lemma_be_bytes_of_value(bytes.subrange(4, 8));
            assert(bytes =~= record_bytes(record) + rest);
        },
        FrameView::End { rest } => {
            assert(bytes =~= be_bytes(FINAL_MARKER) + rest);
        },
    }
}

/// Bytes that read as the end of a final record are, with the end marker before them, that
/// final record and the bytes after it.
pub proof fn lemma_final_is_what_reads(bytes: Seq<u8>)
    requires
        final_of(bytes) is Ok,
    ensures
        final_of(bytes) matches Ok(last) && last.nonce.len() == NONCE_SIZE && last.seal.len()
            <= u32::MAX && be_bytes(FINAL_MARKER) + bytes == final_bytes(last.nonce, last.seal)
            + last.rest,
{
    let last = final_of(bytes)->Ok_0;
    lemma_be_bytes_of_value(bytes.subrange(12, 16));
    assert(bytes.take(16) =~= last.nonce + bytes.subrange(12, 16));
    assert(bytes =~= bytes.take(16) + last.seal + last.rest);
    assert(be_bytes(FINAL_MARKER) + bytes =~= final_bytes(last.nonce, last.seal) + last.rest);
}

} // verus!
