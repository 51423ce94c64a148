//! The archive layout, as mathematics: what image a list of records is
//! written to, and what a byte sequence is read as.
//!
//! ```text
//! offset 0         signature "GOB "
//! offset 4         version, 0x14
//! offset 8         body offset: where the file count stands
//! body offset      file count N
//! body offset + 4  N table entries of 136 bytes:
//!                  payload offset, payload size, path in 128 bytes
//! anywhere         the payloads, each where its entry says
//! ```
//!
//! All integers are unsigned, 32 bits wide and little-endian. The writer
//! places the file count at offset 12 and the payloads, in table order,
//! right after the table; the reader follows whatever offsets it finds.

use vstd::prelude::*;
use vstd::utf8::{encode_utf8, valid_utf8};
use crate::byte::{readable, spec_fixed_text, spec_u32_from_le, spec_u32_to_le, window, zeros};
use crate::error::ErrorModel;
use crate::record::{path_fits, RecordModel, PATH_FIELD_LEN};

verus! {

/// The format version.
pub const VERSION: u32 = 0x14;

/// Where the writer puts the file count.
pub const BODY_OFFSET: u32 = 12;

/// Length of the header and the file count together, as written.
pub const HEADER_LEN: usize = 16;

/// Length of one table entry.
pub const ENTRY_LEN: usize = 136;

/// The four bytes every archive starts with: `"GOB "`.
pub open spec fn signature() -> Seq<u8> {
    seq![0x47u8, 0x4f, 0x42, 0x20]
}

// ---------------------------------------------------------------------
// Reading
// ---------------------------------------------------------------------

/// The 32-bit integer stored at `position`.
pub open spec fn u32_at(bytes: Seq<u8>, position: int) -> int {
    spec_u32_from_le(bytes.subrange(position, position + 4))
}

/// Where the header says the file count stands.
pub open spec fn body_offset(bytes: Seq<u8>) -> int {
    u32_at(bytes, 8)
}

/// How many table entries the archive declares.
pub open spec fn file_count(bytes: Seq<u8>) -> int {
    u32_at(bytes, body_offset(bytes))
}

/// Where table entry `index` starts.
pub open spec fn entry_position(bytes: Seq<u8>, index: int) -> int {
    body_offset(bytes) + 4 + ENTRY_LEN * index
}

/// Whether all of table entry `index` lies within the bytes.
pub open spec fn entry_present(bytes: Seq<u8>, index: int) -> bool {
    entry_position(bytes, index) + ENTRY_LEN <= bytes.len()
}

/// The payload offset that entry `index` declares.
pub open spec fn entry_offset(bytes: Seq<u8>, index: int) -> int {
    u32_at(bytes, entry_position(bytes, index))
}

/// The payload size that entry `index` declares.
pub open spec fn entry_size(bytes: Seq<u8>, index: int) -> int {
    u32_at(bytes, entry_position(bytes, index) + 4)
}

/// The path field of entry `index`.
pub open spec fn entry_path_field(bytes: Seq<u8>, index: int) -> Seq<u8> {
    bytes.subrange(
        entry_position(bytes, index) + 8,
        entry_position(bytes, index) + 8 + PATH_FIELD_LEN,
    )
}

/// Whether entry `index` is there but its path field is not valid text.
pub open spec fn entry_garbled(bytes: Seq<u8>, index: int) -> bool {
    entry_present(bytes, index) && !valid_utf8(entry_path_field(bytes, index))
}

/// Whether the payload that entry `index` declares lies within the bytes.
pub open spec fn payload_present(bytes: Seq<u8>, index: int) -> bool {
    readable(bytes, entry_offset(bytes, index), entry_size(bytes, index))
}

/// The record that entry `index` describes.
pub open spec fn record_at(bytes: Seq<u8>, index: int) -> RecordModel {
    RecordModel {
        path: spec_fixed_text(entry_path_field(bytes, index)),
        data: window(bytes, entry_offset(bytes, index), entry_size(bytes, index)),
    }
}

/// What is wrong with the header, if anything. Each field is read before
/// it is judged, so a source too short for a field is an I/O failure.
pub open spec fn header_error(bytes: Seq<u8>) -> Option<ErrorModel> {
    if bytes.len() < 4 {
        Some(ErrorModel::Io)
    } else if bytes.subrange(0, 4) != signature() {
        Some(ErrorModel::BadSignature)
    } else if bytes.len() < 8 {
        Some(ErrorModel::Io)
    } else if u32_at(bytes, 4) != VERSION {
        Some(ErrorModel::BadVersion)
    } else if bytes.len() < 12 {
        Some(ErrorModel::Io)
    } else if body_offset(bytes) + 4 > bytes.len() {
        Some(ErrorModel::Io)
    } else {
        None
    }
}

/// What is wrong with the file table, if anything. Entries are read in
/// order, so a garbled path in an entry that is there comes before the
/// end of the source.
pub open spec fn table_error(bytes: Seq<u8>) -> Option<ErrorModel> {
    if exists|i: int| 0 <= i < file_count(bytes) && #[trigger] entry_garbled(bytes, i) {
        Some(ErrorModel::InvalidEncoding)
    } else if exists|i: int| 0 <= i < file_count(bytes) && !#[trigger] entry_present(bytes, i) {
        Some(ErrorModel::Io)
    } else {
        None
    }
}

/// What is wrong with the payloads, if anything.
pub open spec fn payload_error(bytes: Seq<u8>) -> Option<ErrorModel> {
    if exists|i: int| 0 <= i < file_count(bytes) && !#[trigger] payload_present(bytes, i) {
        Some(ErrorModel::Io)
    } else {
        None
    }
}

/// What a byte sequence is read as: the records of its table in table
/// order, or the first thing that is wrong with it. The header is judged
/// before the table, and the whole table before any payload.
pub open spec fn parsed(bytes: Seq<u8>) -> Result<Seq<RecordModel>, ErrorModel> {
    if let Some(e) = header_error(bytes) {
        Err(e)
    } else if let Some(e) = table_error(bytes) {
        Err(e)
    } else if let Some(e) = payload_error(bytes) {
        Err(e)
    } else {
        Ok(Seq::new(file_count(bytes) as nat, |i: int| record_at(bytes, i)))
    }
}

/// Bytes that do not start with the signature are refused for it, and
/// bytes that do but go on with another version are refused for that,
/// whatever follows.
pub proof fn lemma_header_rejection(bytes: Seq<u8>)
    ensures
        bytes.len() >= 4 && bytes.subrange(0, 4) != signature() ==> parsed(bytes) == Err::<
            Seq<RecordModel>,
            ErrorModel,
        >(ErrorModel::BadSignature),
        bytes.len() >= 8 && bytes.subrange(0, 4) == signature() && u32_at(bytes, 4) != VERSION
            ==> parsed(bytes) == Err::<Seq<RecordModel>, ErrorModel>(ErrorModel::BadVersion),
{
}

// ---------------------------------------------------------------------
// Writing
// ---------------------------------------------------------------------

/// The first `count` chunks, one after another.
pub open spec fn joined(chunks: Seq<Seq<u8>>, count: int) -> Seq<u8>
    decreases count,
{
    if count <= 0 {
        Seq::empty()
    } else {
        joined(chunks, count - 1) + chunks[count - 1]
    }
}

/// Total length of the first `count` chunks.
pub open spec fn joined_len(chunks: Seq<Seq<u8>>, count: int) -> int
    decreases count,
{
    if count <= 0 {
        0
    } else {
        joined_len(chunks, count - 1) + chunks[count - 1].len()
    }
}

/// The payloads of `files`, in order.
pub open spec fn payload_chunks(files: Seq<RecordModel>) -> Seq<Seq<u8>> {
    Seq::new(files.len(), |i: int| files[i].data)
}

/// Total length of the payloads of the first `count` records.
pub open spec fn payload_len(files: Seq<RecordModel>, count: int) -> int {
    joined_len(payload_chunks(files), count)
}

/// Where the payload of record `index` is written: after the table, and
/// after the payloads of the records before it.
pub open spec fn payload_offset(files: Seq<RecordModel>, index: int) -> int {
    HEADER_LEN + ENTRY_LEN * files.len() + payload_len(files, index)
}

/// Length of the image of `files`.
pub open spec fn image_len(files: Seq<RecordModel>) -> int {
    payload_offset(files, files.len() as int)
}

/// Whether every offset and size of the image of `files` fits the 32-bit
/// fields of the format.
pub open spec fn fits_format(files: Seq<RecordModel>) -> bool {
    image_len(files) <= u32::MAX
}

/// The header and the file count, as written for `count` files.
pub open spec fn header(count: int) -> Seq<u8> {
    signature() + spec_u32_to_le(VERSION as int) + spec_u32_to_le(BODY_OFFSET as int)
        + spec_u32_to_le(count)
}

/// A path as its field holds it: encoded, then padded with zero bytes.
pub open spec fn path_field(path: Seq<char>) -> Seq<u8> {
    encode_utf8(path) + zeros(PATH_FIELD_LEN - encode_utf8(path).len())
}

/// The table entry of record `index`.
pub open spec fn table_entry(files: Seq<RecordModel>, index: int) -> Seq<u8> {
    spec_u32_to_le(payload_offset(files, index)) + spec_u32_to_le(files[index].data.len() as int)
        + path_field(files[index].path)
}

/// The table entries of `files`, in order.
pub open spec fn table_entries(files: Seq<RecordModel>) -> Seq<Seq<u8>> {
    Seq::new(files.len(), |i: int| table_entry(files, i))
}

/// The image of `files`: header, file count, table entries, payloads.
pub open spec fn image(files: Seq<RecordModel>) -> Seq<u8> {
    header(files.len() as int) + joined(table_entries(files), files.len() as int) + joined(
        payload_chunks(files),
        files.len() as int,
    )
}

/// Whether every path of `files` fits a path field.
pub open spec fn all_paths_fit(files: Seq<RecordModel>) -> bool {
    forall|i: int| 0 <= i < files.len() ==> path_fits(#[trigger] files[i].path)
}

/// Whether record `index` is the first whose path does not fit.
pub open spec fn is_first_long_path(files: Seq<RecordModel>, index: int) -> bool {
    &&& 0 <= index < files.len()
    &&& !path_fits(files[index].path)
    &&& forall|i: int| 0 <= i < index ==> path_fits(#[trigger] files[i].path)
}

/// What a list of records is written as: its image, or the fault of the
/// first record, in order, whose path does not fit a path field.
pub open spec fn written(files: Seq<RecordModel>) -> Result<Seq<u8>, ErrorModel> {
    if all_paths_fit(files) {
        Ok(image(files))
    } else {
        Err(
            ErrorModel::PathTooLong(files[choose|i: int| is_first_long_path(files, i)].path),
        )
    }
}

/// The first record whose path does not fit decides what writing fails
/// with.
pub proof fn lemma_written_fails_on(files: Seq<RecordModel>, index: int)
    requires
        is_first_long_path(files, index),
    ensures
        written(files) == Err::<Seq<u8>, ErrorModel>(ErrorModel::PathTooLong(files[index].path)),
{
    let chosen = choose|i: int| is_first_long_path(files, i);
    assert(is_first_long_path(files, chosen));
    assert(!path_fits(files[index].path));
    if chosen < index {
        assert(path_fits(files[chosen].path));
    }
    if index < chosen {
        assert(path_fits(files[index].path));
    }
}

/// Chunks joined are as long as their lengths added up.
pub proof fn lemma_joined_len(chunks: Seq<Seq<u8>>, count: int)
    ensures
        joined(chunks, count).len() == joined_len(chunks, count),
    decreases count,
{
    if count > 0 {
        lemma_joined_len(chunks, count - 1);
    }
}

/// The length of joined chunks only grows with their number.
pub proof fn lemma_joined_len_monotonic(chunks: Seq<Seq<u8>>, low: int, high: int)
    requires
        low <= high,
    ensures
        0 <= joined_len(chunks, low) <= joined_len(chunks, high),
    decreases high,
{
    if high > 0 {
        if low < high {
            lemma_joined_len_monotonic(chunks, low, high - 1);
        } else {
            lemma_joined_len_monotonic(chunks, low - 1, high - 1);
        }
    }
}

/// Among joined chunks, chunk `index` stands after the chunks before it.
pub proof fn lemma_joined_chunk_at(chunks: Seq<Seq<u8>>, count: int, index: int)
    requires
        0 <= index < count,
    ensures
        joined(chunks, count).subrange(
            joined_len(chunks, index),
            joined_len(chunks, index + 1),
        ) == chunks[index],
    decreases count,
{
    let before = joined(chunks, count - 1);
    let last = chunks[count - 1];
    let low = joined_len(chunks, index);
    let high = joined_len(chunks, index + 1);
    lemma_joined_len(chunks, count - 1);
    lemma_joined_len_monotonic(chunks, 0, index);
    if index == count - 1 {
        assert((before + last).subrange(low, high) =~= last);
    } else {
        lemma_joined_chunk_at(chunks, count - 1, index);
        lemma_joined_len_monotonic(chunks, index + 1, count - 1);
        assert((before + last).subrange(low, high) =~= before.subrange(low, high));
    }
}

/// Payload lengths only grow with the number of records counted.
pub proof fn lemma_payload_len_monotonic(files: Seq<RecordModel>, low: int, high: int)
    requires
        low <= high,
    ensures
        0 <= payload_len(files, low) <= payload_len(files, high),
{
    lemma_joined_len_monotonic(payload_chunks(files), low, high);
}

/// A table entry whose path fits is [`ENTRY_LEN`] bytes long.
pub proof fn lemma_table_entry_len(files: Seq<RecordModel>, index: int)
    requires
        0 <= index < files.len(),
        path_fits(files[index].path),
    ensures
        table_entry(files, index).len() == ENTRY_LEN,
        path_field(files[index].path).len() == PATH_FIELD_LEN,
{
}

/// Where every path fits, `count` table entries take `count` entry
/// lengths.
pub proof fn lemma_table_len(files: Seq<RecordModel>, count: int)
    requires
        0 <= count <= files.len(),
        all_paths_fit(files),
    ensures
        joined_len(table_entries(files), count) == ENTRY_LEN * count,
    decreases count,
{
    if count > 0 {
        lemma_table_len(files, count - 1);
        lemma_table_entry_len(files, count - 1);
    }
}

} // verus!
