//! What is written is read back: the image of a list of records parses to
//! that same list.

use vstd::prelude::*;
use vstd::utf8::encode_utf8;
use crate::byte::{
    has_no_nul, lemma_padded_text_decodes, lemma_u32_le_decode_encode, spec_u32_to_le, window,
};
use crate::error::ErrorModel;
use crate::layout::{
    all_paths_fit, body_offset, entry_garbled, entry_offset, entry_path_field, entry_position,
    entry_present, entry_size, file_count, fits_format, header, header_error, image, image_len,
    joined, lemma_joined_chunk_at, lemma_joined_len, lemma_payload_len_monotonic,
    lemma_table_entry_len, lemma_table_len, parsed, path_field, payload_chunks, payload_len,
    payload_offset, payload_present, record_at, signature, table_entries, table_entry, written,
    BODY_OFFSET, ENTRY_LEN, HEADER_LEN, VERSION,
};
use crate::record::{path_fits, RecordModel, PATH_FIELD_LEN};

verus! {

/// Whether every path of `files` is free of the NUL character.
pub open spec fn no_path_has_nul(files: Seq<RecordModel>) -> bool {
    forall|i: int| 0 <= i < files.len() ==> has_no_nul(#[trigger] files[i].path)
}

/// The image of `files` has the length the layout gives it, and a header
/// that is read without fault as written.
pub proof fn lemma_image_header(files: Seq<RecordModel>)
    requires
        all_paths_fit(files),
        fits_format(files),
    ensures
        image(files).len() == image_len(files),
        header_error(image(files)) is None,
        body_offset(image(files)) == BODY_OFFSET,
        file_count(image(files)) == files.len(),
{
    let count: int = files.len() as int;
    let bytes = image(files);
    lemma_table_len(files, count);
    lemma_joined_len(table_entries(files), count);
    lemma_joined_len(payload_chunks(files), count);
    lemma_payload_len_monotonic(files, 0, count);
    lemma_u32_le_decode_encode(VERSION as int);
    lemma_u32_le_decode_encode(BODY_OFFSET as int);
    lemma_u32_le_decode_encode(count);
    assert(bytes.subrange(0, 4) =~= signature());
    assert(bytes.subrange(4, 8) =~= spec_u32_to_le(VERSION as int));
    assert(bytes.subrange(8, 12) =~= spec_u32_to_le(BODY_OFFSET as int));
    assert(bytes.subrange(12, 16) =~= spec_u32_to_le(count));
}

/// A window into the middle one of three joined parts.
proof fn lemma_middle_window(a: Seq<u8>, b: Seq<u8>, c: Seq<u8>, low: int, high: int)
    requires
        0 <= low <= high <= b.len(),
    ensures
        (a + b + c).subrange(a.len() + low, a.len() + high) == b.subrange(low, high),
{
    assert((a + b + c).subrange(a.len() + low, a.len() + high) =~= b.subrange(low, high));
}

/// A window into the last one of three joined parts.
proof fn lemma_last_window(a: Seq<u8>, b: Seq<u8>, c: Seq<u8>, low: int, high: int)
    requires
        0 <= low <= high <= c.len(),
    ensures
        (a + b + c).subrange(a.len() + b.len() + low, a.len() + b.len() + high) == c.subrange(
            low,
            high,
        ),
{
    assert((a + b + c).subrange(a.len() + b.len() + low, a.len() + b.len() + high)
        =~= c.subrange(low, high));
}

/// The three parts of a window that holds them one after another.
proof fn lemma_three_parts(whole: Seq<u8>, start: int, a: Seq<u8>, b: Seq<u8>, c: Seq<u8>)
    requires
        0 <= start,
        start + a.len() + b.len() + c.len() <= whole.len(),
        whole.subrange(start, start + a.len() + b.len() + c.len()) == a + b + c,
    ensures
        whole.subrange(start, start + a.len()) == a,
        whole.subrange(start + a.len(), start + a.len() + b.len()) == b,
        whole.subrange(start + a.len() + b.len(), start + a.len() + b.len() + c.len()) == c,
{
    let la: int = a.len() as int;
    let lb: int = b.len() as int;
    let lc: int = c.len() as int;
    let window = whole.subrange(start, start + la + lb + lc);
    assert(whole.subrange(start, start + la) =~= window.subrange(0, la));
    assert(window.subrange(0, la) =~= a);
    assert(whole.subrange(start + la, start + la + lb) =~= window.subrange(la, la + lb));
    assert(window.subrange(la, la + lb) =~= b);
    assert(whole.subrange(start + la + lb, start + la + lb + lc) =~= window.subrange(
        la + lb,
        la + lb + lc,
    ));
    assert(window.subrange(la + lb, la + lb + lc) =~= c);
}

/// In the image of `files`, table entry `index` stands at its place in
/// the table, and the payload of record `index` where the entry says.
proof fn lemma_image_places(files: Seq<RecordModel>, index: int)
    requires
        all_paths_fit(files),
        fits_format(files),
        0 <= index < files.len(),
    ensures
        0 <= payload_len(files, index),
        payload_offset(files, index) + files[index].data.len() <= image(files).len(),
        HEADER_LEN + ENTRY_LEN * index + ENTRY_LEN <= image(files).len(),
        image(files).subrange(
            HEADER_LEN + ENTRY_LEN * index,
            HEADER_LEN + ENTRY_LEN * index + ENTRY_LEN,
        ) == table_entry(files, index),
        image(files).subrange(
            payload_offset(files, index),
            payload_offset(files, index) + files[index].data.len(),
        ) == files[index].data,
{
    let count: int = files.len() as int;
    let head = header(count);
    let table = joined(table_entries(files), count);
    let payloads = joined(payload_chunks(files), count);
    lemma_table_len(files, count);
    lemma_table_len(files, index);
    lemma_table_len(files, index + 1);
    lemma_joined_len(table_entries(files), count);
    lemma_joined_len(payload_chunks(files), count);
    lemma_joined_chunk_at(table_entries(files), count, index);
    lemma_joined_chunk_at(payload_chunks(files), count, index);
    lemma_payload_len_monotonic(files, 0, index);
    lemma_payload_len_monotonic(files, index + 1, count);
    assert(head.len() == HEADER_LEN);
    lemma_middle_window(head, table, payloads, ENTRY_LEN * index, ENTRY_LEN * index + ENTRY_LEN);
    lemma_last_window(
        head,
        table,
        payloads,
        payload_len(files, index),
        payload_len(files, index + 1),
    );
}

/// In the image of `files`, table entry `index` and the payload it points
/// to hold record `index`.
pub proof fn lemma_image_entry(files: Seq<RecordModel>, index: int)
    requires
        all_paths_fit(files),
        fits_format(files),
        0 <= index < files.len(),
    ensures
        entry_present(image(files), index),
        entry_offset(image(files), index) == payload_offset(files, index),
        entry_size(image(files), index) == files[index].data.len(),
        entry_path_field(image(files), index) == path_field(files[index].path),
        payload_present(image(files), index),
        window(image(files), payload_offset(files, index), files[index].data.len() as int)
            == files[index].data,
{
    let bytes = image(files);
    let start: int = HEADER_LEN + ENTRY_LEN * index;
    let offset: int = payload_offset(files, index);
    let size: int = files[index].data.len() as int;
    lemma_image_header(files);
    lemma_image_places(files, index);
    lemma_table_entry_len(files, index);
    lemma_payload_len_monotonic(files, index + 1, files.len() as int);
    assert(entry_position(bytes, index) == start);
    lemma_three_parts(
        bytes,
        start,
        spec_u32_to_le(offset),
        spec_u32_to_le(size),
        path_field(files[index].path),
    );
    lemma_u32_le_decode_encode(offset);
    lemma_u32_le_decode_encode(size);
    if size == 0 {
        assert(files[index].data =~= Seq::<u8>::empty());
    }
}

/// Round trip: where every path fits its field and holds no NUL, and the
/// lengths fit the format, the image of `files` parses to `files`: the
/// same records, in the same order, with the same paths and payloads.
pub proof fn lemma_image_parses_back(files: Seq<RecordModel>)
    requires
        all_paths_fit(files),
        no_path_has_nul(files),
        fits_format(files),
    ensures
        written(files) == Ok::<Seq<u8>, ErrorModel>(image(files)),
        parsed(image(files)) == Ok::<Seq<RecordModel>, ErrorModel>(files),
{
    let bytes = image(files);
    lemma_image_header(files);
    assert forall|i: int| 0 <= i < files.len() implies {
        &&& entry_present(bytes, i)
        &&& !entry_garbled(bytes, i)
        &&& payload_present(bytes, i)
        &&& record_at(bytes, i) == files[i]
    } by {
        lemma_image_entry(files, i);
        assert(has_no_nul(files[i].path));
        assert(path_fits(files[i].path));
        lemma_padded_text_decodes(
            files[i].path,
            (PATH_FIELD_LEN - encode_utf8(files[i].path).len()) as nat,
        );
    }
    assert(Seq::new(file_count(bytes) as nat, |i: int| record_at(bytes, i)) =~= files);
}

} // verus!
