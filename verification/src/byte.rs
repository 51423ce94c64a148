//! Byte primitives: little-endian 32-bit integers, fixed-width text fields
//! and exact reads from a seekable byte source.

use std::string::FromUtf8Error;
use vstd::prelude::*;
use vstd::slice::{slice_subrange, slice_to_vec};
use vstd::utf8::{
    char_is_scalar, char_u32_cast, decode_utf8, decode_utf8_encode_utf8, encode_scalar,
    encode_utf8, encode_utf8_decode_utf8, encode_utf8_valid_utf8, is_char_boundary,
    is_char_boundary_iff_not_is_continuation_byte, is_char_boundary_start_end_of_seq, is_scalar,
    partial_valid_utf8, partial_valid_utf8_extend_ascii_block, valid_utf8, valid_utf8_split,
};
use crate::error::{ArchiveError, ErrorModel};

verus! {

/// The unsigned integer that four bytes encode in little-endian order.
pub open spec fn spec_u32_from_le(bytes: Seq<u8>) -> int
    recommends
        bytes.len() == 4,
{
    bytes[0] as int + 0x100 * (bytes[1] as int) + 0x1_0000 * (bytes[2] as int) + 0x100_0000 * (
    bytes[3] as int)
}

/// The four bytes that encode `value` in little-endian order.
pub open spec fn spec_u32_to_le(value: int) -> Seq<u8>
    recommends
        0 <= value <= u32::MAX,
{
    seq![
        (value % 0x100) as u8,
        (value / 0x100 % 0x100) as u8,
        (value / 0x1_0000 % 0x100) as u8,
        (value / 0x100_0000 % 0x100) as u8,
    ]
}

/// Decoding undoes encoding, for every 32-bit value.
pub proof fn lemma_u32_le_decode_encode(value: int)
    requires
        0 <= value <= u32::MAX,
    ensures
        spec_u32_to_le(value).len() == 4,
        spec_u32_from_le(spec_u32_to_le(value)) == value,
{
}

/// Encoding undoes decoding, for every four bytes.
pub proof fn lemma_u32_le_encode_decode(bytes: Seq<u8>)
    requires
        bytes.len() == 4,
    ensures
        0 <= spec_u32_from_le(bytes) <= u32::MAX,
        spec_u32_to_le(spec_u32_from_le(bytes)) == bytes,
{
    let b0: int = bytes[0] as int;
    let b1: int = bytes[1] as int;
    let b2: int = bytes[2] as int;
    let b3: int = bytes[3] as int;
    let value: int = spec_u32_from_le(bytes);
    assert(value == b0 + 0x100 * (b1 + 0x100 * (b2 + 0x100 * b3)));
    assert(value % 0x100 == b0 && value / 0x100 == b1 + 0x100 * (b2 + 0x100 * b3));
    assert(value / 0x100 % 0x100 == b1 && value / 0x1_0000 == b2 + 0x100 * b3);
    assert(value / 0x1_0000 % 0x100 == b2 && value / 0x100_0000 == b3);
    assert(spec_u32_to_le(value) =~= bytes);
}

/// Decodes four bytes as an unsigned 32-bit little-endian integer.
pub fn u32_from_le(bytes: &[u8]) -> (value: u32)
    requires
        bytes@.len() == 4,
    ensures
        value == spec_u32_from_le(bytes@),
{
    let b0: u32 = bytes[0] as u32;
    let b1: u32 = bytes[1] as u32;
    let b2: u32 = bytes[2] as u32;
    let b3: u32 = bytes[3] as u32;
    b0 + 0x100 * b1 + 0x1_0000 * b2 + 0x100_0000 * b3
}

/// Encodes an unsigned 32-bit integer as four little-endian bytes.
pub fn u32_to_le(value: u32) -> (bytes: [u8; 4])
    ensures
        bytes@ == spec_u32_to_le(value as int),
{
    let bytes: [u8; 4] = [
        (value % 0x100) as u8,
        (value / 0x100 % 0x100) as u8,
        (value / 0x1_0000 % 0x100) as u8,
        (value / 0x100_0000 % 0x100) as u8,
    ];
    assert(bytes@ =~= spec_u32_to_le(value as int));
    bytes
}

/// Appends the four little-endian bytes of `value`.
pub fn push_u32(bytes: &mut Vec<u8>, value: u32)
    ensures
        final(bytes)@ == old(bytes)@ + spec_u32_to_le(value as int),
{
    let encoded: [u8; 4] = u32_to_le(value);
    bytes.push(encoded[0]);
    bytes.push(encoded[1]);
    bytes.push(encoded[2]);
    bytes.push(encoded[3]);
    assert(bytes@ =~= old(bytes)@ + spec_u32_to_le(value as int));
}

/// `count` zero bytes.
pub open spec fn zeros(count: int) -> Seq<u8> {
    Seq::new(
        if count < 0 {
            0nat
        } else {
            count as nat
        },
        |i: int| 0u8,
    )
}

/// Appends a copy of `more`.
pub(crate) fn push_bytes(bytes: &mut Vec<u8>, more: &[u8])
    ensures
        final(bytes)@ == old(bytes)@ + more@,
{
    bytes.extend_from_slice(more);
    assert(bytes@ =~= old(bytes)@ + more@);
}

/// Appends `count` zero bytes.
pub(crate) fn push_zeros(bytes: &mut Vec<u8>, count: usize)
    ensures
        final(bytes)@ == old(bytes)@ + zeros(count as int),
{
    let mut done: usize = 0;
    while done < count
        invariant
            done <= count,
            bytes@ == old(bytes)@ + zeros(done as int),
        decreases count - done,
    {
        bytes.push(0);
        done += 1;
        assert(bytes@ =~= old(bytes)@ + zeros(done as int));
    }
}

/// `std::string::FromUtf8Error`, the error of `String::from_utf8`; nothing
/// is said of what it holds.
#[verifier::external_type_specification]
#[verifier::external_body]
pub struct ExFromUtf8Error(FromUtf8Error);

/// `String::from_utf8` succeeds exactly on well-formed UTF-8, and the string
/// it returns is made of the bytes it was given.
pub assume_specification[ String::from_utf8 ](vec: Vec<u8>) -> (r: Result<String, FromUtf8Error>)
    ensures
        r is Ok <==> valid_utf8(vec@),
        r matches Ok(text) ==> encode_utf8(text@) == vec@,
;

/// Decodes bytes as UTF-8 text.
pub fn string_from_bytes(bytes: &[u8]) -> (r: Result<String, FromUtf8Error>)
    ensures
        match r {
            Ok(text) => valid_utf8(bytes@) && text@ == decode_utf8(bytes@),
            Err(_) => !valid_utf8(bytes@),
        },
{
    let r = String::from_utf8(slice_to_vec(bytes));
    proof {
        if let Ok(text) = &r {
            encode_utf8_decode_utf8(text@);
        }
    }
    r
}

/// Whether the text of a zero-padded field stops at `end`: at the field's
/// first zero byte, or at its end when it holds none.
pub open spec fn is_text_end(field: Seq<u8>, end: int) -> bool {
    &&& 0 <= end <= field.len()
    &&& forall|i: int| 0 <= i < end ==> field[i] != 0
    &&& end < field.len() ==> field[end] == 0
}

/// Number of bytes before the first zero byte of a field; the field's
/// length when it holds none.
pub open spec fn spec_text_len(field: Seq<u8>) -> int
    decreases field.len(),
{
    if field.len() == 0 || field[0] == 0 {
        0
    } else {
        1 + spec_text_len(field.drop_first())
    }
}

/// The text of a field stops at exactly one place, and `spec_text_len` is it.
pub proof fn lemma_text_len_unique(field: Seq<u8>, end: int)
    requires
        is_text_end(field, end),
    ensures
        spec_text_len(field) == end,
    decreases field.len(),
{
    if end > 0 {
        let rest = field.drop_first();
        assert forall|i: int| 0 <= i < end - 1 implies rest[i] != 0 by {
            assert(rest[i] == field[i + 1]);
        }
        lemma_text_len_unique(rest, end - 1);
    }
}

/// `spec_text_len` is where the text of the field stops.
pub proof fn lemma_text_len_is_end(field: Seq<u8>)
    ensures
        is_text_end(field, spec_text_len(field)),
    decreases field.len(),
{
    if field.len() != 0 && field[0] != 0 {
        let rest = field.drop_first();
        lemma_text_len_is_end(rest);
        let end: int = spec_text_len(field);
        assert forall|i: int| 0 <= i < end implies field[i] != 0 by {
            if i > 0 {
                assert(field[i] == rest[i - 1]);
            }
        }
        if end < field.len() {
            assert(field[end] == rest[end - 1]);
        }
    }
}

/// What a fixed-width text field says: its bytes up to the first zero byte,
/// decoded as UTF-8.
pub open spec fn spec_fixed_text(field: Seq<u8>) -> Seq<char> {
    decode_utf8(field.take(spec_text_len(field)))
}

/// The text of a valid field encodes to the bytes before the field's first
/// zero byte, so it is never longer than the field.
pub proof fn lemma_fixed_text_encoding(field: Seq<u8>)
    requires
        valid_utf8(field),
    ensures
        is_char_boundary(field, spec_text_len(field)),
        valid_utf8(field.take(spec_text_len(field))),
        encode_utf8(spec_fixed_text(field)) == field.take(spec_text_len(field)),
        encode_utf8(spec_fixed_text(field)).len() <= field.len(),
{
    let end: int = spec_text_len(field);
    lemma_text_len_is_end(field);
    if end < field.len() {
        is_char_boundary_iff_not_is_continuation_byte(field, end);
    } else {
        is_char_boundary_start_end_of_seq(field);
    }
    valid_utf8_split(field, end);
    decode_utf8_encode_utf8(field.take(end));
}

/// Whether a text is free of the NUL character, which ends the text of a
/// path field.
pub open spec fn has_no_nul(text: Seq<char>) -> bool {
    forall|i: int| 0 <= i < text.len() ==> text[i] != '\0'
}

/// No byte of the encoding of a scalar other than zero is zero.
proof fn lemma_scalar_bytes_nonzero(scalar: u32)
    requires
        is_scalar(scalar),
        scalar != 0,
    ensures
        forall|i: int| 0 <= i < encode_scalar(scalar).len() ==> encode_scalar(scalar)[i] != 0,
{
    assert(0 < scalar <= 0x7f ==> (scalar & 0x7F) as u8 != 0) by (bit_vector);
    assert((0xC0u8 | ((scalar >> 6) & 0x1F) as u8) != 0) by (bit_vector);
    assert((0xE0u8 | ((scalar >> 12) & 0x0F) as u8) != 0) by (bit_vector);
    assert((0xF0u8 | ((scalar >> 18) & 0x7) as u8) != 0) by (bit_vector);
    assert((0x80u8 | (scalar & 0x3F) as u8) != 0) by (bit_vector);
    assert((0x80u8 | ((scalar >> 6) & 0x3F) as u8) != 0) by (bit_vector);
    assert((0x80u8 | ((scalar >> 12) & 0x3F) as u8) != 0) by (bit_vector);
}

/// The encoding of a text without NUL holds no zero byte.
pub proof fn lemma_encoding_has_no_zero(text: Seq<char>)
    requires
        has_no_nul(text),
    ensures
        forall|i: int| 0 <= i < encode_utf8(text).len() ==> encode_utf8(text)[i] != 0,
    decreases text.len(),
{
    if text.len() > 0 {
        let first: u32 = text[0] as u32;
        let rest = text.drop_first();
        char_is_scalar(text[0]);
        assert(first != 0) by {
            char_u32_cast(text[0], first);
            assert(text[0] != '\0');
            assert(0u32 as char == '\0');
        }
        lemma_scalar_bytes_nonzero(first);
        assert forall|i: int| 0 <= i < rest.len() implies rest[i] != '\0' by {
            assert(rest[i] == text[i + 1]);
        }
        lemma_encoding_has_no_zero(rest);
        let head = encode_scalar(first);
        let tail = encode_utf8(rest);
        assert(encode_utf8(text) == head + tail);
        assert forall|i: int| 0 <= i < encode_utf8(text).len() implies encode_utf8(text)[i]
            != 0 by {
            if i < head.len() {
                assert((head + tail)[i] == head[i]);
            } else {
                assert((head + tail)[i] == tail[i - head.len()]);
            }
        }
    }
}

/// A path field holding text and then zero bytes decodes to the text
/// alone, whatever the amount of padding.
pub proof fn lemma_padded_text_decodes(text: Seq<char>, padding: nat)
    requires
        has_no_nul(text),
    ensures
        valid_utf8(encode_utf8(text) + zeros(padding as int)),
        spec_text_len(encode_utf8(text) + zeros(padding as int)) == encode_utf8(text).len(),
        spec_fixed_text(encode_utf8(text) + zeros(padding as int)) == text,
{
    let encoded = encode_utf8(text);
    let field = encoded + zeros(padding as int);
    let end: int = encoded.len() as int;
    lemma_encoding_has_no_zero(text);
    encode_utf8_valid_utf8(text);
    assert(field.subrange(0, end) =~= encoded);
    assert(partial_valid_utf8(field, end));
    partial_valid_utf8_extend_ascii_block(field, end, field.len() as int);
    assert(field.subrange(0, field.len() as int) =~= field);
    assert(is_text_end(field, end));
    lemma_text_len_unique(field, end);
    assert(field.take(end) =~= encoded);
    encode_utf8_decode_utf8(text);
}

/// Finds where the text of a zero-padded field stops.
pub fn text_len(field: &[u8]) -> (end: usize)
    ensures
        end == spec_text_len(field@),
        is_text_end(field@, end as int),
{
    let mut end: usize = 0;
    while end < field.len() && field[end] != 0
        invariant
            end <= field@.len(),
            forall|i: int| 0 <= i < end ==> field@[i] != 0,
        decreases field@.len() - end,
    {
        end += 1;
    }
    proof {
        lemma_text_len_unique(field@, end as int);
    }
    end
}

/// Decodes a fixed-width text field. The whole field must be valid UTF-8;
/// the text is what stands before its first zero byte.
pub fn fixed_text(field: &[u8]) -> (r: Result<String, ArchiveError>)
    ensures
        match r {
            Ok(text) => valid_utf8(field@) && text@ == spec_fixed_text(field@),
            Err(e) => !valid_utf8(field@) && e@ == ErrorModel::InvalidEncoding,
        },
{
    match string_from_bytes(field) {
        Err(_) => Err(ArchiveError::InvalidEncoding),
        Ok(whole) => {
            let end = text_len(field);
            proof {
                decode_utf8_encode_utf8(field@);
                lemma_fixed_text_encoding(field@);
            }
            let (text, _) = whole.as_str().split_at(end);
            proof {
                encode_utf8_decode_utf8(text@);
            }
            Ok(text.to_owned())
        },
    }
}

/// Whether `count` bytes can be read at `position`. A read of no bytes
/// succeeds wherever the position stands.
pub open spec fn readable(bytes: Seq<u8>, position: int, count: int) -> bool {
    count == 0 || position + count <= bytes.len()
}

/// The bytes that a read of `count` bytes at `position` yields.
pub open spec fn window(bytes: Seq<u8>, position: int, count: int) -> Seq<u8> {
    if count == 0 {
        Seq::empty()
    } else {
        bytes.subrange(position, position + count)
    }
}

/// A seekable byte source held in memory: the bytes, and the position at
/// which the next read starts. The position may stand past the end.
pub struct ByteSource<'a> {
    bytes: &'a [u8],
    position: usize,
}

impl<'a> ByteSource<'a> {
    /// All the bytes of the source.
    pub closed spec fn bytes(&self) -> Seq<u8> {
        self.bytes@
    }

    /// Where the next read starts.
    pub closed spec fn position(&self) -> int {
        self.position as int
    }

    /// A source over `bytes`, positioned at their start.
    pub fn new(bytes: &'a [u8]) -> (source: Self)
        ensures
            source.bytes() == bytes@,
            source.position() == 0,
    {
        ByteSource { bytes, position: 0 }
    }

    /// Moves to an absolute position, which may lie past the end.
    pub fn seek(&mut self, position: usize)
        ensures
            final(self).bytes() == old(self).bytes(),
            final(self).position() == position,
    {
        self.position = position;
    }

    /// Reads exactly `count` bytes and moves past them, or fails with
    /// [`ArchiveError::Io`] and stays in place: never a short read.
    pub fn read_exact(&mut self, count: usize) -> (r: Result<&'a [u8], ArchiveError>)
        ensures
            final(self).bytes() == old(self).bytes(),
            match r {
                Ok(chunk) => {
                    &&& readable(old(self).bytes(), old(self).position(), count as int)
                    &&& chunk@ == window(old(self).bytes(), old(self).position(), count as int)
                    &&& final(self).position() == old(self).position() + count
                },
                Err(e) => {
                    &&& !readable(old(self).bytes(), old(self).position(), count as int)
                    &&& e@ == ErrorModel::Io
                    &&& final(self).position() == old(self).position()
                },
            },
    {
        let len: usize = self.bytes.len();
        if count == 0 {
            Ok(slice_subrange(self.bytes, 0, 0))
        } else if self.position <= len && count <= len - self.position {
            let start: usize = self.position;
            self.position = start + count;
            Ok(slice_subrange(self.bytes, start, start + count))
        } else {
            Err(ArchiveError::Io)
        }
    }

    /// Reads four bytes as an unsigned 32-bit little-endian integer.
    pub fn read_u32(&mut self) -> (r: Result<u32, ArchiveError>)
        ensures
            final(self).bytes() == old(self).bytes(),
            match r {
                Ok(value) => {
                    &&& readable(old(self).bytes(), old(self).position(), 4)
                    &&& value == spec_u32_from_le(window(old(self).bytes(), old(self).position(), 4))
                    &&& final(self).position() == old(self).position() + 4
                },
                Err(e) => {
                    &&& !readable(old(self).bytes(), old(self).position(), 4)
                    &&& e@ == ErrorModel::Io
                    &&& final(self).position() == old(self).position()
                },
            },
    {
        match self.read_exact(4) {
            Ok(chunk) => Ok(u32_from_le(chunk)),
            Err(e) => Err(e),
        }
    }
}

} // verus!
