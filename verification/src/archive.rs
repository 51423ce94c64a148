//! The archive itself: an ordered list of file records, read from and
//! written to the byte layout.

use vstd::prelude::*;
use vstd::slice::slice_to_vec;
use crate::byte::{
    fixed_text, lemma_fixed_text_encoding, push_bytes, push_u32, push_zeros, ByteSource,
};
use crate::error::{ArchiveError, ErrorModel};
use crate::layout::{
    entry_garbled, entry_offset, entry_path_field, entry_position, entry_present, entry_size,
    file_count, fits_format, header, header_error, image_len, is_first_long_path, joined,
    lemma_payload_len_monotonic, lemma_written_fails_on, parsed, payload_chunks, payload_error,
    payload_offset, payload_present, record_at, signature, table_entries, table_entry, table_error,
    written, BODY_OFFSET, ENTRY_LEN, HEADER_LEN, VERSION,
};
use crate::record::{check_path, path_fits, FileRecord, RecordModel, PATH_FIELD_LEN};

verus! {

/// An archive: file records in the order of the file table. Two records
/// may carry the same path.
#[derive(Debug, Clone, PartialEq, Eq)]
pub struct Gob {
    pub files: Vec<FileRecord>,
}

impl View for Gob {
    type V = Seq<RecordModel>;

    open spec fn view(&self) -> Seq<RecordModel> {
        Seq::new(self.files@.len(), |i: int| self.files@[i]@)
    }
}

impl From<Vec<FileRecord>> for Gob {
    /// The archive of the given records, in their order.
    fn from(files: Vec<FileRecord>) -> (gob: Gob) {
        Gob { files }
    }
}

impl vstd::std_specs::convert::FromSpecImpl<Vec<FileRecord>> for Gob {
    open spec fn obeys_from_spec() -> bool {
        true
    }

    open spec fn from_spec(files: Vec<FileRecord>) -> Gob {
        Gob { files }
    }
}

/// One entry of the file table, kept until its payload is fetched.
struct FileDefinition {
    offset: u32,
    size: u32,
    path: String,
}

impl FileDefinition {
    /// Whether this is what entry `index` of the table in `bytes` says.
    spec fn describes(&self, bytes: Seq<u8>, index: int) -> bool {
        &&& self.offset == entry_offset(bytes, index)
        &&& self.size == entry_size(bytes, index)
        &&& self.path@ == record_at(bytes, index).path
    }
}

/// Reads and judges the header, and returns the file count, leaving the
/// source at the first table entry.
fn read_header(source: &mut ByteSource) -> (r: Result<u32, ArchiveError>)
    ensures
        final(source).bytes() == old(source).bytes(),
        match r {
            Ok(count) => {
                &&& header_error(old(source).bytes()) is None
                &&& count == file_count(old(source).bytes())
                &&& final(source).position() == entry_position(old(source).bytes(), 0)
            },
            Err(e) => header_error(old(source).bytes()) == Some(e@),
        },
{
    source.seek(0);
    let magic = match source.read_exact(4) {
        Ok(chunk) => chunk,
        Err(e) => {
            return Err(e);
        },
    };
    if magic[0] != 0x47 || magic[1] != 0x4f || magic[2] != 0x42 || magic[3] != 0x20 {
        return Err(ArchiveError::BadSignature);
    }
    assert(magic@ =~= signature());
    let version = match source.read_u32() {
        Ok(value) => value,
        Err(e) => {
            return Err(e);
        },
    };
    if version != VERSION {
        return Err(ArchiveError::BadVersion);
    }
    let body = match source.read_u32() {
        Ok(value) => value,
        Err(e) => {
            return Err(e);
        },
    };
    source.seek(body as usize);
    match source.read_u32() {
        Ok(count) => Ok(count),
        Err(e) => Err(e),
    }
}

/// Reads the `count` entries of the file table, in order, from a source
/// that stands at the first of them.
fn read_table(source: &mut ByteSource, count: u32) -> (r: Result<Vec<FileDefinition>, ArchiveError>)
    requires
        count == file_count(old(source).bytes()),
        old(source).position() == entry_position(old(source).bytes(), 0),
    ensures
        final(source).bytes() == old(source).bytes(),
        match r {
            Ok(definitions) => {
                &&& table_error(old(source).bytes()) is None
                &&& definitions@.len() == count
                &&& forall|i: int|
                    0 <= i < count ==> (#[trigger] definitions@[i]).describes(
                        old(source).bytes(),
                        i,
                    )
                &&& forall|i: int|
                    0 <= i < count ==> entry_present(old(source).bytes(), i) && !entry_garbled(
                        old(source).bytes(),
                        i,
                    )
            },
            Err(e) => table_error(old(source).bytes()) == Some(e@),
        },
{
    let ghost bytes = source.bytes();
    let mut definitions: Vec<FileDefinition> = Vec::new();
    let mut index: u32 = 0;
    while index < count
        invariant
            index <= count,
            count == file_count(bytes),
            bytes == old(source).bytes(),
            source.bytes() == bytes,
            source.position() == entry_position(bytes, index as int),
            definitions@.len() == index,
            forall|i: int| 0 <= i < index ==> (#[trigger] definitions@[i]).describes(bytes, i),
            forall|i: int|
                0 <= i < index ==> entry_present(bytes, i) && !entry_garbled(bytes, i),
        decreases count - index,
    {
        let ghost start = entry_position(bytes, index as int);
        proof {
            assert forall|i: int| index <= i < count implies entry_position(bytes, i)
                >= start by {}
        }
        let offset = match source.read_u32() {
            Ok(value) => value,
            Err(e) => {
                assert(!entry_present(bytes, index as int));
                return Err(e);
            },
        };
        let size = match source.read_u32() {
            Ok(value) => value,
            Err(e) => {
                assert(!entry_present(bytes, index as int));
                return Err(e);
            },
        };
        let field = match source.read_exact(PATH_FIELD_LEN) {
            Ok(chunk) => chunk,
            Err(e) => {
                assert(!entry_present(bytes, index as int));
                return Err(e);
            },
        };
        assert(entry_present(bytes, index as int));
        let path = match fixed_text(field) {
            Ok(text) => text,
            Err(e) => {
                assert(entry_garbled(bytes, index as int));
                return Err(e);
            },
        };
        definitions.push(FileDefinition { offset, size, path });
        index += 1;
    }
    Ok(definitions)
}

/// Fetches the payload of each table entry, in table order, and makes the
/// records.
fn read_payloads(source: &mut ByteSource, definitions: Vec<FileDefinition>) -> (r: Result<
    Vec<FileRecord>,
    ArchiveError,
>)
    requires
        definitions@.len() == file_count(old(source).bytes()),
        forall|i: int|
            0 <= i < definitions@.len() ==> (#[trigger] definitions@[i]).describes(
                old(source).bytes(),
                i,
            ),
        forall|i: int|
            0 <= i < definitions@.len() ==> entry_present(old(source).bytes(), i) && !entry_garbled(
                old(source).bytes(),
                i,
            ),
    ensures
        final(source).bytes() == old(source).bytes(),
        match r {
            Ok(files) => {
                &&& payload_error(old(source).bytes()) is None
                &&& files@.len() == definitions@.len()
                &&& forall|i: int|
                    0 <= i < files@.len() ==> (#[trigger] files@[i])@ == record_at(
                        old(source).bytes(),
                        i,
                    )
            },
            Err(e) => payload_error(old(source).bytes()) == Some(e@),
        },
{
    let ghost bytes = source.bytes();
    let mut files: Vec<FileRecord> = Vec::new();
    let mut index: usize = 0;
    while index < definitions.len()
        invariant
            index <= definitions@.len(),
            definitions@.len() == file_count(bytes),
            bytes == old(source).bytes(),
            source.bytes() == bytes,
            files@.len() == index,
            forall|i: int|
                0 <= i < definitions@.len() ==> (#[trigger] definitions@[i]).describes(bytes, i),
            forall|i: int|
                0 <= i < definitions@.len() ==> entry_present(bytes, i) && !entry_garbled(
                    bytes,
                    i,
                ),
            forall|i: int| 0 <= i < index ==> (#[trigger] files@[i])@ == record_at(bytes, i),
            forall|i: int| 0 <= i < index ==> payload_present(bytes, i),
        decreases definitions@.len() - index,
    {
        let definition = &definitions[index];
        assert(definition.describes(bytes, index as int));
        source.seek(definition.offset as usize);
        let data = match source.read_exact(definition.size as usize) {
            Ok(chunk) => slice_to_vec(chunk),
            Err(e) => {
                proof {
                    assert(!payload_present(bytes, index as int));
                }
                return Err(e);
            },
        };
        proof {
            assert(payload_present(bytes, index as int));
            assert(!entry_garbled(bytes, index as int));
            lemma_fixed_text_encoding(entry_path_field(bytes, index as int));
        }
        // A path read from a path field always fits one.
        let record = match FileRecord::new(definition.path.clone(), data) {
            Ok(record) => record,
            Err(e) => {
                return Err(e);
            },
        };
        files.push(record);
        index += 1;
    }
    Ok(files)
}

impl Gob {
    /// An archive without files.
    pub fn new() -> (gob: Gob)
        ensures
            gob@ == Seq::<RecordModel>::empty(),
    {
        Gob { files: Vec::new() }
    }

    /// Length of the archive file that [`Gob::as_bytes`] writes, or `None`
    /// where it exceeds what the 32-bit fields of the format can say.
    pub fn encoded_len(&self) -> (r: Option<u32>)
        ensures
            match r {
                Some(len) => fits_format(self@) && len == image_len(self@),
                None => !fits_format(self@),
            },
    {
        let count: usize = self.files.len();
        proof {
            lemma_payload_len_monotonic(self@, 0, count as int);
        }
        if count > (u32::MAX as usize - HEADER_LEN) / ENTRY_LEN {
            return None;
        }
        let mut total: u32 = (HEADER_LEN + ENTRY_LEN * count) as u32;
        let mut index: usize = 0;
        while index < count
            invariant
                index <= count,
                count == self.files@.len(),
                total == payload_offset(self@, index as int),
            decreases count - index,
        {
            let size: usize = self.files[index].data.len();
            proof {
                lemma_payload_len_monotonic(self@, index + 1, count as int);
            }
            if size > (u32::MAX - total) as usize {
                return None;
            }
            total += size as u32;
            index += 1;
        }
        Some(total)
    }

    /// Writes the archive as the bytes of an archive file: signature,
    /// version, body offset 12, file count, the table, then the payloads
    /// in table order.
    ///
    /// Fails on the first record, in order, whose path does not fit a
    /// path field, and names that path. The lengths must fit the 32-bit
    /// fields of the format; [`Gob::encoded_len`] tells whether they do.
    pub fn as_bytes(&self) -> (r: Result<Vec<u8>, ArchiveError>)
        requires
            fits_format(self@),
        ensures
            match r {
                Ok(bytes) => written(self@) == Ok::<Seq<u8>, ErrorModel>(bytes@),
                Err(e) => written(self@) == Err::<Seq<u8>, ErrorModel>(e@),
            },
    {
        let count: usize = self.files.len();
        proof {
            lemma_payload_len_monotonic(self@, 0, count as int);
        }
        let mut bytes: Vec<u8> = Vec::new();
        bytes.push(0x47);
        bytes.push(0x4f);
        bytes.push(0x42);
        bytes.push(0x20);
        assert(bytes@ =~= signature());
        push_u32(&mut bytes, VERSION);
        push_u32(&mut bytes, BODY_OFFSET);
        push_u32(&mut bytes, count as u32);
        let mut offset: u32 = (HEADER_LEN + ENTRY_LEN * count) as u32;
        let mut index: usize = 0;
        while index < count
            invariant
                index <= count,
                count == self.files@.len(),
                fits_format(self@),
                bytes@ == header(count as int) + joined(table_entries(self@), index as int),
                offset == payload_offset(self@, index as int),
                forall|i: int| 0 <= i < index ==> path_fits(#[trigger] self@[i].path),
            decreases count - index,
        {
            let record = &self.files[index];
            proof {
                lemma_payload_len_monotonic(self@, index + 1, count as int);
                assert(self@[index as int] == record@);
            }
            let size: u32 = record.data.len() as u32;
            push_u32(&mut bytes, offset);
            push_u32(&mut bytes, size);
            match check_path(record.path.as_str()) {
                Ok(()) => {},
                Err(e) => {
                    proof {
                        assert(is_first_long_path(self@, index as int));
                        lemma_written_fails_on(self@, index as int);
                    }
                    return Err(e);
                },
            }
            let text = record.path.as_str().as_bytes();
            push_bytes(&mut bytes, text);
            push_zeros(&mut bytes, PATH_FIELD_LEN - text.len());
            proof {
                assert(bytes@ =~= header(count as int) + joined(table_entries(self@), index as int)
                    + table_entry(self@, index as int));
                assert(bytes@ =~= header(count as int) + joined(table_entries(self@), index + 1));
            }
            offset += size;
            index += 1;
        }
        let ghost front = bytes@;
        let mut index: usize = 0;
        while index < count
            invariant
                index <= count,
                count == self.files@.len(),
                bytes@ == front + joined(payload_chunks(self@), index as int),
            decreases count - index,
        {
            let record = &self.files[index];
            proof {
                assert(self@[index as int] == record@);
            }
            push_bytes(&mut bytes, record.data.as_slice());
            proof {
                assert(bytes@ =~= front + joined(payload_chunks(self@), index + 1));
            }
            index += 1;
        }
        Ok(bytes)
    }

    /// Reads an archive from the bytes of an archive file.
    ///
    /// The header is judged first, then every table entry, then every
    /// payload; the first failure ends the reading and nothing is returned
    /// in part. The body offset of the header is followed wherever it
    /// points.
    pub fn from_bytes(bytes: &[u8]) -> (r: Result<Gob, ArchiveError>)
        ensures
            match r {
                Ok(gob) => parsed(bytes@) == Ok::<Seq<RecordModel>, ErrorModel>(gob@),
                Err(e) => parsed(bytes@) == Err::<Seq<RecordModel>, ErrorModel>(e@),
            },
    {
        let mut source = ByteSource::new(bytes);
        let count = match read_header(&mut source) {
            Ok(count) => count,
            Err(e) => {
                return Err(e);
            },
        };
        let definitions = match read_table(&mut source, count) {
            Ok(definitions) => definitions,
            Err(e) => {
                return Err(e);
            },
        };
        let files = match read_payloads(&mut source, definitions) {
            Ok(files) => files,
            Err(e) => {
                return Err(e);
            },
        };
        let gob = Gob { files };
        assert(gob@ =~= Seq::new(file_count(bytes@) as nat, |i: int| record_at(bytes@, i)));
        Ok(gob)
    }
}

} // verus!
