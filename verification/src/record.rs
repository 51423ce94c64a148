//! A file record: a relative path with the bytes stored under it.

use vstd::prelude::*;
use vstd::utf8::encode_utf8;
use crate::error::{ArchiveError, ErrorModel};

verus! {

/// Width in bytes of a path field in the file table.
pub const PATH_FIELD_LEN: usize = 128;

/// A path fits when its UTF-8 encoding is no longer than a path field.
pub open spec fn path_fits(path: Seq<char>) -> bool {
    encode_utf8(path).len() <= PATH_FIELD_LEN
}

/// A path of exactly [`PATH_FIELD_LEN`] encoded bytes fits; one byte more
/// and it does not.
pub proof fn lemma_path_boundary(path: Seq<char>)
    ensures
        encode_utf8(path).len() == PATH_FIELD_LEN ==> path_fits(path),
        encode_utf8(path).len() == PATH_FIELD_LEN + 1 ==> !path_fits(path),
{
}

/// One packed file: where it lives in the archive and what it holds.
#[derive(Debug, Clone, PartialEq, Eq)]
pub struct FileRecord {
    pub path: String,
    pub data: Vec<u8>,
}

/// A [`FileRecord`] as contracts speak of it.
pub struct RecordModel {
    pub path: Seq<char>,
    pub data: Seq<u8>,
}

impl View for FileRecord {
    type V = RecordModel;

    open spec fn view(&self) -> RecordModel {
        RecordModel { path: self.path@, data: self.data@ }
    }
}

/// The one rule on path length: a path whose encoding exceeds
/// [`PATH_FIELD_LEN`] bytes is refused, and the error names it.
pub fn check_path(path: &str) -> (r: Result<(), ArchiveError>)
    ensures
        match r {
            Ok(()) => path_fits(path@),
            Err(e) => !path_fits(path@) && e@ == ErrorModel::PathTooLong(path@),
        },
{
    if path.as_bytes().len() <= PATH_FIELD_LEN {
        Ok(())
    } else {
        Err(ArchiveError::PathTooLong(path.to_owned()))
    }
}

impl FileRecord {
    /// Whether the record can be written to a file table.
    pub open spec fn wf(&self) -> bool {
        path_fits(self.path@)
    }

    /// Makes a record, refusing a path that does not fit a path field.
    pub fn new(path: String, data: Vec<u8>) -> (r: Result<FileRecord, ArchiveError>)
        ensures
            match r {
                Ok(record) => path_fits(path@) && record.wf() && record@ == (RecordModel {
                    path: path@,
                    data: data@,
                }),
                Err(e) => !path_fits(path@) && e@ == ErrorModel::PathTooLong(path@),
            },
    {
        match check_path(path.as_str()) {
            Ok(()) => Ok(FileRecord { path, data }),
            Err(e) => Err(e),
        }
    }
}

} // verus!
