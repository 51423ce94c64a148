//! The failures that reading, writing and importing an archive can report.

use vstd::prelude::*;
use vstd::string::StringExecFns;

verus! {

/// Why an archive operation failed.
#[derive(Debug, Clone, PartialEq, Eq)]
pub enum ArchiveError {
    /// The byte source ended early or could not be read.
    Io,
    /// The first four bytes are not the archive signature.
    BadSignature,
    /// The version field is not the one this format defines.
    BadVersion,
    /// A path field of the file table does not hold valid text.
    InvalidEncoding,
    /// The named path takes more bytes than a path field has.
    PathTooLong(String),
    /// A directory entry is neither a regular file nor a directory.
    UnsupportedEntry,
    /// What the caller named is not of the kind the operation needs.
    InvalidInput,
}

/// An [`ArchiveError`] as contracts speak of it.
pub enum ErrorModel {
    Io,
    BadSignature,
    BadVersion,
    InvalidEncoding,
    PathTooLong(Seq<char>),
    UnsupportedEntry,
    InvalidInput,
}

impl View for ArchiveError {
    type V = ErrorModel;

    open spec fn view(&self) -> ErrorModel {
        match self {
            ArchiveError::Io => ErrorModel::Io,
            ArchiveError::BadSignature => ErrorModel::BadSignature,
            ArchiveError::BadVersion => ErrorModel::BadVersion,
            ArchiveError::InvalidEncoding => ErrorModel::InvalidEncoding,
            ArchiveError::PathTooLong(path) => ErrorModel::PathTooLong(path@),
            ArchiveError::UnsupportedEntry => ErrorModel::UnsupportedEntry,
            ArchiveError::InvalidInput => ErrorModel::InvalidInput,
        }
    }
}

impl ArchiveError {
    /// The failure in words. A path too long is named after the colon.
    pub fn message(&self) -> (text: String)
        ensures
            text@ == match self@ {
                ErrorModel::Io => "The archive could not be read."@,
                ErrorModel::BadSignature => "Bad signature in header of GOB file."@,
                ErrorModel::BadVersion => "Bad version in header of GOB file."@,
                ErrorModel::InvalidEncoding => "A file path of the GOB file is not valid text."@,
                ErrorModel::PathTooLong(path) => "Filepath is longer than 128 bytes: "@ + path,
                ErrorModel::UnsupportedEntry => "Path is neither file nor directory."@,
                ErrorModel::InvalidInput => "Path is not of the kind required."@,
            },
    {
        match self {
            ArchiveError::Io => "The archive could not be read.".to_owned(),
            ArchiveError::BadSignature => "Bad signature in header of GOB file.".to_owned(),
            ArchiveError::BadVersion => "Bad version in header of GOB file.".to_owned(),
            ArchiveError::InvalidEncoding => "A file path of the GOB file is not valid text.".to_owned(),
            ArchiveError::PathTooLong(path) => "Filepath is longer than 128 bytes: ".to_owned().concat(
                path.as_str(),
            ),
            ArchiveError::UnsupportedEntry => "Path is neither file nor directory.".to_owned(),
            ArchiveError::InvalidInput => "Path is not of the kind required.".to_owned(),
        }
    }
}

} // verus!
