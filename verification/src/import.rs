//! Importing a directory tree as an archive.
//!
//! The library decides; the caller touches the file system. An
//! [`Importer`] says what it needs next (the entries of a directory, the
//! contents of a file), the caller fetches it and hands it back, until the
//! importer finishes with an archive or fails. Directories are walked
//! depth first, entries in the order in which they were listed, and every
//! path is relative to the root, its segments joined by `/`.

use vstd::prelude::*;
use vstd::string::StringExecFns;
use crate::archive::Gob;
use crate::error::{ArchiveError, ErrorModel};
use crate::record::{path_fits, FileRecord, RecordModel};

verus! {

/// What a directory entry is.
#[derive(Debug, Clone, Copy, PartialEq, Eq)]
pub enum EntryKind {
    /// A regular file.
    File,
    /// A directory.
    Directory,
    /// Anything else: a device, a socket, a dangling link.
    Other,
}

/// One entry of a directory listing: its name within the directory, and
/// its kind.
#[derive(Debug, Clone, PartialEq, Eq)]
pub struct DirEntry {
    pub name: String,
    pub kind: EntryKind,
}

/// A [`DirEntry`] as contracts speak of it.
pub struct EntryModel {
    pub name: Seq<char>,
    pub kind: EntryKind,
}

impl View for DirEntry {
    type V = EntryModel;

    open spec fn view(&self) -> EntryModel {
        EntryModel { name: self.name@, kind: self.kind }
    }
}

/// What the caller reports back to the importer.
#[derive(Debug, Clone, PartialEq, Eq)]
pub enum ImportEvent {
    /// The entries of the directory asked for, in listing order.
    Listed(Vec<DirEntry>),
    /// The contents of the file asked for.
    Read(Vec<u8>),
    /// What was asked for could not be fetched.
    Failed,
}

/// An [`ImportEvent`] as contracts speak of it.
pub enum EventModel {
    Listed(Seq<EntryModel>),
    Read(Seq<u8>),
    Failed,
}

impl View for ImportEvent {
    type V = EventModel;

    open spec fn view(&self) -> EventModel {
        match self {
            ImportEvent::Listed(entries) => EventModel::Listed(
                Seq::new(entries@.len(), |i: int| entries@[i]@),
            ),
            ImportEvent::Read(data) => EventModel::Read(data@),
            ImportEvent::Failed => EventModel::Failed,
        }
    }
}

/// What the importer asks of the caller, or how the import ended.
#[derive(Debug, Clone, PartialEq, Eq)]
pub enum ImportAction {
    /// List the directory at this path, relative to the root; the empty
    /// path is the root itself.
    List(String),
    /// Read the whole file at this path, relative to the root.
    Read(String),
    /// The import is complete: here is the archive.
    Finish(Gob),
    /// The import failed; nothing of it is kept.
    Fail(ArchiveError),
}

/// An [`ImportAction`] as contracts speak of it.
pub enum ActionModel {
    List(Seq<char>),
    Read(Seq<char>),
    Finish(Seq<RecordModel>),
    Fail(ErrorModel),
}

impl View for ImportAction {
    type V = ActionModel;

    open spec fn view(&self) -> ActionModel {
        match self {
            ImportAction::List(path) => ActionModel::List(path@),
            ImportAction::Read(path) => ActionModel::Read(path@),
            ImportAction::Finish(gob) => ActionModel::Finish(gob@),
            ImportAction::Fail(e) => ActionModel::Fail(e@),
        }
    }
}

/// An entry found but not visited yet: its path relative to the root, and
/// its kind.
pub struct PendingModel {
    pub path: Seq<char>,
    pub kind: EntryKind,
}

/// What an importer waits for.
pub enum AwaitingModel {
    /// The entries of the directory at this path.
    Listing(Seq<char>),
    /// The contents of the file at this path.
    Contents(Seq<char>),
    /// Nothing: the import has ended.
    Nothing,
}

/// An [`Importer`] as contracts speak of it.
pub struct ImporterModel {
    /// Entries still to visit; the next one is the last.
    pub pending: Seq<PendingModel>,
    /// The records made so far.
    pub files: Seq<RecordModel>,
    /// What the caller was asked for.
    pub awaiting: AwaitingModel,
}

/// The path of an entry called `name` in `directory`: the name alone in
/// the root, else the directory's path, a `/`, and the name.
pub open spec fn child_path(directory: Seq<char>, name: Seq<char>) -> Seq<char> {
    if directory.len() == 0 {
        name
    } else {
        directory + seq!['/'] + name
    }
}

/// The entries of `directory` as entries to visit, in listing order.
pub open spec fn children(directory: Seq<char>, entries: Seq<EntryModel>) -> Seq<PendingModel> {
    Seq::new(
        entries.len(),
        |i: int| PendingModel { path: child_path(directory, entries[i].name), kind: entries[i].kind },
    )
}

/// An importer that has ended.
pub open spec fn ended() -> ImporterModel {
    ImporterModel { pending: Seq::empty(), files: Seq::empty(), awaiting: AwaitingModel::Nothing }
}

/// Turns to the next entry to visit: asks for a file's contents or a
/// directory's entries, refuses an entry that is neither, and finishes
/// when none is left.
pub open spec fn visit_next(pending: Seq<PendingModel>, files: Seq<RecordModel>) -> (
    ImporterModel,
    ActionModel,
) {
    if pending.len() == 0 {
        (ended(), ActionModel::Finish(files))
    } else {
        let next = pending.last();
        let rest = pending.drop_last();
        match next.kind {
            EntryKind::File => (
                ImporterModel { pending: rest, files, awaiting: AwaitingModel::Contents(next.path) },
                ActionModel::Read(next.path),
            ),
            EntryKind::Directory => (
                ImporterModel { pending: rest, files, awaiting: AwaitingModel::Listing(next.path) },
                ActionModel::List(next.path),
            ),
            EntryKind::Other => (ended(), ActionModel::Fail(ErrorModel::UnsupportedEntry)),
        }
    }
}

/// How an import begins: at a root that is a directory, by listing it;
/// at anything else, by failing.
pub open spec fn begin(root: EntryKind) -> (ImporterModel, ActionModel) {
    match root {
        EntryKind::Directory => (
            ImporterModel {
                pending: Seq::empty(),
                files: Seq::empty(),
                awaiting: AwaitingModel::Listing(Seq::empty()),
            },
            ActionModel::List(Seq::empty()),
        ),
        _ => (ended(), ActionModel::Fail(ErrorModel::InvalidInput)),
    }
}

/// How an import goes on: the next state and the next action, from the
/// state and what the caller reports.
///
/// - A listing puts the directory's entries before all other pending
///   entries, the first listed to be visited first.
/// - The contents of a file make a record under the file's path, or end
///   the import where that path does not fit a path field.
/// - A failure to fetch ends the import with an I/O error.
/// - A report that does not answer what was asked ends it too.
pub open spec fn advance(state: ImporterModel, event: EventModel) -> (ImporterModel, ActionModel) {
    match (state.awaiting, event) {
        (AwaitingModel::Listing(directory), EventModel::Listed(entries)) => visit_next(
            state.pending + children(directory, entries).reverse(),
            state.files,
        ),
        (AwaitingModel::Contents(path), EventModel::Read(data)) => if path_fits(path) {
            visit_next(state.pending, state.files.push(RecordModel { path, data }))
        } else {
            (ended(), ActionModel::Fail(ErrorModel::PathTooLong(path)))
        },
        (AwaitingModel::Nothing, _) => (ended(), ActionModel::Fail(ErrorModel::InvalidInput)),
        (_, EventModel::Failed) => (ended(), ActionModel::Fail(ErrorModel::Io)),
        (_, _) => (ended(), ActionModel::Fail(ErrorModel::InvalidInput)),
    }
}

/// An entry found but not visited yet.
struct Pending {
    path: String,
    kind: EntryKind,
}

impl View for Pending {
    type V = PendingModel;

    closed spec fn view(&self) -> PendingModel {
        PendingModel { path: self.path@, kind: self.kind }
    }
}

/// What the caller was asked for.
enum Awaiting {
    Listing(String),
    Contents(String),
    Nothing,
}

impl View for Awaiting {
    type V = AwaitingModel;

    closed spec fn view(&self) -> AwaitingModel {
        match self {
            Awaiting::Listing(path) => AwaitingModel::Listing(path@),
            Awaiting::Contents(path) => AwaitingModel::Contents(path@),
            Awaiting::Nothing => AwaitingModel::Nothing,
        }
    }
}

/// The state of an import: what is still to visit, what was made so far,
/// and what the caller was asked for.
pub struct Importer {
    pending: Vec<Pending>,
    files: Vec<FileRecord>,
    awaiting: Awaiting,
}

impl View for Importer {
    type V = ImporterModel;

    closed spec fn view(&self) -> ImporterModel {
        ImporterModel {
            pending: Seq::new(self.pending@.len(), |i: int| self.pending@[i]@),
            files: Seq::new(self.files@.len(), |i: int| self.files@[i]@),
            awaiting: self.awaiting@,
        }
    }
}

/// The path of an entry called `name` in `directory`.
fn join_path(directory: &str, name: &str) -> (path: String)
    ensures
        path@ == child_path(directory@, name@),
{
    if directory.as_bytes().len() == 0 {
        proof {
            vstd::utf8::encode_utf8_decode_utf8(directory@);
            assert(directory@ =~= Seq::<char>::empty());
        }
        name.to_owned()
    } else {
        proof {
            reveal_strlit("/");
            assert("/"@ =~= seq!['/']);
            assert(directory@.len() != 0);
        }
        directory.to_owned().concat("/").concat(name)
    }
}

/// An importer that has ended.
fn ended_importer() -> (importer: Importer)
    ensures
        importer@ == ended(),
{
    let importer = Importer { pending: Vec::new(), files: Vec::new(), awaiting: Awaiting::Nothing };
    assert(importer@.pending =~= Seq::empty());
    assert(importer@.files =~= Seq::empty());
    importer
}

/// Turns to the next entry to visit.
fn visit(pending: Vec<Pending>, files: Vec<FileRecord>) -> (r: (Importer, ImportAction))
    ensures
        (r.0@, r.1@) == visit_next(
            Seq::new(pending@.len(), |i: int| pending@[i]@),
            Seq::new(files@.len(), |i: int| files@[i]@),
        ),
{
    let ghost before = Seq::new(pending@.len(), |i: int| pending@[i]@);
    let ghost made = Seq::new(files@.len(), |i: int| files@[i]@);
    let mut pending = pending;
    match pending.pop() {
        None => {
            let gob = Gob { files };
            assert(gob@ =~= made);
            (ended_importer(), ImportAction::Finish(gob))
        },
        Some(next) => {
            assert(next@ == before.last());
            let ghost rest = Seq::new(pending@.len(), |i: int| pending@[i]@);
            assert(rest =~= before.drop_last());
            match next.kind {
                EntryKind::File => {
                    let path = next.path;
                    let importer = Importer {
                        pending,
                        files,
                        awaiting: Awaiting::Contents(path.clone()),
                    };
                    assert(importer@.pending =~= rest);
                    assert(importer@.files =~= made);
                    (importer, ImportAction::Read(path))
                },
                EntryKind::Directory => {
                    let path = next.path;
                    let importer = Importer {
                        pending,
                        files,
                        awaiting: Awaiting::Listing(path.clone()),
                    };
                    assert(importer@.pending =~= rest);
                    assert(importer@.files =~= made);
                    (importer, ImportAction::List(path))
                },
                EntryKind::Other => (
                    ended_importer(),
                    ImportAction::Fail(ArchiveError::UnsupportedEntry),
                ),
            }
        },
    }
}

impl Importer {
    /// Begins an import at a root of the given kind. The root must be a
    /// directory; the first thing asked for is its listing.
    pub fn start(root: EntryKind) -> (r: (Importer, ImportAction))
        ensures
            (r.0@, r.1@) == begin(root),
    {
        match root {
            EntryKind::Directory => {
                let importer = Importer {
                    pending: Vec::new(),
                    files: Vec::new(),
                    awaiting: Awaiting::Listing(String::new()),
                };
                assert(importer@.pending =~= Seq::empty());
                assert(importer@.files =~= Seq::empty());
                (importer, ImportAction::List(String::new()))
            },
            _ => (ended_importer(), ImportAction::Fail(ArchiveError::InvalidInput)),
        }
    }

    /// Takes what the caller reports and says what to do next.
    pub fn step(self, event: ImportEvent) -> (r: (Importer, ImportAction))
        ensures
            (r.0@, r.1@) == advance(self@, event@),
    {
        let ghost state = self@;
        let Importer { pending, files, awaiting } = self;
        match (awaiting, event) {
            (Awaiting::Listing(directory), ImportEvent::Listed(entries)) => {
                let ghost listed = Seq::new(entries@.len(), |i: int| entries@[i]@);
                let ghost found = children(directory@, listed);
                let mut pending = pending;
                let mut entries = entries;
                let total: usize = entries.len();
                while entries.len() > 0
                    invariant
                        total == listed.len(),
                        entries@.len() <= total,
                        found == children(directory@, listed),
                        forall|i: int|
                            0 <= i < entries@.len() ==> (#[trigger] entries@[i])@ == listed[i],
                        pending@.len() == state.pending.len() + (total - entries@.len()),
                        forall|i: int|
                            0 <= i < state.pending.len() ==> (#[trigger] pending@[i])@
                                == state.pending[i],
                        forall|i: int|
                            state.pending.len() <= i < pending@.len() ==> (
                            #[trigger] pending@[i])@ == found[total - 1 - (i
                                - state.pending.len())],
                    decreases entries@.len(),
                {
                    let ghost left = entries@.len();
                    let entry = entries.pop().unwrap();
                    assert(entry@ == listed[left - 1]);
                    let path = join_path(directory.as_str(), entry.name.as_str());
                    pending.push(Pending { path, kind: entry.kind });
                }
                proof {
                    assert(Seq::new(pending@.len(), |i: int| pending@[i]@) =~= state.pending
                        + found.reverse());
                }
                visit(pending, files)
            },
            (Awaiting::Contents(path), ImportEvent::Read(data)) => {
                match FileRecord::new(path, data) {
                    Ok(record) => {
                        let mut files = files;
                        files.push(record);
                        proof {
                            assert(Seq::new(files@.len(), |i: int| files@[i]@)
                                =~= state.files.push(record@));
                            assert(Seq::new(pending@.len(), |i: int| pending@[i]@)
                                =~= state.pending);
                        }
                        visit(pending, files)
                    },
                    Err(e) => (ended_importer(), ImportAction::Fail(e)),
                }
            },
            (Awaiting::Nothing, _) => (
                ended_importer(),
                ImportAction::Fail(ArchiveError::InvalidInput),
            ),
            (_, ImportEvent::Failed) => (ended_importer(), ImportAction::Fail(ArchiveError::Io)),
            (_, _) => (ended_importer(), ImportAction::Fail(ArchiveError::InvalidInput)),
        }
    }
}

} // verus!
