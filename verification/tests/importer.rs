use gob_rs::archive::Gob;
use gob_rs::error::ArchiveError;
use gob_rs::import::{DirEntry, EntryKind, ImportAction, ImportEvent, Importer};
use gob_rs::record::FileRecord;

fn file(name: &str) -> DirEntry {
    DirEntry { name: name.to_string(), kind: EntryKind::File }
}

fn dir(name: &str) -> DirEntry {
    DirEntry { name: name.to_string(), kind: EntryKind::Directory }
}

fn record(path: &str, data: &[u8]) -> FileRecord {
    FileRecord { path: path.to_string(), data: data.to_vec() }
}

/// Drives an import over a tree given as listings and file contents, and
/// returns how it ended with the actions it took.
fn run(
    listings: &[(&str, Vec<DirEntry>)],
    contents: &[(&str, &[u8])],
) -> (Result<Gob, ArchiveError>, Vec<String>) {
    let mut log = Vec::new();
    let (mut importer, mut action) = Importer::start(EntryKind::Directory);
    loop {
        let event = match action {
            ImportAction::List(path) => {
                log.push(format!("list {path}"));
                match listings.iter().find(|(p, _)| *p == path) {
                    Some((_, entries)) => ImportEvent::Listed(entries.clone()),
                    None => ImportEvent::Failed,
                }
            }
            ImportAction::Read(path) => {
                log.push(format!("read {path}"));
                match contents.iter().find(|(p, _)| *p == path) {
                    Some((_, data)) => ImportEvent::Read(data.to_vec()),
                    None => ImportEvent::Failed,
                }
            }
            ImportAction::Finish(gob) => return (Ok(gob), log),
            ImportAction::Fail(e) => return (Err(e), log),
        };
        (importer, action) = importer.step(event);
    }
}

#[test]
fn import_starts_by_listing_the_root() {
    let (_, action) = Importer::start(EntryKind::Directory);
    assert_eq!(action, ImportAction::List(String::new()));
}

#[test]
fn import_needs_a_directory() {
    let (_, action) = Importer::start(EntryKind::File);
    assert_eq!(action, ImportAction::Fail(ArchiveError::InvalidInput));
    let (_, action) = Importer::start(EntryKind::Other);
    assert_eq!(action, ImportAction::Fail(ArchiveError::InvalidInput));
}

#[test]
fn empty_directory_gives_an_empty_archive() {
    let (result, log) = run(&[("", vec![])], &[]);
    assert_eq!(result, Ok(Gob::new()));
    assert_eq!(log, vec!["list "]);
}

#[test]
fn directory_round_trip() {
    let (result, _) = run(
        &[("", vec![dir("a"), file("c.txt")]), ("a", vec![file("b.txt")])],
        &[("a/b.txt", b"hello"), ("c.txt", b"world")],
    );
    let gob = result.unwrap();
    assert_eq!(gob.files, vec![record("a/b.txt", b"hello"), record("c.txt", b"world")]);
    let bytes = gob.as_bytes().unwrap();
    assert_eq!(Gob::from_bytes(&bytes), Ok(gob));
}

#[test]
fn import_walks_depth_first_in_listing_order() {
    let (result, log) = run(
        &[
            ("", vec![file("z"), dir("m"), file("a")]),
            ("m", vec![dir("deep"), file("y"), dir("void")]),
            ("m/deep", vec![file("x")]),
            ("m/void", vec![]),
        ],
        &[("z", b"1"), ("m/deep/x", b"2"), ("m/y", b"3"), ("a", b"4")],
    );
    assert_eq!(
        log,
        vec![
            "list ",
            "read z",
            "list m",
            "list m/deep",
            "read m/deep/x",
            "read m/y",
            "list m/void",
            "read a"
        ]
    );
    assert_eq!(
        result.unwrap().files,
        vec![record("z", b"1"), record("m/deep/x", b"2"), record("m/y", b"3"), record("a", b"4")]
    );
}

#[test]
fn entry_that_is_neither_file_nor_directory_is_refused() {
    let other = DirEntry { name: "socket".to_string(), kind: EntryKind::Other };
    let (result, log) =
        run(&[("", vec![file("first"), other, file("last")])], &[("first", b"1"), ("last", b"2")]);
    assert_eq!(result, Err(ArchiveError::UnsupportedEntry));
    assert_eq!(log, vec!["list ", "read first"]);
}

#[test]
fn unreadable_file_is_an_io_error() {
    let (result, _) = run(&[("", vec![file("gone")])], &[]);
    assert_eq!(result, Err(ArchiveError::Io));
}

#[test]
fn unlistable_directory_is_an_io_error() {
    let (result, _) = run(&[("", vec![dir("locked")])], &[]);
    assert_eq!(result, Err(ArchiveError::Io));
    let (result, _) = run(&[], &[]);
    assert_eq!(result, Err(ArchiveError::Io));
}

#[test]
fn relative_path_of_128_bytes_is_imported() {
    let name = "n".repeat(126);
    let path = format!("d/{name}");
    assert_eq!(path.len(), 128);
    let (result, _) = run(
        &[("", vec![dir("d")]), ("d", vec![file(&name)])],
        &[(path.as_str(), b"fits")],
    );
    assert_eq!(result.unwrap().files, vec![record(&path, b"fits")]);
}

#[test]
fn relative_path_of_129_bytes_fails_the_import() {
    let name = "n".repeat(127);
    let path = format!("d/{name}");
    assert_eq!(path.len(), 129);
    let (result, log) = run(
        &[("", vec![file("ok"), dir("d")]), ("d", vec![file(&name)])],
        &[("ok", b"kept?"), (path.as_str(), b"too long")],
    );
    assert_eq!(result, Err(ArchiveError::PathTooLong(path.clone())));
    assert_eq!(log.last().unwrap(), &format!("read {path}"));
}

#[test]
fn report_that_answers_nothing_asked_fails_the_import() {
    let (importer, _) = Importer::start(EntryKind::Directory);
    let (importer, action) = importer.step(ImportEvent::Read(b"data".to_vec()));
    assert_eq!(action, ImportAction::Fail(ArchiveError::InvalidInput));
    let (_, action) = importer.step(ImportEvent::Listed(vec![]));
    assert_eq!(action, ImportAction::Fail(ArchiveError::InvalidInput));

    let (importer, _) = Importer::start(EntryKind::Directory);
    let (importer, action) = importer.step(ImportEvent::Listed(vec![file("f")]));
    assert_eq!(action, ImportAction::Read("f".to_string()));
    let (_, action) = importer.step(ImportEvent::Listed(vec![]));
    assert_eq!(action, ImportAction::Fail(ArchiveError::InvalidInput));
}

#[test]
fn ended_import_stays_ended() {
    let (importer, _) = Importer::start(EntryKind::Directory);
    let (importer, action) = importer.step(ImportEvent::Listed(vec![]));
    assert_eq!(action, ImportAction::Finish(Gob::new()));
    let (importer, action) = importer.step(ImportEvent::Failed);
    assert_eq!(action, ImportAction::Fail(ArchiveError::InvalidInput));
    let (_, action) = importer.step(ImportEvent::Read(vec![]));
    assert_eq!(action, ImportAction::Fail(ArchiveError::InvalidInput));
}
