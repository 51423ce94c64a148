use gob_rs::archive::Gob;
use gob_rs::error::ArchiveError;
use gob_rs::record::FileRecord;

fn record(path: &str, data: &[u8]) -> FileRecord {
    FileRecord::new(path.to_string(), data.to_vec()).unwrap()
}

fn two_files() -> Gob {
    Gob { files: vec![record("foo.bar", b"foobar"), record("fizz.buzz", b"fizzbuzz")] }
}

/// A hand-made archive: the table at `body`, one file `name` holding `data`
/// right after the table.
fn one_file_image(body: u32, name: &[u8], data: &[u8]) -> Vec<u8> {
    let mut bytes = Vec::new();
    bytes.extend_from_slice(b"GOB ");
    bytes.extend_from_slice(&0x14u32.to_le_bytes());
    bytes.extend_from_slice(&body.to_le_bytes());
    bytes.resize(body as usize, 0xee);
    bytes.extend_from_slice(&1u32.to_le_bytes());
    let offset = body + 4 + 136;
    bytes.extend_from_slice(&offset.to_le_bytes());
    bytes.extend_from_slice(&(data.len() as u32).to_le_bytes());
    let mut field = [0u8; 128];
    field[..name.len()].copy_from_slice(name);
    bytes.extend_from_slice(&field);
    bytes.extend_from_slice(data);
    bytes
}

#[test]
fn new_archive_has_no_files() {
    assert_eq!(Gob::new().files.len(), 0);
}

#[test]
fn archive_from_records_keeps_their_order() {
    let gob = Gob::from(vec![record("b", b"2"), record("a", b"1")]);
    assert_eq!(gob.files[0].path, "b");
    assert_eq!(gob.files[1].path, "a");
}

#[test]
fn empty_archive_is_sixteen_bytes() {
    let bytes = Gob::new().as_bytes().unwrap();
    assert_eq!(bytes, vec![0x47, 0x4f, 0x42, 0x20, 0x14, 0, 0, 0, 12, 0, 0, 0, 0, 0, 0, 0]);
    assert_eq!(Gob::from_bytes(&bytes), Ok(Gob::new()));
}

#[test]
fn header_fields_of_two_files() {
    let data = two_files().as_bytes().unwrap();
    assert_eq!(&data[..4], b"GOB ");
    assert_eq!(&data[4..8], &0x14u32.to_le_bytes());
    assert_eq!(&data[8..12], &12u32.to_le_bytes());
    assert_eq!(&data[12..16], &2u32.to_le_bytes());
}

#[test]
fn offsets_of_two_files() {
    let data = two_files().as_bytes().unwrap();
    assert_eq!(&data[16..20], &288u32.to_le_bytes());
    assert_eq!(&data[20..24], &6u32.to_le_bytes());
    assert_eq!(&data[152..156], &294u32.to_le_bytes());
    assert_eq!(&data[156..160], &8u32.to_le_bytes());
    assert_eq!(data.len(), 302);
    assert_eq!(two_files().encoded_len(), Some(302));
    assert_eq!(&data[288..294], b"foobar");
    assert_eq!(&data[294..302], b"fizzbuzz");
}

#[test]
fn path_field_is_zero_padded() {
    let data = two_files().as_bytes().unwrap();
    assert_eq!(&data[24..31], b"foo.bar");
    assert!(data[31..152].iter().all(|&b| b == 0));
    assert_eq!(&data[160..169], b"fizz.buzz");
    assert!(data[169..288].iter().all(|&b| b == 0));
}

#[test]
fn two_files_round_trip() {
    let gob = two_files();
    let bytes = gob.as_bytes().unwrap();
    assert_eq!(Gob::from_bytes(&bytes), Ok(gob));
}

#[test]
fn round_trip_keeps_duplicates_and_empty_payloads() {
    let gob = Gob {
        files: vec![
            record("dir/a.txt", b""),
            record("dir/a.txt", b"second"),
            record("h\u{e9}llo/\u{4e16}\u{754c}.bin", &[0, 1, 2, 255]),
            record("", b"nameless"),
        ],
    };
    let bytes = gob.as_bytes().unwrap();
    assert_eq!(bytes.len(), 16 + 4 * 136 + 6 + 4 + 8);
    assert_eq!(Gob::from_bytes(&bytes), Ok(gob));
}

#[test]
fn path_with_nul_is_cut_when_read_back() {
    let gob = Gob { files: vec![record("a\0b", b"x")] };
    let bytes = gob.as_bytes().unwrap();
    let back = Gob::from_bytes(&bytes).unwrap();
    assert_eq!(back.files, vec![record("a", b"x")]);
}

#[test]
fn bad_signature_is_rejected() {
    let mut bytes = two_files().as_bytes().unwrap();
    bytes[3] = b'!';
    assert_eq!(Gob::from_bytes(&bytes), Err(ArchiveError::BadSignature));
    assert_eq!(Gob::from_bytes(b"BOG \x14\0\0\0\x0c\0\0\0\0\0\0\0"), Err(ArchiveError::BadSignature));
}

#[test]
fn bad_version_is_rejected() {
    let mut bytes = Gob::new().as_bytes().unwrap();
    bytes[4] = 0x13;
    assert_eq!(Gob::from_bytes(&bytes), Err(ArchiveError::BadVersion));
    assert_eq!(Gob::from_bytes(b"GOB \x14\0\0\x01\x0c\0\0\0\0\0\0\0"), Err(ArchiveError::BadVersion));
}

#[test]
fn signature_is_judged_before_version() {
    assert_eq!(Gob::from_bytes(b"GOB!\x13\0\0\0"), Err(ArchiveError::BadSignature));
    assert_eq!(Gob::from_bytes(b"GOB!"), Err(ArchiveError::BadSignature));
}

#[test]
fn short_header_is_an_io_error() {
    assert_eq!(Gob::from_bytes(b""), Err(ArchiveError::Io));
    assert_eq!(Gob::from_bytes(b"GOB"), Err(ArchiveError::Io));
    assert_eq!(Gob::from_bytes(b"GOB "), Err(ArchiveError::Io));
    assert_eq!(Gob::from_bytes(b"GOB \x14\0\0"), Err(ArchiveError::Io));
    assert_eq!(Gob::from_bytes(b"GOB \x14\0\0\0"), Err(ArchiveError::Io));
    assert_eq!(Gob::from_bytes(b"GOB \x14\0\0\0\x0c\0\0"), Err(ArchiveError::Io));
    assert_eq!(Gob::from_bytes(b"GOB \x14\0\0\0\x0c\0\0\0"), Err(ArchiveError::Io));
    assert_eq!(Gob::from_bytes(b"GOB \x14\0\0\0\x0c\0\0\0\0\0\0"), Err(ArchiveError::Io));
}

#[test]
fn body_offset_past_the_end_is_an_io_error() {
    assert_eq!(Gob::from_bytes(b"GOB \x14\0\0\0\x0d\0\0\0\0\0\0\0"), Err(ArchiveError::Io));
    assert_eq!(
        Gob::from_bytes(b"GOB \x14\0\0\0\xff\xff\xff\xff\0\0\0\0"),
        Err(ArchiveError::Io)
    );
}

#[test]
fn truncated_table_is_an_io_error() {
    let bytes = two_files().as_bytes().unwrap();
    assert_eq!(Gob::from_bytes(&bytes[..16]), Err(ArchiveError::Io));
    assert_eq!(Gob::from_bytes(&bytes[..151]), Err(ArchiveError::Io));
    assert_eq!(Gob::from_bytes(&bytes[..287]), Err(ArchiveError::Io));
}

#[test]
fn huge_file_count_is_an_io_error() {
    assert_eq!(
        Gob::from_bytes(b"GOB \x14\0\0\0\x0c\0\0\0\xff\xff\xff\xff"),
        Err(ArchiveError::Io)
    );
}

#[test]
fn truncated_payload_is_an_io_error() {
    let bytes = two_files().as_bytes().unwrap();
    assert_eq!(Gob::from_bytes(&bytes[..288]), Err(ArchiveError::Io));
    assert_eq!(Gob::from_bytes(&bytes[..293]), Err(ArchiveError::Io));
    assert_eq!(Gob::from_bytes(&bytes[..301]), Err(ArchiveError::Io));
}

#[test]
fn path_that_is_not_text_is_rejected() {
    let bytes = one_file_image(12, &[b'a', 0xff, b'b'], b"data");
    assert_eq!(Gob::from_bytes(&bytes), Err(ArchiveError::InvalidEncoding));
}

#[test]
fn bytes_after_the_text_must_be_text_too() {
    let bytes = one_file_image(12, &[b'a', 0, 0xff], b"data");
    assert_eq!(Gob::from_bytes(&bytes), Err(ArchiveError::InvalidEncoding));
    let bytes = one_file_image(12, &[b'a', 0, b'z'], b"data");
    assert_eq!(Gob::from_bytes(&bytes).unwrap().files, vec![record("a", b"data")]);
}

#[test]
fn garbled_path_comes_before_a_truncated_table() {
    let mut bytes = two_files().as_bytes().unwrap();
    bytes[24] = 0x80;
    assert_eq!(Gob::from_bytes(&bytes[..200]), Err(ArchiveError::InvalidEncoding));
    let mut bytes = two_files().as_bytes().unwrap();
    bytes[160] = 0x80;
    assert_eq!(Gob::from_bytes(&bytes[..200]), Err(ArchiveError::Io));
    assert_eq!(Gob::from_bytes(&bytes), Err(ArchiveError::InvalidEncoding));
}

#[test]
fn garbled_path_comes_before_a_missing_payload() {
    let mut bytes = two_files().as_bytes().unwrap();
    bytes[160] = 0x80;
    bytes[16..20].copy_from_slice(&1000u32.to_le_bytes());
    assert_eq!(Gob::from_bytes(&bytes), Err(ArchiveError::InvalidEncoding));
}

#[test]
fn reader_follows_the_body_offset() {
    let bytes = one_file_image(40, b"slack.txt", b"payload");
    assert_eq!(Gob::from_bytes(&bytes).unwrap().files, vec![record("slack.txt", b"payload")]);
}

#[test]
fn reader_follows_payload_offsets() {
    let mut bytes = two_files().as_bytes().unwrap();
    bytes[16..20].copy_from_slice(&0u32.to_le_bytes());
    bytes[20..24].copy_from_slice(&4u32.to_le_bytes());
    bytes[152..156].copy_from_slice(&296u32.to_le_bytes());
    bytes[156..160].copy_from_slice(&6u32.to_le_bytes());
    let back = Gob::from_bytes(&bytes).unwrap();
    assert_eq!(back.files, vec![record("foo.bar", b"GOB "), record("fizz.buzz", b"zzbuzz")]);
}

#[test]
fn empty_payload_may_point_anywhere() {
    let mut bytes = one_file_image(12, b"empty", b"");
    bytes[16..20].copy_from_slice(&0xffff_ffffu32.to_le_bytes());
    assert_eq!(Gob::from_bytes(&bytes).unwrap().files, vec![record("empty", b"")]);
    bytes[20..24].copy_from_slice(&1u32.to_le_bytes());
    assert_eq!(Gob::from_bytes(&bytes), Err(ArchiveError::Io));
}

#[test]
fn path_of_128_bytes_fills_its_field() {
    let path = "p".repeat(128);
    let gob = Gob { files: vec![record(&path, b"full")] };
    let bytes = gob.as_bytes().unwrap();
    assert_eq!(&bytes[24..152], path.as_bytes());
    assert_eq!(&bytes[152..156], b"full");
    assert_eq!(Gob::from_bytes(&bytes), Ok(gob));
}

#[test]
fn path_of_128_bytes_in_multibyte_text_is_accepted() {
    let path = "\u{e9}".repeat(64);
    assert_eq!(path.len(), 128);
    let gob = Gob { files: vec![record(&path, b"")] };
    assert_eq!(Gob::from_bytes(&gob.as_bytes().unwrap()), Ok(gob));
}

#[test]
fn path_of_129_bytes_is_refused_by_the_constructor() {
    let path = "p".repeat(129);
    assert_eq!(
        FileRecord::new(path.clone(), b"x".to_vec()),
        Err(ArchiveError::PathTooLong(path))
    );
    let path = format!("{}a", "\u{e9}".repeat(64));
    assert_eq!(path.chars().count(), 65);
    assert_eq!(FileRecord::new(path.clone(), Vec::new()), Err(ArchiveError::PathTooLong(path)));
}

#[test]
fn path_of_129_bytes_is_refused_by_the_writer() {
    let long = "q".repeat(129);
    let longer = "r".repeat(200);
    let gob = Gob {
        files: vec![
            record("fine", b"1"),
            FileRecord { path: long.clone(), data: b"2".to_vec() },
            FileRecord { path: longer, data: b"3".to_vec() },
        ],
    };
    assert_eq!(gob.as_bytes(), Err(ArchiveError::PathTooLong(long)));
}

#[test]
fn encoded_len_counts_header_table_and_payloads() {
    assert_eq!(Gob::new().encoded_len(), Some(16));
    let gob = Gob { files: vec![record("a", &[7; 1000]), record("b", b""), record("c", b"xyz")] };
    assert_eq!(gob.encoded_len(), Some(16 + 3 * 136 + 1003));
    assert_eq!(gob.as_bytes().unwrap().len(), 16 + 3 * 136 + 1003);
}

#[test]
fn error_messages() {
    assert_eq!(ArchiveError::BadSignature.message(), "Bad signature in header of GOB file.");
    assert_eq!(ArchiveError::BadVersion.message(), "Bad version in header of GOB file.");
    assert_eq!(
        ArchiveError::PathTooLong("some/long/path".to_string()).message(),
        "Filepath is longer than 128 bytes: some/long/path"
    );
    assert_eq!(ArchiveError::UnsupportedEntry.message(), "Path is neither file nor directory.");
    assert_eq!(ArchiveError::Io.message(), "The archive could not be read.");
    assert_eq!(
        ArchiveError::InvalidEncoding.message(),
        "A file path of the GOB file is not valid text."
    );
    assert_eq!(ArchiveError::InvalidInput.message(), "Path is not of the kind required.");
}
