use tarpdate::archive::{walk_image, Archive, MAGIC_NUMBER};
use tarpdate::entry::SeekFrom;
use tarpdate::error::{DecodeError, ErrorKind, TocEntryNotFoundReason};
use tarpdate::header::{FileType, Metadata, Timestamp};
use tarpdate::safepath::SafePathBuf;

fn file_meta(size: usize) -> Metadata {
    Metadata {
        file_type: FileType::File,
        size: size as u128,
        permissions: 0,
        modified: None,
        accessed: None,
        created: None,
    }
}

fn build(items: &[(&str, &[u8])]) -> Archive {
    let archive = Archive::create("test.t".to_string());
    let mut builder = archive.builder();
    for (name, content) in items {
        builder.append(name, file_meta(content.len()), &content.to_vec()).unwrap();
    }
    builder.finalise()
}

fn names(archive: &Archive) -> Vec<String> {
    let mut it = archive.iter();
    let mut v = Vec::new();
    while let Some(e) = it.next() {
        v.push(e.path().to_string());
    }
    v.sort();
    v
}

#[test]
fn archive_test() {
    let archive = build(&[("./a", b"abcdef"), ("./b", b"0123456789")]);

    let mut it = archive.iter();
    let mut seen = 0;
    while let Some(mut entry) = it.next() {
        assert_eq!(entry.seek(SeekFrom::Start(3)), 3);
        let data = entry.read_to_end();
        if entry.path() == "./a" {
            assert_eq!(data, b"def".to_vec());
        } else {
            assert_eq!(entry.path(), "./b");
            assert_eq!(data, b"3456789".to_vec());
        }
        seen += 1;
    }
    assert_eq!(seen, 2);

    let a = archive.get("./a").unwrap();
    assert_eq!(a.header().len(), 6);

    let mut archive = archive;
    archive.remove("./b").unwrap();
    assert_eq!(names(&archive), vec!["./a".to_string()]);
    let mut it = archive.iter();
    let mut e = it.next().unwrap();
    assert_eq!(e.read_to_end(), b"abcdef".to_vec());
    assert!(it.next().is_none());

    let records = archive.bytes()[..archive.toc_offset() as usize].to_vec();
    assert_eq!(walk_image(&records).unwrap(), vec![32, 32 + 24 + 6]);
}

#[test]
fn safe_path() {
    SafePathBuf::try_from("things/stuff\\f").unwrap();
    assert!(SafePathBuf::try_from("/dfd/../sdf").is_err());
}

#[test]
fn unsafe_archive() {
    assert!(Archive::open("./test/unsafe archive.t".to_string(), b"not an archive".to_vec()).is_err());
}

#[test]
fn concrete_scenario() {
    let archive = build(&[("/x", b"hi"), ("/y", b"world!")]);
    let reopened = Archive::open("A".to_string(), archive.bytes().clone()).unwrap();
    let mut x = reopened.get("/x").unwrap();
    assert_eq!(x.header().len(), 2);
    assert_eq!(x.read_to_end(), b"hi".to_vec());
    let mut y = reopened.get("/y").unwrap();
    assert_eq!(y.header().len(), 6);
    assert_eq!(y.read_to_end(), b"world!".to_vec());
    assert_eq!(names(&reopened), vec!["/x".to_string(), "/y".to_string()]);

    let mut reopened = reopened;
    reopened.remove("/x").unwrap();
    let again = Archive::open("A".to_string(), reopened.bytes().clone()).unwrap();
    assert_eq!(names(&again), vec!["/y".to_string()]);
}

#[test]
fn round_trip_keeps_content_and_size() {
    let items: Vec<(&str, &[u8])> = vec![("one", b""), ("dir/two", b"2"), ("three", b"three bytes?")];
    let archive = build(&items);
    let reopened = Archive::open("r".to_string(), archive.bytes().clone()).unwrap();
    assert_eq!(reopened.table().len(), 3);
    for (name, content) in &items {
        let mut e = reopened.get(name).unwrap();
        assert_eq!(e.header().len(), content.len() as u128);
        assert_eq!(e.read_to_end(), content.to_vec());
    }
}

#[test]
fn conflict_rejected_and_archive_unchanged() {
    let archive = Archive::create("c".to_string());
    let mut builder = archive.builder();
    builder.append("n", file_meta(3), &b"abc".to_vec()).unwrap();
    let err = builder.append("n", file_meta(2), &b"de".to_vec()).unwrap_err();
    assert_eq!(err.kind, ErrorKind::PathConflict("n".to_string()));
    let archive = builder.finalise();
    assert_eq!(archive.table().len(), 1);
    let reopened = Archive::open("c".to_string(), archive.bytes().clone()).unwrap();
    assert_eq!(reopened.get("n").unwrap().read_to_end(), b"abc".to_vec());
}

#[test]
fn conflict_leaves_file_length() {
    let archive = Archive::create("c".to_string());
    let mut builder = archive.builder();
    builder.append("n", file_meta(3), &b"abc".to_vec()).unwrap();
    let before = builder.finalise();
    let len = before.bytes().len();
    let mut builder = before.builder();
    assert!(builder.append("n", file_meta(1), &b"z".to_vec()).is_err());
    let after = builder.finalise();
    assert_eq!(after.bytes().len(), len);
}

#[test]
fn unsafe_names_rejected() {
    let archive = Archive::create("u".to_string());
    let mut builder = archive.builder();
    for name in ["..", "../x", "a/../b", "a/..", "/.."] {
        let err = builder.append(name, file_meta(1), &b"q".to_vec()).unwrap_err();
        assert_eq!(err.kind, ErrorKind::UnsafePath(name.to_string()));
    }
    for name in ["...", "a..b", "..a", "a/.../b", "sp ace/\\tab", "ünïcödé"] {
        builder.append(name, file_meta(1), &b"q".to_vec()).unwrap();
    }
    let archive = builder.finalise();
    assert_eq!(archive.table().len(), 6);
}

#[test]
fn removal_hides_name_but_keeps_record() {
    let mut archive = build(&[("keep", b"k"), ("gone", b"gg")]);
    archive.remove("gone").unwrap();
    let err = archive.get("gone").unwrap_err();
    assert_eq!(err.kind, ErrorKind::NotFound("gone".to_string()));
    assert_eq!(names(&archive), vec!["keep".to_string()]);
    let err = archive.remove("gone").unwrap_err();
    assert_eq!(err.kind, ErrorKind::NotFound("gone".to_string()));
    // Both records are still there, in file order, before the table.
    let records = archive.bytes()[..archive.toc_offset() as usize].to_vec();
    assert_eq!(walk_image(&records).unwrap(), vec![32, 32 + 24 + 1]);
}

#[test]
fn bad_magic_number_reported() {
    let archive = build(&[("m", b"mm")]);
    let mut bytes = archive.bytes().clone();
    for b in bytes.iter_mut().take(16) {
        *b = 0x11;
    }
    let err = Archive::open("m".to_string(), bytes.clone()).unwrap_err();
    assert_eq!(err.kind, ErrorKind::BadMagicNumber(0x11111111111111111111111111111111));
    assert_eq!(bytes[16..], archive.bytes()[16..]);
}

#[test]
fn walk_recovers_records_without_table() {
    let archive = build(&[("a", b"aaa"), ("b", b""), ("c", b"cccccc")]);
    let cut = archive.bytes()[..archive.toc_offset() as usize].to_vec();
    // With the table gone the archive no longer opens, but the records are found.
    assert!(Archive::open("w".to_string(), cut.clone()).is_err());
    let mut offsets = Vec::new();
    for name in ["a", "b", "c"] {
        let e = archive.get(name).unwrap();
        offsets.push(e.file_offset() - 24);
    }
    assert_eq!(offsets, vec![32, 32 + 27, 32 + 27 + 24]);
    assert_eq!(walk_image(&cut).unwrap(), offsets);
    // A record cut short at the end is left out.
    assert_eq!(walk_image(&cut[..cut.len() - 1].to_vec()).unwrap(), vec![32, 32 + 27]);
}

#[test]
fn empty_archive_layout() {
    let archive = Archive::create("e".to_string());
    let bytes = archive.bytes().clone();
    assert_eq!(bytes.len(), 40);
    assert_eq!(bytes[..16], MAGIC_NUMBER.to_le_bytes());
    assert_eq!(bytes[16..32], 32u128.to_le_bytes());
    assert_eq!(bytes[32..], [0u8; 8]);
    assert_eq!(archive.toc_offset(), 32);
    let reopened = Archive::open("e".to_string(), bytes).unwrap();
    assert_eq!(reopened.table().len(), 0);
    assert!(walk_image(&reopened.bytes()[..32].to_vec()).unwrap().is_empty());
}

#[test]
fn member_record_layout() {
    let meta = Metadata {
        file_type: FileType::SystemLink,
        size: 2,
        permissions: 1,
        modified: Some(Timestamp { secs_since_epoch: 5, nanos_since_epoch: 7 }),
        accessed: None,
        created: None,
    };
    let mut builder = Archive::create("l".to_string()).builder();
    builder.append("k", meta, &b"zz".to_vec()).unwrap();
    let archive = builder.finalise();
    let b = archive.bytes();
    assert_eq!(b[32..36], [2, 0, 0, 0]);
    assert_eq!(b[36..52], 2u128.to_le_bytes());
    assert_eq!(b[52], 1);
    assert_eq!(b[53], 1);
    assert_eq!(b[54..62], 5u64.to_le_bytes());
    assert_eq!(b[62..66], 7u32.to_le_bytes());
    assert_eq!(b[66..68], [0, 0]);
    assert_eq!(b[68..70], *b"zz");
    assert_eq!(archive.toc_offset(), 70);
    assert_eq!(b[70..78], 1u64.to_le_bytes());
    assert_eq!(b[78..86], 1u64.to_le_bytes());
    assert_eq!(b[86], b'k');
    assert_eq!(b[87..103], 32u128.to_le_bytes());
    assert_eq!(b.len(), 103);
    let reopened = Archive::open("l".to_string(), b.clone()).unwrap();
    assert_eq!(*reopened.get("k").unwrap().header(), meta);
}

#[test]
fn toc_errors() {
    let archive = build(&[("t", b"tt")]);
    let good = archive.bytes().clone();

    let mut past = good.clone();
    past[16..32].copy_from_slice(&1000u128.to_le_bytes());
    let err = Archive::open("t".to_string(), past).unwrap_err();
    assert_eq!(
        err.kind,
        ErrorKind::TocEntryNotFound(TocEntryNotFoundReason::TocOffsetPastEOF(1000, good.len() as u128))
    );

    let mut short = good.clone();
    short.pop();
    let err = Archive::open("t".to_string(), short).unwrap_err();
    assert_eq!(
        err.kind,
        ErrorKind::TocEntryNotFound(TocEntryNotFoundReason::CouldNotDeserialiseToc(DecodeError::UnexpectedEof))
    );

    let mut extra = good.clone();
    extra.push(0);
    let err = Archive::open("t".to_string(), extra).unwrap_err();
    assert_eq!(err.kind, ErrorKind::DataPastToc(good.len() as u128, good.len() as u128 + 1));

    let err = Archive::open("t".to_string(), good[..20].to_vec()).unwrap_err();
    assert_eq!(err.kind, ErrorKind::Decode(DecodeError::UnexpectedEof));
}

#[test]
fn toc_with_unsafe_name_is_invalid() {
    let archive = build(&[("ab", b"x")]);
    let mut bytes = archive.bytes().clone();
    let at = archive.toc_offset() as usize + 16;
    bytes[at] = b'.';
    bytes[at + 1] = b'.';
    let err = Archive::open("t".to_string(), bytes).unwrap_err();
    assert_eq!(
        err.kind,
        ErrorKind::TocEntryNotFound(TocEntryNotFoundReason::CouldNotDeserialiseToc(DecodeError::InvalidData))
    );
}

#[test]
fn toc_entry_pointing_nowhere_is_rejected() {
    let archive = build(&[("ab", b"x")]);
    let mut bytes = archive.bytes().clone();
    let at = archive.toc_offset() as usize + 18;
    bytes[at..at + 16].copy_from_slice(&3u128.to_le_bytes());
    let err = Archive::open("t".to_string(), bytes).unwrap_err();
    assert_eq!(err.kind, ErrorKind::Decode(DecodeError::InvalidData));
}

#[test]
fn walk_fails_on_invalid_record() {
    let archive = build(&[("v", b"v"), ("w", b"w")]);
    let mut bytes = archive.bytes()[..archive.toc_offset() as usize].to_vec();
    bytes[32 + 25] = 9;
    let err = walk_image(&bytes).unwrap_err();
    assert_eq!(err.kind, ErrorKind::Decode(DecodeError::InvalidData));
}

#[test]
fn seek_is_clamped() {
    let archive = build(&[("s", b"0123456789")]);
    let mut e = archive.get("s").unwrap();
    assert_eq!(e.seek(SeekFrom::Start(20)), 10);
    assert!(e.read(4).is_empty());
    assert_eq!(e.seek(SeekFrom::End(-3)), 7);
    assert_eq!(e.read(2), b"78".to_vec());
    assert_eq!(e.seek(SeekFrom::Current(-5)), 4);
    assert_eq!(e.read(100), b"456789".to_vec());
    assert_eq!(e.seek(SeekFrom::Current(-100)), 0);
    assert_eq!(e.seek(SeekFrom::End(5)), 10);
    assert_eq!(e.seek(SeekFrom::Start(0)), 0);
    assert_eq!(e.read(3), b"012".to_vec());
}

#[test]
fn safe_path_keeps_the_name() {
    let p = SafePathBuf::try_from("a/b.c").unwrap();
    assert_eq!(p.as_path(), "a/b.c");
    let err = SafePathBuf::try_from("..").unwrap_err();
    assert_eq!(err.kind, ErrorKind::UnsafePath("..".to_string()));
    assert_eq!(err.message(), "illegal parent directory (..) in path");
}
