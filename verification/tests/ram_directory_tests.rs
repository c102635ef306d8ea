use tantivy::{DirError, Directory, RAMDirectory};

#[test]
fn test_persist() {
    let msg: &'static [u8] = b"sequential is the way";
    let mut directory = RAMDirectory::create();
    let mut wrt = directory.open_write("seq").unwrap();
    assert!(wrt.write(msg).is_ok());
    assert!(wrt.flush(&mut directory).is_ok());

    let mut directory_copy = RAMDirectory::create();
    assert!(directory.persist(&mut directory_copy).is_ok());
    assert_eq!(directory_copy.atomic_read("seq").unwrap(), msg);
}

#[test]
fn write_flush_read_round_trip() {
    let mut directory = RAMDirectory::create();
    let mut writer = directory.open_write("p").unwrap();
    writer.write(b"some payload").unwrap();
    writer.flush(&mut directory).unwrap();
    assert_eq!(directory.atomic_read("p").unwrap(), b"some payload");
}

#[test]
fn end_to_end_write_then_inspect() {
    let mut directory = RAMDirectory::create();
    let mut writer = directory.open_write("a").unwrap();
    writer.write(b"hello").unwrap();
    writer.flush(&mut directory).unwrap();
    assert!(directory.path_exists("a"));
    assert_eq!(directory.atomic_read("a").unwrap(), b"hello");
    assert_eq!(directory.total_mem_usage(), 5);
}

#[test]
fn second_open_write_rejected() {
    let mut directory = RAMDirectory::create();
    // a fresh path always opens
    let mut writer = directory.open_write("p").unwrap();
    writer.write(b"xy").unwrap();
    writer.flush(&mut directory).unwrap();
    // the flushed path is occupied
    assert!(matches!(
        directory.open_write("p"),
        Err(DirError::AlreadyExists)
    ));
    // an unflushed reservation blocks writers too
    let mut reserved_writer = directory.open_write("q").unwrap();
    assert!(matches!(
        directory.open_write("q"),
        Err(DirError::AlreadyExists)
    ));
    reserved_writer.flush(&mut directory).unwrap();
}

#[test]
fn reader_never_sees_partial_content() {
    let mut directory = RAMDirectory::create();
    let mut writer = directory.open_write("p").unwrap();
    writer.write(b"abc").unwrap();
    writer.write(b"def").unwrap();
    // before the flush only the empty reservation is visible
    assert_eq!(directory.atomic_read("p").unwrap(), b"");
    writer.flush(&mut directory).unwrap();
    // after the flush the full content is visible at once
    assert_eq!(directory.atomic_read("p").unwrap(), b"abcdef");
}

#[test]
fn total_mem_usage_sums_published_entries() {
    let mut directory = RAMDirectory::create();
    assert_eq!(directory.total_mem_usage(), 0);

    let mut writer = directory.open_write("a").unwrap();
    writer.write(b"hello").unwrap();
    writer.flush(&mut directory).unwrap();
    assert_eq!(directory.total_mem_usage(), 5);

    let mut writer = directory.open_write("b").unwrap();
    writer.write(b"abc").unwrap();
    writer.flush(&mut directory).unwrap();
    assert_eq!(directory.total_mem_usage(), 8);

    // overwriting a path replaces its contribution, it is not double-counted
    directory.write("a", b"1234567");
    assert_eq!(directory.total_mem_usage(), 10);
}

#[test]
fn open_read_missing_is_not_found() {
    let directory = RAMDirectory::create();
    assert!(matches!(
        directory.open_read("missing"),
        Err(DirError::NotFound)
    ));
    assert!(matches!(
        directory.atomic_read("missing"),
        Err(DirError::NotFound)
    ));
    assert!(!directory.path_exists("missing"));
}

#[test]
fn persist_copies_identical_bytes() {
    let mut source = RAMDirectory::create();
    let mut writer = source.open_write("one").unwrap();
    writer.write(b"first file").unwrap();
    writer.flush(&mut source).unwrap();

    let mut destination = RAMDirectory::create();
    assert!(source.persist(&mut destination).is_ok());
    assert_eq!(destination.atomic_read("one").unwrap(), b"first file");
    assert_eq!(destination.total_mem_usage(), source.total_mem_usage());
}

#[test]
fn persist_collision_reports_already_exists() {
    let mut source = RAMDirectory::create();
    let mut writer = source.open_write("one").unwrap();
    writer.write(b"copied before the collision").unwrap();
    writer.flush(&mut source).unwrap();
    let mut writer = source.open_write("shared").unwrap();
    writer.write(b"from source").unwrap();
    writer.flush(&mut source).unwrap();

    let mut destination = RAMDirectory::create();
    let mut writer = destination.open_write("shared").unwrap();
    writer.write(b"already here").unwrap();
    writer.flush(&mut destination).unwrap();

    assert!(matches!(
        source.persist(&mut destination),
        Err(DirError::AlreadyExists)
    ));
    // the colliding path keeps the destination's own content
    assert_eq!(destination.atomic_read("shared").unwrap(), b"already here");
    // the entry copied before the collision stays copied
    assert_eq!(
        destination.atomic_read("one").unwrap(),
        b"copied before the collision"
    );
}

#[test]
fn failed_open_write_preserves_content() {
    let mut directory = RAMDirectory::create();
    let mut writer = directory.open_write("p").unwrap();
    writer.write(b"precious data").unwrap();
    writer.flush(&mut directory).unwrap();

    assert!(matches!(
        directory.open_write("p"),
        Err(DirError::AlreadyExists)
    ));
    // the failed write-open left the published content untouched
    assert_eq!(directory.atomic_read("p").unwrap(), b"precious data");
    assert_eq!(directory.total_mem_usage(), 13);
}

#[test]
fn writer_flag_tracks_unpublished_bytes() {
    let mut directory = RAMDirectory::create();
    let mut writer = directory.open_write("p").unwrap();
    assert!(writer.is_flushed());
    writer.write(b"x").unwrap();
    assert!(!writer.is_flushed());
    writer.flush(&mut directory).unwrap();
    assert!(writer.is_flushed());
}

#[test]
fn open_read_snapshot_outlives_later_writes() {
    let mut directory = RAMDirectory::create();
    let mut writer = directory.open_write("p").unwrap();
    writer.write(b"before").unwrap();
    writer.flush(&mut directory).unwrap();

    let snapshot = directory.open_read("p").unwrap();
    directory.write("p", b"after!");
    // the handle issued earlier still reads the content it was opened on
    assert_eq!(snapshot.read_bytes().unwrap().as_slice(), b"before");
    assert_eq!(directory.atomic_read("p").unwrap(), b"after!");
}

#[test]
fn get_file_handle_reads_published_content() {
    let mut directory = RAMDirectory::create();
    let mut writer = directory.open_write("p").unwrap();
    writer.write(b"payload").unwrap();
    writer.flush(&mut directory).unwrap();
    let handle = directory.get_file_handle("p").unwrap();
    assert_eq!(handle.read_bytes().unwrap().as_slice(), b"payload");
}
