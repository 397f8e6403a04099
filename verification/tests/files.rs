use gfs::io::{GfsFile, ReadableFile, WritableFile};
use gfs::path::OwnedGfsPath;
use std::sync::Arc;

#[test]
fn file_keeps_its_parts() {
    let file = GfsFile::create(7u32, Arc::new(vec![1u8, 2, 3]));
    assert_eq!(file.metadata, 7);
    assert_eq!(*file.contents, vec![1u8, 2, 3]);
    assert_eq!(file.to_vec(), vec![1u8, 2, 3]);
}

#[test]
fn file_clone_shares_the_buffer() {
    let file = GfsFile::create(7u32, Arc::new(vec![1u8, 2, 3]));
    assert_eq!(Arc::strong_count(&file.contents), 1);
    let copy = file.clone();
    assert_eq!(copy.metadata, 7);
    assert!(Arc::ptr_eq(&file.contents, &copy.contents));
    assert_eq!(Arc::strong_count(&file.contents), 2);
}

#[test]
fn to_vec_is_a_private_copy() {
    let file = GfsFile::create(0u32, Arc::new(vec![9u8, 8]));
    let mut bytes = file.to_vec();
    bytes.push(7);
    assert_eq!(*file.contents, vec![9u8, 8]);
    assert_eq!(bytes, vec![9u8, 8, 7]);
}

#[test]
fn reader_starts_at_zero() {
    let reader = ReadableFile::from_file(GfsFile::create(3u32, Arc::new(vec![10u8, 20, 30])));
    assert_eq!(reader.metadata(), 3);
    assert_eq!(reader.len(), 3);
    assert_eq!(reader.position(), 0);
}

#[test]
fn reader_reads_in_sequence() {
    let mut reader =
        ReadableFile::from_file(GfsFile::create(3u32, Arc::new(vec![10u8, 20, 30, 40, 50])));
    assert_eq!(reader.read(2), vec![10u8, 20]);
    assert_eq!(reader.position(), 2);
    assert_eq!(reader.read(0), Vec::<u8>::new());
    assert_eq!(reader.position(), 2);
    assert_eq!(reader.read(2), vec![30u8, 40]);
    assert_eq!(reader.read(2), vec![50u8]);
    assert_eq!(reader.position(), 5);
    assert_eq!(reader.read(2), Vec::<u8>::new());
    assert_eq!(reader.position(), 5);
}

#[test]
fn reader_read_with_huge_count_stops_at_the_end() {
    let mut reader = ReadableFile::from_file(GfsFile::create(0u32, Arc::new(vec![1u8, 2])));
    assert_eq!(reader.read(1), vec![1u8]);
    assert_eq!(reader.read(usize::MAX), vec![2u8]);
    assert_eq!(reader.position(), 2);
}

#[test]
fn reader_random_access() {
    let mut reader = ReadableFile::from_file(GfsFile::create(3u32, Arc::new(vec![10u8, 20, 30])));
    assert_eq!(reader.byte_at(0), Some(10));
    assert_eq!(reader.byte_at(2), Some(30));
    assert_eq!(reader.byte_at(3), None);
    assert_eq!(reader.byte_at(usize::MAX), None);
    reader.read(3);
    assert_eq!(reader.byte_at(1), Some(20));
}

#[test]
fn reader_of_empty_file() {
    let mut reader = ReadableFile::from_file(GfsFile::create(0u32, Arc::new(Vec::new())));
    assert_eq!(reader.len(), 0);
    assert_eq!(reader.byte_at(0), None);
    assert_eq!(reader.read(4), Vec::<u8>::new());
}

#[test]
fn writer_holds_what_it_was_given() {
    let path: OwnedGfsPath<u32> = OwnedGfsPath::new("/a/b");
    let writer: WritableFile<u32, ()> =
        WritableFile::from_owned(&path, 5, vec![1u8, 2]);
    assert_eq!(writer.path().as_str(), "/a/b");
    assert_eq!(writer.metadata(), 5);
    assert_eq!(*writer.contents(), vec![1u8, 2]);
}

#[test]
fn writer_appends_and_clears() {
    let path: OwnedGfsPath<u32> = OwnedGfsPath::new("/a/b");
    let mut writer: WritableFile<u32, ()> =
        WritableFile::from_owned(&path, 5, vec![1u8, 2]);
    writer.write(&[3u8, 4]);
    writer.write(&[]);
    assert_eq!(*writer.contents(), vec![1u8, 2, 3, 4]);
    writer.set_metadata(6);
    assert_eq!(writer.metadata(), 6);
    assert_eq!(*writer.contents(), vec![1u8, 2, 3, 4]);
    writer.clear();
    assert_eq!(*writer.contents(), Vec::<u8>::new());
    assert_eq!(writer.metadata(), 6);
    assert_eq!(writer.path().as_str(), "/a/b");
}

#[test]
fn writer_into_file() {
    let path: OwnedGfsPath<u32> = OwnedGfsPath::new("/a/b");
    let mut writer: WritableFile<u32, ()> =
        WritableFile::from_owned(&path, 5, vec![1u8]);
    writer.write(&[2u8]);
    let file = writer.into_file();
    assert_eq!(file.metadata, 5);
    assert_eq!(*file.contents, vec![1u8, 2]);
}
