use arena_bot::archive::list_archive;
use std::io::{Cursor, Write};
use zip::write::SimpleFileOptions;
use zip::{CompressionMethod, ZipWriter};

fn build_zip(entries: &[(&str, &[u8])]) -> Vec<u8> {
    let mut w = ZipWriter::new(Cursor::new(Vec::new()));
    let opts = SimpleFileOptions::default().compression_method(CompressionMethod::Stored);
    for (name, data) in entries {
        w.start_file(*name, opts).unwrap();
        w.write_all(data).unwrap();
    }
    w.finish().unwrap().into_inner()
}

#[test]
fn lists_entries_in_order() {
    let bytes = build_zip(&[("a.txt", b"alpha"), ("dir/b.txt", b"beta"), ("c.bin", b"")]);
    let listing = list_archive(bytes);
    assert!(listing.error.is_none());
    assert_eq!(listing.names, vec!["a.txt".to_string(), "dir/b.txt".to_string(), "c.bin".to_string()]);
}

#[test]
fn empty_archive_has_no_entries() {
    let listing = list_archive(build_zip(&[]));
    assert!(listing.error.is_none());
    assert!(listing.names.is_empty());
}

#[test]
fn garbage_is_not_an_archive() {
    let listing = list_archive(b"this is not a zip file at all".to_vec());
    assert!(listing.names.is_empty());
    assert!(listing.error.is_some());
    assert!(listing.error.unwrap().message.contains("InvalidArchive"));
}
