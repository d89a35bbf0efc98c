use dirscan::zip_compressor::{CompressError, SourceFile, ZipCompressor, ENTRY_LIMIT};
use std::io::{Cursor, Read};
use zip::read::ZipArchive;

#[test]
fn test_compress_and_uncompress_single_file() {
    let compressor = ZipCompressor;
    let file = SourceFile { path: String::from("notes/today.txt"), content: b"Test content\n".to_vec() };

    // Compress the file
    let results = compressor.compress(&vec![file]);
    assert_eq!(results.len(), 1);
    assert!(results[0].is_ok());

    let archive = results[0].as_ref().unwrap();
    assert_eq!(archive.name, "notes/today.txt.zip");

    // Try to open the compressed bytes as a zip archive
    let mut opened = ZipArchive::new(Cursor::new(archive.bytes.clone())).unwrap();

    // Check if the archive has exactly one file, and read its content
    assert_eq!(opened.len(), 1);
    let mut file_in_zip = opened.by_index(0).unwrap();
    assert_eq!(file_in_zip.name(), "notes/today.txt");
    let mut contents = String::new();
    file_in_zip.read_to_string(&mut contents).unwrap();
    assert_eq!(contents, "Test content\n");
}

#[test]
fn compress_keeps_the_order_of_the_files() {
    let compressor = ZipCompressor;
    let files = vec![
        SourceFile { path: String::from("b"), content: vec![1, 2, 3] },
        SourceFile { path: String::from("a"), content: Vec::new() },
    ];
    let results = compressor.compress(&files);
    assert_eq!(results.len(), 2);
    assert_eq!(results[0].as_ref().unwrap().name, "b.zip");
    assert_eq!(results[1].as_ref().unwrap().name, "a.zip");

    let mut second = ZipArchive::new(Cursor::new(results[1].as_ref().unwrap().bytes.clone())).unwrap();
    assert_eq!(second.len(), 1);
    assert_eq!(second.by_index(0).unwrap().size(), 0);
    let mut first = ZipArchive::new(Cursor::new(results[0].as_ref().unwrap().bytes.clone())).unwrap();
    let mut bytes = Vec::new();
    first.by_index(0).unwrap().read_to_end(&mut bytes).unwrap();
    assert_eq!(bytes, vec![1, 2, 3]);
}

#[test]
fn compress_of_nothing_gives_nothing() {
    assert!(ZipCompressor.compress(&Vec::new()).is_empty());
}

#[test]
fn archive_names_end_in_zip() {
    assert_eq!(ZipCompressor::name_archive("/tmp/x"), "/tmp/x.zip");
    assert_eq!(ZipCompressor::name_archive(""), ".zip");
}

#[test]
fn packed_hands_on_the_archive_or_the_fault() {
    let archive = ZipCompressor::packed("f", Ok(vec![9, 8])).unwrap();
    assert_eq!(archive.name, "f.zip");
    assert_eq!(archive.bytes, vec![9, 8]);

    assert!(matches!(
        ZipCompressor::packed("f", Err(CompressError::Io(String::from("full")))),
        Err(CompressError::Io(message)) if message == "full"
    ));
    assert!(matches!(
        ZipCompressor::packed("f", Err(CompressError::InvalidArchive(String::from("bad")))),
        Err(CompressError::InvalidArchive(message)) if message == "bad"
    ));
    assert!(matches!(
        ZipCompressor::packed("f", Err(CompressError::UnsupportedArchive(String::from("odd")))),
        Err(CompressError::UnsupportedArchive(message)) if message == "odd"
    ));
    assert!(matches!(
        ZipCompressor::packed("f", Err(CompressError::FileNotFound)),
        Err(CompressError::FileNotFound)
    ));
}

#[test]
fn files_within_the_limit_are_packed() {
    assert_eq!(ENTRY_LIMIT, 4_294_967_295);
    let compressor = ZipCompressor;
    for content in [Vec::new(), vec![0u8], vec![7u8; 100_000]] {
        let file = SourceFile { path: String::from("f"), content: content.clone() };
        let archive = compressor.compress_file(&file).unwrap();
        assert_eq!(archive.name, "f.zip");
        assert_ne!(archive.bytes, content);
        let mut opened = ZipArchive::new(Cursor::new(archive.bytes)).unwrap();
        assert_eq!(opened.len(), 1);
        let mut bytes = Vec::new();
        opened.by_index(0).unwrap().read_to_end(&mut bytes).unwrap();
        assert_eq!(bytes, content);
    }
}

#[test]
fn the_same_file_gives_the_same_archive() {
    let compressor = ZipCompressor;
    let file = SourceFile { path: String::from("twice.txt"), content: b"again".to_vec() };
    let first = compressor.compress_file(&file).unwrap();
    let second = compressor.compress(&vec![
        SourceFile { path: String::from("other"), content: vec![1] },
        SourceFile { path: String::from("twice.txt"), content: b"again".to_vec() },
    ]);
    assert_eq!(first.bytes, second[1].as_ref().unwrap().bytes);
    assert_eq!(first.name, second[1].as_ref().unwrap().name);
}

#[test]
fn entries_are_dated_at_the_start_of_the_format() {
    let file = SourceFile { path: String::from("d"), content: vec![1, 2] };
    let archive = ZipCompressor.compress_file(&file).unwrap();
    let mut opened = ZipArchive::new(Cursor::new(archive.bytes)).unwrap();
    let entry = opened.by_index(0).unwrap();
    let stamp = entry.last_modified();
    assert_eq!((stamp.year(), stamp.month(), stamp.day()), (1980, 1, 1));
    assert_eq!((stamp.hour(), stamp.minute(), stamp.second()), (0, 0, 0));
}
