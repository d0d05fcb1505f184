use fms::indexer::FileIndexer;
use fms::search::SearchEngine;
use fms::tag_db::{FileType, TagDatabase};

/// Serializes a plist array of strings, the shape the tag attribute holds.
fn tag_plist(names: &[&str]) -> Vec<u8> {
    let value = plist::Value::Array(
        names.iter().map(|n| plist::Value::String(n.to_string())).collect(),
    );
    let mut buf: Vec<u8> = Vec::new();
    value.to_writer_binary(&mut buf).expect("serializing a plist array");
    buf
}

#[test]
fn index_file_builds_record_from_path() {
    let mut db = TagDatabase::new();
    let indexer = FileIndexer::new();
    indexer.index_file(&mut db, &"/home/a/x.txt".to_string(), FileType::File, 42, 100, None);
    let rows = db.entries();
    assert_eq!(rows.len(), 1);
    assert_eq!(rows[0].path, "/home/a/x.txt");
    assert_eq!(rows[0].name, "x.txt");
    assert_eq!(rows[0].parent, Some("/home/a".to_string()));
    assert_eq!(rows[0].size, 42);
    assert_eq!(rows[0].modified, 100);
}

#[test]
fn index_directory_stores_size_zero() {
    let mut db = TagDatabase::new();
    let indexer = FileIndexer::new();
    // Filesystems report a nonzero length for directories; the record
    // carries zero regardless.
    indexer.index_file(&mut db, &"/home/a".to_string(), FileType::Directory, 4096, 100, None);
    let rows = db.entries();
    assert_eq!(rows.len(), 1);
    assert_eq!(rows[0].file_type, FileType::Directory);
    assert_eq!(rows[0].size, 0);
}

#[test]
fn index_file_twice_is_idempotent() {
    let mut db = TagDatabase::new();
    let indexer = FileIndexer::new();
    for _ in 0..2 {
        indexer.index_file(&mut db, &"/home/a/".to_string(), FileType::Directory, 0, 0, None);
    }
    assert_eq!(db.entries().len(), 1);
    assert_eq!(db.text_entries().len(), 1);
    assert_eq!(db.entries()[0].path, "/home/a");
}

#[test]
fn index_file_attaches_tags_from_attribute_bytes() {
    let mut db = TagDatabase::new();
    let indexer = FileIndexer::new();
    let bytes = tag_plist(&["red", "blue"]);
    indexer.index_file(&mut db, &"/p/file".to_string(), FileType::File, 1, 1, Some(bytes));
    let tags = db.get_all_tags();
    assert_eq!(tags.len(), 2);
    assert_eq!(tags[0].name, "blue");
    assert_eq!(tags[0].file_count, 1);
    assert_eq!(tags[1].name, "red");
    assert_eq!(tags[1].file_count, 1);
    let red_files = db.get_files_by_tag(&"red".to_string());
    assert_eq!(red_files.len(), 1);
    assert_eq!(red_files[0].path, "/p/file");
}

#[test]
fn index_file_treats_malformed_attribute_as_no_tags() {
    let mut db = TagDatabase::new();
    let indexer = FileIndexer::new();
    indexer.index_file(
        &mut db,
        &"/p/file".to_string(),
        FileType::File,
        1,
        1,
        Some(b"not a plist at all".to_vec()),
    );
    assert_eq!(db.entries().len(), 1);
    assert!(db.get_all_tags().is_empty());
}

#[test]
fn index_file_ignores_non_string_array_elements() {
    let mut db = TagDatabase::new();
    let indexer = FileIndexer::new();
    let value = plist::Value::Array(vec![
        plist::Value::String("keep".to_string()),
        plist::Value::Integer(7.into()),
    ]);
    let mut buf: Vec<u8> = Vec::new();
    value.to_writer_binary(&mut buf).expect("serializing a plist array");
    indexer.index_file(&mut db, &"/p/file".to_string(), FileType::File, 1, 1, Some(buf));
    let tags = db.get_all_tags();
    assert_eq!(tags.len(), 1);
    assert_eq!(tags[0].name, "keep");
}

#[test]
fn indexed_tags_are_searchable() {
    let mut db = TagDatabase::new();
    let indexer = FileIndexer::new();
    let bytes = tag_plist(&["work"]);
    indexer.index_file(&mut db, &"/w/Notes.md".to_string(), FileType::File, 1, 1, Some(bytes));
    let engine = SearchEngine::new();
    let hits = engine.search_by_tag(&db, &"work".to_string(), &"notes".to_string());
    assert_eq!(hits.len(), 1);
    assert_eq!(hits[0].name, "Notes.md");
}
