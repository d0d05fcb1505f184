use fms::search::SearchEngine;
use fms::tag_db::{FileEntry, FileType, TagDatabase};

fn entry(path: &str, name: &str, kind: FileType, parent: Option<&str>) -> FileEntry {
    FileEntry {
        path: path.to_string(),
        name: name.to_string(),
        file_type: kind,
        size: 0,
        modified: 0,
        parent: parent.map(|p| p.to_string()),
    }
}

#[test]
fn search_is_case_insensitive() {
    let mut db = TagDatabase::new();
    db.insert_file(&entry(
        "/home/a/ReadMe.TXT",
        "ReadMe.TXT",
        FileType::File,
        Some("/home/a"),
    ));
    let engine = SearchEngine::new();
    let hits = engine.search(&db, &"readme".to_string());
    assert_eq!(hits.len(), 1);
    assert_eq!(hits[0].name, "ReadMe.TXT");
}

#[test]
fn search_matches_path_as_well_as_name() {
    let mut db = TagDatabase::new();
    db.insert_file(&entry("/Projects/deep/x.rs", "x.rs", FileType::File, Some("/Projects/deep")));
    let engine = SearchEngine::new();
    let hits = engine.search(&db, &"projects".to_string());
    assert_eq!(hits.len(), 1);
}

#[test]
fn empty_search_is_empty() {
    let mut db = TagDatabase::new();
    db.insert_file(&entry("/a", "a", FileType::File, Some("/")));
    let engine = SearchEngine::new();
    assert!(engine.search(&db, &String::new()).is_empty());
}

#[test]
fn search_returns_matches_sorted_by_name() {
    let mut db = TagDatabase::new();
    db.insert_file(&entry("/z-match", "z-match", FileType::File, Some("/")));
    db.insert_file(&entry("/a-match", "a-match", FileType::File, Some("/")));
    db.insert_file(&entry("/other", "other", FileType::File, Some("/")));
    let engine = SearchEngine::new();
    let hits = engine.search(&db, &"match".to_string());
    assert_eq!(hits.len(), 2);
    assert_eq!(hits[0].name, "a-match");
    assert_eq!(hits[1].name, "z-match");
}

#[test]
fn search_caps_at_one_thousand_rows() {
    let mut db = TagDatabase::new();
    for i in 0..1001 {
        let path = format!("/bulk/match-{:04}", i);
        let name = format!("match-{:04}", i);
        db.insert_file(&entry(&path, &name, FileType::File, Some("/bulk")));
    }
    let engine = SearchEngine::new();
    let hits = engine.search(&db, &"match".to_string());
    assert_eq!(hits.len(), 1000);
}

#[test]
fn directory_search_with_empty_query_lists_directories_first() {
    let mut db = TagDatabase::new();
    db.insert_file(&entry("/d/b.txt", "b.txt", FileType::File, Some("/d")));
    db.insert_file(&entry("/d/a", "a", FileType::Directory, Some("/d")));
    let engine = SearchEngine::new();
    let hits = engine.search_in_directory(&db, &"/d".to_string(), &String::new());
    assert_eq!(hits.len(), 2);
    assert_eq!(hits[0].name, "a");
    assert_eq!(hits[1].name, "b.txt");
}

#[test]
fn directory_search_restricts_to_parent() {
    let mut db = TagDatabase::new();
    db.insert_file(&entry("/d/hit.txt", "hit.txt", FileType::File, Some("/d")));
    db.insert_file(&entry("/e/hit.txt", "hit.txt", FileType::File, Some("/e")));
    let engine = SearchEngine::new();
    let hits = engine.search_in_directory(&db, &"/d".to_string(), &"hit".to_string());
    assert_eq!(hits.len(), 1);
    assert_eq!(hits[0].path, "/d/hit.txt");
}

#[test]
fn tag_scoped_search_filters_without_touching_counts() {
    let mut db = TagDatabase::new();
    db.insert_file(&entry("/w/one", "one", FileType::File, Some("/w")));
    db.insert_file(&entry("/w/two", "two", FileType::File, Some("/w")));
    db.insert_file(&entry("/w/other", "other", FileType::File, Some("/w")));
    db.add_tag_to_file(&"/w/one".to_string(), &"work".to_string());
    db.add_tag_to_file(&"/w/two".to_string(), &"work".to_string());

    let linked = db.get_files_by_tag(&"work".to_string());
    assert_eq!(linked.len(), 2);

    let engine = SearchEngine::new();
    let none = engine.search_by_tag(&db, &"work".to_string(), &"zzz".to_string());
    assert!(none.is_empty());

    let tags = db.get_all_tags();
    assert_eq!(tags.len(), 1);
    assert_eq!(tags[0].name, "work");
    assert_eq!(tags[0].file_count, 2);
}

#[test]
fn tag_scoped_search_with_empty_query_returns_all_linked() {
    let mut db = TagDatabase::new();
    db.insert_file(&entry("/w/one", "one", FileType::File, Some("/w")));
    db.add_tag_to_file(&"/w/one".to_string(), &"work".to_string());
    let engine = SearchEngine::new();
    let hits = engine.search_by_tag(&db, &"work".to_string(), &String::new());
    assert_eq!(hits.len(), 1);
    assert_eq!(hits[0].name, "one");
}
