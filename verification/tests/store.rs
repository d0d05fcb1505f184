use fms::tag_db::{FileEntry, FileType, TagDatabase};

fn entry(path: &str, name: &str, kind: FileType, parent: Option<&str>) -> FileEntry {
    FileEntry {
        path: path.to_string(),
        name: name.to_string(),
        file_type: kind,
        size: 0,
        modified: 0,
        parent: parent.map(|p| p.to_string()),
    }
}

#[test]
fn upsert_same_path_twice_keeps_one_record() {
    let mut db = TagDatabase::new();
    let e = entry("/home/a/x.txt", "x.txt", FileType::File, Some("/home/a"));
    db.insert_file(&e);
    db.insert_file(&e);
    assert_eq!(db.entries().len(), 1);
    assert_eq!(db.text_entries().len(), 1);
    assert_eq!(db.entries()[0].path, "/home/a/x.txt");
    assert_eq!(db.text_entries()[0].path, "/home/a/x.txt");
    assert_eq!(db.text_entries()[0].name, "x.txt");
}

#[test]
fn upsert_normalizes_and_collapses_trailing_separator() {
    let mut db = TagDatabase::new();
    db.insert_file(&entry("/home/a/", "a", FileType::Directory, Some("/home")));
    db.insert_file(&entry("/home/a", "a", FileType::Directory, Some("/home/")));
    assert_eq!(db.entries().len(), 1);
    assert_eq!(db.entries()[0].path, "/home/a");
    assert_eq!(db.entries()[0].parent, Some("/home".to_string()));
}

#[test]
fn upsert_is_last_write_wins() {
    let mut db = TagDatabase::new();
    let mut e = entry("/f", "f", FileType::File, Some("/"));
    e.size = 1;
    db.insert_file(&e);
    e.size = 2;
    db.insert_file(&e);
    assert_eq!(db.entries().len(), 1);
    assert_eq!(db.entries()[0].size, 2);
}

#[test]
fn attach_tag_twice_counts_once() {
    let mut db = TagDatabase::new();
    db.insert_file(&entry("/p", "p", FileType::File, Some("/")));
    db.add_tag_to_file(&"/p".to_string(), &"red".to_string());
    db.add_tag_to_file(&"/p".to_string(), &"red".to_string());
    let tags = db.get_all_tags();
    assert_eq!(tags.len(), 1);
    assert_eq!(tags[0].name, "red");
    assert_eq!(tags[0].file_count, 1);
}

#[test]
fn tags_are_listed_by_name_with_live_counts() {
    let mut db = TagDatabase::new();
    db.insert_file(&entry("/a", "a", FileType::File, Some("/")));
    db.insert_file(&entry("/b", "b", FileType::File, Some("/")));
    db.add_tag_to_file(&"/a".to_string(), &"zeta".to_string());
    db.add_tag_to_file(&"/a".to_string(), &"alpha".to_string());
    db.add_tag_to_file(&"/b".to_string(), &"zeta".to_string());
    let tags = db.get_all_tags();
    assert_eq!(tags.len(), 2);
    assert_eq!(tags[0].name, "alpha");
    assert_eq!(tags[0].file_count, 1);
    assert_eq!(tags[1].name, "zeta");
    assert_eq!(tags[1].file_count, 2);
}

#[test]
fn directory_listing_puts_directories_before_files() {
    let mut db = TagDatabase::new();
    db.insert_file(&entry("/d/b.txt", "b.txt", FileType::File, Some("/d")));
    db.insert_file(&entry("/d/a", "a", FileType::Directory, Some("/d")));
    let listing = db.get_files_in_directory(&"/d".to_string());
    assert_eq!(listing.len(), 2);
    assert_eq!(listing[0].name, "a");
    assert_eq!(listing[0].file_type, FileType::Directory);
    assert_eq!(listing[1].name, "b.txt");
    assert_eq!(listing[1].file_type, FileType::File);
}

#[test]
fn directory_listing_normalizes_its_argument() {
    let mut db = TagDatabase::new();
    db.insert_file(&entry("/d/x", "x", FileType::File, Some("/d")));
    let listing = db.get_files_in_directory(&"/d/".to_string());
    assert_eq!(listing.len(), 1);
    assert_eq!(listing[0].name, "x");
}

#[test]
fn unknown_directory_is_absence_not_error() {
    let db = TagDatabase::new();
    assert_eq!(db.get_directory(&"/does/not/exist".to_string()), None);
}

#[test]
fn get_directory_finds_only_directories() {
    let mut db = TagDatabase::new();
    db.insert_file(&entry("/d", "d", FileType::Directory, Some("/")));
    db.insert_file(&entry("/f", "f", FileType::File, Some("/")));
    let d = db.get_directory(&"/d".to_string()).expect("directory must be found");
    assert_eq!(d.name, "d");
    assert_eq!(d.file_type, FileType::Directory);
    assert_eq!(db.get_directory(&"/f".to_string()), None);
}

#[test]
fn files_with_unknown_tag_are_empty() {
    let mut db = TagDatabase::new();
    db.insert_file(&entry("/a", "a", FileType::File, Some("/")));
    assert!(db.get_files_by_tag(&"nope".to_string()).is_empty());
}

#[test]
fn files_with_tag_are_ordered_by_name() {
    let mut db = TagDatabase::new();
    db.insert_file(&entry("/z", "z", FileType::File, Some("/")));
    db.insert_file(&entry("/a", "a", FileType::File, Some("/")));
    db.add_tag_to_file(&"/z".to_string(), &"work".to_string());
    db.add_tag_to_file(&"/a".to_string(), &"work".to_string());
    let files = db.get_files_by_tag(&"work".to_string());
    assert_eq!(files.len(), 2);
    assert_eq!(files[0].name, "a");
    assert_eq!(files[1].name, "z");
}

#[test]
fn tag_on_unindexed_path_links_no_listed_file() {
    let mut db = TagDatabase::new();
    db.add_tag_to_file(&"/ghost".to_string(), &"work".to_string());
    // The link exists and counts, but no file record joins it.
    let tags = db.get_all_tags();
    assert_eq!(tags.len(), 1);
    assert_eq!(tags[0].file_count, 1);
    assert!(db.get_files_by_tag(&"work".to_string()).is_empty());
}
