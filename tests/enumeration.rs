use mdbook_files::files::{collect_files, default_visible, file_ids, key_files, FileEntry, FilesError, WalkedEntry};

fn walked(path: &str, is_file: bool) -> WalkedEntry {
    WalkedEntry { path: path.to_string(), is_file }
}

fn segments(e: &FileEntry) -> Vec<String> {
    e.segments.clone()
}

fn sample() -> Vec<WalkedEntry> {
    vec![
        walked("/book/src", false),
        walked("/book/src/b", false),
        walked("/book/src/b/d.txt", true),
        walked("/book/src/a.rs", true),
        walked("/book/src/b/c.rs", true),
    ]
}

#[test]
fn three_files_in_canonical_order() {
    let files = collect_files("/book/src", &sample()).unwrap();
    assert_eq!(files.len(), 3);
    assert_eq!(segments(&files[0]), vec!["a.rs".to_string()]);
    assert_eq!(segments(&files[1]), vec!["b".to_string(), "c.rs".to_string()]);
    assert_eq!(segments(&files[2]), vec!["b".to_string(), "d.txt".to_string()]);
    assert_eq!(files[0].path, "/book/src/a.rs");
    assert_eq!(files[2].path, "/book/src/b/d.txt");
}

#[test]
fn identifiers_are_distinct() {
    let files = collect_files("/book/src", &sample()).unwrap();
    let ids = file_ids(&files);
    assert_eq!(ids.len(), 3);
    assert_ne!(ids[0], ids[1]);
    assert_ne!(ids[1], ids[2]);
    assert_ne!(ids[0], ids[2]);
    assert_eq!(ids[1], files[1].id);
}

#[test]
fn selected_subset_has_its_size() {
    let selected = vec![
        walked("/r", false),
        walked("/r/x.rs", true),
        walked("/r/y.rs", true),
    ];
    let files = collect_files("/r", &selected).unwrap();
    assert_eq!(files.len(), 2);
    for f in &files {
        assert!(f.path.starts_with("/r/"));
        assert_eq!(f.segments.len(), 1);
    }
}

#[test]
fn nothing_matched_is_an_error() {
    let only_dirs = vec![walked("/r", false), walked("/r/sub", false)];
    assert_eq!(collect_files("/r", &only_dirs).err(), Some(FilesError::NoFilesMatched));
    assert_eq!(collect_files("/r", &Vec::new()).err(), Some(FilesError::NoFilesMatched));
}

#[test]
fn depth_zero_yields_no_files() {
    // a walk limited to depth zero visits the root directory alone
    let walk = vec![walked("/root/dir", false)];
    assert_eq!(collect_files("/root/dir", &walk).err(), Some(FilesError::NoFilesMatched));
}

#[test]
fn file_outside_root_is_an_error() {
    let walk = vec![walked("/r/a.rs", true), walked("/elsewhere/b.rs", true)];
    assert_eq!(collect_files("/r", &walk).err(), Some(FilesError::OutsideRoot));
}

#[test]
fn repeated_path_is_kept_once() {
    let walk = vec![walked("/r/a.rs", true), walked("/r/a.rs", true)];
    let files = collect_files("/r", &walk).unwrap();
    assert_eq!(files.len(), 1);
}

#[test]
fn default_is_first_without_configuration() {
    let files = collect_files("/book/src", &sample()).unwrap();
    assert_eq!(default_visible("/book/src", &files, None), Ok(files[0].id));
}

#[test]
fn configured_default_file_is_visible() {
    let files = collect_files("/book/src", &sample()).unwrap();
    assert_eq!(default_visible("/book/src", &files, Some("a.rs")), Ok(files[0].id));
    assert_eq!(default_visible("/book/src", &files, Some("b/d.txt")), Ok(files[2].id));
}

#[test]
fn missing_default_file_is_a_configuration_error() {
    let files = collect_files("/book/src", &sample()).unwrap();
    assert_eq!(
        default_visible("/book/src", &files, Some("missing.rs")),
        Err(FilesError::DefaultFileNotFound)
    );
}

#[test]
fn default_of_nothing_is_an_error() {
    assert_eq!(default_visible("/r", &Vec::new(), None), Err(FilesError::NoFilesMatched));
}

#[test]
fn many_files_get_distinct_identifiers() {
    let walk: Vec<WalkedEntry> = (0..50).map(|k| walked(&format!("/r/f{k}.rs"), true)).collect();
    let files = collect_files("/r", &walk).unwrap();
    assert_eq!(files.len(), 50);
    let mut ids = file_ids(&files);
    ids.sort();
    ids.dedup();
    assert_eq!(ids.len(), 50);
}

#[test]
fn clashing_identifiers_are_reported() {
    let walk = vec![walked("/r/a.rs", true), walked("/r", false), walked("/r/b.rs", true)];
    assert_eq!(key_files("/r", &walk, &vec![7, 7, 7]).err(), Some(FilesError::IdentifierClash));
    let files = key_files("/r", &walk, &vec![7, 8, 9]).unwrap();
    assert_eq!(files[0].id, 7);
    assert_eq!(files[1].id, 9);
    // a directory's identifier is never used
    assert!(key_files("/r", &walk, &vec![7, 7, 9]).is_ok());
}

#[test]
fn given_identifiers_keep_other_errors() {
    let walk = vec![walked("/r/a.rs", true), walked("/x/b.rs", true)];
    assert_eq!(key_files("/r", &walk, &vec![1, 1]).err(), Some(FilesError::OutsideRoot));
    let dirs = vec![walked("/r", false)];
    assert_eq!(key_files("/r", &dirs, &vec![1]).err(), Some(FilesError::NoFilesMatched));
}
