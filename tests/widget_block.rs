use mdbook_files::files::{collect_files, FilesError, WalkedEntry};
use mdbook_files::instance::{block_fragments, is_widget_label, WidgetError};
use mdbook_files::widget::Fragment;
use uuid::Uuid;


fn walk() -> Vec<WalkedEntry> {
    vec![
        WalkedEntry { path: "/r/b/c.rs".to_string(), is_file: true },
        WalkedEntry { path: "/r/a.rs".to_string(), is_file: true },
    ]
}

fn text(id: u128) -> String {
    Uuid::from_u128(id).to_string()
}

fn script(v: &[Fragment]) -> String {
    match &v[11] {
        Fragment::Html(h) => h.clone(),
        _ => panic!("script expected"),
    }
}

#[test]
fn script_names_default_file_and_all_identifiers() {
    let files = collect_files("/r", &walk()).unwrap();
    let contents = vec!["a".to_string(), "c".to_string()];
    let v = block_fragments("/r", 1, None, Some("b/c.rs"), &files, &contents).unwrap();
    assert_eq!(v.len(), 13);
    let s = script(&v);
    assert!(s.starts_with("<script>") && s.ends_with("</script>"));
    let list = format!("const uuids = [\"{}\",\"{}\",];", text(files[0].id), text(files[1].id));
    assert!(s.contains(&list));
    assert!(s.contains(&format!("activate(\"{}\");", text(files[1].id))));
}

#[test]
fn first_file_is_visible_by_default() {
    let files = collect_files("/r", &walk()).unwrap();
    let contents = vec!["a".to_string(), "c".to_string()];
    let v = block_fragments("/r", 1, None, None, &files, &contents).unwrap();
    assert!(script(&v).contains(&format!("activate(\"{}\");", text(files[0].id))));
}

#[test]
fn missing_default_file_fails_the_block() {
    let files = collect_files("/r", &walk()).unwrap();
    let contents = vec!["a".to_string(), "c".to_string()];
    let r = block_fragments("/r", 1, None, Some("missing.rs"), &files, &contents);
    assert_eq!(r.err(), Some(WidgetError::Files(FilesError::DefaultFileNotFound)));
}

#[test]
fn empty_block_is_an_error() {
    let r = block_fragments("/r", 1, None, None, &Vec::new(), &Vec::new());
    assert_eq!(r.err(), Some(WidgetError::Files(FilesError::NoFilesMatched)));
}

#[test]
fn only_files_label_marks_a_widget() {
    assert!(is_widget_label("files"));
    assert!(!is_widget_label("rust"));
    assert!(!is_widget_label("file"));
    assert!(!is_widget_label(""));
}
