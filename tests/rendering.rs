use mdbook_files::files::{collect_files, FileEntry, WalkedEntry};
use mdbook_files::order::{segments_lt, str_lt};
use mdbook_files::tree::{build_tree, TreeError, TreeNode};
use mdbook_files::widget::{container_open, left_pane, right_pane, widget_fragments, Fragment};
use uuid::Uuid;

fn text(id: u128) -> String {
    Uuid::from_u128(id).to_string()
}

fn entry(path: &str, segments: &[&str], id: u128) -> FileEntry {
    FileEntry {
        path: path.to_string(),
        segments: segments.iter().map(|s| s.to_string()).collect(),
        id,
    }
}

fn sample() -> Vec<FileEntry> {
    vec![
        entry("/r/a.rs", &["a.rs"], 1),
        entry("/r/b/c.rs", &["b", "c.rs"], 2),
        entry("/r/b/d.txt", &["b", "d.txt"], 3),
    ]
}

fn html(f: &Fragment) -> String {
    match f {
        Fragment::Html(h) => h.clone(),
        _ => panic!("not markup"),
    }
}

#[test]
fn tree_of_scenario_renders_in_lexical_order() {
    let tree = build_tree(&sample()).unwrap();
    let markup = tree.render().unwrap();
    let expected = format!(
        "<ul><li id=\"button-{}\" class=\"mdbook-files-button\">a.rs</li>\
<li class=\"mdbook-files-folder\"><span>b/</span><ul>\
<li id=\"button-{}\" class=\"mdbook-files-button\">c.rs</li>\
<li id=\"button-{}\" class=\"mdbook-files-button\">d.txt</li></ul></li></ul>",
        text(1),
        text(2),
        text(3)
    );
    assert_eq!(markup, expected);
}

#[test]
fn tree_shape_of_scenario() {
    let tree = build_tree(&sample()).unwrap();
    match tree {
        TreeNode::Directory(children) => {
            assert_eq!(children.len(), 2);
            assert_eq!(children[0].0, "a.rs");
            assert!(matches!(children[0].1, TreeNode::File(1)));
            assert_eq!(children[1].0, "b");
            match &children[1].1 {
                TreeNode::Directory(inner) => {
                    assert_eq!(inner.len(), 2);
                    assert_eq!(inner[0].0, "c.rs");
                    assert!(matches!(inner[0].1, TreeNode::File(2)));
                    assert_eq!(inner[1].0, "d.txt");
                    assert!(matches!(inner[1].1, TreeNode::File(3)));
                }
                TreeNode::File(_) => panic!("b is a directory"),
            }
        }
        TreeNode::File(_) => panic!("root is a directory"),
    }
}

#[test]
fn insertion_order_does_not_matter() {
    let mut shuffled = sample();
    shuffled.reverse();
    let a = build_tree(&sample()).unwrap().render().unwrap();
    let b = build_tree(&shuffled).unwrap().render().unwrap();
    assert_eq!(a, b);
}

#[test]
fn rendering_twice_is_identical() {
    let tree = build_tree(&sample()).unwrap();
    assert_eq!(tree.render().unwrap(), tree.render().unwrap());
}

#[test]
fn bare_file_root_is_refused() {
    assert_eq!(TreeNode::File(7).render().err(), Some(TreeError::RootIsFile));
}

#[test]
fn file_under_file_is_a_conflict() {
    let entries = vec![entry("/r/a", &["a"], 1), entry("/r/a/b", &["a", "b"], 2)];
    assert_eq!(build_tree(&entries).err(), Some(TreeError::PathConflict));
}

#[test]
fn file_over_directory_is_a_conflict() {
    let entries = vec![entry("/r/a/b", &["a", "b"], 2), entry("/r/a", &["a"], 1)];
    assert_eq!(build_tree(&entries).err(), Some(TreeError::PathConflict));
}

#[test]
fn file_as_root_is_refused() {
    let entries = vec![entry("/r/a.rs", &["a.rs"], 1), entry("/r", &[], 2)];
    assert_eq!(build_tree(&entries).err(), Some(TreeError::RootIsFile));
    assert_eq!(left_pane(&entries).err(), Some(TreeError::RootIsFile));
}

#[test]
fn empty_tree_renders_empty_list() {
    let tree = build_tree(&Vec::new()).unwrap();
    assert_eq!(tree.render().unwrap(), "<ul></ul>");
}

#[test]
fn left_pane_wraps_tree() {
    let pane = left_pane(&sample()).unwrap();
    assert!(pane.starts_with("<div class=\"mdbook-files-left\"><ul>"));
    assert!(pane.ends_with("</ul></div>"));
}

#[test]
fn right_pane_has_one_block_per_file() {
    let contents = vec!["fn a() {}".to_string(), "fn c() {}".to_string(), "plain".to_string()];
    let panes = right_pane(&sample(), &contents);
    assert_eq!(panes.len(), 11);
    assert_eq!(html(&panes[0]), "<div class=\"mdbook-files-right\">");
    assert_eq!(html(&panes[1]), format!("<div id=\"file-{}\" class=\"mdbook-file visible\">", text(1)));
    match &panes[2] {
        Fragment::CodeBlock { lang, text } => {
            assert_eq!(lang, "rs");
            assert_eq!(text, "fn a() {}");
        }
        _ => panic!("code block expected"),
    }
    match &panes[8] {
        Fragment::CodeBlock { lang, text } => {
            assert_eq!(lang, "txt");
            assert_eq!(text, "plain");
        }
        _ => panic!("code block expected"),
    }
    assert_eq!(html(&panes[3]), "</div>");
    assert_eq!(html(&panes[10]), "</div>");
}

#[test]
fn file_without_extension_gets_empty_tag() {
    let entries = vec![entry("/r/Makefile", &["Makefile"], 5)];
    let panes = right_pane(&entries, &vec!["all:".to_string()]);
    match &panes[2] {
        Fragment::CodeBlock { lang, .. } => assert_eq!(lang, ""),
        _ => panic!("code block expected"),
    }
}

#[test]
fn container_has_height() {
    assert_eq!(
        container_open(9, None),
        format!("<div id=\"files-{}\" class=\"mdbook-files\" style=\"height: 300px;\">", text(9))
    );
    assert_eq!(
        container_open(9, Some("20em")),
        format!("<div id=\"files-{}\" class=\"mdbook-files\" style=\"height: 20em;\">", text(9))
    );
}

#[test]
fn widget_is_assembled_in_order() {
    let contents = vec!["a".to_string(), "c".to_string(), "d".to_string()];
    let v = widget_fragments(4, None, &sample(), &contents, "go()").unwrap();
    assert_eq!(v.len(), 16);
    assert_eq!(html(&v[0]), container_open(4, None));
    assert_eq!(html(&v[1]), left_pane(&sample()).unwrap());
    assert_eq!(html(&v[2]), "<div class=\"mdbook-files-right\">");
    assert_eq!(html(&v[12]), "</div>");
    assert_eq!(html(&v[13]), "</div>");
    assert_eq!(html(&v[14]), "<script>go()</script>");
    assert!(matches!(v[15], Fragment::HardBreak));
}

#[test]
fn enumerated_scenario_builds_tree() {
    let walk = vec![
        WalkedEntry { path: "/r/b/d.txt".to_string(), is_file: true },
        WalkedEntry { path: "/r/a.rs".to_string(), is_file: true },
        WalkedEntry { path: "/r/b/c.rs".to_string(), is_file: true },
    ];
    let files = collect_files("/r", &walk).unwrap();
    let markup = build_tree(&files).unwrap().render().unwrap();
    let a = markup.find(">a.rs<").unwrap();
    let b = markup.find(">b/<").unwrap();
    let c = markup.find(">c.rs<").unwrap();
    let d = markup.find(">d.txt<").unwrap();
    assert!(a < b && b < c && c < d);
}

#[test]
fn string_order_is_by_code_point() {
    assert!(str_lt("a", "b"));
    assert!(str_lt("a", "ab"));
    assert!(!str_lt("ab", "a"));
    assert!(!str_lt("a", "a"));
    assert!(str_lt("B", "a"));
    assert!(str_lt("", "a"));
}

#[test]
fn path_order_is_by_segment() {
    let a = vec!["a".to_string(), "z".to_string()];
    let b = vec!["a.rs".to_string()];
    let c = vec!["b".to_string()];
    assert!(segments_lt(&a, &b));
    assert!(segments_lt(&b, &c));
    assert!(!segments_lt(&c, &a));
    assert!(!segments_lt(&a, &a));
}
