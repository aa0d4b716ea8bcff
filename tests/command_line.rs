use mdbook_files::options::{Action, Command, InstallCommand, Options, SupportsCommand};
use mdbook_files::policy::{compile_overrides, Files, PolicyError};

#[test]
fn no_subcommand_processes() {
    let o = Options { command: None };
    assert!(matches!(o.action(), Action::Process));
    let o = Options { command: Some(Command::Process) };
    assert!(matches!(o.action(), Action::Process));
}

#[test]
fn supports_names_renderer() {
    let o = Options { command: Some(Command::Supports(SupportsCommand { renderer: "html".to_string() })) };
    match o.action() {
        Action::CheckRenderer(r) => assert_eq!(r, "html"),
        _ => panic!("renderer check expected"),
    }
}

#[test]
fn install_keeps_assets_path() {
    let o = Options { command: Some(Command::Install(InstallCommand { assets: Some("theme".to_string()) })) };
    match o.action() {
        Action::Install(a) => assert_eq!(a, Some("theme".to_string())),
        _ => panic!("install expected"),
    }
}

fn descriptor(path: &str) -> Files {
    Files {
        path: path.to_string(),
        ignore: Vec::new(),
        default_file: None,
        ignore_case_insensitive: false,
        same_file_system: false,
        types: Vec::new(),
        hidden: false,
        follow_links: false,
        dot_ignore: false,
        git_global: false,
        git_exclude: false,
        git_ignore: false,
        require_git: false,
        git_ignore_parents: false,
        max_depth: None,
        max_filesize: None,
        height: None,
    }
}

#[test]
fn root_joins_prefix() {
    assert_eq!(descriptor("examples/demo").root("/book"), "/book/examples/demo");
}

#[test]
fn valid_globs_compile() {
    let globs = vec!["*.rs".to_string(), "!target/".to_string()];
    assert!(compile_overrides("/r", &globs).is_ok());
    assert!(compile_overrides("/r", &Vec::new()).is_ok());
}

#[test]
fn malformed_glob_is_named() {
    let globs = vec!["*.rs".to_string(), "a[".to_string()];
    assert_eq!(compile_overrides("/r", &globs).err(), Some(PolicyError::InvalidGlob { index: 1 }));
}

#[test]
fn first_malformed_glob_is_named() {
    let globs = vec!["a[".to_string(), "src/{a".to_string()];
    assert_eq!(compile_overrides("/r", &globs).err(), Some(PolicyError::InvalidGlob { index: 0 }));
    let globs = vec!["*.rs".to_string(), "src/{a".to_string()];
    assert_eq!(compile_overrides("/r", &globs).err(), Some(PolicyError::InvalidGlob { index: 1 }));
}

#[test]
fn comments_and_blank_lines_are_accepted() {
    let globs = vec!["#note".to_string(), "".to_string(), "*.rs ".to_string()];
    assert!(compile_overrides("/r", &globs).is_ok());
}
