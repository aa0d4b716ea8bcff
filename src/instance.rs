//! One fenced block turned into its widget.

use crate::files::{default_key, default_visible, file_ids, has_key, opt_chars, visible_of, FileEntry, FilesError};
use crate::ident::{id_text, uuid_text};
use crate::order::str_eq;
use crate::files::key;
use crate::tree::{entry_pair, has_empty_key, has_leaf, node_at, on_some_path, prefix_free, wf, TreeError, TreeNode};
use crate::widget::{height_of, is_html, left_markup, pane_open, widget_fragments, widget_shape, Fragment};
use vstd::prelude::*;

verus! {

/// The activation script: a click on a tree leaf shows that file's pane and
/// hides the others; the default file is shown once on load. It reads only
/// the list `uuids` and the identifier `visible`.
pub const SCRIPT_TEMPLATE: &'static str = r#"window.addEventListener("load", () => {
  const uuids = [{% for uuid in uuids %}"{{ uuid }}",{% endfor %}];
  const activate = (active) => {
    for (const uuid of uuids) {
      document.getElementById(`button-${uuid}`).classList.remove("active");
      document.getElementById(`file-${uuid}`).classList.remove("visible");
    }
    document.getElementById(`button-${active}`).classList.add("active");
    document.getElementById(`file-${active}`).classList.add("visible");
  };
  for (const uuid of uuids) {
    document.getElementById(`button-${uuid}`).addEventListener("click", () => activate(uuid));
  }
  activate("{{ visible }}");
});
"#;

/// What `Tera::one_off` renders from the activation script template, given
/// the list `uuids` and the text `visible`, without escaping; `None` where it fails.
pub uninterp spec fn rendered_script(uuids: Seq<Seq<char>>, visible: Seq<char>) -> Option<Seq<char>>;

/// The text forms of the entries' identifiers, in the entries' order.
pub open spec fn id_texts_of(files: Seq<FileEntry>) -> Seq<Seq<char>> {
    files.map_values(|e: FileEntry| uuid_text(e.id))
}

/// The script of a block: the template rendered with every identifier and
/// the default-visible one.
pub open spec fn block_script(root: Seq<char>, files: Seq<FileEntry>, default_file: Option<Seq<char>>) -> Option<Seq<char>> {
    match visible_of(root, files, default_file) {
        Some(v) => rendered_script(id_texts_of(files), uuid_text(v)),
        None => None,
    }
}

#[verifier::external_type_specification]
#[verifier::external_body]
pub struct ExTeraError(tera::Error);

/// Why a block could not be turned into a widget.
#[derive(Debug, PartialEq, Eq)]
pub enum WidgetError {
    Files(FilesError),
    Tree(TreeError),
    /// The script template could not be rendered.
    Script,
}

/// Whether a fenced block with this language label describes a widget.
pub fn is_widget_label(label: &str) -> (r: bool)
    ensures
        r == (label@ == "files"@),
{
    str_eq(label, "files")
}

/// Relies on `Tera::one_off`: renders the activation script template with
/// the list `uuids` and the text `visible`, with escaping off.
#[verifier::external_body]
fn render_script(template: &str, uuids: &Vec<String>, visible: &String) -> (r: Result<String, tera::Error>)
    requires
        template@ == SCRIPT_TEMPLATE@,
    ensures
        match r {
            Ok(s) => rendered_script(uuids@.map_values(|u: String| u@), visible@) == Some(s@),
            Err(_) => rendered_script(uuids@.map_values(|u: String| u@), visible@) is None,
        },
{
    let mut context = tera::Context::new();
    context.insert("uuids", uuids);
    context.insert("visible", visible);
    tera::Tera::one_off(template, &context, false)
}

/// The text forms of the identifiers, in order.
fn id_texts(ids: &Vec<u128>) -> (r: Vec<String>)
    ensures
        r@.len() == ids@.len(),
        forall|k: int| 0 <= k < ids@.len() ==> (#[trigger] r@[k])@ == uuid_text(ids@[k]),
{
    let mut r: Vec<String> = Vec::new();
    let mut i: usize = 0;
    while i < ids.len()
        invariant
            i <= ids@.len(),
            r@.len() == i,
            forall|k: int| 0 <= k < i ==> (#[trigger] r@[k])@ == uuid_text(ids@[k]),
        decreases ids.len() - i,
    {
        r.push(id_text(ids[i]));
        i = i + 1;
    }
    r
}

/// The widget of one block: the default-visible file is settled first, so a
/// configuration error comes before any markup; then the script is stamped
/// with every identifier and the panes are assembled around it.
pub fn block_fragments(
    root: &str,
    container_id: u128,
    height: Option<&str>,
    default_file: Option<&str>,
    files: &Vec<FileEntry>,
    contents: &Vec<String>,
) -> (r: Result<Vec<Fragment>, WidgetError>)
    requires
        contents@.len() == files@.len(),
    ensures
        r matches Err(WidgetError::Files(FilesError::NoFilesMatched)) <==> files@.len() == 0,
        !(r matches Err(WidgetError::Files(FilesError::OutsideRoot))),
        r matches Err(WidgetError::Files(FilesError::DefaultFileNotFound)) <==> {
            &&& files@.len() > 0
            &&& default_file is Some
            &&& match default_key(root@, default_file->0@) {
                Some(k) => !has_key(files@, k),
                None => true,
            }
        },
        r matches Err(WidgetError::Script) <==> {
            &&& visible_of(root@, files@, opt_chars(default_file)) is Some
            &&& block_script(root@, files@, opt_chars(default_file)) is None
        },
        r matches Err(WidgetError::Tree(TreeError::RootIsFile)) <==> {
            &&& block_script(root@, files@, opt_chars(default_file)) is Some
            &&& has_empty_key(files@)
        },
        r matches Err(WidgetError::Tree(TreeError::PathConflict)) <==> {
            &&& block_script(root@, files@, opt_chars(default_file)) is Some
            &&& !has_empty_key(files@)
            &&& !prefix_free(files@)
        },
        r is Ok <==> {
            &&& block_script(root@, files@, opt_chars(default_file)) is Some
            &&& prefix_free(files@)
        },
        r is Ok ==> widget_shape(r->Ok_0@, container_id, height_of(height), files@, contents@,
            block_script(root@, files@, opt_chars(default_file))->0),
{
    let visible = match default_visible(root, files, default_file) {
        Ok(v) => v,
        Err(e) => {
            return Err(WidgetError::Files(e));
        },
    };
    let ids = file_ids(files);
    let uuids = id_texts(&ids);
    let shown = id_text(visible);
    proof {
        assert(uuids@.map_values(|u: String| u@) =~= id_texts_of(files@));
    }
    let script = match render_script(SCRIPT_TEMPLATE, &uuids, &shown) {
        Ok(s) => s,
        Err(_) => {
            return Err(WidgetError::Script);
        },
    };
    match widget_fragments(container_id, height, files, contents, script.as_str()) {
        Ok(v) => {
            let ghost text = script@;
            let r: Result<Vec<Fragment>, WidgetError> = Ok(v);
            assert(r->Ok_0@ == v@);
            assert(widget_shape(r->Ok_0@, container_id, height_of(height), files@, contents@, text));
            return r;
        },
        Err(e) => Err(WidgetError::Tree(e)),
    }
}

/// One identifier binds a file's tree leaf, its content pane and its place
/// in the list the script is rendered with.
pub proof fn lemma_identifiers_shared(
    v: Seq<Fragment>,
    container_id: u128,
    height: Seq<char>,
    files: Seq<FileEntry>,
    contents: Seq<String>,
    script: Seq<char>,
    k: int,
)
    requires
        widget_shape(v, container_id, height, files, contents, script),
        0 <= k < files.len(),
    ensures
        is_html(v[3 * k + 3], pane_open(files[k].id)),
        id_texts_of(files)[k] == uuid_text(files[k].id),
        exists|t: TreeNode| #[trigger] has_leaf(t, key(files[k]), files[k].id) && is_html(v[1], left_markup(t)),
{
    let t = choose|t: TreeNode| {
        &&& wf(t)
        &&& t is Directory
        &&& forall|q: Seq<Seq<char>>, x: u128| #[trigger] has_leaf(t, q, x) <==> entry_pair(files, q, x)
        &&& forall|q: Seq<Seq<char>>| #[trigger] node_at(t, q) ==> on_some_path(files, q)
        &&& is_html(v[1], left_markup(t))
    };
    assert(key(files[k]) == key(files[k]) && files[k].id == files[k].id);
    assert(entry_pair(files, key(files[k]), files[k].id));
    assert(has_leaf(t, key(files[k]), files[k].id));
}

} // verus!
