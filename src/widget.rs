//! Assembly of the widget: container, tree pane, content panes and script.

use crate::files::FileEntry;
use crate::ident::{id_text, uuid_text};
use crate::paths::{extension_of, path_extension};
use crate::tree::{build_tree, entry_pair, has_empty_key, has_leaf, node_at, on_some_path, prefix_free, tree_markup, wf, TreeError, TreeNode};
use vstd::prelude::*;

verus! {

/// A piece of the markdown that replaces a fenced block.
pub enum Fragment {
    /// Raw markup.
    Html(String),
    /// A fenced code block whose language tag is `lang`.
    CodeBlock { lang: String, text: String },
    /// A hard line break.
    HardBreak,
}

/// `f` is raw markup with text `s`.
pub open spec fn is_html(f: Fragment, s: Seq<char>) -> bool {
    f matches Fragment::Html(h) && h@ == s
}

/// `f` is a code block tagged `lang` holding `text`.
pub open spec fn is_code(f: Fragment, lang: Seq<char>, text: Seq<char>) -> bool {
    f matches Fragment::CodeBlock { lang: l, text: t } && l@ == lang && t@ == text
}

/// The tree pane around the rendered tree.
pub open spec fn left_markup(t: TreeNode) -> Seq<char> {
    "<div class=\"mdbook-files-left\">"@ + tree_markup(t) + "</div>"@
}

/// The opening tag of the content pane of file `id`, visible until the script runs.
pub open spec fn pane_open(id: u128) -> Seq<char> {
    "<div id=\"file-"@ + uuid_text(id) + "\" class=\"mdbook-file visible\">"@
}

/// The language tag of a file: its extension, or nothing.
pub open spec fn lang_of(path: Seq<char>) -> Seq<char> {
    match extension_of(path) {
        Some(e) => e,
        None => Seq::empty(),
    }
}

/// The opening tag of the whole widget, with its fixed height.
pub open spec fn container_markup(id: u128, height: Seq<char>) -> Seq<char> {
    "<div id=\"files-"@ + uuid_text(id) + "\" class=\"mdbook-files\" style=\"height: "@ + height + ";\">"@
}

/// The tree pane: the entries folded into a tree and rendered as nested lists.
pub fn left_pane(files: &Vec<FileEntry>) -> (r: Result<String, TreeError>)
    ensures
        r is Ok <==> prefix_free(files@),
        r matches Err(TreeError::RootIsFile) <==> has_empty_key(files@),
        r matches Err(TreeError::PathConflict) <==> (!has_empty_key(files@) && !prefix_free(files@)),
        r matches Ok(s) ==> exists|t: TreeNode| {
            &&& wf(t)
            &&& t is Directory
            &&& forall|q: Seq<Seq<char>>, x: u128| #[trigger] has_leaf(t, q, x) <==> entry_pair(files@, q, x)
            &&& forall|q: Seq<Seq<char>>| #[trigger] node_at(t, q) ==> on_some_path(files@, q)
            &&& s@ == left_markup(t)
        },
{
    let root = match build_tree(files) {
        Ok(t) => t,
        Err(e) => {
            return Err(e);
        },
    };
    let list = match root.render() {
        Ok(s) => s,
        Err(_) => {
            return Err(TreeError::RootIsFile);
        },
    };
    let mut output = String::from_str("<div class=\"mdbook-files-left\">");
    output.append(list.as_str());
    output.append("</div>");
    assert(output@ =~= left_markup(root));
    Ok(output)
}

/// The content panes: one labelled code block per file, in the entries' order.
pub fn right_pane(files: &Vec<FileEntry>, contents: &Vec<String>) -> (r: Vec<Fragment>)
    requires
        contents@.len() == files@.len(),
    ensures
        r@.len() == 3 * files@.len() + 2,
        is_html(r@[0], "<div class=\"mdbook-files-right\">"@),
        forall|k: int| 0 <= k < files@.len() ==> {
            &&& is_html(#[trigger] r@[3 * k + 1], pane_open(files@[k].id))
            &&& is_code(r@[3 * k + 2], lang_of(files@[k].path@), contents@[k]@)
            &&& is_html(r@[3 * k + 3], "</div>"@)
        },
        is_html(r@[3 * files@.len() as int + 1], "</div>"@),
{
    let mut r: Vec<Fragment> = Vec::new();
    r.push(Fragment::Html(String::from_str("<div class=\"mdbook-files-right\">")));
    let mut i: usize = 0;
    while i < files.len()
        invariant
            i <= files@.len(),
            contents@.len() == files@.len(),
            r@.len() == 3 * i + 1,
            is_html(r@[0], "<div class=\"mdbook-files-right\">"@),
            forall|k: int| 0 <= k < i ==> {
                &&& is_html(#[trigger] r@[3 * k + 1], pane_open(files@[k].id))
                &&& is_code(r@[3 * k + 2], lang_of(files@[k].path@), contents@[k]@)
                &&& is_html(r@[3 * k + 3], "</div>"@)
            },
        decreases files.len() - i,
    {
        let e = &files[i];
        let lang = match path_extension(e.path.as_str()) {
            Some(x) => x,
            None => String::new(),
        };
        let mut open = String::from_str("<div id=\"file-");
        open.append(id_text(e.id).as_str());
        open.append("\" class=\"mdbook-file visible\">");
        assert(open@ =~= pane_open(e.id));
        r.push(Fragment::Html(open));
        r.push(Fragment::CodeBlock { lang, text: contents[i].clone() });
        r.push(Fragment::Html(String::from_str("</div>")));
        i = i + 1;
    }
    r.push(Fragment::Html(String::from_str("</div>")));
    r
}

/// The opening tag of the widget; the height defaults to 300 pixels.
pub fn container_open(id: u128, height: Option<&str>) -> (r: String)
    ensures
        r@ == container_markup(id, height_of(height)),
{
    let h = match height {
        Some(h) => h,
        None => "300px",
    };
    let mut r = String::from_str("<div id=\"files-");
    r.append(id_text(id).as_str());
    r.append("\" class=\"mdbook-files\" style=\"height: ");
    r.append(h);
    r.append(";\">");
    assert(r@ =~= container_markup(id, h@));
    r
}

/// The height that the widget gets: the given one, or 300 pixels.
pub open spec fn height_of(height: Option<&str>) -> Seq<char> {
    match height {
        Some(h) => h@,
        None => "300px"@,
    }
}

/// `v` is the widget of `files`: the container opening, the tree pane, the
/// content panes in the entries' order, the closing tags, the script element
/// holding `script`, and a hard line break.
pub open spec fn widget_shape(
    v: Seq<Fragment>,
    container_id: u128,
    height: Seq<char>,
    files: Seq<FileEntry>,
    contents: Seq<String>,
    script: Seq<char>,
) -> bool {
    let n = files.len() as int;
    &&& v.len() == 3 * n + 7
    &&& is_html(v[0], container_markup(container_id, height))
    &&& exists|t: TreeNode| {
        &&& wf(t)
        &&& t is Directory
        &&& forall|q: Seq<Seq<char>>, x: u128| #[trigger] has_leaf(t, q, x) <==> entry_pair(files, q, x)
        &&& forall|q: Seq<Seq<char>>| #[trigger] node_at(t, q) ==> on_some_path(files, q)
        &&& is_html(v[1], left_markup(t))
    }
    &&& is_html(v[2], "<div class=\"mdbook-files-right\">"@)
    &&& forall|k: int| 0 <= k < n ==> {
        &&& is_html(#[trigger] v[3 * k + 3], pane_open(files[k].id))
        &&& is_code(v[3 * k + 4], lang_of(files[k].path@), contents[k]@)
        &&& is_html(v[3 * k + 5], "</div>"@)
    }
    &&& is_html(v[3 * n + 3], "</div>"@)
    &&& is_html(v[3 * n + 4], "</div>"@)
    &&& is_html(v[3 * n + 5], "<script>"@ + script + "</script>"@)
    &&& v[3 * n + 6] is HardBreak
}

/// The whole widget: its container holding the tree pane and the content
/// panes, then the activation script and a hard line break.
pub fn widget_fragments(
    container_id: u128,
    height: Option<&str>,
    files: &Vec<FileEntry>,
    contents: &Vec<String>,
    script: &str,
) -> (r: Result<Vec<Fragment>, TreeError>)
    requires
        contents@.len() == files@.len(),
    ensures
        r is Ok <==> prefix_free(files@),
        r matches Err(TreeError::RootIsFile) <==> has_empty_key(files@),
        r matches Err(TreeError::PathConflict) <==> (!has_empty_key(files@) && !prefix_free(files@)),
        r matches Ok(v) ==> widget_shape(v@, container_id, height_of(height), files@, contents@, script@),
{
    let mut v: Vec<Fragment> = Vec::new();
    v.push(Fragment::Html(container_open(container_id, height)));
    let left = match left_pane(files) {
        Ok(s) => s,
        Err(e) => {
            return Err(e);
        },
    };
    let ghost lv = left@;
    v.push(Fragment::Html(left));
    let mut right = right_pane(files, contents);
    let ghost rv = right@;
    v.append(&mut right);
    v.push(Fragment::Html(String::from_str("</div>")));
    let mut tag = String::from_str("<script>");
    tag.append(script);
    tag.append("</script>");
    v.push(Fragment::Html(tag));
    v.push(Fragment::HardBreak);
    proof {
        let n = files@.len() as int;
        assert forall|k: int| 0 <= k < n implies {
            &&& is_html(#[trigger] v@[3 * k + 3], pane_open(files@[k].id))
            &&& is_code(v@[3 * k + 4], lang_of(files@[k].path@), contents@[k]@)
            &&& is_html(v@[3 * k + 5], "</div>"@)
        } by {
            assert(v@[3 * k + 3] == rv[3 * k + 1]);
            assert(v@[3 * k + 4] == rv[3 * k + 2]);
            assert(v@[3 * k + 5] == rv[3 * k + 3]);
        }
        assert(v@[2] == rv[0]);
        assert(v@[3 * n + 3] == rv[3 * n + 1]);
        let t = choose|t: TreeNode| {
            &&& wf(t)
            &&& t is Directory
            &&& forall|q: Seq<Seq<char>>, x: u128| #[trigger] has_leaf(t, q, x) <==> entry_pair(files@, q, x)
            &&& forall|q: Seq<Seq<char>>| #[trigger] node_at(t, q) ==> on_some_path(files@, q)
            &&& lv == left_markup(t)
        };
        assert(is_html(v@[1], left_markup(t)));
        assert(widget_shape(v@, container_id, height_of(height), files@, contents@, script@));
    }
    Ok(v)
}

} // verus!
