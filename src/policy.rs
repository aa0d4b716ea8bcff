//! The declarative descriptor of a fenced block and the traversal policy
//! compiled from it.

use crate::paths::{join_path, joined};
use ignore::overrides::{Override, OverrideBuilder};
use vstd::prelude::*;

verus! {

#[verifier::external_type_specification]
#[verifier::external_body]
pub struct ExOverrideBuilder(OverrideBuilder);

#[verifier::external_type_specification]
#[verifier::external_body]
pub struct ExOverride(Override);

#[verifier::external_type_specification]
#[verifier::external_body]
pub struct ExIgnoreError(ignore::Error);

/// What a fenced block asks for: a directory below the book's asset root and
/// how to walk it.
pub struct Files {
    /// Directory to show, relative to the asset root.
    pub path: String,
    /// Override globs, with gitignore semantics where `!` is inverted: a glob
    /// selects files, a glob starting with `!` ignores them.
    pub ignore: Vec<String>,
    /// Path of the file that is shown first, relative to `path`.
    pub default_file: Option<String>,
    /// Match ignore rules case insensitively.
    pub ignore_case_insensitive: bool,
    /// Do not descend into directories on another file system.
    pub same_file_system: bool,
    /// File types to select by name.
    pub types: Vec<String>,
    /// Skip hidden files.
    pub hidden: bool,
    /// Follow symbolic links.
    pub follow_links: bool,
    /// Read `.ignore` files.
    pub dot_ignore: bool,
    /// Read the global gitignore file.
    pub git_global: bool,
    /// Read `.git/info/exclude` files.
    pub git_exclude: bool,
    /// Read `.gitignore` files.
    pub git_ignore: bool,
    /// Apply git rules only inside a git repository.
    pub require_git: bool,
    /// Read ignore files of parent directories.
    pub git_ignore_parents: bool,
    /// Deepest level to descend to.
    pub max_depth: Option<usize>,
    /// Skip files larger than this many bytes.
    pub max_filesize: Option<u64>,
    /// Height of the widget, as a CSS length.
    pub height: Option<String>,
}

/// Configuration of the preprocessor.
pub struct Config {
    /// The asset root that descriptor paths are relative to.
    pub prefix: String,
}

/// Why a traversal policy could not be compiled.
#[derive(Debug, PartialEq, Eq)]
pub enum PolicyError {
    /// The override glob at this position of the list is malformed.
    InvalidGlob { index: usize },
    /// The compiled override set was refused.
    InvalidOverrides,
}

impl Files {
    /// The directory to walk: `path` adjoined to the asset root.
    pub fn root(&self, prefix: &str) -> (r: String)
        ensures
            r@ == joined(prefix@, self.path@),
    {
        join_path(prefix, self.path.as_str())
    }
}

/// The glob lines the builder has recorded, in order, each as `add` kept it.
pub uninterp spec fn added_globs(b: OverrideBuilder) -> Seq<Seq<char>>;

/// White space as `char::is_whitespace` has it (the Unicode `White_Space` property).
pub open spec fn is_white_space(c: char) -> bool {
    c == '\t' || c == '\n' || c == '\u{0B}' || c == '\u{0C}' || c == '\r' || c == ' '
        || c == '\u{85}' || c == '\u{A0}' || c == '\u{1680}'
        || ('\u{2000}' as u32 <= c as u32 && c as u32 <= '\u{200A}' as u32)
        || c == '\u{2028}' || c == '\u{2029}' || c == '\u{202F}' || c == '\u{205F}' || c == '\u{3000}'
}

/// `s` without its trailing white space.
pub open spec fn trim_end(s: Seq<char>) -> Seq<char>
    decreases s.len(),
{
    if s.len() > 0 && is_white_space(s.last()) {
        trim_end(s.drop_last())
    } else {
        s
    }
}

/// The line that `OverrideBuilder::add` records for `glob`: none for a
/// comment or a blank line, else the line without trailing white space
/// (kept whole where it ends in an escaped space).
pub open spec fn kept_line(glob: Seq<char>) -> Option<Seq<char>> {
    if glob.len() > 0 && glob[0] == '#' {
        None
    } else {
        let line = if glob.len() >= 2 && glob[glob.len() - 2] == '\\' && glob.last() == ' ' {
            glob
        } else {
            trim_end(glob)
        };
        if line.len() == 0 {
            None
        } else {
            Some(line)
        }
    }
}

/// The lines recorded for a list of globs added in order.
pub open spec fn kept_lines(globs: Seq<Seq<char>>) -> Seq<Seq<char>>
    decreases globs.len(),
{
    if globs.len() == 0 {
        Seq::empty()
    } else {
        let init = kept_lines(globs.drop_last());
        match kept_line(globs.last()) {
            Some(l) => init.push(l),
            None => init,
        }
    }
}

/// The builder keeps the settings that `OverrideBuilder::new` gave it
/// (case-sensitive, unclosed character classes refused).
pub uninterp spec fn default_settings(b: OverrideBuilder) -> bool;

/// Whether `OverrideBuilder::add` accepts this line under the default settings.
pub uninterp spec fn glob_parses(glob: Seq<char>) -> bool;

/// Whether `OverrideBuilder::build` succeeds on these recorded lines under
/// the default settings.
pub uninterp spec fn overrides_build(globs: Seq<Seq<char>>) -> bool;

/// The text of each glob.
pub open spec fn glob_view(globs: Seq<String>) -> Seq<Seq<char>> {
    globs.map_values(|g: String| g@)
}

/// Every glob of the list parses.
pub open spec fn all_parse(globs: Seq<String>) -> bool {
    forall|j: int| 0 <= j < globs.len() ==> glob_parses(#[trigger] globs[j]@)
}

/// Relies on `OverrideBuilder::new`: an empty override set, matched relative to `root`.
#[verifier::external_body]
fn override_builder(root: &str) -> (r: OverrideBuilder)
    ensures
        default_settings(r),
        added_globs(r) == Seq::<Seq<char>>::empty(),
{
    OverrideBuilder::new(root)
}

/// Relies on `OverrideBuilder::add`: adds one glob, or reports that it does
/// not parse and leaves the builder as it was.
#[verifier::external_body]
fn add_override(builder: &mut OverrideBuilder, glob: &str) -> (r: Result<(), ignore::Error>)
    ensures
        default_settings(*old(builder)) ==> (r is Ok <==> glob_parses(glob@)),
        default_settings(*final(builder)) == default_settings(*old(builder)),
        r is Ok ==> added_globs(*final(builder)) == match kept_line(glob@) {
            Some(l) => added_globs(*old(builder)).push(l),
            None => added_globs(*old(builder)),
        },
        r is Err ==> added_globs(*final(builder)) == added_globs(*old(builder)),
{
    builder.add(glob).map(|_| ())
}

/// Relies on `OverrideBuilder::build`: the matcher for the globs added so far.
#[verifier::external_body]
fn build_overrides(builder: &OverrideBuilder) -> (r: Result<Override, ignore::Error>)
    ensures
        default_settings(*builder) ==> (r is Ok <==> overrides_build(added_globs(*builder))),
{
    builder.build()
}

/// Compiles the override globs, in order, into one matcher relative to
/// `root`; the first glob that does not parse is named by its position.
pub fn compile_overrides(root: &str, globs: &Vec<String>) -> (r: Result<Override, PolicyError>)
    ensures
        r matches Err(PolicyError::InvalidGlob { index }) ==> {
            &&& index < globs@.len()
            &&& !glob_parses(globs@[index as int]@)
            &&& forall|j: int| 0 <= j < index ==> glob_parses(#[trigger] globs@[j]@)
        },
        !all_parse(globs@) ==> r matches Err(PolicyError::InvalidGlob { .. }),
        r matches Err(PolicyError::InvalidOverrides) <==> (all_parse(globs@) && !overrides_build(kept_lines(glob_view(globs@)))),
        r is Ok <==> (all_parse(globs@) && overrides_build(kept_lines(glob_view(globs@)))),
{
    let mut builder = override_builder(root);
    let mut i: usize = 0;
    while i < globs.len()
        invariant
            i <= globs@.len(),
            default_settings(builder),
            added_globs(builder) == kept_lines(glob_view(globs@).subrange(0, i as int)),
            forall|j: int| 0 <= j < i ==> glob_parses(#[trigger] globs@[j]@),
        decreases globs.len() - i,
    {
        match add_override(&mut builder, globs[i].as_str()) {
            Ok(()) => {},
            Err(_) => {
                return Err(PolicyError::InvalidGlob { index: i });
            },
        }
        assert(glob_view(globs@).subrange(0, i + 1).drop_last() =~= glob_view(globs@).subrange(0, i as int));
        i = i + 1;
    }
    assert(glob_view(globs@).subrange(0, i as int) =~= glob_view(globs@));
    match build_overrides(&builder) {
        Ok(o) => Ok(o),
        Err(_) => Err(PolicyError::InvalidOverrides),
    }
}

} // verus!
