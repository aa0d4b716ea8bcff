//! The result of an enumeration: one entry per file, keyed by its path below
//! the root and kept in canonical (lexicographic) order.

use crate::ident::fresh_id;
use crate::order::{
    lemma_path_lt_irreflexive, lemma_path_lt_total, lemma_path_lt_transitive, path_lt, seg_view,
    segments_eq, segments_lt,
};
use crate::paths::{components_of, joined, path_components, strip_base, stripped, join_path};
use vstd::prelude::*;

verus! {

/// An entry that a directory walk visited.
pub struct WalkedEntry {
    /// The path as the walk produced it, root included.
    pub path: String,
    /// Whether the entry is a regular file (not a directory).
    pub is_file: bool,
}

/// A selected file and the identifier allocated for it.
pub struct FileEntry {
    /// The path as the walk produced it, root included.
    pub path: String,
    /// The components of the path below the root.
    pub segments: Vec<String>,
    /// The identifier shared by the file's tree leaf, content pane and script entry.
    pub id: u128,
}

/// Why enumeration results could not be used.
#[derive(Debug, PartialEq, Eq)]
pub enum FilesError {
    /// The walk selected no file.
    NoFilesMatched,
    /// A walked file does not lie below the root.
    OutsideRoot,
    /// Fresh identifiers kept clashing with ones already handed out.
    IdentifierClash,
    /// The configured default file is not among the selected files.
    DefaultFileNotFound,
}

/// The key of an entry: its path below the root, segment by segment.
pub open spec fn key(e: FileEntry) -> Seq<Seq<char>> {
    seg_view(e.segments@)
}

/// Entries in strictly increasing key order (so keys are unique).
pub open spec fn sorted(v: Seq<FileEntry>) -> bool {
    forall|i: int, j: int| 0 <= i < j < v.len() ==> path_lt(#[trigger] key(v[i]), #[trigger] key(v[j]))
}

/// Some entry of `v` has key `k`.
pub open spec fn has_key(v: Seq<FileEntry>, k: Seq<Seq<char>>) -> bool {
    exists|i: int| 0 <= i < v.len() && key(#[trigger] v[i]) == k
}

/// The key that a walked path gets below `root`, if it lies below it.
pub open spec fn relative_key(path: Seq<char>, root: Seq<char>) -> Option<Seq<Seq<char>>> {
    match stripped(path, root) {
        Some(rel) => Some(components_of(rel)),
        None => None,
    }
}

/// Some walked file in `w` lies outside `root`.
pub open spec fn has_outside_file(w: Seq<WalkedEntry>, root: Seq<char>) -> bool {
    exists|j: int| 0 <= j < w.len() && (#[trigger] w[j]).is_file && relative_key(w[j].path@, root) is None
}

/// Some walked entry in `w` is a file.
pub open spec fn has_file(w: Seq<WalkedEntry>) -> bool {
    exists|j: int| 0 <= j < w.len() && (#[trigger] w[j]).is_file
}

/// Key `k` belongs to a walked file of `w`.
pub open spec fn walked_key(w: Seq<WalkedEntry>, root: Seq<char>, k: Seq<Seq<char>>) -> bool {
    exists|j: int| 0 <= j < w.len() && (#[trigger] w[j]).is_file && relative_key(w[j].path@, root) == Some(k)
}

/// No two entries share an identifier.
pub open spec fn ids_distinct(v: Seq<FileEntry>) -> bool {
    forall|a: int, b: int| 0 <= a < v.len() && 0 <= b < v.len() && a != b ==> (#[trigger] v[a]).id != (#[trigger] v[b]).id
}

/// Inserts `e` at its place in key order; an entry with the same key is replaced.
fn insert_entry(v: &mut Vec<FileEntry>, e: FileEntry)
    requires
        sorted(old(v)@),
    ensures
        sorted(final(v)@),
        final(v)@.len() > 0,
        forall|k: Seq<Seq<char>>| #[trigger] has_key(final(v)@, k) <==> (k == key(e) || has_key(old(v)@, k)),
        forall|i: int| 0 <= i < final(v)@.len() ==> (#[trigger] final(v)@[i] == e || exists|j: int| 0 <= j < old(v)@.len() && final(v)@[i] == old(v)@[j]),
        ids_distinct(old(v)@) && (forall|a: int| 0 <= a < old(v)@.len() ==> (#[trigger] old(v)@[a]).id != e.id)
            ==> ids_distinct(final(v)@),
{
    let ghost ov = v@;
    let ghost ke = key(e);
    let mut j: usize = 0;
    while j < v.len() && segments_lt(&v[j].segments, &e.segments)
        invariant
            v@ == ov,
            j <= v.len(),
            ke == key(e),
            forall|i: int| 0 <= i < j ==> path_lt(#[trigger] key(ov[i]), ke),
        decreases v.len() - j,
    {
        j = j + 1;
    }
    if j < v.len() && segments_eq(&v[j].segments, &e.segments) {
        v.set(j, e);
        assert forall|a: int, b: int| 0 <= a < b < v@.len() implies path_lt(#[trigger] key(v@[a]), #[trigger] key(v@[b])) by {
            assert(key(v@[a]) == key(ov[a]));
            assert(key(v@[b]) == key(ov[b]));
        }
        assert forall|k: Seq<Seq<char>>| #[trigger] has_key(v@, k) <==> (k == ke || has_key(ov, k)) by {
            if has_key(ov, k) {
                let i = choose|i: int| 0 <= i < ov.len() && key(#[trigger] ov[i]) == k;
                assert(key(v@[i]) == k);
            }
            if k == ke {
                assert(key(v@[j as int]) == k);
            }
            if has_key(v@, k) {
                let i = choose|i: int| 0 <= i < v@.len() && key(#[trigger] v@[i]) == k;
                assert(key(ov[i]) == k);
            }
        }
        assert forall|i: int| 0 <= i < v@.len() implies (#[trigger] v@[i] == e || exists|m: int| 0 <= m < ov.len() && v@[i] == ov[m]) by {
            if i != j {
                assert(v@[i] == ov[i]);
            }
        }
        assert(v@ == ov.update(j as int, e));
    } else {
        proof {
            if j < v.len() {
                lemma_path_lt_total(key(ov[j as int]), ke);
            }
        }
        v.insert(j, e);
        assert forall|a: int, b: int| 0 <= a < b < v@.len() implies path_lt(#[trigger] key(v@[a]), #[trigger] key(v@[b])) by {
            if b == j {
                assert(path_lt(key(ov[a]), ke));
            } else if a == j {
                assert(path_lt(ke, key(ov[j as int])));
                if b - 1 > j {
                    lemma_path_lt_transitive(ke, key(ov[j as int]), key(ov[b - 1]));
                }
            } else if a < j && b > j {
                assert(path_lt(key(ov[a]), ke));
                assert(path_lt(ke, key(ov[j as int])));
                lemma_path_lt_transitive(key(ov[a]), ke, key(ov[j as int]));
                if b - 1 > j {
                    lemma_path_lt_transitive(key(ov[a]), key(ov[j as int]), key(ov[b - 1]));
                }
            } else if a > j {
                assert(key(v@[a]) == key(ov[a - 1]));
                assert(key(v@[b]) == key(ov[b - 1]));
            }
        }
        assert forall|k: Seq<Seq<char>>| #[trigger] has_key(v@, k) <==> (k == ke || has_key(ov, k)) by {
            if has_key(ov, k) {
                let i = choose|i: int| 0 <= i < ov.len() && key(#[trigger] ov[i]) == k;
                if i < j {
                    assert(key(v@[i]) == k);
                } else {
                    assert(key(v@[i + 1]) == k);
                }
            }
            if k == ke {
                assert(key(v@[j as int]) == k);
            }
            if has_key(v@, k) {
                let i = choose|i: int| 0 <= i < v@.len() && key(#[trigger] v@[i]) == k;
                if i < j {
                    assert(key(ov[i]) == k);
                } else if i > j {
                    assert(key(ov[i - 1]) == k);
                }
            }
        }
        assert forall|i: int| 0 <= i < v@.len() implies (#[trigger] v@[i] == e || exists|m: int| 0 <= m < ov.len() && v@[i] == ov[m]) by {
            if i < j {
                assert(v@[i] == ov[i]);
            } else if i > j {
                assert(v@[i] == ov[i - 1]);
            }
        }
        assert(v@ == ov.insert(j as int, e));
    }
}

/// The identifiers drawn for the walked files differ pairwise.
pub open spec fn file_ids_unique(w: Seq<WalkedEntry>, ids: Seq<u128>) -> bool {
    forall|a: int, b: int| 0 <= a < w.len() && 0 <= b < w.len() && a != b && w[a].is_file && w[b].is_file
        ==> #[trigger] ids[a] != #[trigger] ids[b]
}

/// At least two walked entries are files.
pub open spec fn has_two_files(w: Seq<WalkedEntry>) -> bool {
    exists|a: int, b: int| 0 <= a < w.len() && 0 <= b < w.len() && a != b && (#[trigger] w[a]).is_file && (#[trigger] w[b]).is_file
}

/// `e` comes from a walked file among the first `n`, and carries that file's identifier.
pub open spec fn from_walk(w: Seq<WalkedEntry>, root: Seq<char>, ids: Seq<u128>, n: int, e: FileEntry) -> bool {
    exists|j: int| 0 <= j < n && (#[trigger] w[j]).is_file && w[j].path@ == e.path@
        && relative_key(w[j].path@, root) == Some(key(e)) && e.id == ids[j]
}

/// Whether no walked file lies outside `root`; the first loop of `key_files`.
fn all_below_root(root: &str, walked: &Vec<WalkedEntry>) -> (r: bool)
    ensures
        r == !has_outside_file(walked@, root@),
{
    let mut i: usize = 0;
    while i < walked.len()
        invariant
            i <= walked@.len(),
            forall|j: int| 0 <= j < i && (#[trigger] walked@[j]).is_file ==> relative_key(walked@[j].path@, root@) is Some,
        decreases walked.len() - i,
    {
        if walked[i].is_file {
            if strip_base(walked[i].path.as_str(), root).is_none() {
                assert(walked@[i as int].is_file && relative_key(walked@[i as int].path@, root@) is None);
                return false;
            }
        }
        i = i + 1;
    }
    true
}

/// Whether some walked entry is a file.
fn any_file(walked: &Vec<WalkedEntry>) -> (r: bool)
    ensures
        r == has_file(walked@),
{
    let mut i: usize = 0;
    while i < walked.len()
        invariant
            i <= walked@.len(),
            forall|j: int| 0 <= j < i ==> !(#[trigger] walked@[j]).is_file,
        decreases walked.len() - i,
    {
        if walked[i].is_file {
            return true;
        }
        i = i + 1;
    }
    false
}

/// Whether the identifiers given to the walked files differ pairwise.
fn ids_unique(walked: &Vec<WalkedEntry>, ids: &Vec<u128>) -> (r: bool)
    requires
        ids@.len() == walked@.len(),
    ensures
        r == file_ids_unique(walked@, ids@),
{
    let mut a: usize = 0;
    while a < walked.len()
        invariant
            a <= walked@.len(),
            ids@.len() == walked@.len(),
            forall|x: int, y: int| 0 <= x < a && 0 <= y < walked@.len() && x != y && walked@[x].is_file && walked@[y].is_file
                ==> #[trigger] ids@[x] != #[trigger] ids@[y],
        decreases walked.len() - a,
    {
        let mut b: usize = 0;
        while b < walked.len()
            invariant
                a < walked@.len(),
                b <= walked@.len(),
                ids@.len() == walked@.len(),
                forall|x: int, y: int| 0 <= x < a && 0 <= y < walked@.len() && x != y && walked@[x].is_file && walked@[y].is_file
                    ==> #[trigger] ids@[x] != #[trigger] ids@[y],
                forall|y: int| 0 <= y < b && y != a && walked@[a as int].is_file && walked@[y].is_file
                    ==> ids@[a as int] != #[trigger] ids@[y],
            decreases walked.len() - b,
        {
            if a != b && walked[a].is_file && walked[b].is_file && ids[a] == ids[b] {
                return false;
            }
            b = b + 1;
        }
        a = a + 1;
    }
    true
}

/// Keys the files among `walked` by their path below `root`, in canonical
/// order, giving the file at position `j` of the walk the identifier `ids[j]`.
pub fn key_files(root: &str, walked: &Vec<WalkedEntry>, ids: &Vec<u128>) -> (r: Result<Vec<FileEntry>, FilesError>)
    requires
        ids@.len() == walked@.len(),
    ensures
        r matches Err(FilesError::OutsideRoot) <==> has_outside_file(walked@, root@),
        r matches Err(FilesError::NoFilesMatched) <==> !has_file(walked@),
        r matches Err(FilesError::IdentifierClash) <==>
            (has_file(walked@) && !has_outside_file(walked@, root@) && !file_ids_unique(walked@, ids@)),
        r is Ok <==> (has_file(walked@) && !has_outside_file(walked@, root@) && file_ids_unique(walked@, ids@)),
        r matches Ok(v) ==> ids_distinct(v@),
        r matches Ok(v) ==> sorted(v@) && v@.len() > 0,
        r matches Ok(v) ==> forall|k: Seq<Seq<char>>|
            #[trigger] has_key(v@, k) <==> walked_key(walked@, root@, k),
        r matches Ok(v) ==> forall|m: int| 0 <= m < v@.len() ==> exists|j: int|
            0 <= j < walked@.len() && (#[trigger] walked@[j]).is_file && walked@[j].path@ == (#[trigger] v@[m]).path@
                && relative_key(walked@[j].path@, root@) == Some(key(v@[m])) && v@[m].id == ids@[j],
{
    if !all_below_root(root, walked) {
        return Err(FilesError::OutsideRoot);
    }
    if !any_file(walked) {
        return Err(FilesError::NoFilesMatched);
    }
    if !ids_unique(walked, ids) {
        return Err(FilesError::IdentifierClash);
    }
    let mut v: Vec<FileEntry> = Vec::new();
    let mut i: usize = 0;
    while i < walked.len()
        invariant
            i <= walked.len(),
            ids@.len() == walked@.len(),
            has_file(walked@),
            !has_outside_file(walked@, root@),
            file_ids_unique(walked@, ids@),
            sorted(v@),
            ids_distinct(v@),
            forall|k: Seq<Seq<char>>| #[trigger] has_key(v@, k) <==> exists|j: int|
                0 <= j < i && (#[trigger] walked@[j]).is_file && relative_key(walked@[j].path@, root@) == Some(k),
            forall|m: int| 0 <= m < v@.len() ==> from_walk(walked@, root@, ids@, i as int, #[trigger] v@[m]),
        decreases walked.len() - i,
    {
        let w = &walked[i];
        if w.is_file {
            match strip_base(w.path.as_str(), root) {
                None => {
                    assert(walked@[i as int].is_file && relative_key(walked@[i as int].path@, root@) is None);
                    assert(false);
                    return Err(FilesError::OutsideRoot);
                },
                Some(rel) => {
                    let segments = path_components(rel.as_str());
                    assert(seg_view(segments@) =~= segments@.map_values(|s: String| s@));
                    let e = FileEntry { path: w.path.clone(), segments, id: ids[i] };
                    let ghost ov = v@;
                    let ghost ee = e;
                    proof {
                        assert forall|a: int| 0 <= a < ov.len() implies (#[trigger] ov[a]).id != ee.id by {
                            assert(from_walk(walked@, root@, ids@, i as int, ov[a]));
                            let j = choose|j: int| 0 <= j < i && (#[trigger] walked@[j]).is_file && walked@[j].path@ == ov[a].path@
                                && relative_key(walked@[j].path@, root@) == Some(key(ov[a])) && ov[a].id == ids@[j];
                            assert(ids@[j] != ids@[i as int]);
                        }
                    }
                    insert_entry(&mut v, e);
                    assert(relative_key(walked@[i as int].path@, root@) == Some(key(ee)));
                    assert forall|k: Seq<Seq<char>>| #[trigger] has_key(v@, k) <==> exists|j: int|
                        0 <= j < i + 1 && (#[trigger] walked@[j]).is_file && relative_key(walked@[j].path@, root@) == Some(k) by {
                        if k == key(ee) {
                            assert(walked@[i as int].is_file);
                        }
                    }
                    assert forall|m: int| 0 <= m < v@.len() implies from_walk(walked@, root@, ids@, i + 1, #[trigger] v@[m]) by {
                        if v@[m] == ee {
                            assert(walked@[i as int].is_file && walked@[i as int].path@ == v@[m].path@ && v@[m].id == ids@[i as int]);
                        } else {
                            let q = choose|q: int| 0 <= q < ov.len() && v@[m] == ov[q];
                            assert(from_walk(walked@, root@, ids@, i as int, ov[q]));
                            let j = choose|j: int| 0 <= j < i && (#[trigger] walked@[j]).is_file && walked@[j].path@ == ov[q].path@
                                && relative_key(walked@[j].path@, root@) == Some(key(ov[q])) && ov[q].id == ids@[j];
                            assert(walked@[j].is_file);
                        }
                    }
                },
            }
        }
        assert forall|m: int| 0 <= m < v@.len() implies from_walk(walked@, root@, ids@, i + 1, #[trigger] v@[m]) by {
            if !walked@[i as int].is_file {
                assert(from_walk(walked@, root@, ids@, i as int, v@[m]));
                let j = choose|j: int| 0 <= j < i && (#[trigger] walked@[j]).is_file && walked@[j].path@ == v@[m].path@
                    && relative_key(walked@[j].path@, root@) == Some(key(v@[m])) && v@[m].id == ids@[j];
                assert(walked@[j].is_file);
            }
        }
        i = i + 1;
    }
    proof {
        let j = choose|j: int| 0 <= j < walked@.len() && (#[trigger] walked@[j]).is_file;
        let k = relative_key(walked@[j].path@, root@)->0;
        assert(has_key(v@, k));
        assert forall|k: Seq<Seq<char>>| #[trigger] has_key(v@, k) <==> walked_key(walked@, root@, k) by {}
        assert forall|m: int| 0 <= m < v@.len() implies exists|j: int|
            0 <= j < walked@.len() && (#[trigger] walked@[j]).is_file && walked@[j].path@ == (#[trigger] v@[m]).path@
                && relative_key(walked@[j].path@, root@) == Some(key(v@[m])) && v@[m].id == ids@[j] by {
            assert(from_walk(walked@, root@, ids@, i as int, v@[m]));
        }
    }
    Ok(v)
}

/// Draws an identifier for each walked entry and keys the files with them
/// (see `key_files`); a draw that clashes is retried a few times.
pub fn collect_files(root: &str, walked: &Vec<WalkedEntry>) -> (r: Result<Vec<FileEntry>, FilesError>)
    ensures
        r matches Err(FilesError::OutsideRoot) <==> has_outside_file(walked@, root@),
        r matches Err(FilesError::NoFilesMatched) <==> !has_file(walked@),
        r matches Err(FilesError::IdentifierClash) ==>
            (has_two_files(walked@) && !has_outside_file(walked@, root@)),
        r is Ok ==> (has_file(walked@) && !has_outside_file(walked@, root@)),
        has_file(walked@) && !has_two_files(walked@) && !has_outside_file(walked@, root@) ==> r is Ok,
        r is Err ==> !(r matches Err(FilesError::DefaultFileNotFound)),
        r matches Ok(v) ==> ids_distinct(v@),
        r matches Ok(v) ==> sorted(v@) && v@.len() > 0,
        r matches Ok(v) ==> forall|k: Seq<Seq<char>>|
            #[trigger] has_key(v@, k) <==> walked_key(walked@, root@, k),
        r matches Ok(v) ==> forall|m: int| 0 <= m < v@.len() ==> exists|j: int|
            0 <= j < walked@.len() && (#[trigger] walked@[j]).is_file && walked@[j].path@ == (#[trigger] v@[m]).path@
                && relative_key(walked@[j].path@, root@) == Some(key(v@[m])),
{
    let mut tries: usize = 0;
    loop
        invariant
            tries < 4,
        decreases 4 - tries,
    {
        let mut ids: Vec<u128> = Vec::new();
        let mut i: usize = 0;
        while i < walked.len()
            invariant
                i <= walked@.len(),
                ids@.len() == i,
            decreases walked.len() - i,
        {
            ids.push(fresh_id());
            i = i + 1;
        }
        let r = key_files(root, walked, &ids);
        proof {
            if r matches Err(FilesError::IdentifierClash) {
                if !has_two_files(walked@) {
                    assert forall|a: int, b: int| 0 <= a < walked@.len() && 0 <= b < walked@.len() && a != b
                        && walked@[a].is_file && walked@[b].is_file implies #[trigger] ids@[a] != #[trigger] ids@[b] by {
                        assert(walked@[a].is_file && walked@[b].is_file);
                    }
                }
            }
        }
        tries = tries + 1;
        if !(r matches Err(FilesError::IdentifierClash)) || tries >= 4 {
            return r;
        }
    }
}

/// Where a configured default file would sit among the keys.
pub open spec fn default_key(root: Seq<char>, file: Seq<char>) -> Option<Seq<Seq<char>>> {
    relative_key(joined(root, file), root)
}

/// The text of an optional string.
pub open spec fn opt_chars(o: Option<&str>) -> Option<Seq<char>> {
    match o {
        Some(s) => Some(s@),
        None => None,
    }
}

/// The position of the first entry with key `k`.
pub open spec fn first_with_key(files: Seq<FileEntry>, k: Seq<Seq<char>>) -> int {
    choose|i: int| 0 <= i < files.len() && key(#[trigger] files[i]) == k
        && forall|m: int| 0 <= m < i ==> key(#[trigger] files[m]) != k
}

/// The identifier shown before any interaction: the configured default
/// file's, or the first entry's; none where there is no entry or the
/// configured file is not among them.
pub open spec fn visible_of(root: Seq<char>, files: Seq<FileEntry>, default_file: Option<Seq<char>>) -> Option<u128> {
    if files.len() == 0 {
        None
    } else {
        match default_file {
            None => Some(files[0].id),
            Some(f) => match default_key(root, f) {
                Some(k) => if has_key(files, k) {
                    Some(files[first_with_key(files, k)].id)
                } else {
                    None
                },
                None => None,
            },
        }
    }
}

/// Picks the identifier that is shown before any interaction: the one of the
/// configured default file, or else the one of the first file in canonical order.
pub fn default_visible(root: &str, files: &Vec<FileEntry>, default_file: Option<&str>) -> (r: Result<u128, FilesError>)
    ensures
        files@.len() == 0 ==> r == Err::<u128, FilesError>(FilesError::NoFilesMatched),
        files@.len() > 0 && default_file is None ==> r == Ok::<u128, FilesError>(files@[0].id),
        files@.len() > 0 && default_file is Some ==> match default_key(root@, default_file->0@) {
            Some(k) => {
                &&& r is Ok <==> has_key(files@, k)
                &&& r is Err ==> r == Err::<u128, FilesError>(FilesError::DefaultFileNotFound)
                &&& r matches Ok(id) ==> exists|i: int| 0 <= i < files@.len() && key(#[trigger] files@[i]) == k && files@[i].id == id
            },
            None => r == Err::<u128, FilesError>(FilesError::DefaultFileNotFound),
        },
        r is Ok <==> visible_of(root@, files@, opt_chars(default_file)) is Some,
        r matches Ok(id) ==> visible_of(root@, files@, opt_chars(default_file)) == Some(id),
{
    if files.len() == 0 {
        return Err(FilesError::NoFilesMatched);
    }
    match default_file {
        None => Ok(files[0].id),
        Some(f) => {
            let full = join_path(root, f);
            match strip_base(full.as_str(), root) {
                None => Err(FilesError::DefaultFileNotFound),
                Some(rel) => {
                    let wanted = path_components(rel.as_str());
                    let ghost k = seg_view(wanted@);
                    assert(k =~= wanted@.map_values(|s: String| s@));
                    let mut i: usize = 0;
                    while i < files.len()
                        invariant
                            i <= files@.len(),
                            k == seg_view(wanted@),
                            files@.len() > 0,
                            default_file == Some(f),
                            default_key(root@, f@) == Some(k),
                            forall|m: int| 0 <= m < i ==> key(#[trigger] files@[m]) != k,
                        decreases files.len() - i,
                    {
                        if segments_eq(&files[i].segments, &wanted) {
                            assert(key(files@[i as int]) == k);
                            proof {
                                assert(0 <= i < files@.len() && key(files@[i as int]) == k
                                    && forall|m: int| 0 <= m < i ==> key(#[trigger] files@[m]) != k);
                                let c = first_with_key(files@, k);
                                if c < i {
                                    assert(key(files@[c]) != k);
                                } else if c > i {
                                    assert(key(files@[i as int]) != k);
                                }
                                assert(has_key(files@, k));
                            }
                            return Ok(files[i].id);
                        }
                        i = i + 1;
                    }
                    Err(FilesError::DefaultFileNotFound)
                },
            }
        },
    }
}

/// The identifiers of `files`, in their order.
pub fn file_ids(files: &Vec<FileEntry>) -> (r: Vec<u128>)
    ensures
        r@ == files@.map_values(|e: FileEntry| e.id),
{
    let mut r: Vec<u128> = Vec::new();
    let mut i: usize = 0;
    while i < files.len()
        invariant
            i <= files@.len(),
            r@ == files@.subrange(0, i as int).map_values(|e: FileEntry| e.id),
        decreases files.len() - i,
    {
        r.push(files[i].id);
        assert(files@.subrange(0, i + 1) =~= files@.subrange(0, i as int).push(files@[i as int]));
        i = i + 1;
    }
    assert(files@.subrange(0, i as int) =~= files@);
    r
}

/// The paths below `root` of the files that a walk selected.
pub open spec fn walked_keys(w: Seq<WalkedEntry>, root: Seq<char>) -> Set<Seq<Seq<char>>> {
    Set::new(|k: Seq<Seq<char>>| walked_key(w, root, k))
}

/// Enumeration keeps one entry per distinct selected path: as many entries
/// as the walk selected distinct files below the root.
pub proof fn lemma_one_entry_per_selected_file(v: Seq<FileEntry>, w: Seq<WalkedEntry>, root: Seq<char>)
    requires
        sorted(v),
        forall|k: Seq<Seq<char>>| #[trigger] has_key(v, k) <==> walked_key(w, root, k),
    ensures
        v.len() == walked_keys(w, root).len(),
        walked_keys(w, root).finite(),
{
    let ks = v.map_values(|e: FileEntry| key(e));
    assert forall|a: int, b: int| 0 <= a < ks.len() && 0 <= b < ks.len() && a != b implies ks[a] != ks[b] by {
        if ks[a] == ks[b] {
            lemma_keys_unique(v, a, b);
        }
    }
    assert(ks.no_duplicates());
    ks.unique_seq_to_set();
    assert forall|k: Seq<Seq<char>>| ks.to_set().contains(k) <==> walked_keys(w, root).contains(k) by {
        if has_key(v, k) {
            let i = choose|i: int| 0 <= i < v.len() && key(#[trigger] v[i]) == k;
            assert(ks[i] == k);
        }
        if ks.to_set().contains(k) {
            let i = choose|i: int| 0 <= i < ks.len() && ks[i] == k;
            assert(key(v[i]) == k);
        }
    }
    assert(ks.to_set() =~= walked_keys(w, root));
}

/// Without a configured default file, the visible identifier is the one of
/// the file whose path comes first in canonical order.
pub proof fn lemma_default_is_first(files: Seq<FileEntry>, i: int)
    requires
        sorted(files),
        0 < i < files.len(),
    ensures
        path_lt(key(files[0]), key(files[i])),
{
}

/// In canonical order no two entries share a path, so a configured default
/// file selects exactly one identifier.
pub proof fn lemma_keys_unique(files: Seq<FileEntry>, i: int, j: int)
    requires
        sorted(files),
        0 <= i < files.len(),
        0 <= j < files.len(),
        key(files[i]) == key(files[j]),
    ensures
        i == j,
{
    if i < j {
        lemma_path_lt_irreflexive(key(files[i]));
    } else if j < i {
        lemma_path_lt_irreflexive(key(files[i]));
    }
}

} // verus!
