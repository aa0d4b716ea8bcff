//! The nested directory structure built from the selected files.

use crate::order::{chars_lt, lemma_chars_lt_irreflexive, lemma_chars_lt_total, lemma_chars_lt_transitive, seg_view, str_eq, str_lt};
use crate::files::{key, FileEntry};
use crate::ident::{id_text, uuid_text};
use vstd::prelude::*;

verus! {

/// A directory (its entries ordered by name) or a file (its identifier).
pub enum TreeNode {
    Directory(Vec<(String, TreeNode)>),
    File(u128),
}

/// Why a tree could not be built or rendered.
#[derive(Debug, PartialEq, Eq)]
pub enum TreeError {
    /// A file was inserted at a path that a file or directory already claims,
    /// or below a file, or at the empty path.
    PathConflict,
    /// The tree to render is a bare file rather than a directory.
    RootIsFile,
}

/// Names of `ch` strictly increase, so no two entries share a name.
pub open spec fn names_sorted(ch: Seq<(String, TreeNode)>) -> bool {
    forall|i: int, j: int| 0 <= i < j < ch.len() ==> chars_lt(#[trigger] ch[i].0@, #[trigger] ch[j].0@)
}

/// Every directory of `t` keeps its entries in strictly increasing name order.
pub open spec fn wf(t: TreeNode) -> bool
    decreases t,
{
    match t {
        TreeNode::File(_) => true,
        TreeNode::Directory(ch) => names_sorted(ch@) && forall|i: int| 0 <= i < ch@.len() ==> wf(#[trigger] ch@[i].1),
    }
}

/// `t` holds a file with identifier `id` at path `p` (segment by segment, from `t`).
pub open spec fn has_leaf(t: TreeNode, p: Seq<Seq<char>>, id: u128) -> bool
    decreases t,
{
    match t {
        TreeNode::File(leaf) => p.len() == 0 && leaf == id,
        TreeNode::Directory(ch) => p.len() > 0 && exists|i: int|
            0 <= i < ch@.len() && (#[trigger] ch@[i]).0@ == p[0] && has_leaf(ch@[i].1, p.drop_first(), id),
    }
}

/// Inserting a file at `p` into `t` would collide with what `t` holds:
/// `t` is a file, `p` is empty, or `p` runs into a file or ends at an existing entry.
pub open spec fn blocked(t: TreeNode, p: Seq<Seq<char>>) -> bool
    decreases t,
{
    match t {
        TreeNode::File(_) => true,
        TreeNode::Directory(ch) => p.len() == 0 || exists|i: int|
            0 <= i < ch@.len() && (#[trigger] ch@[i]).0@ == p[0] && (p.len() == 1 || blocked(ch@[i].1, p.drop_first())),
    }
}

/// `a` is a prefix of `b` (possibly all of it).
pub open spec fn prefix_of(a: Seq<Seq<char>>, b: Seq<Seq<char>>) -> bool {
    a.len() <= b.len() && b.subrange(0, a.len() as int) == a
}

/// Some node of `t`, file or directory, sits at path `q`.
pub open spec fn node_at(t: TreeNode, q: Seq<Seq<char>>) -> bool
    decreases t,
{
    if q.len() == 0 {
        true
    } else {
        match t {
            TreeNode::File(_) => false,
            TreeNode::Directory(ch) => exists|i: int|
                0 <= i < ch@.len() && (#[trigger] ch@[i]).0@ == q[0] && node_at(ch@[i].1, q.drop_first()),
        }
    }
}

proof fn lemma_node_dir(ch: Vec<(String, TreeNode)>, q: Seq<Seq<char>>)
    requires
        q.len() > 0,
    ensures
        node_at(TreeNode::Directory(ch), q) <==> exists|i: int|
            0 <= i < ch@.len() && (#[trigger] ch@[i]).0@ == q[0] && node_at(ch@[i].1, q.drop_first()),
{
    let t = TreeNode::Directory(ch);
    if exists|i: int| 0 <= i < ch@.len() && (#[trigger] ch@[i]).0@ == q[0] && node_at(ch@[i].1, q.drop_first()) {
        let i = choose|i: int| 0 <= i < ch@.len() && (#[trigger] ch@[i]).0@ == q[0] && node_at(ch@[i].1, q.drop_first());
        assert(decreases_to!(t => t->Directory_0));
        assert(decreases_to!(ch => ch@));
        assert(decreases_to!(ch@ => ch@[i]));
        assert(decreases_to!(ch@[i] => ch@[i].1));
        assert(node_at(t, q));
    }
}

proof fn lemma_prefix_cons(q: Seq<Seq<char>>, p: Seq<Seq<char>>)
    requires
        q.len() > 0,
        p.len() > 0,
        q[0] == p[0],
        prefix_of(q.drop_first(), p.drop_first()),
    ensures
        prefix_of(q, p),
{
    let n = q.len() as int;
    assert forall|k: int| 0 <= k < n implies p.subrange(0, n)[k] == q[k] by {
        if k > 0 {
            assert(p.drop_first().subrange(0, n - 1)[k - 1] == q.drop_first()[k - 1]);
        }
    }
    assert(p.subrange(0, n) =~= q);
}

proof fn lemma_leaf_in_child(ch: Vec<(String, TreeNode)>, i: int, q: Seq<Seq<char>>, x: u128)
    requires
        0 <= i < ch@.len(),
        q.len() > 0,
        ch@[i].0@ == q[0],
        has_leaf(ch@[i].1, q.drop_first(), x),
    ensures
        has_leaf(TreeNode::Directory(ch), q, x),
{
    let t = TreeNode::Directory(ch);
    assert(decreases_to!(t => t->Directory_0));
    assert(decreases_to!(ch => ch@));
    assert(decreases_to!(ch@ => ch@[i]));
    assert(decreases_to!(ch@[i] => ch@[i].1));
}

proof fn lemma_blocked_dir(ch: Vec<(String, TreeNode)>, p: Seq<Seq<char>>)
    requires
        p.len() > 0,
    ensures
        blocked(TreeNode::Directory(ch), p) <==> exists|i: int|
            0 <= i < ch@.len() && (#[trigger] ch@[i]).0@ == p[0] && (p.len() == 1 || blocked(ch@[i].1, p.drop_first())),
{
    let t = TreeNode::Directory(ch);
    if exists|i: int| 0 <= i < ch@.len() && (#[trigger] ch@[i]).0@ == p[0] && (p.len() == 1 || blocked(ch@[i].1, p.drop_first())) {
        let i = choose|i: int| 0 <= i < ch@.len() && (#[trigger] ch@[i]).0@ == p[0] && (p.len() == 1 || blocked(ch@[i].1, p.drop_first()));
        assert(decreases_to!(t => t->Directory_0));
        assert(decreases_to!(ch => ch@));
        assert(decreases_to!(ch@ => ch@[i]));
        assert(decreases_to!(ch@[i] => ch@[i].1));
        assert(blocked(t, p));
    }
    if blocked(t, p) {
        assert(exists|i: int| 0 <= i < ch@.len() && (#[trigger] ch@[i]).0@ == p[0] && (p.len() == 1 || blocked(ch@[i].1, p.drop_first())));
    }
}

proof fn lemma_empty_prefix(p: Seq<Seq<char>>)
    ensures
        prefix_of(Seq::empty(), p),
{
    assert(p.subrange(0, 0) =~= Seq::<Seq<char>>::empty());
}

/// A blocked insertion runs into an existing node at its own path, or into a
/// file on the way there.
proof fn lemma_blocked_witness(t: TreeNode, p: Seq<Seq<char>>)
    requires
        blocked(t, p),
        p.len() > 0,
    ensures
        node_at(t, p) || exists|q: Seq<Seq<char>>, x: u128|
            #[trigger] has_leaf(t, q, x) && q.len() < p.len() && prefix_of(q, p),
    decreases t,
{
    match t {
        TreeNode::File(id) => {
            lemma_empty_prefix(p);
            assert(has_leaf(t, Seq::empty(), id));
        },
        TreeNode::Directory(ch) => {
            lemma_blocked_dir(ch, p);
            lemma_node_dir(ch, p);
            let i = choose|i: int| 0 <= i < ch@.len() && (#[trigger] ch@[i]).0@ == p[0]
                && (p.len() == 1 || blocked(ch@[i].1, p.drop_first()));
            if p.len() > 1 {
                assert(decreases_to!(t => t->Directory_0));
                assert(decreases_to!(ch => ch@));
                assert(decreases_to!(ch@ => ch@[i]));
                assert(decreases_to!(ch@[i] => ch@[i].1));
                lemma_blocked_witness(ch@[i].1, p.drop_first());
                if !node_at(ch@[i].1, p.drop_first()) {
                    let (q1, x) = choose|q1: Seq<Seq<char>>, x: u128|
                        #[trigger] has_leaf(ch@[i].1, q1, x) && q1.len() < p.drop_first().len() && prefix_of(q1, p.drop_first());
                    let q = seq![p[0]] + q1;
                    assert(q.drop_first() =~= q1);
                    lemma_leaf_in_child(ch, i, q, x);
                    lemma_prefix_cons(q, p);
                }
            }
        },
    }
}

proof fn lemma_replace_node(ch: Vec<(String, TreeNode)>, ch2: Vec<(String, TreeNode)>, j: int, p: Seq<Seq<char>>)
    requires
        0 <= j < ch@.len(),
        p.len() > 0,
        ch2@.len() == ch@.len(),
        ch@[j].0@ == p[0],
        ch2@[j].0@ == p[0],
        forall|i: int| 0 <= i < ch@.len() && i != j ==> ch2@[i] == ch@[i],
        forall|q: Seq<Seq<char>>| #[trigger] node_at(ch2@[j].1, q) ==>
            (node_at(ch@[j].1, q) || prefix_of(q, p.drop_first())),
    ensures
        forall|q: Seq<Seq<char>>| #[trigger] node_at(TreeNode::Directory(ch2), q) ==>
            (node_at(TreeNode::Directory(ch), q) || prefix_of(q, p)),
{
    assert forall|q: Seq<Seq<char>>| #[trigger] node_at(TreeNode::Directory(ch2), q) implies
        (node_at(TreeNode::Directory(ch), q) || prefix_of(q, p)) by {
        if q.len() == 0 {
        } else {
            lemma_node_dir(ch2, q);
            lemma_node_dir(ch, q);
            let i = choose|i: int| 0 <= i < ch2@.len() && (#[trigger] ch2@[i]).0@ == q[0] && node_at(ch2@[i].1, q.drop_first());
            if i == j {
                if !node_at(ch@[j].1, q.drop_first()) {
                    lemma_prefix_cons(q, p);
                }
            } else {
                assert(ch@[i] == ch2@[i]);
            }
        }
    }
}

proof fn lemma_add_node(ch: Vec<(String, TreeNode)>, ch2: Vec<(String, TreeNode)>, j: int, p: Seq<Seq<char>>)
    requires
        0 <= j <= ch@.len(),
        p.len() > 0,
        ch2@.len() == ch@.len() + 1,
        ch2@ == ch@.insert(j, ch2@[j]),
        ch2@[j].0@ == p[0],
        forall|q: Seq<Seq<char>>| #[trigger] node_at(ch2@[j].1, q) ==> prefix_of(q, p.drop_first()),
    ensures
        forall|q: Seq<Seq<char>>| #[trigger] node_at(TreeNode::Directory(ch2), q) ==>
            (node_at(TreeNode::Directory(ch), q) || prefix_of(q, p)),
{
    assert forall|q: Seq<Seq<char>>| #[trigger] node_at(TreeNode::Directory(ch2), q) implies
        (node_at(TreeNode::Directory(ch), q) || prefix_of(q, p)) by {
        if q.len() == 0 {
        } else {
            lemma_node_dir(ch2, q);
            lemma_node_dir(ch, q);
            let i = choose|i: int| 0 <= i < ch2@.len() && (#[trigger] ch2@[i]).0@ == q[0] && node_at(ch2@[i].1, q.drop_first());
            if i == j {
                lemma_prefix_cons(q, p);
            } else if i < j {
                assert(ch@[i] == ch2@[i]);
            } else {
                assert(ch@[i - 1] == ch2@[i]);
            }
        }
    }
}

proof fn lemma_prefix_tail(a: Seq<Seq<char>>, b: Seq<Seq<char>>)
    requires
        prefix_of(a, b),
        a.len() > 0,
    ensures
        a[0] == b[0],
        prefix_of(a.drop_first(), b.drop_first()),
{
    assert(b.subrange(0, a.len() as int)[0] == a[0]);
    assert(b.drop_first().subrange(0, a.len() - 1) =~= a.drop_first()) by {
        assert forall|k: int| 0 <= k < a.len() - 1 implies b.drop_first().subrange(0, a.len() - 1)[k] == a.drop_first()[k] by {
            assert(b.subrange(0, a.len() as int)[k + 1] == a[k + 1]);
        }
    }
}

/// Inserting at a path that lies along an existing file's path, or that
/// continues past it, is blocked.
proof fn lemma_leaf_blocks(t: TreeNode, q: Seq<Seq<char>>, x: u128, p: Seq<Seq<char>>)
    requires
        has_leaf(t, q, x),
        prefix_of(p, q) || prefix_of(q, p),
    ensures
        blocked(t, p),
    decreases t,
{
    match t {
        TreeNode::File(_) => {},
        TreeNode::Directory(ch) => {
            if p.len() > 0 {
                let i = choose|i: int| 0 <= i < ch@.len() && (#[trigger] ch@[i]).0@ == q[0] && has_leaf(ch@[i].1, q.drop_first(), x);
                if prefix_of(p, q) {
                    lemma_prefix_tail(p, q);
                } else {
                    lemma_prefix_tail(q, p);
                }
                if p.len() > 1 {
                    assert(decreases_to!(t => t->Directory_0));
                    assert(decreases_to!(ch => ch@));
                    assert(decreases_to!(ch@ => ch@[i]));
                    assert(decreases_to!(ch@[i] => ch@[i].1));
                    lemma_leaf_blocks(ch@[i].1, q.drop_first(), x, p.drop_first());
                }
                lemma_blocked_dir(ch, p);
            }
        },
    }
}

proof fn lemma_names_unique(ch: Seq<(String, TreeNode)>, i: int, j: int)
    requires
        names_sorted(ch),
        0 <= i < ch.len(),
        0 <= j < ch.len(),
        ch[i].0@ == ch[j].0@,
    ensures
        i == j,
{
    if i != j {
        lemma_chars_lt_irreflexive(ch[i].0@);
    }
}

/// Replacing the entry at `j` by one of the same name whose subtree gained
/// exactly the file `(p.drop_first(), id)` adds exactly `(p, id)` to the directory.
proof fn lemma_replace_child(ch: Vec<(String, TreeNode)>, ch2: Vec<(String, TreeNode)>, j: int, p: Seq<Seq<char>>, id: u128)
    requires
        names_sorted(ch@),
        0 <= j < ch@.len(),
        p.len() > 0,
        ch@[j].0@ == p[0],
        ch2@.len() == ch@.len(),
        ch2@[j].0@ == p[0],
        forall|i: int| 0 <= i < ch@.len() && i != j ==> ch2@[i] == ch@[i],
        forall|q: Seq<Seq<char>>, x: u128| #[trigger] has_leaf(ch2@[j].1, q, x) <==>
            ((q == p.drop_first() && x == id) || has_leaf(ch@[j].1, q, x)),
    ensures
        forall|q: Seq<Seq<char>>, x: u128| #[trigger] has_leaf(TreeNode::Directory(ch2), q, x) <==>
            ((q == p && x == id) || has_leaf(TreeNode::Directory(ch), q, x)),
{
    let t = TreeNode::Directory(ch);
    let t2 = TreeNode::Directory(ch2);
    reveal_with_fuel(has_leaf, 2);
    assert forall|q: Seq<Seq<char>>, x: u128| #[trigger] has_leaf(t2, q, x) <==>
        ((q == p && x == id) || has_leaf(t, q, x)) by {
        if has_leaf(t2, q, x) {
            let i = choose|i: int| 0 <= i < ch2@.len() && (#[trigger] ch2@[i]).0@ == q[0] && has_leaf(ch2@[i].1, q.drop_first(), x);
            if i == j {
                if !(q.drop_first() == p.drop_first() && x == id) {
                    lemma_leaf_in_child(ch, j, q, x);
                } else {
                    assert(q =~= seq![q[0]] + q.drop_first());
                    assert(p =~= seq![p[0]] + p.drop_first());
                }
            } else {
                assert(ch@[i] == ch2@[i]);
                lemma_leaf_in_child(ch, i, q, x);
            }
        }
        if q == p && x == id {
            assert(has_leaf(ch2@[j].1, q.drop_first(), x));
            assert(has_leaf(t2, q, x));
        }
        if has_leaf(t, q, x) {
            let i = choose|i: int| 0 <= i < ch@.len() && (#[trigger] ch@[i]).0@ == q[0] && has_leaf(ch@[i].1, q.drop_first(), x);
            if i == j {
                assert(has_leaf(ch2@[j].1, q.drop_first(), x));
            } else {
                assert(ch2@[i] == ch@[i]);
            }
            assert(has_leaf(t2, q, x));
        }
    }
}

/// Adding at `j` a new entry named `p[0]`, whose subtree holds exactly the
/// file `(p.drop_first(), id)`, adds exactly `(p, id)` to the directory.
proof fn lemma_add_child(ch: Vec<(String, TreeNode)>, ch2: Vec<(String, TreeNode)>, j: int, p: Seq<Seq<char>>, id: u128)
    requires
        0 <= j <= ch@.len(),
        p.len() > 0,
        forall|i: int| 0 <= i < ch@.len() ==> (#[trigger] ch@[i]).0@ != p[0],
        ch2@.len() == ch@.len() + 1,
        ch2@ == ch@.insert(j, ch2@[j]),
        ch2@[j].0@ == p[0],
        forall|q: Seq<Seq<char>>, x: u128| #[trigger] has_leaf(ch2@[j].1, q, x) <==> (q == p.drop_first() && x == id),
    ensures
        forall|q: Seq<Seq<char>>, x: u128| #[trigger] has_leaf(TreeNode::Directory(ch2), q, x) <==>
            ((q == p && x == id) || has_leaf(TreeNode::Directory(ch), q, x)),
{
    let t = TreeNode::Directory(ch);
    let t2 = TreeNode::Directory(ch2);
    reveal_with_fuel(has_leaf, 2);
    assert forall|q: Seq<Seq<char>>, x: u128| #[trigger] has_leaf(t2, q, x) <==>
        ((q == p && x == id) || has_leaf(t, q, x)) by {
        if has_leaf(t2, q, x) {
            let i = choose|i: int| 0 <= i < ch2@.len() && (#[trigger] ch2@[i]).0@ == q[0] && has_leaf(ch2@[i].1, q.drop_first(), x);
            if i == j {
                assert(q =~= seq![q[0]] + q.drop_first());
                assert(p =~= seq![p[0]] + p.drop_first());
            } else if i < j {
                assert(ch2@[i] == ch@[i]);
                lemma_leaf_in_child(ch, i, q, x);
            } else {
                assert(ch2@[i] == ch@[i - 1]);
                lemma_leaf_in_child(ch, i - 1, q, x);
            }
        }
        if q == p && x == id {
            assert(has_leaf(ch2@[j].1, q.drop_first(), x));
            assert(has_leaf(t2, q, x));
        }
        if has_leaf(t, q, x) {
            let i = choose|i: int| 0 <= i < ch@.len() && (#[trigger] ch@[i]).0@ == q[0] && has_leaf(ch@[i].1, q.drop_first(), x);
            if i < j {
                assert(ch2@[i] == ch@[i]);
            } else {
                assert(ch2@[i + 1] == ch@[i]);
            }
            assert(has_leaf(t2, q, x));
        }
    }
}

impl Default for TreeNode {
    /// An empty directory.
    fn default() -> (r: TreeNode)
        ensures
            r matches TreeNode::Directory(ch) && ch@.len() == 0,
    {
        TreeNode::Directory(Vec::new())
    }
}

impl TreeNode {
    /// Inserts the file `id` at the path `path[depth..]`, creating the
    /// directories on the way; fails where that path collides with an entry.
    pub fn insert(self, path: &Vec<String>, depth: usize, id: u128) -> (r: Result<TreeNode, TreeError>)
        requires
            wf(self),
            depth <= path@.len(),
        ensures
            r is Err <==> blocked(self, seg_view(path@).subrange(depth as int, path@.len() as int)),
            r is Err ==> r == Err::<TreeNode, TreeError>(TreeError::PathConflict),
            r matches Ok(t) ==> wf(t) && t is Directory,
            r matches Ok(t) ==> forall|q: Seq<Seq<char>>, x: u128| #[trigger] has_leaf(t, q, x) <==>
                ((q == seg_view(path@).subrange(depth as int, path@.len() as int) && x == id) || has_leaf(self, q, x)),
            r matches Ok(t) ==> forall|q: Seq<Seq<char>>| #[trigger] node_at(t, q) ==>
                (node_at(self, q) || prefix_of(q, seg_view(path@).subrange(depth as int, path@.len() as int))),
        decreases path@.len() - depth,
    {
        let ghost p = seg_view(path@).subrange(depth as int, path@.len() as int);
        match self {
            TreeNode::File(_) => Err(TreeError::PathConflict),
            TreeNode::Directory(mut ch) => {
                if depth >= path.len() {
                    return Err(TreeError::PathConflict);
                }
                let ghost och = ch;
                let ghost rest = seg_view(path@).subrange(depth + 1, path@.len() as int);
                assert(p[0] == path@[depth as int]@);
                assert(p.drop_first() =~= rest);
                let name = &path[depth];
                let mut j: usize = 0;
                while j < ch.len() && str_lt(ch[j].0.as_str(), name.as_str())
                    invariant
                        ch == och,
                        j <= ch@.len(),
                        forall|i: int| 0 <= i < j ==> chars_lt(#[trigger] ch@[i].0@, name@),
                    decreases ch.len() - j,
                {
                    j = j + 1;
                }
                if j < ch.len() && str_eq(ch[j].0.as_str(), name.as_str()) {
                    if depth + 1 == path.len() {
                        proof {
                            lemma_blocked_dir(och, p);
                        }
                        return Err(TreeError::PathConflict);
                    }
                    let (n, child) = ch.remove(j);
                    assert(child == och@[j as int].1);
                    match child.insert(path, depth + 1, id) {
                        Err(e) => {
                            proof {
                                lemma_blocked_dir(och, p);
                            }
                            Err(e)
                        },
                        Ok(c2) => {
                            ch.insert(j, (n, c2));
                            proof {
                                lemma_replace_child(och, ch, j as int, p, id);
                                lemma_replace_node(och, ch, j as int, p);
                                lemma_blocked_dir(och, p);
                                if blocked(TreeNode::Directory(och), p) {
                                    let i = choose|i: int| 0 <= i < och@.len() && (#[trigger] och@[i]).0@ == p[0]
                                        && (p.len() == 1 || blocked(och@[i].1, p.drop_first()));
                                    lemma_names_unique(och@, i, j as int);
                                }
                                assert forall|a: int, b: int| 0 <= a < b < ch@.len() implies chars_lt(#[trigger] ch@[a].0@, #[trigger] ch@[b].0@) by {
                                    assert(ch@[a].0@ == och@[a].0@);
                                    assert(ch@[b].0@ == och@[b].0@);
                                }
                                assert forall|i: int| 0 <= i < ch@.len() implies wf(#[trigger] ch@[i].1) by {
                                    if i != j {
                                        assert(ch@[i] == och@[i]);
                                    }
                                }
                            }
                            Ok(TreeNode::Directory(ch))
                        },
                    }
                } else {
                    proof {
                        if j < ch@.len() {
                            lemma_chars_lt_total(ch@[j as int].0@, name@);
                        }
                        assert forall|i: int| 0 <= i < och@.len() implies (#[trigger] och@[i]).0@ != p[0] by {
                            if i < j {
                                lemma_chars_lt_irreflexive(name@);
                            } else if i == j {
                            } else {
                                lemma_chars_lt_transitive(name@, och@[j as int].0@, och@[i].0@);
                                lemma_chars_lt_irreflexive(name@);
                            }
                        }
                        lemma_blocked_dir(och, p);
                    }
                    let c2 = if depth + 1 == path.len() {
                        proof {
                            assert(rest.len() == 0);
                            assert forall|q: Seq<Seq<char>>, x: u128| #[trigger] has_leaf(TreeNode::File(id), q, x) <==> (q == rest && x == id) by {
                                if q.len() == 0 {
                                    assert(q =~= rest);
                                }
                            }
                            assert forall|q: Seq<Seq<char>>| #[trigger] node_at(TreeNode::File(id), q) implies prefix_of(q, rest) by {
                                lemma_empty_prefix(rest);
                                assert(q =~= Seq::<Seq<char>>::empty());
                            }
                        }
                        TreeNode::File(id)
                    } else {
                        let empty: Vec<(String, TreeNode)> = Vec::new();
                        let fresh = TreeNode::Directory(empty);
                        let ghost gfresh = fresh;
                        assert(!blocked(fresh, rest)) by {
                            lemma_blocked_dir(empty, rest);
                        }
                        match fresh.insert(path, depth + 1, id) {
                            Err(e) => {
                                return Err(e);
                            },
                            Ok(c) => {
                                assert forall|q: Seq<Seq<char>>, x: u128| #[trigger] has_leaf(c, q, x) <==> (q == rest && x == id) by {
                                    if has_leaf(gfresh, q, x) {
                                        assert(false);
                                    }
                                }
                                assert forall|q: Seq<Seq<char>>| #[trigger] node_at(c, q) implies prefix_of(q, rest) by {
                                    if node_at(gfresh, q) && !prefix_of(q, rest) {
                                        lemma_empty_prefix(rest);
                                        assert(q =~= Seq::<Seq<char>>::empty());
                                    }
                                }
                                c
                            },
                        }
                    };
                    let ghost gc2 = c2;
                    ch.insert(j, (name.clone(), c2));
                    proof {
                        assert(ch@[j as int].1 == gc2);
                        lemma_add_child(och, ch, j as int, p, id);
                        lemma_add_node(och, ch, j as int, p);
                        assert forall|a: int, b: int| 0 <= a < b < ch@.len() implies chars_lt(#[trigger] ch@[a].0@, #[trigger] ch@[b].0@) by {
                            if b == j {
                            } else if a == j {
                                if b - 1 > j {
                                    lemma_chars_lt_transitive(name@, och@[j as int].0@, och@[b - 1].0@);
                                }
                            } else if a < j && b > j {
                                lemma_chars_lt_transitive(och@[a].0@, name@, och@[j as int].0@);
                                if b - 1 > j {
                                    lemma_chars_lt_transitive(och@[a].0@, och@[j as int].0@, och@[b - 1].0@);
                                }
                            } else if a > j {
                                assert(ch@[a] == och@[a - 1]);
                                assert(ch@[b] == och@[b - 1]);
                            }
                        }
                        assert forall|i: int| 0 <= i < ch@.len() implies wf(#[trigger] ch@[i].1) by {
                            if i < j {
                                assert(ch@[i] == och@[i]);
                            } else if i > j {
                                assert(ch@[i] == och@[i - 1]);
                            }
                        }
                    }
                    Ok(TreeNode::Directory(ch))
                }
            },
        }
    }
}

/// The list item of an entry named `name` holding `t`.
pub open spec fn item_markup(t: TreeNode, name: Seq<char>) -> Seq<char>
    decreases t, 0nat,
{
    match t {
        TreeNode::File(id) => "<li id=\"button-"@ + uuid_text(id) + "\" class=\"mdbook-files-button\">"@ + name + "</li>"@,
        TreeNode::Directory(ch) => "<li class=\"mdbook-files-folder\"><span>"@ + name + "/</span>"@
            + "<ul>"@ + entries_markup(ch@, ch@.len() as nat) + "</ul>"@ + "</li>"@,
    }
}

/// The list of the entries of a directory.
pub open spec fn list_markup(ch: Seq<(String, TreeNode)>) -> Seq<char> {
    "<ul>"@ + entries_markup(ch, ch.len() as nat) + "</ul>"@
}

/// The list items of the first `n` entries of a directory, in order.
pub open spec fn entries_markup(ch: Seq<(String, TreeNode)>, n: nat) -> Seq<char>
    decreases ch, n,
{
    if n == 0 || n > ch.len() {
        Seq::empty()
    } else {
        entries_markup(ch, (n - 1) as nat) + item_markup(ch[n - 1].1, ch[n - 1].0@)
    }
}

/// The markup of a whole tree: the list of its root directory.
pub open spec fn tree_markup(t: TreeNode) -> Seq<char> {
    match t {
        TreeNode::File(_) => Seq::empty(),
        TreeNode::Directory(ch) => list_markup(ch@),
    }
}

impl TreeNode {
    /// Renders the tree as nested list markup; the root must be a directory.
    pub fn render(&self) -> (r: Result<String, TreeError>)
        ensures
            self is File ==> r == Err::<String, TreeError>(TreeError::RootIsFile),
            self is Directory ==> (r matches Ok(s) && s@ == tree_markup(*self)),
    {
        match self {
            TreeNode::File(_) => Err(TreeError::RootIsFile),
            TreeNode::Directory(files) => {
                let mut output = String::new();
                Self::render_files(&mut output, files);
                Ok(output)
            },
        }
    }

    /// Appends the list of a directory's entries.
    fn render_files(output: &mut String, files: &Vec<(String, TreeNode)>)
        ensures
            final(output)@ == old(output)@ + list_markup(files@),
        decreases files@,
    {
        let ghost start = output@;
        output.append("<ul>");
        let mut i: usize = 0;
        while i < files.len()
            invariant
                i <= files@.len(),
                output@ == start + "<ul>"@ + entries_markup(files@, i as nat),
            decreases files.len() - i,
        {
            let ghost before = output@;
            assert(decreases_to!(files@ => files@[i as int]));
            assert(decreases_to!(files@[i as int] => files@[i as int].1));
            files[i].1.render_inner(output, files[i].0.as_str());
            assert(entries_markup(files@, (i + 1) as nat) == entries_markup(files@, i as nat)
                + item_markup(files@[i as int].1, files@[i as int].0@));
            assert(output@ =~= start + "<ul>"@ + entries_markup(files@, (i + 1) as nat));
            i = i + 1;
        }
        output.append("</ul>");
        assert(output@ =~= start + list_markup(files@));
    }

    /// Appends the list item of an entry named `name` holding this node.
    fn render_inner(&self, output: &mut String, name: &str)
        ensures
            final(output)@ == old(output)@ + item_markup(*self, name@),
        decreases *self,
    {
        let ghost start = output@;
        match self {
            TreeNode::File(id) => {
                let text = id_text(*id);
                output.append("<li id=\"button-");
                output.append(text.as_str());
                output.append("\" class=\"mdbook-files-button\">");
                output.append(name);
                output.append("</li>");
                assert(output@ =~= start + item_markup(*self, name@));
            },
            TreeNode::Directory(files) => {
                output.append("<li class=\"mdbook-files-folder\"><span>");
                output.append(name);
                output.append("/</span>");
                let ghost mid = output@;
                assert(decreases_to!(*self => self->Directory_0));
                assert(decreases_to!(*files => files@));
                Self::render_files(output, files);
                output.append("</li>");
                assert(output@ =~= start + item_markup(*self, name@));
            },
        }
    }
}

/// Rendering depends on the tree alone: two renderings of one tree are
/// identical, identifiers included.
pub proof fn lemma_render_stable(t: TreeNode, s1: Seq<char>, s2: Seq<char>)
    requires
        t is Directory,
        s1 == tree_markup(t),
        s2 == tree_markup(t),
    ensures
        s1 == s2,
{
}

/// Some entry of `files` has path `q` and identifier `x`.
pub open spec fn entry_pair(files: Seq<FileEntry>, q: Seq<Seq<char>>, x: u128) -> bool {
    exists|i: int| 0 <= i < files.len() && key(#[trigger] files[i]) == q && files[i].id == x
}

/// Paths that a tree can hold side by side: none is empty, and none is a
/// prefix of another's (so none repeats either).
pub open spec fn prefix_free(files: Seq<FileEntry>) -> bool {
    &&& forall|i: int| 0 <= i < files.len() ==> key(#[trigger] files[i]).len() > 0
    &&& forall|i: int, j: int| 0 <= i < files.len() && 0 <= j < files.len() && i != j
        ==> !prefix_of(key(#[trigger] files[i]), key(#[trigger] files[j]))
}

/// `q` is the root or lies along the path of some entry (so the tree has no
/// directory that no file needs).
pub open spec fn on_some_path(files: Seq<FileEntry>, q: Seq<Seq<char>>) -> bool {
    q.len() == 0 || exists|k: int| 0 <= k < files.len() && prefix_of(q, key(#[trigger] files[k]))
}

/// Some entry's path is the root itself: the walk's root was a file.
pub open spec fn has_empty_key(files: Seq<FileEntry>) -> bool {
    exists|k: int| 0 <= k < files.len() && key(#[trigger] files[k]).len() == 0
}

/// Folds the entries into a directory tree, one leaf per entry.
pub fn build_tree(files: &Vec<FileEntry>) -> (r: Result<TreeNode, TreeError>)
    ensures
        r matches Err(TreeError::RootIsFile) <==> has_empty_key(files@),
        r matches Err(TreeError::PathConflict) <==> (!has_empty_key(files@) && !prefix_free(files@)),
        r is Ok <==> prefix_free(files@),
        r matches Ok(t) ==> wf(t) && t is Directory,
        r matches Ok(t) ==> forall|q: Seq<Seq<char>>, x: u128| #[trigger] has_leaf(t, q, x) <==> entry_pair(files@, q, x),
        r matches Ok(t) ==> forall|q: Seq<Seq<char>>| #[trigger] node_at(t, q) ==> on_some_path(files@, q),
{
    let mut j: usize = 0;
    while j < files.len()
        invariant
            j <= files@.len(),
            forall|k: int| 0 <= k < j ==> key(#[trigger] files@[k]).len() > 0,
        decreases files.len() - j,
    {
        if files[j].segments.len() == 0 {
            assert(key(files@[j as int]).len() == 0);
            return Err(TreeError::RootIsFile);
        }
        j = j + 1;
    }
    let mut root = TreeNode::default();
    let mut i: usize = 0;
    while i < files.len()
        invariant
            i <= files@.len(),
            !has_empty_key(files@),
            wf(root),
            root is Directory,
            forall|q: Seq<Seq<char>>, x: u128| #[trigger] has_leaf(root, q, x) <==>
                exists|k: int| 0 <= k < i && key(#[trigger] files@[k]) == q && files@[k].id == x,
            forall|q: Seq<Seq<char>>| #[trigger] node_at(root, q) ==>
                (q.len() == 0 || exists|k: int| 0 <= k < i && prefix_of(q, key(#[trigger] files@[k]))),
            forall|k: int| 0 <= k < i ==> key(#[trigger] files@[k]).len() > 0,
            forall|a: int, b: int| 0 <= a < i && 0 <= b < i && a != b
                ==> !prefix_of(key(#[trigger] files@[a]), key(#[trigger] files@[b])),
        decreases files.len() - i,
    {
        let ghost old_root = root;
        let e = &files[i];
        assert(seg_view(e.segments@).subrange(0, e.segments@.len() as int) =~= key(*e));
        match root.insert(&e.segments, 0, e.id) {
            Err(err) => {
                proof {
                    if prefix_free(files@) {
                        let p = key(files@[i as int]);
                        lemma_blocked_witness(old_root, p);
                        if node_at(old_root, p) {
                            let k = choose|k: int| 0 <= k < i && prefix_of(p, key(#[trigger] files@[k]));
                            assert(!prefix_of(key(files@[i as int]), key(files@[k])));
                        } else {
                            let (q, x) = choose|q: Seq<Seq<char>>, x: u128|
                                #[trigger] has_leaf(old_root, q, x) && q.len() < p.len() && prefix_of(q, p);
                            let k = choose|k: int| 0 <= k < i && key(#[trigger] files@[k]) == q && files@[k].id == x;
                            assert(!prefix_of(key(files@[k]), key(files@[i as int])));
                        }
                    }
                }
                assert(!has_empty_key(files@));
                return Err(err);
            },
            Ok(t) => {
                root = t;
                proof {
                    let p = key(files@[i as int]);
                    assert(!blocked(old_root, p));
                    assert forall|j: int| 0 <= j < i implies !prefix_of(key(#[trigger] files@[j]), p) && !prefix_of(p, key(files@[j])) by {
                        assert(has_leaf(old_root, key(files@[j]), files@[j].id));
                        if prefix_of(key(files@[j]), p) || prefix_of(p, key(files@[j])) {
                            lemma_leaf_blocks(old_root, key(files@[j]), files@[j].id, p);
                        }
                    }
                    assert forall|a: int, b: int| 0 <= a < i + 1 && 0 <= b < i + 1 && a != b
                        implies !prefix_of(key(#[trigger] files@[a]), key(#[trigger] files@[b])) by {
                        if a == i {
                            assert(!prefix_of(p, key(files@[b])));
                        } else if b == i {
                            assert(!prefix_of(key(files@[a]), p));
                        }
                    }
                }
                assert forall|q: Seq<Seq<char>>| #[trigger] node_at(root, q) implies
                    (q.len() == 0 || exists|k: int| 0 <= k < i + 1 && prefix_of(q, key(#[trigger] files@[k]))) by {
                    if !node_at(old_root, q) {
                        assert(prefix_of(q, key(files@[i as int])));
                    }
                }
                assert forall|q: Seq<Seq<char>>, x: u128| #[trigger] has_leaf(root, q, x) <==>
                    exists|k: int| 0 <= k < i + 1 && key(#[trigger] files@[k]) == q && files@[k].id == x by {
                    if q == key(files@[i as int]) && x == files@[i as int].id {
                        assert(key(files@[i as int]) == q);
                    }
                    if has_leaf(old_root, q, x) {
                        let k = choose|k: int| 0 <= k < i && key(#[trigger] files@[k]) == q && files@[k].id == x;
                        assert(key(files@[k]) == q);
                    }
                }
            },
        }
        i = i + 1;
    }
    assert forall|q: Seq<Seq<char>>| #[trigger] node_at(root, q) implies on_some_path(files@, q) by {}
    Ok(root)
}

} // verus!
