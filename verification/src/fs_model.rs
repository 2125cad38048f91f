//! The directory-tree snapshot that searches run over, and the target
//! matcher.
//!
//! A [`FsDir`] value describes one directory: the names of the regular files
//! directly inside it, its child directories (recursively), and whether
//! listing its entries succeeds. A path is a sequence of child-directory
//! names; `node_at` resolves a path to a node, and `reachable` additionally
//! demands that every directory passed through can be listed, since a
//! traversal only discovers children by listing their parent.

use vstd::prelude::*;

use crate::target::{Target, TargetView};

verus! {

/// A snapshot of one directory of the tree.
#[derive(Debug)]
pub struct FsDir {
    /// The name of this directory (ignored for the root a search starts at).
    pub name: String,
    /// The names of the regular files directly inside this directory.
    pub files: Vec<String>,
    /// The child directories.
    pub dirs: Vec<FsDir>,
    /// Whether listing this directory's entries succeeds. Probing a single
    /// named child works either way; only the discovery of children needs
    /// the listing.
    pub listable: bool,
}

/// Sibling child directories all carry different names, as they do in a
/// real directory.
pub open spec fn distinct_dir_names(s: Seq<FsDir>) -> bool {
    forall|i: int, j: int| 0 <= i < j < s.len() ==> s[i].name@ != s[j].name@
}

impl FsDir {
    /// Well-formedness: throughout the tree, sibling directories have
    /// distinct names.
    pub open spec fn wf(self) -> bool
        decreases self,
    {
        &&& distinct_dir_names(self.dirs@)
        &&& forall|i: int| 0 <= i < self.dirs@.len() ==> (#[trigger] self.dirs@[i]).wf()
    }
}

/// Does `d` directly contain a child directory named `name`?
pub open spec fn has_child_dir(d: FsDir, name: Seq<char>) -> bool {
    exists|i: int| 0 <= i < d.dirs@.len() && #[trigger] d.dirs@[i].name@ == name
}

/// The child directory of `d` named `name` (meaningful when `has_child_dir`).
pub open spec fn child_dir(d: FsDir, name: Seq<char>) -> FsDir {
    d.dirs@[choose|i: int| 0 <= i < d.dirs@.len() && #[trigger] d.dirs@[i].name@ == name]
}

/// Does `d` directly contain a regular file named `name`?
pub open spec fn has_child_file(d: FsDir, name: Seq<char>) -> bool {
    exists|i: int| 0 <= i < d.files@.len() && #[trigger] d.files@[i]@ == name
}

/// The node that the path `rel` of child-directory names leads to from `d`,
/// if every component exists.
pub open spec fn node_at(d: FsDir, rel: Seq<Seq<char>>) -> Option<FsDir>
    decreases rel.len(),
{
    if rel.len() == 0 {
        Some(d)
    } else if has_child_dir(d, rel[0]) {
        node_at(child_dir(d, rel[0]), rel.drop_first())
    } else {
        None
    }
}

/// The path `rel` exists and a traversal can discover it: every directory
/// it passes through (the end point excepted) can be listed.
pub open spec fn reachable(d: FsDir, rel: Seq<Seq<char>>) -> bool
    decreases rel.len(),
{
    rel.len() == 0 || {
        &&& d.listable
        &&& has_child_dir(d, rel[0])
        &&& reachable(child_dir(d, rel[0]), rel.drop_first())
    }
}

/// Does directory `d` directly contain what target `t` names?
pub open spec fn target_matches(d: FsDir, t: TargetView) -> bool {
    match t {
        TargetView::Dir(name) => has_child_dir(d, name),
        TargetView::File(name) => has_child_file(d, name),
    }
}

/// Does any target of the list match `d`?
pub open spec fn any_target_matches(d: FsDir, ts: Seq<TargetView>) -> bool {
    exists|i: int| 0 <= i < ts.len() && #[trigger] target_matches(d, ts[i])
}

/// The path `rel` leads from `start` to a discoverable directory that some
/// target matches.
pub open spec fn is_match_at(start: FsDir, ts: Seq<TargetView>, rel: Seq<Seq<char>>) -> bool {
    &&& reachable(start, rel)
    &&& node_at(start, rel) matches Some(n) && any_target_matches(n, ts)
}

/// Some discoverable directory fewer than `k` levels below `start` (level 0
/// being `start` itself) matches a target.
pub open spec fn found_within(start: FsDir, ts: Seq<TargetView>, k: nat) -> bool {
    exists|rel: Seq<Seq<char>>| #[trigger] is_match_at(start, ts, rel) && rel.len() < k
}

/// The mathematical value of an executable path: each component as a
/// sequence of characters.
pub open spec fn path_view(p: Seq<String>) -> Seq<Seq<char>> {
    p.map_values(|s: String| s@)
}

/// The views of a list of executable targets, in list order.
pub open spec fn seq_targets_view(ts: Seq<Target>) -> Seq<TargetView> {
    ts.map_values(|t: Target| t@)
}

/// In a well-formed directory, a child directory is well-formed.
pub proof fn lemma_child_dir_wf(d: FsDir, name: Seq<char>)
    requires
        d.wf(),
        has_child_dir(d, name),
    ensures
        child_dir(d, name).wf(),
{
    let k = choose|i: int| 0 <= i < d.dirs@.len() && #[trigger] d.dirs@[i].name@ == name;
    assert(0 <= k < d.dirs@.len() && d.dirs@[k].name@ == name);
    assert(d.dirs@[k].wf());
}

/// In a well-formed tree, the node any path resolves to is well-formed.
pub proof fn lemma_node_at_wf(d: FsDir, rel: Seq<Seq<char>>)
    requires
        d.wf(),
        node_at(d, rel) is Some,
    ensures
        node_at(d, rel)->Some_0.wf(),
    decreases rel.len(),
{
    if rel.len() > 0 {
        lemma_child_dir_wf(d, rel[0]);
        lemma_node_at_wf(child_dir(d, rel[0]), rel.drop_first());
    }
}

/// Extending a resolving path by an existing child resolves to that child.
pub proof fn lemma_node_at_extend(d: FsDir, rel: Seq<Seq<char>>, name: Seq<char>)
    requires
        node_at(d, rel) is Some,
        has_child_dir(node_at(d, rel)->Some_0, name),
    ensures
        node_at(d, rel.push(name)) == Some(child_dir(node_at(d, rel)->Some_0, name)),
    decreases rel.len(),
{
    if rel.len() == 0 {
        assert(rel.push(name)[0] == name);
        assert(rel.push(name).drop_first() =~= Seq::<Seq<char>>::empty());
        assert(node_at(child_dir(d, name), Seq::<Seq<char>>::empty()) == Some(
            child_dir(d, name),
        ));
    } else {
        assert(rel.push(name)[0] == rel[0]);
        assert(rel.push(name).drop_first() =~= rel.drop_first().push(name));
        lemma_node_at_extend(child_dir(d, rel[0]), rel.drop_first(), name);
    }
}

/// Extending a reachable path through a listable end point by an existing
/// child keeps it reachable.
pub proof fn lemma_reachable_extend(d: FsDir, rel: Seq<Seq<char>>, name: Seq<char>)
    requires
        reachable(d, rel),
        node_at(d, rel) matches Some(n) && n.listable && has_child_dir(n, name),
    ensures
        reachable(d, rel.push(name)),
    decreases rel.len(),
{
    if rel.len() == 0 {
        assert(rel.push(name)[0] == name);
        assert(rel.push(name).drop_first() =~= Seq::<Seq<char>>::empty());
        assert(reachable(child_dir(d, name), Seq::<Seq<char>>::empty()));
    } else {
        assert(rel.push(name)[0] == rel[0]);
        assert(rel.push(name).drop_first() =~= rel.drop_first().push(name));
        lemma_reachable_extend(child_dir(d, rel[0]), rel.drop_first(), name);
    }
}

/// Resolving a concatenated path goes through the node of the first part.
pub proof fn lemma_node_at_split(d: FsDir, a: Seq<Seq<char>>, b: Seq<Seq<char>>)
    ensures
        node_at(d, a + b) == (match node_at(d, a) {
            Some(n) => node_at(n, b),
            None => None,
        }),
    decreases a.len(),
{
    if a.len() == 0 {
        assert(a + b =~= b);
    } else {
        assert((a + b)[0] == a[0]);
        assert((a + b).drop_first() =~= a.drop_first() + b);
        lemma_node_at_split(child_dir(d, a[0]), a.drop_first(), b);
    }
}

/// A concatenated path is reachable exactly when its first part is
/// reachable and its second part is reachable from the intermediate node.
pub proof fn lemma_reachable_split(d: FsDir, a: Seq<Seq<char>>, b: Seq<Seq<char>>)
    requires
        node_at(d, a) is Some,
    ensures
        reachable(d, a + b) <==> (reachable(d, a) && (b.len() == 0 || reachable(
            node_at(d, a)->Some_0,
            b,
        ))),
    decreases a.len(),
{
    if a.len() == 0 {
        assert(a + b =~= b);
    } else {
        assert((a + b)[0] == a[0]);
        assert((a + b).drop_first() =~= a.drop_first() + b);
        lemma_reachable_split(child_dir(d, a[0]), a.drop_first(), b);
    }
}

/// Look up a child directory by name. With distinct sibling names, the
/// first hit of the scan is the child the specification names.
pub fn find_child_dir<'a>(d: &'a FsDir, name: &String) -> (r: Option<&'a FsDir>)
    requires
        distinct_dir_names(d.dirs@),
    ensures
        match r {
            Some(c) => has_child_dir(*d, name@) && *c == child_dir(*d, name@),
            None => !has_child_dir(*d, name@),
        },
{
    let n = d.dirs.len();
    let mut i: usize = 0;
    while i < n
        invariant
            n == d.dirs@.len(),
            0 <= i <= n,
            distinct_dir_names(d.dirs@),
            forall|k: int| 0 <= k < i ==> #[trigger] d.dirs@[k].name@ != name@,
        decreases n - i,
    {
        if d.dirs[i].name == *name {
            return Some(&d.dirs[i]);
        }
        i = i + 1;
    }
    None
}

/// Does `d` directly contain a child directory with this name?
pub fn dir_exists_in(d: &FsDir, name: &String) -> (r: bool)
    ensures
        r == has_child_dir(*d, name@),
{
    let n = d.dirs.len();
    let mut i: usize = 0;
    while i < n
        invariant
            n == d.dirs@.len(),
            0 <= i <= n,
            forall|k: int| 0 <= k < i ==> #[trigger] d.dirs@[k].name@ != name@,
        decreases n - i,
    {
        if d.dirs[i].name == *name {
            return true;
        }
        i = i + 1;
    }
    false
}

/// Does `d` directly contain a regular file with this name?
pub fn file_exists_in(d: &FsDir, name: &String) -> (r: bool)
    ensures
        r == has_child_file(*d, name@),
{
    let n = d.files.len();
    let mut i: usize = 0;
    while i < n
        invariant
            n == d.files@.len(),
            0 <= i <= n,
            forall|k: int| 0 <= k < i ==> #[trigger] d.files@[k]@ != name@,
        decreases n - i,
    {
        if d.files[i] == *name {
            return true;
        }
        i = i + 1;
    }
    false
}

/// Does the candidate directory directly contain what the target names?
/// A missing child is no error: the answer is then `false`.
pub fn is_target_exists(dir: &FsDir, target: &Target) -> (r: bool)
    ensures
        r == target_matches(*dir, target@),
{
    match target {
        Target::Dir(tg) => dir_exists_in(dir, &tg.name),
        Target::File(tg) => file_exists_in(dir, &tg.name),
    }
}

/// Does any target of the list match the candidate directory? Stops at the
/// first matching target, in list order; an empty list never matches.
pub fn is_targets_exist(dir: &FsDir, targets: &Vec<Target>) -> (r: bool)
    ensures
        r == any_target_matches(*dir, seq_targets_view(targets@)),
{
    let n = targets.len();
    let mut i: usize = 0;
    while i < n
        invariant
            n == targets@.len(),
            0 <= i <= n,
            forall|k: int| 0 <= k < i ==> !target_matches(*dir, #[trigger] seq_targets_view(
                targets@,
            )[k]),
        decreases n - i,
    {
        if is_target_exists(dir, &targets[i]) {
            assert(seq_targets_view(targets@)[i as int] == targets@[i as int]@);
            return true;
        }
        assert(seq_targets_view(targets@)[i as int] == targets@[i as int]@);
        i = i + 1;
    }
    false
}

/// Alias in contract for [`is_targets_exist`]: whether any target of the
/// list matches the candidate directory.
pub fn search_targets(dir: &FsDir, targets: &Vec<Target>) -> (r: bool)
    ensures
        r == any_target_matches(*dir, seq_targets_view(targets@)),
{
    is_targets_exist(dir, targets)
}

/// Copy a path, component by component.
pub fn clone_path(p: &Vec<String>) -> (r: Vec<String>)
    ensures
        r@ == p@,
{
    let mut r: Vec<String> = Vec::new();
    let mut i: usize = 0;
    while i < p.len()
        invariant
            0 <= i <= p@.len(),
            r@ =~= p@.take(i as int),
        decreases p@.len() - i,
    {
        r.push(p[i].clone());
        i = i + 1;
        proof {
            assert(r@ =~= p@.take(i as int));
        }
    }
    proof {
        assert(p@.take(p@.len() as int) =~= p@);
    }
    r
}

/// Resolve a path of child-directory names to its node in the tree.
pub fn node_at_exec<'a>(m: &'a FsDir, path: &Vec<String>) -> (r: Option<&'a FsDir>)
    requires
        m.wf(),
    ensures
        match r {
            Some(n) => node_at(*m, path_view(path@)) == Some(*n) && n.wf(),
            None => node_at(*m, path_view(path@)) is None,
        },
{
    let ghost pv = path_view(path@);
    let mut cur: &FsDir = m;
    let mut i: usize = 0;
    proof {
        assert(pv.skip(0) =~= pv);
    }
    while i < path.len()
        invariant
            m.wf(),
            cur.wf(),
            0 <= i <= path@.len(),
            pv == path_view(path@),
            pv.len() == path@.len(),
            node_at(*m, pv) == node_at(*cur, pv.skip(i as int)),
        decreases path@.len() - i,
    {
        proof {
            assert(pv.skip(i as int)[0] == pv[i as int]);
            assert(pv[i as int] == path@[i as int]@);
        }
        match find_child_dir(cur, &path[i]) {
            Some(c) => {
                proof {
                    lemma_child_dir_wf(*cur, pv[i as int]);
                    assert(pv.skip(i as int).drop_first() =~= pv.skip(i as int + 1));
                }
                cur = c;
                i = i + 1;
            },
            None => {
                return None;
            },
        }
    }
    proof {
        assert(pv.skip(i as int) =~= Seq::<Seq<char>>::empty());
    }
    Some(cur)
}

} // verus!
