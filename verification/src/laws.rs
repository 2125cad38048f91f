//! General laws of the two searches, beyond the per-function contracts:
//! what a depth bound of one means, what an empty target list yields, and
//! that repeating a search changes nothing.

use vstd::prelude::*;

use crate::down::{BfsEntry, bfs, lemma_search_down_correct, search_down_spec};
use crate::fs_model::{FsDir, any_target_matches, is_match_at, node_at};
use crate::target::TargetView;
use crate::up::{ancestor_matches, search_up_spec, up_search};

verus! {

/// A depth bound of 1 makes the descendant search inspect the start
/// directory alone, never its children: the outcome is decided by whether
/// the start itself matches.
pub proof fn lemma_down_depth_one(m: FsDir, dir: Seq<Seq<char>>, ts: Seq<TargetView>)
    ensures
        search_down_spec(m, dir, 1, ts) == (if node_at(m, dir) matches Some(n)
            && any_target_matches(n, ts) {
            Some(dir)
        } else {
            None::<Seq<Seq<char>>>
        }),
{
    if node_at(m, dir) is Some {
        let start = node_at(m, dir)->Some_0;
        let seed = seq![BfsEntry { node: start, rel: Seq::<Seq<char>>::empty(), rem: 1nat }];
        if any_target_matches(start, ts) {
            assert(bfs(seed, ts) == Some(seed[0]));
            assert(dir + seed[0].rel =~= dir);
        } else {
            assert(seed.drop_first() =~= Seq::<BfsEntry>::empty());
            assert(bfs(seed.drop_first(), ts) is None);
        }
    }
}

/// A level bound of 1 makes the ancestor search inspect the start
/// directory alone, never its parent: the outcome is decided by whether
/// the start itself matches.
pub proof fn lemma_up_depth_one(m: FsDir, dir: Seq<Seq<char>>, ts: Seq<TargetView>)
    ensures
        search_up_spec(m, dir, 1, ts) == (if node_at(m, dir) matches Some(n)
            && any_target_matches(n, ts) {
            Some(dir)
        } else {
            None::<Seq<Seq<char>>>
        }),
{
    assert(dir.take(dir.len() - 0) =~= dir);
    if ancestor_matches(m, dir, ts, 0) {
        assert(search_up_spec(m, dir, 1, ts) == Some(dir));
    } else {
        assert(up_search(m, dir, 1, 0, ts) is None);
    }
}

/// An empty target list never matches, so the descendant search always
/// yields `NotFound`; the depth bound still keeps its work finite.
pub proof fn lemma_down_empty_targets(m: FsDir, dir: Seq<Seq<char>>, depth: nat)
    requires
        m.wf(),
    ensures
        search_down_spec(m, dir, depth, Seq::<TargetView>::empty()) is None,
{
    let ts = Seq::<TargetView>::empty();
    if search_down_spec(m, dir, depth, ts) is Some {
        assert(node_at(m, dir) is Some && depth >= 1);
        lemma_search_down_correct(m, dir, depth, ts);
        let start = node_at(m, dir)->Some_0;
        let p = search_down_spec(m, dir, depth, ts)->Some_0;
        assert(is_match_at(start, ts, p.skip(dir.len() as int)));
        assert(false);
    }
}

/// No level of the walk matches an empty target list.
proof fn lemma_up_search_empty_targets(m: FsDir, dir: Seq<Seq<char>>, i: nat, budget: nat)
    ensures
        up_search(m, dir, i, budget, Seq::<TargetView>::empty()) is None,
    decreases budget,
{
    let ts = Seq::<TargetView>::empty();
    if budget != 0 && i <= dir.len() {
        assert(!ancestor_matches(m, dir, ts, i));
        lemma_up_search_empty_targets(m, dir, (i + 1) as nat, (budget - 1) as nat);
    }
}

/// An empty target list never matches, so the ancestor search always
/// yields `NotFound`.
pub proof fn lemma_up_empty_targets(m: FsDir, dir: Seq<Seq<char>>, depth: nat)
    ensures
        search_up_spec(m, dir, depth, Seq::<TargetView>::empty()) is None,
{
    lemma_up_search_empty_targets(m, dir, 0, depth);
}

/// Running the same descendant search twice against an unchanged tree
/// yields the same result: the outcome is a function of the tree and the
/// configuration alone.
pub proof fn lemma_down_idempotent(
    m: FsDir,
    dir: Seq<Seq<char>>,
    depth: nat,
    ts: Seq<TargetView>,
    r1: Option<Seq<Seq<char>>>,
    r2: Option<Seq<Seq<char>>>,
)
    requires
        r1 == search_down_spec(m, dir, depth, ts),
        r2 == search_down_spec(m, dir, depth, ts),
    ensures
        r1 == r2,
{
}

/// Running the same ancestor search twice against an unchanged tree
/// yields the same result.
pub proof fn lemma_up_idempotent(
    m: FsDir,
    dir: Seq<Seq<char>>,
    depth: nat,
    ts: Seq<TargetView>,
    r1: Option<Seq<Seq<char>>>,
    r2: Option<Seq<Seq<char>>>,
)
    requires
        r1 == search_up_spec(m, dir, depth, ts),
        r2 == search_up_spec(m, dir, depth, ts),
    ensures
        r1 == r2,
{
}

} // verus!
