//! Descendant search: find the shallowest directory at or below a starting
//! directory that directly contains one of the targets.
//!
//! The traversal is breadth-first and depth-bounded. Its meaning is pinned
//! by the specification function [`bfs`], a queue of pending
//! `(node, path, remaining depth)` entries processed front to back: the
//! entry at the front is returned if a target matches it, its children are
//! appended at the back while depth remains and the directory can be
//! listed, and the search fails once the queue is empty. The lemmas below
//! prove the breadth-first-first-match law: a returned directory matches,
//! lies within the depth bound, and no strictly shallower discoverable
//! directory matches.

use vstd::prelude::*;

use crate::config::GetDir;
use crate::errors::SearchError;
use crate::fs_model::{
    FsDir, any_target_matches, child_dir, clone_path, distinct_dir_names, found_within,
    has_child_dir, is_match_at, is_targets_exist, lemma_child_dir_wf, lemma_node_at_extend,
    lemma_node_at_wf, lemma_reachable_extend, lemma_reachable_split, node_at,
    node_at_exec, path_view, reachable, seq_targets_view,
};
use crate::target::TargetView;

verus! {

/// One pending entry of the breadth-first queue: a node of the tree, the
/// path of child-directory names that leads to it from the start, and how
/// many levels (this one included) may still be inspected below it.
#[verifier::ext_equal]
pub struct BfsEntry {
    /// The directory this entry stands for.
    pub node: FsDir,
    /// The path from the start directory to `node`.
    pub rel: Seq<Seq<char>>,
    /// Levels still available: 1 means only `node` itself.
    pub rem: nat,
}

/// The number of directories in the tree rooted at `d`, `d` included.
pub open spec fn subtree_count(d: FsDir) -> nat
    decreases d,
{
    1 + dirs_count(d.dirs@)
}

/// The number of directories in all the trees of `s` together.
pub open spec fn dirs_count(s: Seq<FsDir>) -> nat
    decreases s,
{
    if s.len() == 0 {
        0
    } else {
        subtree_count(s[0]) + dirs_count(s.drop_first())
    }
}

/// The number of directories below all entries of the queue together: the
/// measure that shrinks at every step of [`bfs`].
pub open spec fn queue_weight(q: Seq<BfsEntry>) -> nat
    decreases q.len(),
{
    if q.len() == 0 {
        0
    } else {
        subtree_count(q[0].node) + queue_weight(q.drop_first())
    }
}

/// The queue entries for the children of `s`, in listing order, one level
/// deeper than `rel` with `rem` levels left.
pub open spec fn entries_from(s: Seq<FsDir>, rel: Seq<Seq<char>>, rem: nat) -> Seq<BfsEntry> {
    Seq::new(s.len(), |i: int| BfsEntry { node: s[i], rel: rel.push(s[i].name@), rem: rem })
}

/// The queue entries a processed entry hands its children.
pub open spec fn child_entries(e: BfsEntry) -> Seq<BfsEntry> {
    entries_from(e.node.dirs@, e.rel, (e.rem - 1) as nat)
}

/// Every directory counts itself.
pub proof fn lemma_subtree_count_pos(d: FsDir)
    ensures
        subtree_count(d) >= 1,
{
}

/// The weight of a concatenation is the sum of the weights.
pub proof fn lemma_queue_weight_add(a: Seq<BfsEntry>, b: Seq<BfsEntry>)
    ensures
        queue_weight(a + b) == queue_weight(a) + queue_weight(b),
    decreases a.len(),
{
    if a.len() == 0 {
        assert(a + b =~= b);
    } else {
        assert((a + b)[0] == a[0]);
        assert((a + b).drop_first() =~= a.drop_first() + b);
        lemma_queue_weight_add(a.drop_first(), b);
    }
}

/// The child entries of a directory list weigh as much as the child trees.
pub proof fn lemma_entries_from_weight(s: Seq<FsDir>, rel: Seq<Seq<char>>, rem: nat)
    ensures
        queue_weight(entries_from(s, rel, rem)) == dirs_count(s),
    decreases s.len(),
{
    if s.len() == 0 {
        assert(queue_weight(entries_from(s, rel, rem)) == 0);
    } else {
        assert(entries_from(s, rel, rem).drop_first() =~= entries_from(s.drop_first(), rel, rem));
        lemma_entries_from_weight(s.drop_first(), rel, rem);
        assert(entries_from(s, rel, rem)[0].node == s[0]);
    }
}

/// The queue after one [`bfs`] step weighs strictly less.
pub proof fn lemma_bfs_step_weight(q: Seq<BfsEntry>)
    requires
        q.len() > 0,
    ensures
        queue_weight(q.drop_first()) < queue_weight(q),
        queue_weight(q.drop_first() + child_entries(q[0])) < queue_weight(q),
{
    lemma_subtree_count_pos(q[0].node);
    lemma_queue_weight_add(q.drop_first(), child_entries(q[0]));
    lemma_entries_from_weight(q[0].node.dirs@, q[0].rel, (q[0].rem - 1) as nat);
}

/// The breadth-first search over a queue of pending entries: the returned
/// entry is the first one, front to back, that a target matches. An entry
/// popped with depth left and a listable directory appends its children at
/// the back.
pub open spec fn bfs(q: Seq<BfsEntry>, ts: Seq<TargetView>) -> Option<BfsEntry>
    decreases queue_weight(q),
    via bfs_decreases
{
    if q.len() == 0 {
        None
    } else if any_target_matches(q[0].node, ts) {
        Some(q[0])
    } else if q[0].rem <= 1 || !q[0].node.listable {
        bfs(q.drop_first(), ts)
    } else {
        bfs(q.drop_first() + child_entries(q[0]), ts)
    }
}

#[via_fn]
proof fn bfs_decreases(q: Seq<BfsEntry>, ts: Seq<TargetView>) {
    if q.len() > 0 {
        lemma_bfs_step_weight(q);
    }
}

/// What holds of every entry the queue ever carries: its path is
/// discoverable from the start and leads to its node, the node is
/// well-formed, and its depth budget accounts for its level.
pub open spec fn entry_inv(start: FsDir, depth: nat, e: BfsEntry) -> bool {
    &&& reachable(start, e.rel)
    &&& node_at(start, e.rel) == Some(e.node)
    &&& e.node.wf()
    &&& 1 <= e.rem
    &&& e.rel.len() + e.rem == depth
}

/// Every entry of the queue is sound.
pub open spec fn queue_inv(start: FsDir, depth: nat, q: Seq<BfsEntry>) -> bool {
    forall|j: int| 0 <= j < q.len() ==> entry_inv(start, depth, #[trigger] q[j])
}

/// The child entries of a sound entry with budget and a listable node are
/// themselves sound.
pub proof fn lemma_child_entries_inv(start: FsDir, depth: nat, e: BfsEntry)
    requires
        entry_inv(start, depth, e),
        e.rem >= 2,
        e.node.listable,
    ensures
        queue_inv(start, depth, child_entries(e)),
{
    let ce = child_entries(e);
    assert forall|j: int| 0 <= j < ce.len() implies entry_inv(start, depth, #[trigger] ce[j]) by {
        let c = e.node.dirs@[j];
        assert(ce[j].node == c && ce[j].rel == e.rel.push(c.name@) && ce[j].rem == (e.rem - 1)
            as nat);
        assert(has_child_dir(e.node, c.name@));
        assert(child_dir(e.node, c.name@) == c) by {
            let k = choose|i: int|
                0 <= i < e.node.dirs@.len() && #[trigger] e.node.dirs@[i].name@ == c.name@;
            assert(distinct_dir_names(e.node.dirs@));
            assert(0 <= k < e.node.dirs@.len() && e.node.dirs@[k].name@ == c.name@);
            assert(k == j);
        }
        lemma_node_at_extend(start, e.rel, c.name@);
        lemma_reachable_extend(start, e.rel, c.name@);
        lemma_child_dir_wf(e.node, c.name@);
    }
}

/// Soundness of the search: whatever [`bfs`] returns out of a sound queue
/// is a discoverable matching directory within the depth bound.
pub proof fn lemma_bfs_sound(start: FsDir, depth: nat, ts: Seq<TargetView>, q: Seq<BfsEntry>)
    requires
        queue_inv(start, depth, q),
        bfs(q, ts) is Some,
    ensures
        ({
            let e = bfs(q, ts)->Some_0;
            &&& is_match_at(start, ts, e.rel)
            &&& node_at(start, e.rel) == Some(e.node)
            &&& e.rel.len() + e.rem == depth
            &&& 1 <= e.rem
        }),
    decreases queue_weight(q),
{
    lemma_bfs_step_weight(q);
    let e0 = q[0];
    assert(entry_inv(start, depth, e0));
    if any_target_matches(e0.node, ts) {
    } else if e0.rem <= 1 || !e0.node.listable {
        assert forall|j: int| 0 <= j < q.drop_first().len() implies entry_inv(
            start,
            depth,
            #[trigger] q.drop_first()[j],
        ) by {
            assert(q.drop_first()[j] == q[j + 1]);
        }
        lemma_bfs_sound(start, depth, ts, q.drop_first());
    } else {
        let q2 = q.drop_first() + child_entries(e0);
        lemma_child_entries_inv(start, depth, e0);
        assert forall|j: int| 0 <= j < q2.len() implies entry_inv(start, depth, #[trigger] q2[j]) by {
            if j < q.drop_first().len() {
                assert(q2[j] == q[j + 1]);
            } else {
                assert(q2[j] == child_entries(e0)[j - q.drop_first().len()]);
            }
        }
        lemma_bfs_sound(start, depth, ts, q2);
    }
}

/// Completeness of the search: if some entry of a sound queue still leads,
/// within its budget, to a discoverable matching directory, [`bfs`] finds
/// one.
pub proof fn lemma_bfs_complete(
    start: FsDir,
    depth: nat,
    ts: Seq<TargetView>,
    q: Seq<BfsEntry>,
    j: int,
    suffix: Seq<Seq<char>>,
)
    requires
        queue_inv(start, depth, q),
        0 <= j < q.len(),
        reachable(q[j].node, suffix),
        node_at(q[j].node, suffix) matches Some(n) && any_target_matches(n, ts),
        suffix.len() < q[j].rem,
    ensures
        bfs(q, ts) is Some,
    decreases queue_weight(q),
{
    lemma_bfs_step_weight(q);
    let e0 = q[0];
    assert(entry_inv(start, depth, e0));
    if any_target_matches(e0.node, ts) {
    } else if j == 0 {
        // The match cannot be the front entry itself, so the path to it
        // descends through a child: the front entry expands.
        assert(suffix.len() > 0);
        assert(e0.node.listable && has_child_dir(e0.node, suffix[0]));
        assert(e0.rem >= 2);
        let q2 = q.drop_first() + child_entries(e0);
        lemma_child_entries_inv(start, depth, e0);
        assert forall|i: int| 0 <= i < q2.len() implies entry_inv(start, depth, #[trigger] q2[i]) by {
            if i < q.drop_first().len() {
                assert(q2[i] == q[i + 1]);
            } else {
                assert(q2[i] == child_entries(e0)[i - q.drop_first().len()]);
            }
        }
        let k = choose|i: int|
            0 <= i < e0.node.dirs@.len() && #[trigger] e0.node.dirs@[i].name@ == suffix[0];
        assert(0 <= k < e0.node.dirs@.len() && e0.node.dirs@[k].name@ == suffix[0]);
        assert(child_dir(e0.node, suffix[0]) == e0.node.dirs@[k]) by {
            assert(distinct_dir_names(e0.node.dirs@));
        }
        let j2 = q.drop_first().len() + k;
        assert(q2[j2] == child_entries(e0)[k]);
        assert(q2[j2].node == e0.node.dirs@[k]);
        lemma_bfs_complete(start, depth, ts, q2, j2, suffix.drop_first());
    } else if e0.rem <= 1 || !e0.node.listable {
        assert forall|i: int| 0 <= i < q.drop_first().len() implies entry_inv(
            start,
            depth,
            #[trigger] q.drop_first()[i],
        ) by {
            assert(q.drop_first()[i] == q[i + 1]);
        }
        assert(q.drop_first()[j - 1] == q[j]);
        lemma_bfs_complete(start, depth, ts, q.drop_first(), j - 1, suffix);
    } else {
        let q2 = q.drop_first() + child_entries(e0);
        lemma_child_entries_inv(start, depth, e0);
        assert forall|i: int| 0 <= i < q2.len() implies entry_inv(start, depth, #[trigger] q2[i]) by {
            if i < q.drop_first().len() {
                assert(q2[i] == q[i + 1]);
            } else {
                assert(q2[i] == child_entries(e0)[i - q.drop_first().len()]);
            }
        }
        assert(q2[j - 1] == q[j]);
        lemma_bfs_complete(start, depth, ts, q2, j - 1, suffix);
    }
}

/// Some entry of the queue can still, within its budget, lead the search
/// to the directory at `rel`.
pub open spec fn covers(q: Seq<BfsEntry>, rel: Seq<Seq<char>>) -> bool {
    exists|j: int|
        0 <= j < q.len() && (#[trigger] q[j]).rel.is_prefix_of(rel) && rel.len() - q[j].rel.len()
            < q[j].rem
}

/// Every discoverable matching directory within the depth bound is still
/// covered by the queue: nothing reachable has been passed over.
pub open spec fn covers_all(
    start: FsDir,
    ts: Seq<TargetView>,
    depth: nat,
    q: Seq<BfsEntry>,
) -> bool {
    forall|rel: Seq<Seq<char>>|
        #[trigger] is_match_at(start, ts, rel) && rel.len() < depth ==> covers(q, rel)
}

/// The queue holds at most two consecutive levels, shallowest first: the
/// shape a breadth-first frontier always has.
pub open spec fn depth_sorted(q: Seq<BfsEntry>) -> bool {
    &&& forall|i: int, j: int|
        0 <= i <= j < q.len() ==> (#[trigger] q[i]).rel.len() <= (#[trigger] q[j]).rel.len()
    &&& forall|j: int| 0 <= j < q.len() ==> (#[trigger] q[j]).rel.len() <= q[0].rel.len() + 1
}

/// A directory covered only by the front entry, and deeper than it, is
/// reached through one of the front entry's children.
proof fn lemma_front_cover_descends(
    start: FsDir,
    depth: nat,
    ts: Seq<TargetView>,
    q: Seq<BfsEntry>,
    rel: Seq<Seq<char>>,
)
    requires
        queue_inv(start, depth, q),
        q.len() > 0,
        is_match_at(start, ts, rel),
        q[0].rel.is_prefix_of(rel),
        rel.len() > q[0].rel.len(),
    ensures
        ({
            let suffix = rel.skip(q[0].rel.len() as int);
            &&& rel =~= q[0].rel + suffix
            &&& suffix.len() > 0
            &&& reachable(q[0].node, suffix)
            &&& q[0].node.listable
            &&& has_child_dir(q[0].node, suffix[0])
        }),
{
    let e0 = q[0];
    assert(entry_inv(start, depth, e0));
    let suffix = rel.skip(e0.rel.len() as int);
    assert(rel =~= e0.rel + suffix);
    lemma_reachable_split(start, e0.rel, suffix);
}

/// A matching directory at the same level as the front entry and covered
/// by it is the front entry itself; the front entry would then match.
proof fn lemma_front_cover_same_level(
    start: FsDir,
    depth: nat,
    ts: Seq<TargetView>,
    q: Seq<BfsEntry>,
    rel: Seq<Seq<char>>,
)
    requires
        queue_inv(start, depth, q),
        q.len() > 0,
        is_match_at(start, ts, rel),
        q[0].rel.is_prefix_of(rel),
        rel.len() == q[0].rel.len(),
    ensures
        any_target_matches(q[0].node, ts),
{
    assert(entry_inv(start, depth, q[0]));
    assert(rel =~= q[0].rel);
}

/// Dropping an exhausted or unlistable non-matching front entry keeps
/// every within-bound match covered.
proof fn lemma_covers_all_drop(start: FsDir, depth: nat, ts: Seq<TargetView>, q: Seq<BfsEntry>)
    requires
        queue_inv(start, depth, q),
        covers_all(start, ts, depth, q),
        q.len() > 0,
        !any_target_matches(q[0].node, ts),
        q[0].rem <= 1 || !q[0].node.listable,
    ensures
        covers_all(start, ts, depth, q.drop_first()),
{
    let e0 = q[0];
    let q2 = q.drop_first();
    assert forall|rel: Seq<Seq<char>>|
        #[trigger] is_match_at(start, ts, rel) && rel.len() < depth implies covers(q2, rel) by {
        assert(covers(q, rel));
        let j = choose|j: int|
            0 <= j < q.len() && (#[trigger] q[j]).rel.is_prefix_of(rel) && rel.len()
                - q[j].rel.len() < q[j].rem;
        if j == 0 {
            if rel.len() == e0.rel.len() {
                lemma_front_cover_same_level(start, depth, ts, q, rel);
            } else {
                assert(rel.len() > e0.rel.len());
                assert(e0.rem > 1);
                lemma_front_cover_descends(start, depth, ts, q, rel);
            }
        } else {
            assert(q2[j - 1] == q[j]);
        }
    }
}

/// Expanding a non-matching front entry keeps every within-bound match
/// covered: matches under the front move to the child that leads to them.
proof fn lemma_covers_all_expand(start: FsDir, depth: nat, ts: Seq<TargetView>, q: Seq<BfsEntry>)
    requires
        queue_inv(start, depth, q),
        covers_all(start, ts, depth, q),
        q.len() > 0,
        !any_target_matches(q[0].node, ts),
        q[0].rem >= 2,
        q[0].node.listable,
    ensures
        covers_all(start, ts, depth, q.drop_first() + child_entries(q[0])),
{
    let e0 = q[0];
    let q2 = q.drop_first() + child_entries(e0);
    assert forall|rel: Seq<Seq<char>>|
        #[trigger] is_match_at(start, ts, rel) && rel.len() < depth implies covers(q2, rel) by {
        assert(covers(q, rel));
        let j = choose|j: int|
            0 <= j < q.len() && (#[trigger] q[j]).rel.is_prefix_of(rel) && rel.len()
                - q[j].rel.len() < q[j].rem;
        if j == 0 {
            if rel.len() == e0.rel.len() {
                lemma_front_cover_same_level(start, depth, ts, q, rel);
            } else {
                assert(rel.len() > e0.rel.len());
                lemma_front_cover_descends(start, depth, ts, q, rel);
                let suffix = rel.skip(e0.rel.len() as int);
                let k = choose|i: int|
                    0 <= i < e0.node.dirs@.len() && #[trigger] e0.node.dirs@[i].name@ == suffix[0];
                assert(0 <= k < e0.node.dirs@.len() && e0.node.dirs@[k].name@ == suffix[0]);
                let j2 = q.drop_first().len() + k;
                assert(q2[j2] == child_entries(e0)[k]);
                assert(q2[j2].rel == e0.rel.push(suffix[0]));
                assert(q2[j2].rel.is_prefix_of(rel)) by {
                    assert(q2[j2].rel =~= rel.take(e0.rel.len() as int + 1)) by {
                        assert(forall|i: int|
                            0 <= i < e0.rel.len() ==> rel[i] == #[trigger] e0.rel[i]);
                        assert(rel[e0.rel.len() as int] == suffix[0]);
                    }
                }
                assert(rel.len() - q2[j2].rel.len() < q2[j2].rem);
            }
        } else {
            assert(q2[j - 1] == q[j]);
        }
    }
}

/// Dropping the front entry keeps the queue depth-sorted.
proof fn lemma_depth_sorted_drop(q: Seq<BfsEntry>)
    requires
        depth_sorted(q),
        q.len() > 0,
    ensures
        depth_sorted(q.drop_first()),
{
    let q2 = q.drop_first();
    assert forall|i: int, j: int| 0 <= i <= j < q2.len() implies (#[trigger] q2[i]).rel.len() <= (
    #[trigger] q2[j]).rel.len() by {
        assert(q2[i] == q[i + 1] && q2[j] == q[j + 1]);
    }
    assert forall|j: int| 0 <= j < q2.len() implies (#[trigger] q2[j]).rel.len() <= q2[0].rel.len()
        + 1 by {
        assert(q2[j] == q[j + 1] && q2[0] == q[1]);
        assert(q[0].rel.len() <= q[1].rel.len());
    }
}

/// Expanding the front entry keeps the queue depth-sorted: the children
/// enter at the back, one level below the front.
proof fn lemma_depth_sorted_expand(q: Seq<BfsEntry>)
    requires
        depth_sorted(q),
        q.len() > 0,
    ensures
        depth_sorted(q.drop_first() + child_entries(q[0])),
{
    let e0 = q[0];
    let q2 = q.drop_first() + child_entries(e0);
    let old_len = q.drop_first().len();
    assert(forall|i: int|
        0 <= i < child_entries(e0).len() ==> (#[trigger] child_entries(e0)[i]).rel.len()
            == e0.rel.len() + 1);
    assert forall|i: int, j: int| 0 <= i <= j < q2.len() implies (#[trigger] q2[i]).rel.len() <= (
    #[trigger] q2[j]).rel.len() by {
        if i < old_len {
            assert(q2[i] == q[i + 1]);
        } else {
            assert(q2[i] == child_entries(e0)[i - old_len]);
        }
        if j < old_len {
            assert(q2[j] == q[j + 1]);
        } else {
            assert(q2[j] == child_entries(e0)[j - old_len]);
        }
    }
    assert forall|j: int| 0 <= j < q2.len() implies (#[trigger] q2[j]).rel.len() <= q2[0].rel.len()
        + 1 by {
        if j < old_len {
            assert(q2[j] == q[j + 1]);
        } else {
            assert(q2[j] == child_entries(e0)[j - old_len]);
        }
        if old_len > 0 {
            assert(q2[0] == q[1]);
            assert(q[0].rel.len() <= q[1].rel.len());
        } else {
            assert(q2[0] == child_entries(e0)[0]);
        }
    }
}

/// Minimality of the search: what [`bfs`] returns out of a sound,
/// depth-sorted queue that still covers every within-bound match lies at
/// the least depth any match has: no strictly shallower discoverable
/// directory matches.
pub proof fn lemma_bfs_minimal(start: FsDir, depth: nat, ts: Seq<TargetView>, q: Seq<BfsEntry>)
    requires
        queue_inv(start, depth, q),
        covers_all(start, ts, depth, q),
        depth_sorted(q),
        bfs(q, ts) is Some,
    ensures
        !found_within(start, ts, bfs(q, ts)->Some_0.rel.len() as nat),
    decreases queue_weight(q),
{
    lemma_bfs_step_weight(q);
    let e0 = q[0];
    assert(entry_inv(start, depth, e0));
    if any_target_matches(e0.node, ts) {
        let e = bfs(q, ts)->Some_0;
        assert(e == e0);
        if found_within(start, ts, e.rel.len() as nat) {
            let rel = choose|rel: Seq<Seq<char>>|
                #[trigger] is_match_at(start, ts, rel) && rel.len() < e.rel.len() as nat;
            assert(rel.len() < depth);
            assert(covers(q, rel));
            let j = choose|j: int|
                0 <= j < q.len() && (#[trigger] q[j]).rel.is_prefix_of(rel) && rel.len()
                    - q[j].rel.len() < q[j].rem;
            assert(q[0].rel.len() <= q[j].rel.len());
            assert(q[j].rel.len() <= rel.len());
            assert(false);
        }
    } else if e0.rem <= 1 || !e0.node.listable {
        let q2 = q.drop_first();
        assert forall|j: int| 0 <= j < q2.len() implies entry_inv(start, depth, #[trigger] q2[j]) by {
            assert(q2[j] == q[j + 1]);
        }
        lemma_covers_all_drop(start, depth, ts, q);
        lemma_depth_sorted_drop(q);
        lemma_bfs_minimal(start, depth, ts, q2);
    } else {
        let q2 = q.drop_first() + child_entries(e0);
        lemma_child_entries_inv(start, depth, e0);
        assert forall|j: int| 0 <= j < q2.len() implies entry_inv(start, depth, #[trigger] q2[j]) by {
            if j < q.drop_first().len() {
                assert(q2[j] == q[j + 1]);
            } else {
                assert(q2[j] == child_entries(e0)[j - q.drop_first().len()]);
            }
        }
        lemma_covers_all_expand(start, depth, ts, q);
        lemma_depth_sorted_expand(q);
        lemma_bfs_minimal(start, depth, ts, q2);
    }
}

/// The descendant search, as a function of the tree, the starting path,
/// the depth bound and the targets. `None` stands for `NotFound`: a depth
/// of zero, a starting path that does not resolve, or no discoverable
/// match within the bound.
pub open spec fn search_down_spec(
    m: FsDir,
    dir: Seq<Seq<char>>,
    depth: nat,
    ts: Seq<TargetView>,
) -> Option<Seq<Seq<char>>> {
    if node_at(m, dir) is Some && depth >= 1 {
        match bfs(
            seq![BfsEntry { node: node_at(m, dir)->Some_0, rel: Seq::empty(), rem: depth }],
            ts,
        ) {
            Some(e) => Some(dir + e.rel),
            None => None,
        }
    } else {
        None
    }
}

/// The breadth-first-first-match law of the descendant search. A returned
/// path extends the starting path toward a discoverable directory within
/// the depth bound that a target matches, and no discoverable directory
/// strictly shallower matches; `None` is returned exactly when no
/// discoverable directory within the bound matches.
pub proof fn lemma_search_down_correct(
    m: FsDir,
    dir: Seq<Seq<char>>,
    depth: nat,
    ts: Seq<TargetView>,
)
    requires
        m.wf(),
        node_at(m, dir) is Some,
        depth >= 1,
    ensures
        ({
            let start = node_at(m, dir)->Some_0;
            match search_down_spec(m, dir, depth, ts) {
                Some(p) => {
                    &&& dir.is_prefix_of(p)
                    &&& p.len() - dir.len() < depth
                    &&& is_match_at(start, ts, p.skip(dir.len() as int))
                    &&& !found_within(start, ts, (p.len() - dir.len()) as nat)
                },
                None => !found_within(start, ts, depth),
            }
        }),
{
    let start = node_at(m, dir)->Some_0;
    lemma_node_at_wf(m, dir);
    let empty_rel = Seq::<Seq<char>>::empty();
    let seed = seq![BfsEntry { node: start, rel: empty_rel, rem: depth }];
    assert(node_at(start, empty_rel) == Some(start));
    assert(reachable(start, empty_rel));
    assert(entry_inv(start, depth, seed[0]));
    assert(queue_inv(start, depth, seed)) by {
        assert forall|j: int| 0 <= j < seed.len() implies entry_inv(
            start,
            depth,
            #[trigger] seed[j],
        ) by {
            assert(seed[j] == seed[0]);
        }
    }
    assert(covers_all(start, ts, depth, seed)) by {
        assert forall|rel: Seq<Seq<char>>|
            #[trigger] is_match_at(start, ts, rel) && rel.len() < depth implies covers(
            seed,
            rel,
        ) by {
            assert(seed[0].rel.is_prefix_of(rel)) by {
                assert(empty_rel =~= rel.take(0));
            }
            assert(rel.len() - seed[0].rel.len() < seed[0].rem);
        }
    }
    assert(depth_sorted(seed));
    match bfs(seed, ts) {
        Some(e) => {
            lemma_bfs_sound(start, depth, ts, seed);
            lemma_bfs_minimal(start, depth, ts, seed);
            let p = dir + e.rel;
            assert(search_down_spec(m, dir, depth, ts) == Some(p));
            assert(p.skip(dir.len() as int) =~= e.rel);
            assert(dir.is_prefix_of(p)) by {
                assert(dir =~= p.take(dir.len() as int));
            }
            assert(p.len() - dir.len() == e.rel.len());
        },
        None => {
            if found_within(start, ts, depth) {
                let rel = choose|rel: Seq<Seq<char>>|
                    #[trigger] is_match_at(start, ts, rel) && rel.len() < depth;
                lemma_bfs_complete(start, depth, ts, seed, 0, rel);
                assert(false);
            }
        },
    }
}

/// One pending stop of the executable traversal: the path from the start
/// directory and the levels still available there.
struct QItem {
    path: Vec<String>,
    rem: usize,
}

/// The queue entry an executable item stands for.
spec fn abs_item(start: FsDir, it: QItem) -> BfsEntry {
    BfsEntry {
        node: node_at(start, path_view(it.path@))->Some_0,
        rel: path_view(it.path@),
        rem: it.rem as nat,
    }
}

/// The queue the executable queue stands for.
spec fn abs_queue(start: FsDir, q: Seq<QItem>) -> Seq<BfsEntry> {
    q.map_values(|it: QItem| abs_item(start, it))
}

/// Get the first directory containing any of the specified targets: the
/// breadth-first walk below the starting directory, at most `depth`
/// levels of it, the starting directory checked first. A directory that
/// cannot be listed ends its branch and nothing more; the search goes on
/// with the rest of the queue.
#[verifier::loop_isolation(false)]
pub(crate) fn get_dir(m: &FsDir, options: GetDir) -> (r: Result<Vec<String>, SearchError>)
    requires
        m.wf(),
    ensures
        ({
            let expected = search_down_spec(
                *m,
                path_view(options.dir@),
                options.depth as nat,
                seq_targets_view(options.targets@),
            );
            match r {
                Ok(p) => expected == Some(path_view(p@)),
                Err(e) => expected is None && e == SearchError::NotFound,
            }
        }),
{
    let GetDir { dir, depth, targets } = options;
    let ghost dseq = dir@;
    let ghost dv = path_view(dir@);
    let ghost tsv = seq_targets_view(targets@);
    if depth == 0 {
        return Err(SearchError::NotFound);
    }
    let start = match node_at_exec(m, &dir) {
        Some(s) => s,
        None => {
            return Err(SearchError::NotFound);
        },
    };
    let ghost st = *start;
    let ghost seed = seq![BfsEntry { node: st, rel: Seq::<Seq<char>>::empty(), rem: depth as nat }];
    let mut queue: Vec<QItem> = Vec::new();
    queue.push(QItem { path: Vec::new(), rem: depth });
    proof {
        assert(path_view(queue@[0].path@) =~= Seq::<Seq<char>>::empty());
        assert(abs_queue(st, queue@) =~= seed);
        assert(reachable(st, Seq::<Seq<char>>::empty()));
        assert(node_at(st, Seq::<Seq<char>>::empty()) == Some(st));
        assert(entry_inv(st, depth as nat, seed[0]));
        assert forall|j: int| 0 <= j < abs_queue(st, queue@).len() implies entry_inv(
            st,
            depth as nat,
            #[trigger] abs_queue(st, queue@)[j],
        ) by {
            assert(abs_queue(st, queue@)[j] == seed[0]);
        }
    }
    while queue.len() > 0
        invariant
            m.wf(),
            st.wf(),
            node_at(*m, dv) == Some(st),
            depth >= 1,
            queue_inv(st, depth as nat, abs_queue(st, queue@)),
            bfs(abs_queue(st, queue@), tsv) == bfs(seed, tsv),
        decreases queue_weight(abs_queue(st, queue@)),
    {
        let ghost q0 = abs_queue(st, queue@);
        proof {
            lemma_bfs_step_weight(q0);
        }
        let item = queue.remove(0);
        let ghost e0 = abs_item(st, item);
        proof {
            assert(q0[0] == e0);
            assert(entry_inv(st, depth as nat, e0));
            assert(abs_queue(st, queue@) =~= q0.drop_first());
            assert forall|j: int| 0 <= j < q0.drop_first().len() implies entry_inv(
                st,
                depth as nat,
                #[trigger] q0.drop_first()[j],
            ) by {
                assert(q0.drop_first()[j] == q0[j + 1]);
            }
        }
        let node = match node_at_exec(start, &item.path) {
            Some(n) => n,
            None => {
                proof {
                    assert(false);
                }
                return Err(SearchError::NotFound);
            },
        };
        proof {
            assert(*node == e0.node);
        }
        if is_targets_exist(node, &targets) {
            proof {
                assert(any_target_matches(e0.node, tsv));
                assert(bfs(q0, tsv) == Some(e0));
            }
            let mut out = dir;
            let mut i: usize = 0;
            while i < item.path.len()
                invariant
                    0 <= i <= item.path@.len(),
                    out@ =~= dseq + item.path@.take(i as int),
                decreases item.path@.len() - i,
            {
                out.push(item.path[i].clone());
                i = i + 1;
                proof {
                    assert(out@ =~= dseq + item.path@.take(i as int));
                }
            }
            proof {
                assert(item.path@.take(item.path@.len() as int) =~= item.path@);
                assert(out@ =~= dseq + item.path@);
                assert(path_view(out@) =~= dv + e0.rel);
            }
            return Ok(out);
        }
        proof {
            assert(!any_target_matches(e0.node, tsv));
        }
        if item.rem > 1 && node.listable {
            let ghost rest = abs_queue(st, queue@);
            let ghost ce = child_entries(e0);
            let n_children = node.dirs.len();
            let mut c: usize = 0;
            proof {
                assert(ce.take(0) =~= Seq::<BfsEntry>::empty());
                assert(abs_queue(st, queue@) =~= rest + ce.take(0));
            }
            while c < n_children
                invariant
                    m.wf(),
                    st.wf(),
                    0 <= c <= n_children,
                    n_children == e0.node.dirs@.len(),
                    *node == e0.node,
                    e0 == abs_item(st, item),
                    entry_inv(st, depth as nat, e0),
                    e0.rem == item.rem as nat,
                    item.rem > 1,
                    e0.node.listable,
                    ce == child_entries(e0),
                    abs_queue(st, queue@) =~= rest + ce.take(c as int),
                decreases n_children - c,
            {
                let mut cp = clone_path(&item.path);
                cp.push(node.dirs[c].name.clone());
                let ghost prev = queue@;
                queue.push(QItem { path: cp, rem: item.rem - 1 });
                proof {
                    let child = e0.node.dirs@[c as int];
                    assert(path_view(cp@) =~= e0.rel.push(child.name@));
                    assert(has_child_dir(e0.node, child.name@));
                    assert(child_dir(e0.node, child.name@) == child) by {
                        let k = choose|i: int|
                            0 <= i < e0.node.dirs@.len() && #[trigger] e0.node.dirs@[i].name@
                                == child.name@;
                        assert(distinct_dir_names(e0.node.dirs@));
                        assert(0 <= k < e0.node.dirs@.len() && e0.node.dirs@[k].name@
                            == child.name@);
                        assert(k == c);
                    }
                    lemma_node_at_extend(st, e0.rel, child.name@);
                    assert(abs_item(st, queue@[queue@.len() - 1]) == ce[c as int]) by {
                        assert(node_at(st, path_view(cp@)) == Some(child));
                        assert(ce[c as int].node == child);
                        assert(ce[c as int].rel =~= path_view(cp@));
                    }
                    assert(ce.take(c as int + 1) =~= ce.take(c as int).push(ce[c as int]));
                    assert(abs_queue(st, queue@) =~= abs_queue(st, prev).push(
                        abs_item(st, queue@[queue@.len() - 1]),
                    ));
                    assert(abs_queue(st, queue@) =~= rest + ce.take(c as int + 1));
                }
                c = c + 1;
            }
            proof {
                assert(ce.take(n_children as int) =~= ce);
                assert(abs_queue(st, queue@) =~= rest + ce);
                assert(e0.rem >= 2);
                assert(bfs(q0, tsv) == bfs(rest + ce, tsv));
                lemma_child_entries_inv(st, depth as nat, e0);
                assert forall|j: int| 0 <= j < (rest + ce).len() implies entry_inv(
                    st,
                    depth as nat,
                    #[trigger] (rest + ce)[j],
                ) by {
                    if j < rest.len() {
                        assert((rest + ce)[j] == rest[j]);
                    } else {
                        assert((rest + ce)[j] == ce[j - rest.len()]);
                    }
                }
                lemma_queue_weight_add(rest, ce);
                lemma_entries_from_weight(e0.node.dirs@, e0.rel, (e0.rem - 1) as nat);
                lemma_subtree_count_pos(e0.node);
            }
        } else {
            proof {
                assert(e0.rem <= 1 || !e0.node.listable);
                assert(bfs(q0, tsv) == bfs(abs_queue(st, queue@), tsv));
            }
        }
    }
    proof {
        assert(abs_queue(st, queue@).len() == 0);
        assert(bfs(abs_queue(st, queue@), tsv) is None);
    }
    Err(SearchError::NotFound)
}

} // verus!
