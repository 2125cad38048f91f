//! Ancestor search: find the closest ancestor of a starting directory
//! (the start itself counting first) that directly contains one of the
//! targets.
//!
//! The chain of ancestors of a path is its chain of prefixes, longest
//! first, down to the root of the snapshot. At most `depth` of them are
//! visited. An ancestor is only probed for its named children — this
//! direction never lists a directory — so a prefix that does not resolve
//! simply does not match.

use vstd::prelude::*;

use crate::config::GetDir;
use crate::errors::SearchError;
use crate::fs_model::{
    FsDir, any_target_matches, is_targets_exist, node_at, node_at_exec, path_view,
    seq_targets_view,
};
use crate::target::TargetView;

verus! {

/// Does the ancestor `i` levels above the start (0 being the start
/// itself) exist and directly contain some target?
pub open spec fn ancestor_matches(
    m: FsDir,
    dir: Seq<Seq<char>>,
    ts: Seq<TargetView>,
    i: nat,
) -> bool {
    i <= dir.len() && (node_at(m, dir.take(dir.len() - i)) matches Some(n) && any_target_matches(
        n,
        ts,
    ))
}

/// The walk up the ancestor chain from level `i`, with `budget` levels
/// (level `i` included) still allowed: the first ancestor, closest first,
/// that exists and matches.
pub open spec fn up_search(
    m: FsDir,
    dir: Seq<Seq<char>>,
    i: nat,
    budget: nat,
    ts: Seq<TargetView>,
) -> Option<Seq<Seq<char>>>
    decreases budget,
{
    if budget == 0 || i > dir.len() {
        None
    } else if ancestor_matches(m, dir, ts, i) {
        Some(dir.take(dir.len() - i))
    } else {
        up_search(m, dir, (i + 1) as nat, (budget - 1) as nat, ts)
    }
}

/// The ancestor search, as a function of the tree, the starting path, the
/// level bound and the targets. `None` stands for `NotFound`: no visited
/// ancestor exists and matches.
pub open spec fn search_up_spec(
    m: FsDir,
    dir: Seq<Seq<char>>,
    depth: nat,
    ts: Seq<TargetView>,
) -> Option<Seq<Seq<char>>> {
    up_search(m, dir, 0, depth, ts)
}

/// What the walk up the chain returns: the closest matching ancestor
/// among the levels it visits, and `None` exactly when none of them
/// matches.
pub proof fn lemma_up_search_correct(
    m: FsDir,
    dir: Seq<Seq<char>>,
    i: nat,
    budget: nat,
    ts: Seq<TargetView>,
)
    ensures
        ({
            match up_search(m, dir, i, budget, ts) {
                Some(p) => exists|k: nat|
                    i <= k < i + budget && k <= dir.len() && p == dir.take(dir.len() - k) && (
                    #[trigger] ancestor_matches(m, dir, ts, k)) && (forall|j: nat|
                        i <= j < k ==> !#[trigger] ancestor_matches(m, dir, ts, j)),
                None => forall|k: nat|
                    i <= k < i + budget ==> !#[trigger] ancestor_matches(m, dir, ts, k),
            }
        }),
    decreases budget,
{
    if budget == 0 || i > dir.len() {
        if i > dir.len() {
            assert forall|k: nat| i <= k < i + budget implies !#[trigger] ancestor_matches(
                m,
                dir,
                ts,
                k,
            ) by {}
        }
    } else if ancestor_matches(m, dir, ts, i) {
        let p = dir.take(dir.len() - i);
        assert(i <= i < i + budget && i <= dir.len() && p == dir.take(dir.len() - i)
            && ancestor_matches(m, dir, ts, i) && (forall|j: nat|
            i <= j < i ==> !#[trigger] ancestor_matches(m, dir, ts, j)));
    } else {
        lemma_up_search_correct(m, dir, (i + 1) as nat, (budget - 1) as nat, ts);
        match up_search(m, dir, (i + 1) as nat, (budget - 1) as nat, ts) {
            Some(p) => {
                let k = choose|k: nat|
                    i + 1 <= k < i + 1 + (budget - 1) && k <= dir.len() && p == dir.take(
                        dir.len() - k,
                    ) && (#[trigger] ancestor_matches(m, dir, ts, k)) && (forall|j: nat|
                        i + 1 <= j < k ==> !#[trigger] ancestor_matches(m, dir, ts, j));
                assert(i <= k < i + budget && k <= dir.len() && p == dir.take(dir.len() - k)
                    && ancestor_matches(m, dir, ts, k) && (forall|j: nat|
                    i <= j < k ==> !#[trigger] ancestor_matches(m, dir, ts, j)));
            },
            None => {},
        }
    }
}

/// The closest-ancestor law of the ancestor search. A returned path is an
/// ancestor of the start (the start itself counting first) within the
/// level bound that exists and directly contains a target, and no closer
/// ancestor does; `None` is returned exactly when no visited ancestor
/// matches.
pub proof fn lemma_search_up_correct(m: FsDir, dir: Seq<Seq<char>>, depth: nat, ts: Seq<TargetView>)
    ensures
        ({
            match search_up_spec(m, dir, depth, ts) {
                Some(p) => exists|k: nat|
                    k < depth && k <= dir.len() && p == dir.take(dir.len() - k) && (
                    #[trigger] ancestor_matches(m, dir, ts, k)) && (forall|j: nat|
                        j < k ==> !#[trigger] ancestor_matches(m, dir, ts, j)),
                None => forall|k: nat| k < depth ==> !#[trigger] ancestor_matches(m, dir, ts, k),
            }
        }),
{
    lemma_up_search_correct(m, dir, 0, depth, ts);
}

/// Get the first ancestor directory (the start itself counting first, at
/// most `depth` of them) that directly contains any of the targets.
#[verifier::loop_isolation(false)]
pub(crate) fn get_dir_reverse(m: &FsDir, options: GetDir) -> (r: Result<Vec<String>, SearchError>)
    requires
        m.wf(),
    ensures
        ({
            let expected = search_up_spec(
                *m,
                path_view(options.dir@),
                options.depth as nat,
                seq_targets_view(options.targets@),
            );
            match r {
                Ok(p) => expected == Some(path_view(p@)),
                Err(e) => expected is None && e == SearchError::NotFound,
            }
        }),
{
    let GetDir { dir, depth, targets } = options;
    let ghost dv = path_view(dir@);
    let ghost tsv = seq_targets_view(targets@);
    let orig_len = dir.len();
    let mut cur = dir;
    let mut visited: usize = 0;
    while visited < depth
        invariant
            m.wf(),
            visited <= orig_len + 1,
            visited <= depth,
            cur@.len() == orig_len - visited,
            orig_len == dv.len(),
            path_view(cur@) =~= dv.take(orig_len - visited),
            up_search(*m, dv, 0, depth as nat, tsv) == up_search(
                *m,
                dv,
                visited as nat,
                (depth - visited) as nat,
                tsv,
            ),
        decreases orig_len + 1 - visited,
    {
        let matched = match node_at_exec(m, &cur) {
            Some(n) => is_targets_exist(n, &targets),
            None => false,
        };
        proof {
            assert(dv.take(dv.len() - visited as nat) =~= path_view(cur@));
        }
        if matched {
            proof {
                assert(ancestor_matches(*m, dv, tsv, visited as nat));
                assert(up_search(*m, dv, visited as nat, (depth - visited) as nat, tsv) == Some(
                    path_view(cur@),
                ));
            }
            return Ok(cur);
        }
        proof {
            assert(!ancestor_matches(*m, dv, tsv, visited as nat));
            assert(up_search(*m, dv, visited as nat, (depth - visited) as nat, tsv) == up_search(
                *m,
                dv,
                (visited + 1) as nat,
                (depth - visited - 1) as nat,
                tsv,
            ));
        }
        if cur.len() == 0 {
            proof {
                assert(visited == orig_len);
                assert(up_search(*m, dv, (visited + 1) as nat, (depth - visited - 1) as nat, tsv)
                    is None);
            }
            return Err(SearchError::NotFound);
        }
        cur.pop();
        proof {
            assert(path_view(cur@) =~= dv.take(orig_len - (visited + 1)));
        }
        visited = visited + 1;
    }
    proof {
        assert(up_search(*m, dv, visited as nat, 0, tsv) is None);
    }
    Err(SearchError::NotFound)
}

} // verus!
