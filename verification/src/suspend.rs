//! The suspension-based execution contract: resumable searches.
//!
//! A search here is a machine that never touches the tree itself. It hands
//! the caller one request at a time — probe a named child, list a
//! directory — and the caller answers with [`DownSearch::step`] or
//! [`UpSearch::step`]; every directory-listing operation and every probe
//! is such a hand-over, so a cooperative scheduler can interleave other
//! work between any two of them. The machine's whole transition behaviour
//! is pinned by the `*_spec` functions, and the drivers [`GetDirAsyncExt::run_async`]
//! and [`GetDirAsyncExt::run_reverse_async`], which answer the requests
//! out of a tree snapshot, are proved to return exactly what the blocking
//! searches return: the two execution contracts cannot disagree.
//!
//! The machines are plain values: abandoning one between two steps needs
//! no cleanup, and concurrent searches share nothing.

use vstd::prelude::*;

use crate::config::GetDir;
use crate::down::{
    BfsEntry, bfs, child_entries, dirs_count, entry_inv, lemma_child_entries_inv,
    lemma_entries_from_weight, lemma_queue_weight_add, lemma_subtree_count_pos, queue_inv,
    queue_weight, search_down_spec, subtree_count,
};
use crate::errors::SearchError;
use crate::fs_model::{
    FsDir, any_target_matches, child_dir, clone_path, dir_exists_in, distinct_dir_names,
    file_exists_in, has_child_dir, has_child_file, lemma_node_at_extend, lemma_node_at_split,
    node_at, node_at_exec, path_view, reachable, seq_targets_view, target_matches,
};
use crate::target::{Target, TargetView};
use crate::up::{ancestor_matches, search_up_spec, up_search};

verus! {

/// A request the descendant search hands its driver, or its outcome.
pub enum DownAction {
    /// Answer with `step(DownEvent::Probed(..))`: is `path`/`name` a
    /// directory?
    ProbeDir { path: Vec<String>, name: String },
    /// Answer with `step(DownEvent::Probed(..))`: is `path`/`name` a
    /// regular file?
    ProbeFile { path: Vec<String>, name: String },
    /// Answer with `step(DownEvent::Listed(..))`: the names of the child
    /// directories of `path`, or `None` when the listing fails.
    List { path: Vec<String> },
    /// The search is over: this directory matched.
    Found { path: Vec<String> },
    /// The search is over: nothing matched.
    NotFound,
}

/// The mathematical value of a [`DownAction`].
pub enum DownActionV {
    /// A directory probe request.
    ProbeDir { path: Seq<Seq<char>>, name: Seq<char> },
    /// A file probe request.
    ProbeFile { path: Seq<Seq<char>>, name: Seq<char> },
    /// A listing request.
    List { path: Seq<Seq<char>> },
    /// A successful outcome.
    Found { path: Seq<Seq<char>> },
    /// A failed outcome.
    NotFound,
}

impl View for DownAction {
    type V = DownActionV;

    open spec fn view(&self) -> DownActionV {
        match self {
            DownAction::ProbeDir { path, name } => DownActionV::ProbeDir {
                path: path_view(path@),
                name: name@,
            },
            DownAction::ProbeFile { path, name } => DownActionV::ProbeFile {
                path: path_view(path@),
                name: name@,
            },
            DownAction::List { path } => DownActionV::List { path: path_view(path@) },
            DownAction::Found { path } => DownActionV::Found { path: path_view(path@) },
            DownAction::NotFound => DownActionV::NotFound,
        }
    }
}

/// A driver's answer to the pending request of a descendant search.
pub enum DownEvent {
    /// The answer to a probe request.
    Probed(bool),
    /// The answer to a listing request: the names of the child
    /// directories, in listing order, or `None` when the listing failed.
    Listed(Option<Vec<String>>),
}

/// The mathematical value of a [`DownEvent`].
pub enum DownEventV {
    /// A probe answer.
    Probed(bool),
    /// A listing answer.
    Listed(Option<Seq<Seq<char>>>),
}

impl View for DownEvent {
    type V = DownEventV;

    open spec fn view(&self) -> DownEventV {
        match self {
            DownEvent::Probed(b) => DownEventV::Probed(*b),
            DownEvent::Listed(ans) => DownEventV::Listed(
                match ans {
                    Some(names) => Some(path_view(names@)),
                    None => None,
                },
            ),
        }
    }
}

/// One pending stop of a resumable descendant search.
struct Pending {
    path: Vec<String>,
    rem: usize,
}

/// Where a resumable descendant search stands.
enum DownPhase {
    /// Waiting for the answer to a probe of target `tidx` on `path`.
    Probing { path: Vec<String>, rem: usize, tidx: usize },
    /// Waiting for the answer to a listing of `path`.
    Listing { path: Vec<String>, rem: usize },
    /// The outcome has been delivered.
    Done,
}

/// The mathematical value of the phase of a descendant search.
pub enum DownPhaseV {
    /// Waiting for a probe answer.
    Probing { path: Seq<Seq<char>>, rem: nat, tidx: nat },
    /// Waiting for a listing answer.
    Listing { path: Seq<Seq<char>>, rem: nat },
    /// Finished.
    Done,
}

/// The mathematical value of one pending stop: its path and the levels
/// still available there.
#[verifier::ext_equal]
pub struct StopV {
    /// The path from the root of the tree to the stop.
    pub path: Seq<Seq<char>>,
    /// Levels still available: 1 means only this directory itself.
    pub rem: nat,
}

/// The mathematical value of a [`DownSearch`]: its targets, its queue of
/// pending stops (path and remaining levels), and its phase.
pub struct DownStateV {
    /// The targets, in match order.
    pub targets: Seq<TargetView>,
    /// The stops not yet inspected, front first.
    pub queue: Seq<StopV>,
    /// What the machine waits for.
    pub phase: DownPhaseV,
}

/// A resumable, depth-bounded, breadth-first descendant search. Built by
/// [`DownSearch::begin`]; driven by answering each returned action with
/// [`DownSearch::step`] until `Found` or `NotFound` comes back.
pub struct DownSearch {
    targets: Vec<Target>,
    queue: Vec<Pending>,
    phase: DownPhase,
}

impl View for DownSearch {
    type V = DownStateV;

    closed spec fn view(&self) -> DownStateV {
        DownStateV {
            targets: seq_targets_view(self.targets@),
            queue: self.queue@.map_values(|p: Pending| StopV { path: path_view(p.path@), rem: p.rem as nat }),
            phase: match &self.phase {
                DownPhase::Probing { path, rem, tidx } => DownPhaseV::Probing {
                    path: path_view(path@),
                    rem: *rem as nat,
                    tidx: *tidx as nat,
                },
                DownPhase::Listing { path, rem } => DownPhaseV::Listing {
                    path: path_view(path@),
                    rem: *rem as nat,
                },
                DownPhase::Done => DownPhaseV::Done,
            },
        }
    }
}

/// The probe request that target `t` asks for on `path`.
pub open spec fn probe_action_spec(path: Seq<Seq<char>>, t: TargetView) -> DownActionV {
    match t {
        TargetView::Dir(name) => DownActionV::ProbeDir { path, name },
        TargetView::File(name) => DownActionV::ProbeFile { path, name },
    }
}

/// Move to the next pending stop: pop the front of the queue and probe
/// its first target, or finish with `NotFound` when the queue is empty.
pub open spec fn down_dispatch_spec(
    ts: Seq<TargetView>,
    q: Seq<StopV>,
) -> (DownStateV, DownActionV) {
    if q.len() == 0 {
        (DownStateV { targets: ts, queue: q, phase: DownPhaseV::Done }, DownActionV::NotFound)
    } else {
        (
            DownStateV {
                targets: ts,
                queue: q.drop_first(),
                phase: DownPhaseV::Probing { path: q[0].path, rem: q[0].rem, tidx: 0 },
            },
            probe_action_spec(q[0].path, ts[0]),
        )
    }
}

/// The queue entries that a listing answer contributes: one stop per
/// child-directory name, one level deeper, in listing order.
pub open spec fn listed_children(path: Seq<Seq<char>>, rem: nat, names: Seq<Seq<char>>) -> Seq<
    StopV,
> {
    names.map_values(|name: Seq<char>| StopV { path: path.push(name), rem: (rem - 1) as nat })
}

/// The whole transition of a descendant search on one answer.
pub open spec fn down_step_spec(s: DownStateV, ev: DownEventV) -> (DownStateV, DownActionV) {
    match s.phase {
        DownPhaseV::Probing { path, rem, tidx } => match ev {
            DownEventV::Probed(b) => {
                if b {
                    (
                        DownStateV { phase: DownPhaseV::Done, ..s },
                        DownActionV::Found { path },
                    )
                } else if tidx + 1 < s.targets.len() {
                    (
                        DownStateV {
                            phase: DownPhaseV::Probing { path, rem, tidx: (tidx + 1) as nat },
                            ..s
                        },
                        probe_action_spec(path, s.targets[tidx as int + 1]),
                    )
                } else if rem > 1 {
                    (
                        DownStateV { phase: DownPhaseV::Listing { path, rem }, ..s },
                        DownActionV::List { path },
                    )
                } else {
                    down_dispatch_spec(s.targets, s.queue)
                }
            },
            _ => (s, DownActionV::NotFound),
        },
        DownPhaseV::Listing { path, rem } => match ev {
            DownEventV::Listed(ans) => down_dispatch_spec(
                s.targets,
                s.queue + match ans {
                    Some(names) => listed_children(path, rem, names),
                    None => Seq::empty(),
                },
            ),
            _ => (s, DownActionV::NotFound),
        },
        DownPhaseV::Done => (s, DownActionV::NotFound),
    }
}

/// The first state and request of a descendant search. A zero depth bound
/// or an empty target list finishes at once.
pub open spec fn down_begin_spec(dir: Seq<Seq<char>>, depth: nat, ts: Seq<TargetView>) -> (
    DownStateV,
    DownActionV,
) {
    if depth == 0 || ts.len() == 0 {
        (
            DownStateV { targets: ts, queue: Seq::empty(), phase: DownPhaseV::Done },
            DownActionV::NotFound,
        )
    } else {
        down_dispatch_spec(ts, seq![StopV { path: dir, rem: depth }])
    }
}

/// The event kind the machine's phase waits for.
pub open spec fn down_expects(s: DownStateV, ev: DownEventV) -> bool {
    match (s.phase, ev) {
        (DownPhaseV::Probing { .. }, DownEventV::Probed(_)) => true,
        (DownPhaseV::Listing { .. }, DownEventV::Listed(_)) => true,
        _ => false,
    }
}

/// The shape every reachable machine state keeps: the phase's target
/// index stays within the target list, depth budgets stay positive.
pub open spec fn down_state_inv(s: DownStateV) -> bool {
    &&& match s.phase {
        DownPhaseV::Probing { rem, tidx, .. } => s.targets.len() > 0 && tidx < s.targets.len()
            && rem >= 1,
        DownPhaseV::Listing { rem, .. } => s.targets.len() > 0 && rem >= 2,
        DownPhaseV::Done => true,
    }
    &&& forall|j: int| 0 <= j < s.queue.len() ==> (#[trigger] s.queue[j]).rem >= 1
}

/// Build the probe request for one target.
fn probe_action_exec(path: &Vec<String>, t: &Target) -> (r: DownAction)
    ensures
        r@ == probe_action_spec(path_view(path@), t@),
{
    match t {
        Target::Dir(tg) => DownAction::ProbeDir { path: clone_path(path), name: tg.name.clone() },
        Target::File(tg) => DownAction::ProbeFile { path: clone_path(path), name: tg.name.clone() },
    }
}

impl DownSearch {
    /// Pop the next pending stop, or finish.
    fn dispatch(&mut self) -> (r: DownAction)
        requires
            old(self)@.targets.len() > 0,
            forall|j: int| 0 <= j < old(self)@.queue.len() ==> (#[trigger] old(self)@.queue[j]).rem
                >= 1,
        ensures
            (final(self)@, r@) == down_dispatch_spec(old(self)@.targets, old(self)@.queue),
            down_state_inv(final(self)@),
    {
        if self.queue.len() == 0 {
            self.phase = DownPhase::Done;
            DownAction::NotFound
        } else {
            let Pending { path, rem } = self.queue.remove(0);
            proof {
                assert(self.queue@.map_values(|p: Pending| StopV { path: path_view(p.path@), rem: p.rem as nat })
                    =~~= old(self)@.queue.drop_first());
                assert(old(self)@.queue[0] == StopV { path: path_view(path@), rem: rem as nat });
            }
            let action = probe_action_exec(&path, &self.targets[0]);
            self.phase = DownPhase::Probing { path, rem, tidx: 0 };
            action
        }
    }

    /// Start a descendant search for this configuration. Returns the
    /// machine and its first request.
    pub fn begin(options: GetDir) -> (r: (DownSearch, DownAction))
        ensures
            (r.0@, r.1@) == down_begin_spec(
                path_view(options.dir@),
                options.depth as nat,
                seq_targets_view(options.targets@),
            ),
            down_state_inv(r.0@),
            r.0@.targets == seq_targets_view(options.targets@),
    {
        let GetDir { dir, depth, targets } = options;
        if depth == 0 || targets.len() == 0 {
            let ms = DownSearch { targets, queue: Vec::new(), phase: DownPhase::Done };
            proof {
                assert(ms@.queue =~~= Seq::<StopV>::empty());
            }
            (ms, DownAction::NotFound)
        } else {
            let ghost dv = path_view(dir@);
            let mut queue: Vec<Pending> = Vec::new();
            queue.push(Pending { path: dir, rem: depth });
            let mut ms = DownSearch { targets, queue, phase: DownPhase::Done };
            proof {
                assert(ms@.queue =~~= seq![StopV { path: dv, rem: depth as nat }]);
            }
            let action = ms.dispatch();
            (ms, action)
        }
    }

    /// Answer the pending request and receive the next one, or the
    /// outcome. The whole transition is [`down_step_spec`].
    pub fn step(&mut self, ev: DownEvent) -> (r: DownAction)
        requires
            down_expects(old(self)@, ev@),
            down_state_inv(old(self)@),
        ensures
            (final(self)@, r@) == down_step_spec(old(self)@, ev@),
            down_state_inv(final(self)@),
    {
        match ev {
            DownEvent::Probed(b) => {
                let (path, rem, tidx) = match &self.phase {
                    DownPhase::Probing { path, rem, tidx } => (clone_path(path), *rem, *tidx),
                    _ => {
                        proof {
                            assert(false);
                        }
                        (Vec::new(), 0usize, 0usize)
                    },
                };
                let tlen = self.targets.len();
                proof {
                    assert(self@.phase matches DownPhaseV::Probing { path: p2, rem: r2, tidx: t2 }
                        && p2 == path_view(path@) && r2 == rem as nat && t2 == tidx as nat);
                    assert(tidx < tlen);
                }
                if b {
                    self.phase = DownPhase::Done;
                    DownAction::Found { path }
                } else if tidx + 1 < tlen {
                    let action = probe_action_exec(&path, &self.targets[tidx + 1]);
                    self.phase = DownPhase::Probing { path, rem, tidx: tidx + 1 };
                    action
                } else if rem > 1 {
                    let listed = clone_path(&path);
                    self.phase = DownPhase::Listing { path, rem };
                    DownAction::List { path: listed }
                } else {
                    self.dispatch()
                }
            },
            DownEvent::Listed(ans) => {
                let (path, rem) = match &self.phase {
                    DownPhase::Listing { path, rem } => (clone_path(path), *rem),
                    _ => {
                        proof {
                            assert(false);
                        }
                        (Vec::new(), 0usize)
                    },
                };
                proof {
                    assert(self@.phase matches DownPhaseV::Listing { path: p2, rem: r2 } && p2
                        == path_view(path@) && r2 == rem as nat);
                }
                let ghost q0 = self@.queue;
                let ghost pv = path_view(path@);
                match ans {
                    Some(names) => {
                        let n = names.len();
                        let mut c: usize = 0;
                        proof {
                            assert(listed_children(pv, rem as nat, path_view(names@).take(0))
                                =~~= Seq::<StopV>::empty());
                            assert(self@.queue =~~= q0 + listed_children(
                                pv,
                                rem as nat,
                                path_view(names@).take(0),
                            ));
                        }
                        while c < n
                            invariant
                                n == names@.len(),
                                0 <= c <= n,
                                rem >= 2,
                                pv == path_view(path@),
                                self@.targets == old(self)@.targets,
                                self@.phase == old(self)@.phase,
                                self@.queue =~~= q0 + listed_children(
                                    pv,
                                    rem as nat,
                                    path_view(names@).take(c as int),
                                ),
                            decreases n - c,
                        {
                            let mut cp = clone_path(&path);
                            cp.push(names[c].clone());
                            self.queue.push(Pending { path: cp, rem: rem - 1 });
                            proof {
                                assert(path_view(cp@) =~= pv.push(names@[c as int]@));
                                assert(path_view(names@).take(c as int + 1) =~= path_view(
                                    names@,
                                ).take(c as int).push(names@[c as int]@));
                                assert(listed_children(
                                    pv,
                                    rem as nat,
                                    path_view(names@).take(c as int + 1),
                                ) =~~= listed_children(
                                    pv,
                                    rem as nat,
                                    path_view(names@).take(c as int),
                                ).push(StopV { path: pv.push(names@[c as int]@), rem: (rem - 1) as nat }));
                                assert(self@.queue =~~= (q0 + listed_children(
                                    pv,
                                    rem as nat,
                                    path_view(names@).take(c as int),
                                )).push(StopV { path: path_view(cp@), rem: (rem - 1) as nat }));
                                assert((q0 + listed_children(
                                    pv,
                                    rem as nat,
                                    path_view(names@).take(c as int),
                                )).push(StopV { path: path_view(cp@), rem: (rem - 1) as nat })
                                    =~~= q0 + listed_children(
                                    pv,
                                    rem as nat,
                                    path_view(names@).take(c as int + 1),
                                ));
                                assert(self@.queue =~~= q0 + listed_children(
                                    pv,
                                    rem as nat,
                                    path_view(names@).take(c as int + 1),
                                ));
                            }
                            c = c + 1;
                        }
                        proof {
                            assert(path_view(names@).take(n as int) =~= path_view(names@));
                        }
                    },
                    None => {
                        proof {
                            assert(self@.queue =~~= q0 + Seq::<StopV>::empty());
                        }
                    },
                }
                self.dispatch()
            },
        }
    }
}

/// A request the ancestor search hands its driver, or its outcome. This
/// direction only probes named children; it never lists a directory.
pub enum UpAction {
    /// Answer with `step(..)`: is `path`/`name` a directory?
    ProbeDir { path: Vec<String>, name: String },
    /// Answer with `step(..)`: is `path`/`name` a regular file?
    ProbeFile { path: Vec<String>, name: String },
    /// The search is over: this ancestor matched.
    Found { path: Vec<String> },
    /// The search is over: no visited ancestor matched.
    NotFound,
}

/// The mathematical value of an [`UpAction`].
pub enum UpActionV {
    /// A directory probe request.
    ProbeDir { path: Seq<Seq<char>>, name: Seq<char> },
    /// A file probe request.
    ProbeFile { path: Seq<Seq<char>>, name: Seq<char> },
    /// A successful outcome.
    Found { path: Seq<Seq<char>> },
    /// A failed outcome.
    NotFound,
}

impl View for UpAction {
    type V = UpActionV;

    open spec fn view(&self) -> UpActionV {
        match self {
            UpAction::ProbeDir { path, name } => UpActionV::ProbeDir {
                path: path_view(path@),
                name: name@,
            },
            UpAction::ProbeFile { path, name } => UpActionV::ProbeFile {
                path: path_view(path@),
                name: name@,
            },
            UpAction::Found { path } => UpActionV::Found { path: path_view(path@) },
            UpAction::NotFound => UpActionV::NotFound,
        }
    }
}

/// The mathematical value of an [`UpSearch`]: its targets, the ancestor
/// it currently probes, how many levels (this one included) may still be
/// visited, the target up for probing, and whether it still runs.
pub struct UpStateV {
    /// The targets, in match order.
    pub targets: Seq<TargetView>,
    /// The ancestor currently probed.
    pub cur: Seq<Seq<char>>,
    /// Levels still allowed, the current one included.
    pub remaining: nat,
    /// The target waiting for its probe answer.
    pub tidx: nat,
    /// Whether an answer is still awaited; `false` once the outcome came.
    pub active: bool,
}

/// A resumable ancestor search. Built by [`UpSearch::begin`]; driven by
/// answering each probe with [`UpSearch::step`] until `Found` or
/// `NotFound` comes back.
pub struct UpSearch {
    targets: Vec<Target>,
    cur: Vec<String>,
    remaining: usize,
    tidx: usize,
    active: bool,
}

impl View for UpSearch {
    type V = UpStateV;

    closed spec fn view(&self) -> UpStateV {
        UpStateV {
            targets: seq_targets_view(self.targets@),
            cur: path_view(self.cur@),
            remaining: self.remaining as nat,
            tidx: self.tidx as nat,
            active: self.active,
        }
    }
}

/// The probe request that target `t` asks for on the ancestor `path`.
pub open spec fn up_probe_action_spec(path: Seq<Seq<char>>, t: TargetView) -> UpActionV {
    match t {
        TargetView::Dir(name) => UpActionV::ProbeDir { path, name },
        TargetView::File(name) => UpActionV::ProbeFile { path, name },
    }
}

/// The first state and request of an ancestor search. A zero level bound
/// or an empty target list finishes at once.
pub open spec fn up_begin_spec(dir: Seq<Seq<char>>, depth: nat, ts: Seq<TargetView>) -> (
    UpStateV,
    UpActionV,
) {
    if depth == 0 || ts.len() == 0 {
        (
            UpStateV { targets: ts, cur: dir, remaining: 0, tidx: 0, active: false },
            UpActionV::NotFound,
        )
    } else {
        (
            UpStateV { targets: ts, cur: dir, remaining: depth, tidx: 0, active: true },
            up_probe_action_spec(dir, ts[0]),
        )
    }
}

/// The whole transition of an ancestor search on one probe answer.
pub open spec fn up_step_spec(s: UpStateV, matched: bool) -> (UpStateV, UpActionV) {
    if !s.active {
        (s, UpActionV::NotFound)
    } else if matched {
        (UpStateV { active: false, ..s }, UpActionV::Found { path: s.cur })
    } else if s.tidx + 1 < s.targets.len() {
        (
            UpStateV { tidx: (s.tidx + 1) as nat, ..s },
            up_probe_action_spec(s.cur, s.targets[s.tidx as int + 1]),
        )
    } else if s.remaining > 1 && s.cur.len() > 0 {
        (
            UpStateV { cur: s.cur.drop_last(), remaining: (s.remaining - 1) as nat, tidx: 0, ..s },
            up_probe_action_spec(s.cur.drop_last(), s.targets[0]),
        )
    } else {
        (UpStateV { active: false, ..s }, UpActionV::NotFound)
    }
}

/// The shape every reachable ancestor-search state keeps.
pub open spec fn up_state_inv(s: UpStateV) -> bool {
    s.active ==> (s.targets.len() > 0 && s.tidx < s.targets.len() && s.remaining >= 1)
}

/// Build the probe request for one target of the ancestor search.
fn up_probe_action_exec(path: &Vec<String>, t: &Target) -> (r: UpAction)
    ensures
        r@ == up_probe_action_spec(path_view(path@), t@),
{
    match t {
        Target::Dir(tg) => UpAction::ProbeDir { path: clone_path(path), name: tg.name.clone() },
        Target::File(tg) => UpAction::ProbeFile { path: clone_path(path), name: tg.name.clone() },
    }
}

impl UpSearch {
    /// Start an ancestor search for this configuration. Returns the
    /// machine and its first request.
    pub fn begin(options: GetDir) -> (r: (UpSearch, UpAction))
        ensures
            (r.0@, r.1@) == up_begin_spec(
                path_view(options.dir@),
                options.depth as nat,
                seq_targets_view(options.targets@),
            ),
            up_state_inv(r.0@),
    {
        let GetDir { dir, depth, targets } = options;
        if depth == 0 || targets.len() == 0 {
            (
                UpSearch { targets, cur: dir, remaining: 0, tidx: 0, active: false },
                UpAction::NotFound,
            )
        } else {
            let action = up_probe_action_exec(&dir, &targets[0]);
            (
                UpSearch { targets, cur: dir, remaining: depth, tidx: 0, active: true },
                action,
            )
        }
    }

    /// Answer the pending probe and receive the next request, or the
    /// outcome. The whole transition is [`up_step_spec`].
    pub fn step(&mut self, matched: bool) -> (r: UpAction)
        requires
            old(self)@.active,
            up_state_inv(old(self)@),
        ensures
            (final(self)@, r@) == up_step_spec(old(self)@, matched),
            up_state_inv(final(self)@),
    {
        if matched {
            self.active = false;
            UpAction::Found { path: clone_path(&self.cur) }
        } else {
            let tlen = self.targets.len();
            proof {
                assert(self.tidx < tlen);
            }
            if self.tidx + 1 < tlen {
                self.tidx = self.tidx + 1;
                up_probe_action_exec(&self.cur, &self.targets[self.tidx])
            } else if self.remaining > 1 && self.cur.len() > 0 {
                let ghost before = self@.cur;
                self.cur.pop();
                proof {
                    assert(path_view(self.cur@) =~~= before.drop_last());
                }
                self.remaining = self.remaining - 1;
                self.tidx = 0;
                up_probe_action_exec(&self.cur, &self.targets[0])
            } else {
                self.active = false;
                UpAction::NotFound
            }
        }
    }
}

/// A descendant machine whose every pending stop, the probed one
/// included, has its depth budget exhausted.
pub open spec fn depth_one_down_state(s: DownStateV) -> bool {
    &&& match s.phase {
        DownPhaseV::Probing { rem, .. } => rem <= 1,
        DownPhaseV::Listing { .. } => false,
        DownPhaseV::Done => true,
    }
    &&& forall|j: int| 0 <= j < s.queue.len() ==> (#[trigger] s.queue[j]).rem <= 1
}

/// A depth bound of 1 starts the descendant machine shallow: no listing
/// is requested and only the start directory comes up for probing.
pub proof fn lemma_depth_one_begins_shallow(dir: Seq<Seq<char>>, ts: Seq<TargetView>)
    ensures
        depth_one_down_state(down_begin_spec(dir, 1, ts).0),
        !(down_begin_spec(dir, 1, ts).1 matches DownActionV::List { .. }),
{
}

/// A shallow descendant machine stays shallow: it never requests a
/// listing, so with a depth bound of 1 nothing below the start directory
/// is ever inspected.
pub proof fn lemma_depth_one_stays_shallow(s: DownStateV, ev: DownEventV)
    requires
        depth_one_down_state(s),
    ensures
        depth_one_down_state(down_step_spec(s, ev).0),
        !(down_step_spec(s, ev).1 matches DownActionV::List { .. }),
{
}

/// A level bound of 1 starts the ancestor machine at the start directory
/// with no level to spare.
pub proof fn lemma_level_one_begins_at_start(dir: Seq<Seq<char>>, ts: Seq<TargetView>)
    ensures
        up_begin_spec(dir, 1, ts).0.cur == dir,
        up_begin_spec(dir, 1, ts).0.remaining <= 1,
        (match up_begin_spec(dir, 1, ts).1 {
            UpActionV::ProbeDir { path, .. } => path == dir,
            UpActionV::ProbeFile { path, .. } => path == dir,
            UpActionV::Found { path } => path == dir,
            UpActionV::NotFound => true,
        }),
{
}

/// An ancestor machine with no level to spare never climbs: every probe
/// and every outcome names the start directory, so with a level bound of
/// 1 the parent is never inspected.
pub proof fn lemma_level_one_stays_at_start(s: UpStateV, b: bool)
    requires
        up_state_inv(s),
        s.remaining <= 1,
    ensures
        up_step_spec(s, b).0.cur == s.cur,
        up_step_spec(s, b).0.remaining <= 1,
        (match up_step_spec(s, b).1 {
            UpActionV::ProbeDir { path, .. } => path == s.cur,
            UpActionV::ProbeFile { path, .. } => path == s.cur,
            UpActionV::Found { path } => path == s.cur,
            UpActionV::NotFound => true,
        }),
{
}

/// Answer a directory probe out of the tree snapshot: does the directory
/// at `path` exist and directly contain a child directory `name`?
fn probe_dir_at(m: &FsDir, path: &Vec<String>, name: &String) -> (r: bool)
    requires
        m.wf(),
    ensures
        r == (node_at(*m, path_view(path@)) matches Some(n) && has_child_dir(n, name@)),
{
    match node_at_exec(m, path) {
        Some(n) => dir_exists_in(n, name),
        None => false,
    }
}

/// Answer a file probe out of the tree snapshot: does the directory at
/// `path` exist and directly contain a regular file `name`?
fn probe_file_at(m: &FsDir, path: &Vec<String>, name: &String) -> (r: bool)
    requires
        m.wf(),
    ensures
        r == (node_at(*m, path_view(path@)) matches Some(n) && has_child_file(n, name@)),
{
    match node_at_exec(m, path) {
        Some(n) => file_exists_in(n, name),
        None => false,
    }
}

/// Answer a listing request out of the tree snapshot: the names of the
/// child directories of `path`, in listing order, or `None` when `path`
/// does not resolve or cannot be listed.
#[verifier::loop_isolation(false)]
fn list_at(m: &FsDir, path: &Vec<String>) -> (r: Option<Vec<String>>)
    requires
        m.wf(),
    ensures
        match node_at(*m, path_view(path@)) {
            Some(n) => if n.listable {
                r matches Some(names) && path_view(names@) == n.dirs@.map_values(
                    |d: FsDir| d.name@,
                )
            } else {
                r is None
            },
            None => r is None,
        },
{
    match node_at_exec(m, path) {
        Some(n) => {
            if n.listable {
                let ghost all_names = n.dirs@.map_values(|d: FsDir| d.name@);
                let mut names: Vec<String> = Vec::new();
                let count = n.dirs.len();
                let mut i: usize = 0;
                while i < count
                    invariant
                        0 <= i <= count,
                        names@.len() == i,
                        forall|j: int| 0 <= j < i ==> #[trigger] names@[j]@ == all_names[j],
                    decreases count - i,
                {
                    names.push(n.dirs[i].name.clone());
                    proof {
                        assert(names@[i as int]@ == n.dirs@[i as int].name@);
                        assert(all_names[i as int] == n.dirs@[i as int].name@);
                    }
                    i = i + 1;
                }
                proof {
                    assert(path_view(names@) =~~= all_names) by {
                        assert(forall|j: int|
                            0 <= j < names@.len() ==> path_view(names@)[j] == #[trigger] names@[j]@);
                    }
                }
                Some(names)
            } else {
                None
            }
        },
        None => None,
    }
}

/// The queue entry that a pending stop of the machine stands for, its
/// path taken relative to the start directory.
spec fn stop_entry(st: FsDir, dv: Seq<Seq<char>>, p: StopV) -> BfsEntry {
    BfsEntry {
        node: node_at(st, p.path.skip(dv.len() as int))->Some_0,
        rel: p.path.skip(dv.len() as int),
        rem: p.rem,
    }
}

/// The queue that the machine's pending stops stand for.
spec fn stops_entries(st: FsDir, dv: Seq<Seq<char>>, q: Seq<StopV>) -> Seq<BfsEntry> {
    q.map_values(|p: StopV| stop_entry(st, dv, p))
}

/// Every pending stop extends the start directory and is a sound queue
/// entry.
spec fn down_queue_ok(st: FsDir, dv: Seq<Seq<char>>, dn: nat, q: Seq<StopV>) -> bool {
    &&& forall|j: int| 0 <= j < q.len() ==> dv.is_prefix_of((#[trigger] q[j]).path)
    &&& queue_inv(st, dn, stops_entries(st, dv, q))
}

/// What holds of the machine and its pending action at every hand-over of
/// the verified driver: the blocking search's queue law, carried across
/// suspension points.
spec fn down_driver_inv(
    st: FsDir,
    dv: Seq<Seq<char>>,
    dn: nat,
    tsv: Seq<TargetView>,
    goal: Option<BfsEntry>,
    s: DownStateV,
    a: DownActionV,
) -> bool {
    &&& s.targets == tsv
    &&& tsv.len() > 0
    &&& down_state_inv(s)
    &&& match a {
        DownActionV::ProbeDir { .. } | DownActionV::ProbeFile { .. } => {
            &&& s.phase matches DownPhaseV::Probing { path, rem, tidx } && {
                let cur = stop_entry(st, dv, StopV { path, rem });
                &&& a == probe_action_spec(path, tsv[tidx as int])
                &&& dv.is_prefix_of(path)
                &&& entry_inv(st, dn, cur)
                &&& forall|t: int| 0 <= t < tidx ==> !target_matches(cur.node, #[trigger] tsv[t])
                &&& bfs(seq![cur] + stops_entries(st, dv, s.queue), tsv) == goal
            }
            &&& down_queue_ok(st, dv, dn, s.queue)
        },
        DownActionV::List { .. } => {
            &&& s.phase matches DownPhaseV::Listing { path, rem } && {
                let cur = stop_entry(st, dv, StopV { path, rem });
                &&& a == DownActionV::List { path }
                &&& dv.is_prefix_of(path)
                &&& entry_inv(st, dn, cur)
                &&& rem >= 2
                &&& !any_target_matches(cur.node, tsv)
                &&& bfs(seq![cur] + stops_entries(st, dv, s.queue), tsv) == goal
            }
            &&& down_queue_ok(st, dv, dn, s.queue)
        },
        DownActionV::Found { path } => goal matches Some(e) && path == dv + e.rel,
        DownActionV::NotFound => goal is None,
    }
}

/// The work still ahead of the driver: the directories below the probed
/// stop and below every queued stop. It shrinks at every hand-over, which
/// bounds the number of steps a drive can take.
spec fn down_measure_w(st: FsDir, dv: Seq<Seq<char>>, s: DownStateV) -> nat {
    queue_weight(stops_entries(st, dv, s.queue)) + match s.phase {
        DownPhaseV::Probing { path, rem, .. } => subtree_count(
            stop_entry(st, dv, StopV { path, rem }).node,
        ),
        DownPhaseV::Listing { path, rem } => subtree_count(
            stop_entry(st, dv, StopV { path, rem }).node,
        ),
        DownPhaseV::Done => 0,
    }
}

/// Probing outranks listing: within one stop the machine only moves from
/// probes to the listing.
spec fn down_phase_rank(s: DownStateV) -> nat {
    match s.phase {
        DownPhaseV::Probing { .. } => 1,
        _ => 0,
    }
}

/// The targets not yet probed on the current stop.
spec fn down_tidx_slack(s: DownStateV) -> int {
    match s.phase {
        DownPhaseV::Probing { tidx, .. } => s.targets.len() - tidx,
        _ => 0,
    }
}

/// Moving to the next pending stop keeps the driver's law: the popped
/// stop becomes the probed directory, or the queue runs out and the
/// search correctly fails.
proof fn lemma_driver_dispatch(
    st: FsDir,
    dv: Seq<Seq<char>>,
    dn: nat,
    tsv: Seq<TargetView>,
    goal: Option<BfsEntry>,
    q: Seq<StopV>,
    s2: DownStateV,
    a2: DownActionV,
)
    requires
        tsv.len() > 0,
        down_queue_ok(st, dv, dn, q),
        bfs(stops_entries(st, dv, q), tsv) == goal,
        (s2, a2) == down_dispatch_spec(tsv, q),
        down_state_inv(s2),
    ensures
        down_driver_inv(st, dv, dn, tsv, goal, s2, a2),
        down_measure_w(st, dv, s2) == queue_weight(stops_entries(st, dv, q)),
{
    let entries = stops_entries(st, dv, q);
    if q.len() == 0 {
        assert(entries.len() == 0);
        assert(bfs(entries, tsv) is None);
        assert(queue_weight(entries) == 0);
    } else {
        let cur = stop_entry(st, dv, q[0]);
        assert(entries[0] == cur);
        assert(entry_inv(st, dn, entries[0]));
        assert(s2.phase == DownPhaseV::Probing { path: q[0].path, rem: q[0].rem, tidx: 0 });
        assert(stop_entry(st, dv, StopV { path: q[0].path, rem: q[0].rem }) == cur) by {
            assert(StopV { path: q[0].path, rem: q[0].rem } =~~= q[0]);
        }
        assert(seq![cur] + stops_entries(st, dv, q.drop_first()) =~~= entries) by {
            assert forall|j: int| 0 <= j < entries.len() implies (seq![cur] + stops_entries(
                st,
                dv,
                q.drop_first(),
            ))[j] == entries[j] by {
                if j > 0 {
                    assert(q.drop_first()[j - 1] == q[j]);
                }
            }
        }
        assert forall|j: int| 0 <= j < q.drop_first().len() implies dv.is_prefix_of(
            (#[trigger] q.drop_first()[j]).path,
        ) by {
            assert(q.drop_first()[j] == q[j + 1]);
        }
        assert forall|j: int| 0 <= j < stops_entries(st, dv, q.drop_first()).len() implies entry_inv(
            st,
            dn,
            #[trigger] stops_entries(st, dv, q.drop_first())[j],
        ) by {
            assert(q.drop_first()[j] == q[j + 1]);
            assert(stops_entries(st, dv, q.drop_first())[j] == stop_entry(st, dv, q[j + 1]));
            assert(entries[j + 1] == stop_entry(st, dv, q[j + 1]));
        }
        assert(entries.drop_first() =~~= stops_entries(st, dv, q.drop_first()));
        assert(queue_weight(entries) == subtree_count(cur.node) + queue_weight(
            stops_entries(st, dv, q.drop_first()),
        ));
    }
}

/// A probe answer moves the driver's law forward: the probed directory is
/// returned on a hit, the next target or the next stop comes up on a
/// miss.
proof fn lemma_driver_probed(
    st: FsDir,
    dv: Seq<Seq<char>>,
    dn: nat,
    tsv: Seq<TargetView>,
    goal: Option<BfsEntry>,
    s: DownStateV,
    a: DownActionV,
    b: bool,
    s2: DownStateV,
    a2: DownActionV,
)
    requires
        down_driver_inv(st, dv, dn, tsv, goal, s, a),
        a matches DownActionV::ProbeDir { .. } || a matches DownActionV::ProbeFile { .. },
        (s2, a2) == down_step_spec(s, DownEventV::Probed(b)),
        down_state_inv(s2),
        ({
            &&& s.phase matches DownPhaseV::Probing { path, rem, tidx } && b == target_matches(
                stop_entry(st, dv, StopV { path, rem }).node,
                tsv[tidx as int],
            )
        }),
    ensures
        down_driver_inv(st, dv, dn, tsv, goal, s2, a2),
        down_measure_w(st, dv, s2) < down_measure_w(st, dv, s) || (down_measure_w(st, dv, s2)
            == down_measure_w(st, dv, s) && (down_phase_rank(s2) < down_phase_rank(s) || (
        down_phase_rank(s2) == down_phase_rank(s) && 0 <= down_tidx_slack(s2) < down_tidx_slack(
            s,
        )))),
{
    let (path, rem, tidx) = match s.phase {
        DownPhaseV::Probing { path, rem, tidx } => (path, rem, tidx),
        _ => arbitrary(),
    };
    let cur = stop_entry(st, dv, StopV { path, rem });
    let rest = stops_entries(st, dv, s.queue);
    let full = seq![cur] + rest;
    assert(full[0] == cur);
    assert(full.drop_first() =~~= rest);
    lemma_subtree_count_pos(cur.node);
    if b {
        assert(target_matches(cur.node, tsv[tidx as int]));
        assert(any_target_matches(cur.node, tsv));
        assert(bfs(full, tsv) == Some(cur));
        assert(a2 == DownActionV::Found { path });
        assert(path =~= dv + cur.rel) by {
            assert(dv =~= path.take(dv.len() as int));
        }
    } else {
        assert(!target_matches(cur.node, tsv[tidx as int]));
        if tidx + 1 < s.targets.len() {
            assert forall|t: int|
                0 <= t < tidx + 1 implies !target_matches(cur.node, #[trigger] tsv[t]) by {}
        } else {
            assert(tidx + 1 == tsv.len());
            assert(!any_target_matches(cur.node, tsv)) by {
                if any_target_matches(cur.node, tsv) {
                    let t = choose|i: int|
                        0 <= i < tsv.len() && #[trigger] target_matches(cur.node, tsv[i]);
                    assert(!target_matches(cur.node, tsv[t]));
                }
            }
            if rem > 1 {
            } else {
                assert(bfs(full, tsv) == bfs(rest, tsv));
                lemma_driver_dispatch(st, dv, dn, tsv, goal, s.queue, s2, a2);
            }
        }
    }
}

/// A listing answer moves the driver's law forward: the children join the
/// queue exactly as the blocking search would enqueue them, or a failed
/// listing ends the branch.
proof fn lemma_driver_listed(
    st: FsDir,
    dv: Seq<Seq<char>>,
    dn: nat,
    tsv: Seq<TargetView>,
    goal: Option<BfsEntry>,
    s: DownStateV,
    a: DownActionV,
    ansv: Option<Seq<Seq<char>>>,
    s2: DownStateV,
    a2: DownActionV,
)
    requires
        down_driver_inv(st, dv, dn, tsv, goal, s, a),
        a matches DownActionV::List { .. },
        (s2, a2) == down_step_spec(s, DownEventV::Listed(ansv)),
        down_state_inv(s2),
        ({
            &&& s.phase matches DownPhaseV::Listing { path, rem } && (match ansv {
                Some(names) => stop_entry(st, dv, StopV { path, rem }).node.listable && names
                    == stop_entry(st, dv, StopV { path, rem }).node.dirs@.map_values(
                    |d: FsDir| d.name@,
                ),
                None => !stop_entry(st, dv, StopV { path, rem }).node.listable,
            })
        }),
    ensures
        down_driver_inv(st, dv, dn, tsv, goal, s2, a2),
        down_measure_w(st, dv, s2) < down_measure_w(st, dv, s),
{
    let (path, rem) = match s.phase {
        DownPhaseV::Listing { path, rem } => (path, rem),
        _ => arbitrary(),
    };
    let cur = stop_entry(st, dv, StopV { path, rem });
    let rest = stops_entries(st, dv, s.queue);
    let full = seq![cur] + rest;
    assert(full[0] == cur);
    assert(full.drop_first() =~~= rest);
    lemma_subtree_count_pos(cur.node);
    match ansv {
        None => {
            assert(bfs(full, tsv) == bfs(rest, tsv));
            assert(s.queue + Seq::<StopV>::empty() =~~= s.queue);
            assert((s2, a2) == down_dispatch_spec(tsv, s.queue)) by {
                assert(down_step_spec(s, DownEventV::Listed(ansv)) == down_dispatch_spec(
                    tsv,
                    s.queue + Seq::<StopV>::empty(),
                ));
            }
            lemma_driver_dispatch(st, dv, dn, tsv, goal, s.queue, s2, a2);
        },
        Some(names) => {
            assert(cur.node.listable && rem >= 2);
            assert(bfs(full, tsv) == bfs(full.drop_first() + child_entries(cur), tsv));
            assert(bfs(full.drop_first() + child_entries(cur), tsv) == bfs(
                rest + child_entries(cur),
                tsv,
            )) by {
                assert(full.drop_first() + child_entries(cur) =~~= rest + child_entries(cur));
            }
            let q2 = s.queue + listed_children(path, rem, names);
            assert forall|j: int| 0 <= j < q2.len() implies dv.is_prefix_of(
                (#[trigger] q2[j]).path,
            ) by {
                if j < s.queue.len() {
                    assert(q2[j] == s.queue[j]);
                } else {
                    let i = j - s.queue.len();
                    assert(q2[j] == listed_children(path, rem, names)[i]);
                    assert(q2[j].path == path.push(names[i]));
                    assert(dv =~= path.take(dv.len() as int));
                    assert(dv =~= path.push(names[i]).take(dv.len() as int));
                }
            }
            lemma_child_entries_inv(st, dn, cur);
            assert(stops_entries(st, dv, q2) =~~= rest + child_entries(cur)) by {
                assert forall|j: int| 0 <= j < q2.len() implies stops_entries(st, dv, q2)[j] == (
                rest + child_entries(cur))[j] by {
                    if j < s.queue.len() {
                        assert(q2[j] == s.queue[j]);
                        assert(stops_entries(st, dv, q2)[j] == stop_entry(st, dv, s.queue[j]));
                    } else {
                        let i = j - s.queue.len();
                        assert(q2[j] == listed_children(path, rem, names)[i]);
                        let nm = names[i];
                        assert(nm == cur.node.dirs@[i].name@);
                        let stop = StopV { path: path.push(nm), rem: (rem - 1) as nat };
                        assert(q2[j] == stop);
                        assert(stop.path.skip(dv.len() as int) =~= cur.rel.push(nm)) by {
                            assert(cur.rel == path.skip(dv.len() as int));
                        }
                        assert(has_child_dir(cur.node, nm));
                        assert(child_dir(cur.node, nm) == cur.node.dirs@[i]) by {
                            let k = choose|x: int|
                                0 <= x < cur.node.dirs@.len() && #[trigger] cur.node.dirs@[x].name@
                                    == nm;
                            assert(distinct_dir_names(cur.node.dirs@));
                            assert(0 <= k < cur.node.dirs@.len() && cur.node.dirs@[k].name@ == nm);
                            assert(k == i);
                        }
                        lemma_node_at_extend(st, cur.rel, nm);
                        assert(node_at(st, stop.path.skip(dv.len() as int)) == Some(
                            cur.node.dirs@[i],
                        ));
                        assert((rest + child_entries(cur))[j] == child_entries(cur)[i]);
                        assert(child_entries(cur)[i].node == cur.node.dirs@[i]);
                        assert(child_entries(cur)[i].rel == cur.rel.push(cur.node.dirs@[i].name@));
                        assert(stop_entry(st, dv, stop) =~~= child_entries(cur)[i]);
                    }
                }
            }
            assert forall|j: int| 0 <= j < stops_entries(st, dv, q2).len() implies entry_inv(
                st,
                dn,
                #[trigger] stops_entries(st, dv, q2)[j],
            ) by {
                assert(stops_entries(st, dv, q2)[j] == (rest + child_entries(cur))[j]);
                if j < rest.len() {
                    assert((rest + child_entries(cur))[j] == rest[j]);
                } else {
                    assert((rest + child_entries(cur))[j] == child_entries(cur)[j - rest.len()]);
                }
            }
            assert(bfs(stops_entries(st, dv, q2), tsv) == goal);
            lemma_driver_dispatch(st, dv, dn, tsv, goal, q2, s2, a2);
            lemma_queue_weight_add(rest, child_entries(cur));
            lemma_entries_from_weight(cur.node.dirs@, cur.rel, (cur.rem - 1) as nat);
            assert(queue_weight(stops_entries(st, dv, q2)) == queue_weight(rest) + dirs_count(
                cur.node.dirs@,
            ));
            assert(subtree_count(cur.node) == 1 + dirs_count(cur.node.dirs@));
        },
    }
}

/// What holds of the ancestor machine and its pending action at every
/// hand-over of the verified driver: the walk so far found nothing, and
/// the machine stands at the right level of the chain.
spec fn up_driver_inv(
    m: FsDir,
    dv: Seq<Seq<char>>,
    dn: nat,
    tsv: Seq<TargetView>,
    s: UpStateV,
    a: UpActionV,
) -> bool {
    &&& s.targets == tsv
    &&& tsv.len() > 0
    &&& up_state_inv(s)
    &&& match a {
        UpActionV::ProbeDir { .. } | UpActionV::ProbeFile { .. } => {
            let k = (dv.len() - s.cur.len()) as nat;
            &&& s.active
            &&& a == up_probe_action_spec(s.cur, tsv[s.tidx as int])
            &&& s.cur.len() <= dv.len()
            &&& s.cur == dv.take(s.cur.len() as int)
            &&& s.remaining + k == dn
            &&& forall|t: int|
                0 <= t < s.tidx ==> !(node_at(m, s.cur) matches Some(n) && target_matches(
                    n,
                    #[trigger] tsv[t],
                ))
            &&& up_search(m, dv, 0, dn, tsv) == up_search(m, dv, k, s.remaining, tsv)
        },
        UpActionV::Found { path } => up_search(m, dv, 0, dn, tsv) == Some(path),
        UpActionV::NotFound => up_search(m, dv, 0, dn, tsv) is None,
    }
}

/// A probe answer moves the ancestor driver's law forward: the current
/// ancestor is returned on a hit; the next target, the next ancestor, or
/// the failed outcome comes up on a miss.
proof fn lemma_up_driver_probed(
    m: FsDir,
    dv: Seq<Seq<char>>,
    dn: nat,
    tsv: Seq<TargetView>,
    s: UpStateV,
    a: UpActionV,
    b: bool,
    s2: UpStateV,
    a2: UpActionV,
)
    requires
        up_driver_inv(m, dv, dn, tsv, s, a),
        a matches UpActionV::ProbeDir { .. } || a matches UpActionV::ProbeFile { .. },
        (s2, a2) == up_step_spec(s, b),
        up_state_inv(s2),
        b == (node_at(m, s.cur) matches Some(n) && target_matches(n, tsv[s.tidx as int])),
    ensures
        up_driver_inv(m, dv, dn, tsv, s2, a2),
{
    let k = (dv.len() - s.cur.len()) as nat;
    assert(dv.take(dv.len() - k) =~= s.cur);
    if b {
        assert(node_at(m, s.cur) matches Some(n) && any_target_matches(n, tsv));
        assert(ancestor_matches(m, dv, tsv, k));
        assert(up_search(m, dv, k, s.remaining, tsv) == Some(dv.take(dv.len() - k)));
        assert(a2 == UpActionV::Found { path: s.cur });
    } else {
        if s.tidx + 1 < s.targets.len() {
            assert forall|t: int|
                0 <= t < s.tidx + 1 implies !(node_at(m, s2.cur) matches Some(n) && target_matches(
                n,
                #[trigger] tsv[t],
            )) by {}
        } else {
            assert(s.tidx + 1 == tsv.len());
            assert(!ancestor_matches(m, dv, tsv, k)) by {
                if ancestor_matches(m, dv, tsv, k) {
                    let n = node_at(m, s.cur)->Some_0;
                    assert(any_target_matches(n, tsv));
                    let t = choose|i: int|
                        0 <= i < tsv.len() && #[trigger] target_matches(n, tsv[i]);
                    assert(!(node_at(m, s.cur) matches Some(nn) && target_matches(nn, tsv[t])));
                }
            }
            assert(up_search(m, dv, k, s.remaining, tsv) == up_search(
                m,
                dv,
                (k + 1) as nat,
                (s.remaining - 1) as nat,
                tsv,
            ));
            if s.remaining > 1 && s.cur.len() > 0 {
                assert(s2.cur =~= dv.take(s2.cur.len() as int)) by {
                    assert(s2.cur == s.cur.drop_last());
                }
            } else if s.remaining <= 1 {
                assert(up_search(m, dv, (k + 1) as nat, 0, tsv) is None);
            } else {
                assert(s.cur.len() == 0);
                assert(k == dv.len());
                assert(up_search(m, dv, (k + 1) as nat, (s.remaining - 1) as nat, tsv) is None);
            }
        }
    }
}

/// The levels the ancestor walk may still visit; at every hand-over it
/// shrinks, or the probed target index grows, which bounds the number of
/// steps a drive can take.
spec fn up_measure_rem(s: UpStateV) -> nat {
    if s.active {
        s.remaining + 1
    } else {
        0
    }
}

/// The targets not yet probed on the current ancestor.
spec fn up_tidx_slack(s: UpStateV) -> int {
    if s.active {
        s.targets.len() - s.tidx
    } else {
        0
    }
}

/// The suspension-based execution contract of a search configuration:
/// run the search by resumable steps, yielding at every probe and every
/// directory listing, with the same outcome as the blocking form.
pub trait GetDirAsyncExt: Sized {
    /// The starting path this configuration holds.
    spec fn cfg_dir(&self) -> Seq<Seq<char>>;

    /// The depth bound this configuration holds.
    spec fn cfg_depth(&self) -> nat;

    /// The target views this configuration holds, in match order.
    spec fn cfg_targets(&self) -> Seq<TargetView>;

    /// Get directory asynchronously: the descendant search, driven one
    /// request at a time against the tree snapshot. Returns exactly what
    /// the blocking `run` returns for the same configuration and tree.
    fn run_async(self, tree: &FsDir) -> (r: Result<Vec<String>, SearchError>)
        requires
            tree.wf(),
        ensures
            ({
                let expected = search_down_spec(
                    *tree,
                    self.cfg_dir(),
                    self.cfg_depth(),
                    self.cfg_targets(),
                );
                match r {
                    Ok(p) => expected == Some(path_view(p@)),
                    Err(e) => expected is None && e == SearchError::NotFound,
                }
            }),
    ;

    /// Get directory in reverse asynchronously: the ancestor search,
    /// driven one probe at a time against the tree snapshot. Returns
    /// exactly what the blocking `run_reverse` returns for the same
    /// configuration and tree.
    fn run_reverse_async(self, tree: &FsDir) -> (r: Result<Vec<String>, SearchError>)
        requires
            tree.wf(),
        ensures
            ({
                let expected = search_up_spec(
                    *tree,
                    self.cfg_dir(),
                    self.cfg_depth(),
                    self.cfg_targets(),
                );
                match r {
                    Ok(p) => expected == Some(path_view(p@)),
                    Err(e) => expected is None && e == SearchError::NotFound,
                }
            }),
    ;
}

impl GetDirAsyncExt for GetDir {
    open spec fn cfg_dir(&self) -> Seq<Seq<char>> {
        path_view(self.dir@)
    }

    open spec fn cfg_depth(&self) -> nat {
        self.depth as nat
    }

    open spec fn cfg_targets(&self) -> Seq<TargetView> {
        seq_targets_view(self.targets@)
    }

    #[verifier::loop_isolation(false)]
    fn run_async(self, tree: &FsDir) -> (r: Result<Vec<String>, SearchError>) {
        let ghost m = *tree;
        let ghost dv = path_view(self.dir@);
        let ghost dn = self.depth as nat;
        let ghost tsv = seq_targets_view(self.targets@);
        if self.depth == 0 {
            return Err(SearchError::NotFound);
        }
        if self.targets.len() == 0 {
            proof {
                assert(tsv =~= Seq::<TargetView>::empty());
                crate::laws::lemma_down_empty_targets(m, dv, dn);
            }
            return Err(SearchError::NotFound);
        }
        let start = match node_at_exec(tree, &self.dir) {
            Some(s) => s,
            None => {
                return Err(SearchError::NotFound);
            },
        };
        let ghost st = *start;
        let ghost seed = seq![BfsEntry { node: st, rel: Seq::<Seq<char>>::empty(), rem: dn }];
        let ghost goal = bfs(seed, tsv);
        let (ms0, act0) = DownSearch::begin(self);
        let mut ms = ms0;
        let mut act = act0;
        proof {
            let q = seq![StopV { path: dv, rem: dn }];
            assert(dv.skip(dv.len() as int) =~= Seq::<Seq<char>>::empty());
            let e0 = stop_entry(st, dv, q[0]);
            assert(e0.rel =~= Seq::<Seq<char>>::empty());
            assert(node_at(st, e0.rel) == Some(st));
            assert(e0.node == st);
            assert(reachable(st, e0.rel));
            assert(entry_inv(st, dn, e0));
            assert(dv.is_prefix_of(dv)) by {
                assert(dv =~= dv.take(dv.len() as int));
            }
            assert forall|j: int| 0 <= j < stops_entries(st, dv, q).len() implies entry_inv(
                st,
                dn,
                #[trigger] stops_entries(st, dv, q)[j],
            ) by {
                assert(stops_entries(st, dv, q)[j] == e0);
            }
            assert(stops_entries(st, dv, q) =~~= seed);
            lemma_driver_dispatch(st, dv, dn, tsv, goal, q, ms@, act@);
        }
        loop
            invariant
                down_driver_inv(st, dv, dn, tsv, goal, ms@, act@),
            decreases down_measure_w(st, dv, ms@), down_phase_rank(ms@), down_tidx_slack(ms@),
        {
            match act {
                DownAction::ProbeDir { path, name } => {
                    let b = probe_dir_at(tree, &path, &name);
                    let ghost s_old = ms@;
                    proof {
                        let (pp, rem, tidx) = match s_old.phase {
                            DownPhaseV::Probing { path, rem, tidx } => (path, rem, tidx),
                            _ => arbitrary(),
                        };
                        let cur = stop_entry(st, dv, StopV { path: pp, rem });
                        assert(pp == path_view(path@) && tsv[tidx as int] == TargetView::Dir(
                            name@,
                        ));
                        assert(pp =~= dv + cur.rel) by {
                            assert(dv =~= pp.take(dv.len() as int));
                        }
                        lemma_node_at_split(m, dv, cur.rel);
                        assert(node_at(m, pp) == Some(cur.node));
                        assert(b == target_matches(cur.node, tsv[tidx as int]));
                    }
                    act = ms.step(DownEvent::Probed(b));
                    proof {
                        let a_old = DownActionV::ProbeDir { path: path_view(path@), name: name@ };
                        lemma_driver_probed(st, dv, dn, tsv, goal, s_old, a_old, b, ms@, act@);
                    }
                },
                DownAction::ProbeFile { path, name } => {
                    let b = probe_file_at(tree, &path, &name);
                    let ghost s_old = ms@;
                    proof {
                        let (pp, rem, tidx) = match s_old.phase {
                            DownPhaseV::Probing { path, rem, tidx } => (path, rem, tidx),
                            _ => arbitrary(),
                        };
                        let cur = stop_entry(st, dv, StopV { path: pp, rem });
                        assert(pp == path_view(path@) && tsv[tidx as int] == TargetView::File(
                            name@,
                        ));
                        assert(pp =~= dv + cur.rel) by {
                            assert(dv =~= pp.take(dv.len() as int));
                        }
                        lemma_node_at_split(m, dv, cur.rel);
                        assert(node_at(m, pp) == Some(cur.node));
                        assert(b == target_matches(cur.node, tsv[tidx as int]));
                    }
                    act = ms.step(DownEvent::Probed(b));
                    proof {
                        let a_old = DownActionV::ProbeFile { path: path_view(path@), name: name@ };
                        lemma_driver_probed(st, dv, dn, tsv, goal, s_old, a_old, b, ms@, act@);
                    }
                },
                DownAction::List { path } => {
                    let ans = list_at(tree, &path);
                    let ghost s_old = ms@;
                    let ghost ansv = match ans {
                        Some(ref names) => Some(path_view(names@)),
                        None => None,
                    };
                    proof {
                        let (pp, rem) = match s_old.phase {
                            DownPhaseV::Listing { path, rem } => (path, rem),
                            _ => arbitrary(),
                        };
                        let cur = stop_entry(st, dv, StopV { path: pp, rem });
                        assert(pp == path_view(path@));
                        assert(pp =~= dv + cur.rel) by {
                            assert(dv =~= pp.take(dv.len() as int));
                        }
                        lemma_node_at_split(m, dv, cur.rel);
                        assert(node_at(m, pp) == Some(cur.node));
                    }
                    act = ms.step(DownEvent::Listed(ans));
                    proof {
                        let a_old = DownActionV::List { path: path_view(path@) };
                        lemma_driver_listed(st, dv, dn, tsv, goal, s_old, a_old, ansv, ms@, act@);
                    }
                },
                DownAction::Found { path } => {
                    return Ok(path);
                },
                DownAction::NotFound => {
                    return Err(SearchError::NotFound);
                },
            }
        }
    }

    #[verifier::loop_isolation(false)]
    fn run_reverse_async(self, tree: &FsDir) -> (r: Result<Vec<String>, SearchError>) {
        let ghost m = *tree;
        let ghost dv = path_view(self.dir@);
        let ghost dn = self.depth as nat;
        let ghost tsv = seq_targets_view(self.targets@);
        if self.depth == 0 {
            return Err(SearchError::NotFound);
        }
        if self.targets.len() == 0 {
            proof {
                assert(tsv =~= Seq::<TargetView>::empty());
                crate::laws::lemma_up_empty_targets(m, dv, dn);
            }
            return Err(SearchError::NotFound);
        }
        let (ms0, act0) = UpSearch::begin(self);
        let mut ms = ms0;
        let mut act = act0;
        proof {
            assert(dv =~= dv.take(dv.len() as int));
        }
        loop
            invariant
                up_driver_inv(m, dv, dn, tsv, ms@, act@),
            decreases up_measure_rem(ms@), up_tidx_slack(ms@),
        {
            match act {
                UpAction::ProbeDir { path, name } => {
                    let b = probe_dir_at(tree, &path, &name);
                    let ghost s_old = ms@;
                    proof {
                        assert(s_old.cur == path_view(path@) && tsv[s_old.tidx as int]
                            == TargetView::Dir(name@));
                        assert(b == (node_at(m, s_old.cur) matches Some(n) && target_matches(
                            n,
                            tsv[s_old.tidx as int],
                        )));
                    }
                    act = ms.step(b);
                    proof {
                        let a_old = UpActionV::ProbeDir { path: path_view(path@), name: name@ };
                        lemma_up_driver_probed(m, dv, dn, tsv, s_old, a_old, b, ms@, act@);
                    }
                },
                UpAction::ProbeFile { path, name } => {
                    let b = probe_file_at(tree, &path, &name);
                    let ghost s_old = ms@;
                    proof {
                        assert(s_old.cur == path_view(path@) && tsv[s_old.tidx as int]
                            == TargetView::File(name@));
                        assert(b == (node_at(m, s_old.cur) matches Some(n) && target_matches(
                            n,
                            tsv[s_old.tidx as int],
                        )));
                    }
                    act = ms.step(b);
                    proof {
                        let a_old = UpActionV::ProbeFile { path: path_view(path@), name: name@ };
                        lemma_up_driver_probed(m, dv, dn, tsv, s_old, a_old, b, ms@, act@);
                    }
                },
                UpAction::Found { path } => {
                    return Ok(path);
                },
                UpAction::NotFound => {
                    return Err(SearchError::NotFound);
                },
            }
        }
    }
}

} // verus!
