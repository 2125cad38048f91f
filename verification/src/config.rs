//! The search configuration and its fluent builder.
//!
//! A [`GetDir`] value holds everything one search needs: the starting
//! directory as a path of child-directory names from the root of the tree
//! snapshot, the depth bound, and the ordered target list. It is built
//! incrementally, read-only once a search consumes it, and discarded
//! afterwards. Construction never fails; only running a search can.

use vstd::prelude::*;

use crate::down::{get_dir, search_down_spec};
use crate::errors::SearchError;
use crate::fs_model::{FsDir, path_view, seq_targets_view};
use crate::target::{DirTarget, FileTarget, Target, TargetView};
use crate::up::{get_dir_reverse, search_up_spec};

verus! {

/// Utility to get a directory: the configuration of one search.
#[derive(Debug)]
pub struct GetDir {
    /// The directory the search starts from, as a path of child-directory
    /// names from the root of the tree snapshot. By default the root
    /// itself: the place the snapshot was taken from.
    pub dir: Vec<String>,
    /// The depth of the search: how many levels may be inspected, the
    /// starting directory counting as the first. By default `usize::MAX`,
    /// which leaves the search bounded by the tree alone.
    pub depth: usize,
    /// The targets to search for. By default empty, and an empty list
    /// never matches.
    pub targets: Vec<Target>,
}

impl GetDir {
    /// Create a new GetDir instance with the default configuration.
    pub fn new() -> (r: Self)
        ensures
            r.dir@ =~= Seq::<String>::empty(),
            r.depth == usize::MAX,
            r.targets@ =~= Seq::<Target>::empty(),
    {
        GetDir { dir: Vec::new(), depth: usize::MAX, targets: Vec::new() }
    }

    /// Specify the directory the search starts from.
    pub fn directory(self, dir: Vec<String>) -> (r: Self)
        ensures
            r.dir == dir,
            r.depth == self.depth,
            r.targets == self.targets,
    {
        GetDir { dir, ..self }
    }

    /// Alias for [`GetDir::directory`].
    pub fn dir(self, dir: Vec<String>) -> (r: Self)
        ensures
            r.dir == dir,
            r.depth == self.depth,
            r.targets == self.targets,
    {
        GetDir { dir, ..self }
    }

    /// Set the depth of the search.
    pub fn depth(self, depth: usize) -> (r: Self)
        ensures
            r.dir == self.dir,
            r.depth == depth,
            r.targets == self.targets,
    {
        GetDir { depth, ..self }
    }

    /// Add targets to the GetDir instance, after those already present.
    pub fn targets(self, targets: Vec<Target>) -> (r: Self)
        ensures
            r.dir == self.dir,
            r.depth == self.depth,
            r.targets@ == self.targets@ + targets@,
    {
        let GetDir { dir, depth, targets: mut held } = self;
        let mut incoming = targets;
        held.append(&mut incoming);
        GetDir { dir, depth, targets: held }
    }

    /// Add a target to the GetDir instance, after those already present.
    pub fn target(self, target: Target) -> (r: Self)
        ensures
            r.dir == self.dir,
            r.depth == self.depth,
            r.targets@ == self.targets@.push(target),
    {
        let GetDir { dir, depth, targets: mut held } = self;
        held.push(target);
        GetDir { dir, depth, targets: held }
    }

    /// Get the first directory containing any of the specified targets:
    /// the shallowest one, breadth-first, at most `depth` levels at or
    /// below the starting directory.
    pub fn run(self, tree: &FsDir) -> (r: Result<Vec<String>, SearchError>)
        requires
            tree.wf(),
        ensures
            ({
                let expected = search_down_spec(
                    *tree,
                    path_view(self.dir@),
                    self.depth as nat,
                    seq_targets_view(self.targets@),
                );
                match r {
                    Ok(p) => expected == Some(path_view(p@)),
                    Err(e) => expected is None && e == SearchError::NotFound,
                }
            }),
    {
        get_dir(tree, self)
    }

    /// Get the first directory containing any of the specified targets in
    /// reverse: the closest of at most `depth` ancestors, the starting
    /// directory counting as the first.
    pub fn run_reverse(self, tree: &FsDir) -> (r: Result<Vec<String>, SearchError>)
        requires
            tree.wf(),
        ensures
            ({
                let expected = search_up_spec(
                    *tree,
                    path_view(self.dir@),
                    self.depth as nat,
                    seq_targets_view(self.targets@),
                );
                match r {
                    Ok(p) => expected == Some(path_view(p@)),
                    Err(e) => expected is None && e == SearchError::NotFound,
                }
            }),
    {
        get_dir_reverse(tree, self)
    }
}

/// The marker pair that identifies a project root: a directory named
/// `target` or a file named `Cargo.lock`, in that order.
pub open spec fn project_root_targets() -> Seq<TargetView> {
    seq![TargetView::Dir("target"@), TargetView::File("Cargo.lock"@)]
}

/// Get the project root directory by searching upward from `dir` for the
/// `target` folder and the `Cargo.lock` file. Use [`get_project_root`] to
/// handle the error automatically.
pub fn get_project_root_directory(tree: &FsDir, dir: Vec<String>) -> (r: Result<
    Vec<String>,
    SearchError,
>)
    requires
        tree.wf(),
    ensures
        ({
            let expected = search_up_spec(
                *tree,
                path_view(dir@),
                usize::MAX as nat,
                project_root_targets(),
            );
            match r {
                Ok(p) => expected == Some(path_view(p@)),
                Err(e) => expected is None && e == SearchError::NotFound,
            }
        }),
{
    let config = GetDir::new().directory(dir).target(Target::Dir(DirTarget::new("target"))).target(
        Target::File(FileTarget::new("Cargo.lock")),
    );
    proof {
        assert(seq_targets_view(config.targets@) =~= project_root_targets());
    }
    config.run_reverse(tree)
}

/// Get the project root directory by searching upward from `dir` for the
/// `target` folder and the `Cargo.lock` file. The caller owes a tree in
/// which the root exists; use [`get_project_root_directory`] to handle
/// the failure as a value instead.
pub fn get_project_root(tree: &FsDir, dir: Vec<String>) -> (r: Vec<String>)
    requires
        tree.wf(),
        search_up_spec(*tree, path_view(dir@), usize::MAX as nat, project_root_targets()) is Some,
    ensures
        search_up_spec(*tree, path_view(dir@), usize::MAX as nat, project_root_targets()) == Some(
            path_view(r@),
        ),
{
    match get_project_root_directory(tree, dir) {
        Ok(p) => p,
        Err(_) => {
            proof {
                assert(false);
            }
            Vec::new()
        },
    }
}

impl Default for GetDir {
    /// The default configuration: root start, unbounded depth, no targets.
    fn default() -> (r: Self)
        ensures
            r.dir@ =~= Seq::<String>::empty(),
            r.depth == usize::MAX,
            r.targets@ =~= Seq::<Target>::empty(),
    {
        GetDir::new()
    }
}

} // verus!
