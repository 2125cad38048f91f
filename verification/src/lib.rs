//! Locate a directory by searching for named marker entries.
//!
//! A search looks for a directory that directly contains one of a list of
//! *targets* (a child directory or a child file with a given name), either
//! downward through the descendants of a starting directory (breadth-first,
//! depth-bounded) or upward through its chain of ancestors (closest first,
//! level-bounded).
//!
//! The searches run over an explicit snapshot of the directory tree, the
//! [`fs_model::FsDir`] value, so that every step of the traversal is plain
//! data flow: callers that work against a live filesystem list directories
//! themselves and drive the resumable searches in [`suspend`], which yield
//! at every directory-listing and entry probe.

pub mod target;

pub mod errors;

pub mod fs_model;

pub mod down;

pub mod up;

pub mod config;

pub mod laws;

pub mod suspend;

pub use crate::target::DirTarget;
pub use crate::target::FileTarget;
pub use crate::target::Target;
pub use crate::target::TargetView;
pub use crate::errors::SearchError;
pub use crate::fs_model::FsDir;
pub use crate::config::GetDir;
pub use crate::suspend::GetDirAsyncExt;
