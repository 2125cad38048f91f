//! Marker targets: what a searched directory must directly contain.

use vstd::prelude::*;

verus! {

/// Directory target: matches a directory that directly contains a child
/// directory with this name.
#[derive(Debug)]
pub struct DirTarget {
    /// The name of the directory target.
    pub name: String,
}

/// File target: matches a directory that directly contains a regular file
/// with this name.
#[derive(Debug)]
pub struct FileTarget {
    /// The name of the file target.
    pub name: String,
}

/// A marker to search for: a child directory name or a child file name.
#[derive(Debug)]
pub enum Target {
    /// The target is a directory.
    Dir(DirTarget),
    /// The target is a file.
    File(FileTarget),
}

/// The mathematical value of a [`Target`]: its kind and its name as a
/// sequence of characters.
pub enum TargetView {
    /// A directory target's name.
    Dir(Seq<char>),
    /// A file target's name.
    File(Seq<char>),
}

impl View for Target {
    type V = TargetView;

    open spec fn view(&self) -> TargetView {
        match self {
            Target::Dir(t) => TargetView::Dir(t.name@),
            Target::File(t) => TargetView::File(t.name@),
        }
    }
}

/// The views of a list of targets, in list order.
pub open spec fn targets_view(ts: Seq<Target>) -> Seq<TargetView> {
    ts.map_values(|t: Target| t@)
}

impl DirTarget {
    /// Create a new directory target.
    pub fn new(name: &str) -> (r: Self)
        ensures
            r.name@ == name@,
    {
        Self { name: name.to_owned() }
    }
}

impl FileTarget {
    /// Create a new file target.
    pub fn new(name: &str) -> (r: Self)
        ensures
            r.name@ == name@,
    {
        Self { name: name.to_owned() }
    }
}

impl Default for DirTarget {
    /// The default directory target carries an empty name.
    fn default() -> (r: Self)
        ensures
            r.name@ =~= Seq::<char>::empty(),
    {
        proof {
            reveal_strlit("");
        }
        Self::new("")
    }
}

impl Default for FileTarget {
    /// The default file target carries an empty name.
    fn default() -> (r: Self)
        ensures
            r.name@ =~= Seq::<char>::empty(),
    {
        proof {
            reveal_strlit("");
        }
        Self::new("")
    }
}

impl Clone for DirTarget {
    /// Equality of targets is by name, so a clone is equal to the original.
    fn clone(&self) -> (r: Self)
        ensures
            r == *self,
    {
        Self { name: self.name.clone() }
    }
}

impl Clone for FileTarget {
    fn clone(&self) -> (r: Self)
        ensures
            r == *self,
    {
        Self { name: self.name.clone() }
    }
}

impl Clone for Target {
    fn clone(&self) -> (r: Self)
        ensures
            r == *self,
    {
        match self {
            Target::Dir(t) => Target::Dir(t.clone()),
            Target::File(t) => Target::File(t.clone()),
        }
    }
}

impl PartialEq for DirTarget {
    fn eq(&self, other: &Self) -> (r: bool) {
        self.name == other.name
    }
}

impl vstd::std_specs::cmp::PartialEqSpecImpl for DirTarget {
    open spec fn obeys_eq_spec() -> bool {
        true
    }

    open spec fn eq_spec(&self, other: &Self) -> bool {
        self.name@ == other.name@
    }
}

impl Eq for DirTarget {}

impl PartialEq for FileTarget {
    fn eq(&self, other: &Self) -> (r: bool) {
        self.name == other.name
    }
}

impl vstd::std_specs::cmp::PartialEqSpecImpl for FileTarget {
    open spec fn obeys_eq_spec() -> bool {
        true
    }

    open spec fn eq_spec(&self, other: &Self) -> bool {
        self.name@ == other.name@
    }
}

impl Eq for FileTarget {}

impl PartialEq for Target {
    /// Equality is by kind and name.
    fn eq(&self, other: &Self) -> (r: bool) {
        match (self, other) {
            (Target::Dir(a), Target::Dir(b)) => a.name == b.name,
            (Target::File(a), Target::File(b)) => a.name == b.name,
            _ => false,
        }
    }
}

impl vstd::std_specs::cmp::PartialEqSpecImpl for Target {
    open spec fn obeys_eq_spec() -> bool {
        true
    }

    open spec fn eq_spec(&self, other: &Self) -> bool {
        self@ == other@
    }
}

impl Eq for Target {}

} // verus!
