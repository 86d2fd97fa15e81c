//! Why a rename is refused before anything is touched.

use vstd::prelude::*;

verus! {

/// One target that several paths were edited to, with every path that claims it.
#[derive(Clone, Debug, PartialEq, Eq)]
pub struct DuplicateTarget {
    /// The edited value that occurs more than once.
    pub target: String,
    /// The original paths edited to `target`, in ascending order.
    pub sources: Vec<String>,
}

/// A directory renamed in passing: an entry whose parent was edited, while the
/// directory itself has no entry of its own.
#[derive(Clone, Debug, PartialEq, Eq)]
pub struct AncestorConflict {
    /// The parent of the original path.
    pub before: String,
    /// The parent of the edited path.
    pub after: String,
}

/// Every conflict found in one edited listing.
#[derive(Clone, Debug, PartialEq, Eq)]
pub struct ConflictReport {
    /// The targets claimed more than once, in ascending order of target.
    pub duplicates: Vec<DuplicateTarget>,
    /// The distinct renamed parents, in ascending order.
    pub ancestors: Vec<AncestorConflict>,
}

/// The ways in which a rename fails before the first path is renamed.
#[derive(Clone, Debug, PartialEq, Eq)]
pub enum RenameError {
    /// No path was given.
    EmptyInput,
    /// The edited listing holds another number of entries than the original.
    CountMismatch { before: usize, after: usize },
    /// The edited listing is ambiguous or unsafe.
    Conflicts(ConflictReport),
}

} // verus!
