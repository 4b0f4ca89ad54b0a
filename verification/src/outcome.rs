//! Outcomes reported by the list operations. Every operation reports
//! what it did or why it refused; refusals never mutate the store.

use vstd::prelude::*;

verus! {

/// Outcome of creating a list.
#[derive(Clone, Copy, PartialEq, Eq, Structural, Debug)]
pub enum CreateOutcome {
    /// The list now exists, freshly created (or overwritten under force).
    Created,
    /// The list already exists and force was not given; nothing changed.
    AlreadyExists,
    /// A path component was unusable as a list name; nothing changed.
    InvalidName,
}

/// Outcome of deleting a list.
#[derive(Clone, Copy, PartialEq, Eq, Structural, Debug)]
pub enum DeleteOutcome {
    /// The list and its sublists were removed.
    Deleted,
    /// The list still holds crates or a description; nothing changed.
    NotEmpty,
    /// No list exists at the path; nothing changed.
    NotFound,
}

/// Outcome of adding a crate to a list.
#[derive(Clone, Copy, PartialEq, Eq, Structural, Debug)]
pub enum AddOutcome {
    /// The crate was appended to the list.
    Added,
    /// The crate was already in the list; nothing changed.
    AlreadyPresent,
    /// No list exists at the path; nothing changed.
    NoSuchList,
}

/// Outcome of removing a crate from a list.
#[derive(Clone, Copy, PartialEq, Eq, Structural, Debug)]
pub enum RemoveOutcome {
    /// The crate was removed from the list.
    Removed,
    /// The crate was not in the list; nothing changed.
    NotPresent,
    /// No list exists at the path; nothing changed.
    NoSuchList,
}

/// Outcome of setting or clearing a list's description.
#[derive(Clone, Copy, PartialEq, Eq, Structural, Debug)]
pub enum DescribeOutcome {
    /// The description was replaced (or cleared by empty text).
    Described,
    /// No list exists at the path; nothing changed.
    NoSuchList,
}

} // verus!
