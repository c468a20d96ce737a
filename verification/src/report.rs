//! Failures of single filesystem operations, as they are collected over a
//! run and handed to the caller at its end.

use vstd::prelude::*;

verus! {

/// The filesystem operation that failed.
#[derive(Clone, Copy, Debug, PartialEq, Eq, Structural)]
pub enum Operation {
    /// Listing a directory, or reading one of its children.
    Scan,
    /// Deleting a file, or a directory with all it holds.
    Delete,
    /// Copying a file.
    Copy,
    /// Creating a directory.
    Create,
}

/// One failed operation: where, what, and what the system said.
#[derive(Clone, Debug, PartialEq, Eq)]
pub struct Failure {
    pub path: String,
    pub operation: Operation,
    pub error: String,
}

/// The mathematical value of a [`Failure`].
pub ghost struct FailureView {
    pub path: Seq<char>,
    pub operation: Operation,
    pub error: Seq<char>,
}

impl View for Failure {
    type V = FailureView;

    open spec fn view(&self) -> FailureView {
        FailureView { path: self.path@, operation: self.operation, error: self.error@ }
    }
}

impl Failure {
    /// An independent copy of the failure.
    pub fn duplicate(&self) -> (copy: Failure)
        ensures
            copy@ == self@,
    {
        Failure { path: self.path.clone(), operation: self.operation, error: self.error.clone() }
    }
}

/// The failures of a list, each taken by its view.
pub open spec fn failures(list: Seq<Failure>) -> Seq<FailureView> {
    list.map_values(|f: Failure| f@)
}

} // verus!
