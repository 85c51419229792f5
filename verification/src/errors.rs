//! The error taxonomy of the library. Every failure is returned as a typed
//! result; the library never aborts or prints.

use vstd::prelude::*;

verus! {

/// Failure to create a named container that already exists.
#[derive(Debug, Clone, PartialEq, Eq, Structural)]
pub enum CreateError {
    DuplicateObject,
}

impl CreateError {
    /// The human-readable message for this error.
    pub fn message(&self) -> (r: String)
        ensures
            r@ == "Duplicate object"@,
    {
        match self {
            CreateError::DuplicateObject => "Duplicate object".to_owned(),
        }
    }
}

/// Failure to delete a named container that does not exist.
#[derive(Debug, Clone, PartialEq, Eq, Structural)]
pub enum DeleteError {
    NoSuchObject,
}

impl DeleteError {
    /// The human-readable message for this error.
    pub fn message(&self) -> (r: String)
        ensures
            r@ == "No such object"@,
    {
        match self {
            DeleteError::NoSuchObject => "No such object".to_owned(),
        }
    }
}

/// Failure of allocate or claim: either the requested name is already taken,
/// or no block could be found or occupied (too large, out of range, already
/// occupied, or already subdivided past the requested granularity).
#[derive(Debug, Clone, PartialEq, Eq, Structural)]
pub enum AllocateError {
    DuplicateName,
    NoSpaceAvailable,
}

impl AllocateError {
    /// The human-readable message for this error.
    pub fn message(&self) -> (r: String)
        ensures
            self is DuplicateName ==> r@ == "Duplicate name"@,
            self is NoSpaceAvailable ==> r@ == "No space available"@,
    {
        match self {
            AllocateError::DuplicateName => "Duplicate name".to_owned(),
            AllocateError::NoSpaceAvailable => "No space available".to_owned(),
        }
    }
}

/// Failure of rename: the block to rename does not exist, or the new name
/// already maps to a different block.
#[derive(Debug, Clone, PartialEq, Eq, Structural)]
pub enum RenameError {
    DuplicateName,
    NoSuchObject,
}

impl RenameError {
    /// The human-readable message for this error.
    pub fn message(&self) -> (r: String)
        ensures
            self is DuplicateName ==> r@ == "Duplicate name"@,
            self is NoSuchObject ==> r@ == "No such object"@,
    {
        match self {
            RenameError::DuplicateName => "Duplicate name".to_owned(),
            RenameError::NoSuchObject => "No such object".to_owned(),
        }
    }
}

} // verus!
