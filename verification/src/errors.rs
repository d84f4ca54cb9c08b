//! The failures of the four operation groups.
use vstd::prelude::*;

verus! {

/// Why an add operation was refused.
#[derive(Debug, PartialEq, Eq, Structural, Clone, Copy)]
pub enum AddError {
    NoteAlreadyExists,
    NoteDoesNotExist,
    LinkAlreadyExists,
    BranchAlreadyExists,
    BranchDoesNotExist,
}

/// Why a change operation was refused.
#[derive(Debug, PartialEq, Eq, Structural, Clone, Copy)]
pub enum ChangeError {
    NoteDoesNotExist,
    LinkDoesNotExist,
    BranchDoesNotExist,
}

/// Why a delete operation was refused. `BranchNotEmpty` is kept for a
/// stricter mode that refuses to delete a branch that still has arms; no
/// operation of this library returns it.
#[derive(Debug, PartialEq, Eq, Structural, Clone, Copy)]
pub enum DeleteError {
    NoteDoesNotExist,
    LinkDoesNotExist,
    BranchDoesNotExist,
    BranchNotEmpty,
}

/// Why a read operation was refused: the note or the branch asked for is
/// not in the store.
#[derive(Debug, PartialEq, Eq, Structural, Clone, Copy)]
pub enum ReadError {
    NoteDoesNotExist,
    BranchDoesNotExist,
}

impl AddError {
    /// The message that belongs to each variant.
    pub open spec fn message_spec(&self) -> &'static str {
        match self {
            AddError::NoteAlreadyExists => "Note already exists",
            AddError::NoteDoesNotExist => "Note does not exist",
            AddError::LinkAlreadyExists => "Link already exists",
            AddError::BranchAlreadyExists => "Branch already exists",
            AddError::BranchDoesNotExist => "Branch does not exist",
        }
    }

    /// The message of this error.
    pub fn message(&self) -> (text: String)
        ensures
            text@ == self.message_spec()@,
    {
        match self {
            AddError::NoteAlreadyExists => "Note already exists".to_string(),
            AddError::NoteDoesNotExist => "Note does not exist".to_string(),
            AddError::LinkAlreadyExists => "Link already exists".to_string(),
            AddError::BranchAlreadyExists => "Branch already exists".to_string(),
            AddError::BranchDoesNotExist => "Branch does not exist".to_string(),
        }
    }
}

impl ChangeError {
    /// The message that belongs to each variant.
    pub open spec fn message_spec(&self) -> &'static str {
        match self {
            ChangeError::NoteDoesNotExist => "Note does not exist",
            ChangeError::LinkDoesNotExist => "Link does not exist",
            ChangeError::BranchDoesNotExist => "Branch does not exist",
        }
    }

    /// The message of this error.
    pub fn message(&self) -> (text: String)
        ensures
            text@ == self.message_spec()@,
    {
        match self {
            ChangeError::NoteDoesNotExist => "Note does not exist".to_string(),
            ChangeError::LinkDoesNotExist => "Link does not exist".to_string(),
            ChangeError::BranchDoesNotExist => "Branch does not exist".to_string(),
        }
    }
}

impl DeleteError {
    /// The message that belongs to each variant.
    pub open spec fn message_spec(&self) -> &'static str {
        match self {
            DeleteError::NoteDoesNotExist => "Note does not exist",
            DeleteError::LinkDoesNotExist => "Link does not exist",
            DeleteError::BranchDoesNotExist => "Branch does not exist",
            DeleteError::BranchNotEmpty => "Branch is not empty",
        }
    }

    /// The message of this error.
    pub fn message(&self) -> (text: String)
        ensures
            text@ == self.message_spec()@,
    {
        match self {
            DeleteError::NoteDoesNotExist => "Note does not exist".to_string(),
            DeleteError::LinkDoesNotExist => "Link does not exist".to_string(),
            DeleteError::BranchDoesNotExist => "Branch does not exist".to_string(),
            DeleteError::BranchNotEmpty => "Branch is not empty".to_string(),
        }
    }
}

impl ReadError {
    /// The message that belongs to each variant.
    pub open spec fn message_spec(&self) -> &'static str {
        match self {
            ReadError::NoteDoesNotExist => "Note does not exist",
            ReadError::BranchDoesNotExist => "Branch does not exist",
        }
    }

    /// The message of this error.
    pub fn message(&self) -> (text: String)
        ensures
            text@ == self.message_spec()@,
    {
        match self {
            ReadError::NoteDoesNotExist => "Note does not exist".to_string(),
            ReadError::BranchDoesNotExist => "Branch does not exist".to_string(),
        }
    }
}

} // verus!
