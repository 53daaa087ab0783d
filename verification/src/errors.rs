//! Error taxonomy, one enum per store, mirroring the operations' failure
//! classes: validation, not-found, already-exists, no-op signalling, state,
//! wrapped I/O and database faults, and unsupported input.

use vstd::prelude::*;

verus! {

/// Failures of the blob store.
#[derive(Debug, Clone)]
pub enum BlobError {
    IoError(String),
    BlobNotFound(String),
    FileNotFound(String),
    DatabaseError(String),
    SerializationError(String),
    Other(String),
}

/// Failures of the branch store and branch operations.
#[derive(Debug, Clone)]
pub enum BranchError {
    DatabaseError(String),
    SerializationError(String),
    NotFound,
    BranchExists(String),
    InvalidName(String),
    InvalidParent(String),
    HashCollision(String),
    Other(String),
}

/// Failures of the commit store and commit operations.
#[derive(Debug, Clone)]
pub enum CommitError {
    DatabaseError(String),
    SerializationError(String),
    IoError(String),
    NotFound,
    BranchNotFound,
    NoBranchSelected,
    NoChanges,
    CannotAmendSentinel,
    InvalidSequence(String),
    Other(String),
}

/// Failures of the tree store and the snapshot engine.
#[derive(Debug, Clone)]
pub enum TreeError {
    DatabaseError(String),
    SerializationError(String),
    IoError(String),
    TreeNotFound,
    SymlinkNotSupported(String),
    Other(String),
}

/// Failures of repository creation.
#[derive(Debug, Clone)]
pub enum RepoError {
    NotFound,
    RepoExists(String),
    InvalidName(String),
    IoError(String),
    SerializationError(String),
    DatabaseError(String),
    Other(String),
}

} // verus!
