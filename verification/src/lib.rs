//! A local, single-user version control core over a content-addressed
//! object store: snapshots of a working directory as hash trees, commits
//! keyed by branch and sequence with in-place amendment, and branches
//! with atomic head advancement, all persisted in an embedded key/value
//! store behind verified contracts.

pub mod blob;
pub mod branch;
pub mod bytes;
pub mod codec;
pub mod commit;
pub mod context;
pub mod digest;
pub mod errors;
pub mod listing;
pub mod repo;
pub mod store;
pub mod tree;
pub mod walk;
pub mod workspace;
