//! The process-scoped handle every core operation receives: where the
//! workspace data lives and which directory is checked out.

use vstd::prelude::*;

verus! {

/// Paths the core works against.
#[derive(Debug, Clone)]
pub struct Context {
    /// Path to the workspace data directory (conventionally a `.vx` folder).
    pub workspace_path: String,
    /// Path to the directory the current branch is checked out into.
    pub checkout_path: String,
}

impl Context {
    /// Creates a new context over the given workspace and checkout paths.
    pub fn new(workspace_path: String, checkout_path: String) -> (c: Context)
        ensures
            c.workspace_path@ == workspace_path@,
            c.checkout_path@ == checkout_path@,
    {
        Context { workspace_path, checkout_path }
    }
}

} // verus!
