//! The set of open databases a repository works against: blob metadata,
//! tree nodes, branches, and the commit database with its two keyspaces.

use vstd::prelude::*;
use crate::context::Context;
use crate::store;
use crate::store::{db_kv, db_tree_kv};

verus! {

/// Joins a directory path and an entry name with `/`.
pub fn join_path(dir: &String, name: &str) -> (r: String)
    ensures
        r@ == dir@ + seq!['/'] + name@,
{
    proof {
        reveal_strlit("/");
        assert("/"@ =~= seq!['/']);
    }
    let mut s = dir.clone();
    s.append("/");
    s.append(name);
    proof {
        assert(s@ =~= dir@ + seq!['/'] + name@);
    }
    s
}

/// The name of the repository database's metadata keyspace.
pub open spec fn repo_meta_keyspace_name() -> Seq<char> {
    "metadata"@
}

/// The name of the commit database's commit keyspace.
pub open spec fn commits_keyspace_name() -> Seq<char> {
    "commits"@
}

/// The name of the commit database's metadata keyspace, which holds the
/// current-commit pointer.
pub open spec fn meta_keyspace_name() -> Seq<char> {
    "sequences"@
}

/// The workspace's keyspace names are pairwise distinct and none is
/// sled's reserved default-keyspace name.
pub proof fn lemma_keyspace_names_distinct()
    ensures
        commits_keyspace_name() != crate::store::sled_reserved_name(),
        meta_keyspace_name() != crate::store::sled_reserved_name(),
        repo_meta_keyspace_name() != crate::store::sled_reserved_name(),
        commits_keyspace_name() != meta_keyspace_name(),
        commits_keyspace_name() != repo_meta_keyspace_name(),
        meta_keyspace_name() != repo_meta_keyspace_name(),
{
    reveal_strlit("commits");
    reveal_strlit("sequences");
    reveal_strlit("metadata");
    reveal_strlit("__sled__default");
    assert("commits"@.len() == 7);
    assert("sequences"@.len() == 9);
    assert("metadata"@.len() == 8);
    assert("__sled__default"@.len() == 15);
}

/// Every database of a workspace, opened once and threaded through the
/// core operations.
pub struct Workspace {
    pub blobs: sled::Db,
    pub trees: sled::Db,
    pub branches: sled::Db,
    pub commitdb: sled::Db,
    pub repodb: sled::Db,
}

impl Workspace {
    /// The blob-metadata map: digest key bytes to blob record bytes.
    pub open spec fn blobs_kv(&self) -> Map<Seq<u8>, Seq<u8>> {
        db_kv(self.blobs)
    }

    /// The tree-node map: digest key bytes to tree record bytes.
    pub open spec fn trees_kv(&self) -> Map<Seq<u8>, Seq<u8>> {
        db_kv(self.trees)
    }

    /// The branch map: branch-id key bytes to branch record bytes.
    pub open spec fn branches_kv(&self) -> Map<Seq<u8>, Seq<u8>> {
        db_kv(self.branches)
    }

    /// The commit map: composite key bytes to version-stack bytes.
    pub open spec fn commits_kv(&self) -> Map<Seq<u8>, Seq<u8>> {
        db_tree_kv(self.commitdb, commits_keyspace_name())
    }

    /// The metadata map holding the current-commit pointer.
    pub open spec fn meta_kv(&self) -> Map<Seq<u8>, Seq<u8>> {
        db_tree_kv(self.commitdb, meta_keyspace_name())
    }

    /// The repository metadata map.
    pub open spec fn repo_kv(&self) -> Map<Seq<u8>, Seq<u8>> {
        db_tree_kv(self.repodb, repo_meta_keyspace_name())
    }

    /// Opens every database under the context's workspace directory.
    /// Nothing is known of the contents, which come from disk.
    pub fn open(context: &Context) -> Result<Workspace, String> {
        let blobs = store::open_db(join_path(&context.workspace_path, "blob.db").as_str())?;
        let trees = store::open_db(join_path(&context.workspace_path, "tree.db").as_str())?;
        let branches = store::open_db(join_path(&context.workspace_path, "branches.db").as_str())?;
        let commitdb = store::open_db(join_path(&context.workspace_path, "commits.db").as_str())?;
        let repodb = store::open_db(join_path(&context.workspace_path, "repo.db").as_str())?;
        Ok(Workspace { blobs, trees, branches, commitdb, repodb })
    }
}

} // verus!
