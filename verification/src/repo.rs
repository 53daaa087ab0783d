//! Repository lifecycle: metadata, the empty root tree, the foundational
//! branch, its sentinel commit, and the initial current-commit pointer.

use vstd::prelude::*;
use vstd::utf8::encode_utf8;
use crate::branch::{Branch, BranchV, spec_branch_at, spec_branch_id, spec_valid_name,
    validate_branch_name, FOUNDATIONAL_ID};
use crate::commit::{Commit, CommitID, CommitV, CurrentCommitSpec, spec_commit_get,
    spec_commit_hash, spec_current_at, NO_REBUILD, SEQ_ZERO};
use crate::errors::RepoError;
use crate::store::db_tree_insert;
use crate::tree::{spec_tree_hash, Tree};
use crate::workspace::Workspace;

verus! {

/// A repository: a name and free-form metadata pairs.
#[derive(Debug, Clone)]
pub struct Repo {
    /// Name of the repository, unique in its parent directory.
    pub name: String,
    /// Arbitrary metadata stored as key/value pairs.
    pub metadata: Vec<(String, String)>,
}

impl Repo {
    /// Initialises a repository inside an already-created workspace:
    /// writes the metadata, the empty root tree, the foundational branch
    /// named `main`, its sentinel commit, and the current-commit pointer.
    /// Metadata pairs are written in order, so of two pairs with the same
    /// key the later one is the one stored.
    #[verifier::spinoff_prover]
    #[verifier::rlimit(100)]
    pub fn new(ws: &mut Workspace, name: String, metadata: Vec<(String, String)>) -> (r: Result<
        Repo,
        RepoError,
    >)
        ensures
            final(ws).blobs == old(ws).blobs,
            !spec_valid_name(name@) ==> (r matches Err(e) && e is InvalidName),
            match r {
                Ok(repo) => {
                    &&& spec_valid_name(name@)
                    &&& repo.name@ == name@
                    &&& repo.metadata@ == metadata@
                    &&& spec_branch_at(final(ws).branches_kv(), spec_branch_id("main"@)) == Some(
                        BranchV {
                            id: spec_branch_id("main"@),
                            name: "main"@,
                            headseq: SEQ_ZERO,
                            ver: 0,
                            parent: FOUNDATIONAL_ID,
                            parentseq: SEQ_ZERO,
                        },
                    )
                    &&& spec_commit_get(
                        final(ws).commits_kv(),
                        CommitID { branch: spec_branch_id("main"@), seq: SEQ_ZERO },
                        0,
                    ) == Some(
                        CommitV {
                            id: CommitID { branch: spec_branch_id("main"@), seq: SEQ_ZERO },
                            ver: 0,
                            hash: spec_commit_hash(
                                "Initial commit"@,
                                spec_tree_hash(Seq::empty(), Seq::empty()),
                            ),
                            treehash: spec_tree_hash(Seq::empty(), Seq::empty()),
                            message: "Initial commit"@,
                        },
                    )
                    &&& spec_current_at(final(ws).meta_kv()) == Some(
                        CurrentCommitSpec {
                            commit_id: CommitID {
                                branch: spec_branch_id("main"@),
                                seq: SEQ_ZERO,
                            },
                            ver: 0,
                            rebuild_seq: NO_REBUILD,
                            rebuild_ver: NO_REBUILD,
                        },
                    )
                    &&& forall|i: int|
                        0 <= i < metadata@.len() ==> final(ws).repo_kv().contains_key(
                            encode_utf8(name@ + seq![':'] + (#[trigger] metadata@[i]).0@),
                        )
                    &&& (crate::commit::commits_wf(old(ws).commits_kv())
                        ==> crate::commit::commits_wf(final(ws).commits_kv()))
                },
                Err(e) => match e {
                    RepoError::InvalidName(_) => {
                        &&& !spec_valid_name(name@)
                        &&& final(ws).trees == old(ws).trees
                        &&& final(ws).branches == old(ws).branches
                        &&& final(ws).commitdb == old(ws).commitdb
                        &&& final(ws).repodb == old(ws).repodb
                    },
                    _ => true,
                },
            },
    {
        match validate_branch_name(name.as_str()) {
            Ok(()) => {
            },
            Err(_) => {
                return Err(
                    RepoError::InvalidName(
                        String::from_str(
                            "repository names can only contain lowercase letters, numbers, and the characters . / -",
                        ),
                    ),
                );
            },
        }
        let n = metadata.len();
        let mut i: usize = 0;
        proof {
            reveal_strlit(":");
            assert(":"@ =~= seq![':']);
            crate::workspace::lemma_keyspace_names_distinct();
        }
        while i < n
            invariant
                i <= n,
                n == metadata@.len(),
                spec_valid_name(name@),
                ws.blobs == old(ws).blobs,
                ws.trees == old(ws).trees,
                ws.branches == old(ws).branches,
                ws.commitdb == old(ws).commitdb,
                forall|j: int|
                    0 <= j < i ==> ws.repo_kv().contains_key(
                        encode_utf8(name@ + seq![':'] + (#[trigger] metadata@[j]).0@),
                    ),
            decreases n - i,
        {
            proof {
                reveal_strlit(":");
                assert(":"@ =~= seq![':']);
                crate::workspace::lemma_keyspace_names_distinct();
            }
            let mut full_key = name.clone();
            full_key.append(":");
            full_key.append(metadata[i].0.as_str());
            proof {
                assert(full_key@ =~= name@ + seq![':'] + metadata@[i as int].0@);
            }
            match db_tree_insert(
                &mut ws.repodb,
                "metadata",
                full_key.as_str().as_bytes(),
                metadata[i].1.as_str().as_bytes(),
            ) {
                Ok(()) => {
                },
                Err(m) => {
                    return Err(RepoError::DatabaseError(m));
                },
            }
            i = i + 1;
        }
        let tree = match Tree::create_empty(ws) {
            Ok(t) => t,
            Err(_) => {
                return Err(RepoError::Other(String::from_str("failed to create empty tree")));
            },
        };
        let branch = match Branch::create_foundational_branch(ws, String::from_str("main")) {
            Ok(b) => b,
            Err(_) => {
                return Err(RepoError::Other(String::from_str("failed to create main branch")));
            },
        };
        let commit = match Commit::create_zero_commit(
            ws,
            branch.id,
            tree.hash,
            String::from_str("Initial commit"),
        ) {
            Ok(c) => c,
            Err(_) => {
                return Err(
                    RepoError::Other(String::from_str("failed to create initial commit")),
                );
            },
        };
        let current = CurrentCommitSpec {
            commit_id: commit.id,
            ver: branch.ver,
            rebuild_seq: NO_REBUILD,
            rebuild_ver: NO_REBUILD,
        };
        match current.save(ws) {
            Ok(()) => Ok(Repo { name, metadata }),
            Err(_) => Err(RepoError::Other(String::from_str("failed to set current commit"))),
        }
    }
}

} // verus!
