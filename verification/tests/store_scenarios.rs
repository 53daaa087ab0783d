use std::time::{SystemTime, UNIX_EPOCH};
use vx::blob::{blob_record, blob_stored, get_blob_metadata, get_blob_path, Blob};
use vx::branch::Branch;
use vx::commit::{commit_get, commits_list, Commit, CommitID, CurrentCommitSpec};
use vx::context::Context;
use vx::digest::{compute_bytes, DigestExt};
use vx::errors::{BlobError, CommitError};
use vx::repo::Repo;
use vx::tree::{new_tree, tree_exists, tree_get, File, Folder, Tree};
use vx::walk::{materialize_level, CheckoutStep, HashedFile};
use vx::workspace::Workspace;

fn fresh_workspace(tag: &str) -> (Context, Workspace) {
    let nanos = SystemTime::now().duration_since(UNIX_EPOCH).unwrap().as_nanos();
    let root = format!("/tmp/vxtest_{}_{}", tag, nanos);
    let ctx = Context::new(format!("{}/.vx", root), root);
    let ws = Workspace::open(&ctx).expect("open workspace");
    (ctx, ws)
}

fn init_repo(tag: &str) -> (Context, Workspace) {
    let (ctx, mut ws) = fresh_workspace(tag);
    Repo::new(&mut ws, String::from("proj"), Vec::new()).expect("init repo");
    (ctx, ws)
}

fn tree_with_files(ws: &mut Workspace, files: Vec<(&str, &[u8])>) -> Tree {
    let mut refs: Vec<File> = Vec::new();
    let mut size: u64 = 0;
    for (name, content) in files.iter() {
        let hash = compute_bytes(content);
        let blob = blob_record(ws, hash, content.len() as u64).expect("record blob");
        size += blob.size;
        refs.push(File { name: String::from(*name), blob });
    }
    refs.sort_by(|a, b| a.name.as_bytes().cmp(b.name.as_bytes()));
    let count = refs.len() as u64;
    new_tree(ws, Vec::new(), refs, size, count, 0).expect("persist tree")
}

#[test]
fn s1_init_creates_main_sentinel_and_pointer() {
    let (_ctx, ws) = init_repo("s1");
    let main = Branch::get_by_name(&ws, "main").expect("main exists");
    assert_eq!(main.name, "main");
    assert_eq!(main.parent, 0);
    assert_eq!(main.parentseq, 0);
    assert_eq!(main.headseq, 0);
    assert_eq!(main.ver, 0);
    let empty_digest = compute_bytes(&[]);
    let sentinel = commit_get(&ws, CommitID { branch: main.id, seq: 0 }, 0).expect("sentinel");
    assert_eq!(sentinel.id.branch, main.id);
    assert_eq!(sentinel.id.seq, 0);
    assert_eq!(sentinel.ver, 0);
    assert_eq!(sentinel.treehash, empty_digest);
    assert_eq!(sentinel.message, "Initial commit");
    assert!(tree_exists(&ws, empty_digest).expect("tree lookup"));
    let cur = CurrentCommitSpec::get(&ws).expect("current");
    assert_eq!(cur.commit_id, CommitID { branch: main.id, seq: 0 });
    assert_eq!(cur.ver, 0);
    assert_eq!(cur.rebuild_seq, 0);
    assert_eq!(cur.rebuild_ver, 0);
    assert!(!cur.is_rebuild());
}

#[test]
fn s2_first_commit_adds_one_file() {
    let (_ctx, mut ws) = init_repo("s2");
    let d_a = compute_bytes(b"hi");
    let t1 = tree_with_files(&mut ws, vec![("a.txt", b"hi")]);
    assert_eq!(t1.files.len(), 1);
    assert_eq!(t1.files[0].name, "a.txt");
    assert_eq!(t1.files[0].blob, Blob { contenthash: d_a, size: 2 });
    assert_eq!(t1.folders.len(), 0);
    assert_eq!(t1.file_count, 1);
    let stored = get_blob_metadata(&ws, d_a).expect("blob metadata");
    assert_eq!(stored, Blob { contenthash: d_a, size: 2 });
    let c = Commit::new(&mut ws, t1.hash, String::from("add a")).expect("commit");
    assert_eq!(c.id.seq, 1);
    assert_eq!(c.ver, 1);
    assert_eq!(c.treehash, t1.hash);
    assert_eq!(c.message, "add a");
    let main = Branch::get_by_name(&ws, "main").expect("main");
    assert_eq!(main.headseq, 1);
    assert_eq!(main.ver, 1);
    let cur = CurrentCommitSpec::get(&ws).expect("current");
    assert_eq!(cur.commit_id, CommitID { branch: main.id, seq: 1 });
    assert_eq!(cur.ver, 1);
    let back = tree_get(&ws, t1.hash).expect("tree back");
    assert_eq!(back.hash, t1.hash);
    assert_eq!(back.files[0].name, "a.txt");
}

#[test]
fn commit_without_changes_is_refused() {
    let (_ctx, mut ws) = init_repo("nochange");
    let empty_digest = compute_bytes(&[]);
    match Commit::new(&mut ws, empty_digest, String::from("nothing")) {
        Err(CommitError::NoChanges) => {}
        other => panic!("expected NoChanges, got {:?}", other),
    }
}

#[test]
fn s4_amend_replaces_tip_and_keeps_history() {
    let (_ctx, mut ws) = init_repo("s4");
    let t1 = tree_with_files(&mut ws, vec![("a.txt", b"hi")]);
    Commit::new(&mut ws, t1.hash, String::from("add a")).expect("commit");
    let t2 = tree_with_files(&mut ws, vec![("a.txt", b"hi"), ("c.txt", b"x")]);
    assert_eq!(t2.files.len(), 2);
    assert_eq!(t2.files[0].name, "a.txt");
    assert_eq!(t2.files[1].name, "c.txt");
    let amended = Commit::amend(&mut ws, t2.hash, None).expect("amend");
    assert_eq!(amended.id.seq, 1);
    assert_eq!(amended.ver, 2);
    assert_eq!(amended.treehash, t2.hash);
    assert_eq!(amended.message, "add a");
    let main = Branch::get_by_name(&ws, "main").expect("main");
    assert_eq!(main.headseq, 1);
    assert_eq!(main.ver, 2);
    // The previous version at the same key is still retrievable.
    let old = commit_get(&ws, CommitID { branch: main.id, seq: 1 }, 1).expect("old version");
    assert_eq!(old.ver, 1);
    assert_eq!(old.treehash, t1.hash);
    let new = commit_get(&ws, CommitID { branch: main.id, seq: 1 }, 2).expect("new version");
    assert_eq!(new.ver, 2);
    assert_eq!(new.treehash, t2.hash);
}

#[test]
fn amend_with_no_changes_returns_no_changes() {
    let (_ctx, mut ws) = init_repo("p6");
    let t1 = tree_with_files(&mut ws, vec![("a.txt", b"hi")]);
    Commit::new(&mut ws, t1.hash, String::from("add a")).expect("commit");
    let before = Branch::get_by_name(&ws, "main").expect("main");
    match Commit::amend(&mut ws, t1.hash, None) {
        Err(CommitError::NoChanges) => {}
        other => panic!("expected NoChanges, got {:?}", other),
    }
    match Commit::amend(&mut ws, t1.hash, Some(String::from("add a"))) {
        Err(CommitError::NoChanges) => {}
        other => panic!("expected NoChanges, got {:?}", other),
    }
    let after = Branch::get_by_name(&ws, "main").expect("main");
    assert_eq!(after.ver, before.ver);
    assert_eq!(after.headseq, before.headseq);
}

#[test]
fn amend_with_new_message_only_bumps_version() {
    let (_ctx, mut ws) = init_repo("amendmsg");
    let t1 = tree_with_files(&mut ws, vec![("a.txt", b"hi")]);
    Commit::new(&mut ws, t1.hash, String::from("add a")).expect("commit");
    let amended = Commit::amend(&mut ws, t1.hash, Some(String::from("better message")))
        .expect("amend");
    assert_eq!(amended.ver, 2);
    assert_eq!(amended.message, "better message");
    assert_eq!(amended.treehash, t1.hash);
}

#[test]
fn sentinel_cannot_be_amended() {
    let (_ctx, mut ws) = init_repo("p8");
    let t1 = tree_with_files(&mut ws, vec![("a.txt", b"hi")]);
    let main_before = Branch::get_by_name(&ws, "main").expect("main");
    match Commit::amend(&mut ws, t1.hash, None) {
        Err(CommitError::CannotAmendSentinel) => {}
        other => panic!("expected CannotAmendSentinel, got {:?}", other),
    }
    // State is unchanged: same branch version, same current pointer.
    let main_after = Branch::get_by_name(&ws, "main").expect("main");
    assert_eq!(main_after.ver, main_before.ver);
    let cur = CurrentCommitSpec::get(&ws).expect("current");
    assert_eq!(cur.commit_id.seq, 0);
    assert_eq!(cur.ver, 0);
}

#[test]
fn s5_branch_off_main_and_switch_back() {
    let (_ctx, mut ws) = init_repo("s5");
    let t1 = tree_with_files(&mut ws, vec![("a.txt", b"hi")]);
    Commit::new(&mut ws, t1.hash, String::from("add a")).expect("commit");
    let main = Branch::get_by_name(&ws, "main").expect("main");
    let feat = Branch::new(&mut ws, String::from("feat")).expect("branch");
    assert_eq!(feat.name, "feat");
    assert_eq!(feat.parent, main.id);
    assert_eq!(feat.parentseq, 1);
    assert_eq!(feat.headseq, 0);
    assert_eq!(feat.ver, 0);
    let sentinel = commit_get(&ws, CommitID { branch: feat.id, seq: 0 }, 0).expect("sentinel");
    assert_eq!(sentinel.treehash, t1.hash);
    assert_eq!(sentinel.message, "add a");
    let cur = CurrentCommitSpec::get(&ws).expect("current");
    assert_eq!(cur.commit_id, CommitID { branch: feat.id, seq: 0 });
    // Commit modified content on feat.
    let t3 = tree_with_files(&mut ws, vec![("a.txt", b"HI")]);
    let c3 = Commit::new(&mut ws, t3.hash, String::from("shout")).expect("commit on feat");
    assert_eq!(c3.id.branch, feat.id);
    assert_eq!(c3.id.seq, 1);
    // Resolve "main:1" and move the pointer back, as checkout does.
    let target = CommitID::resolve(&ws, "main:1").expect("resolve");
    assert_eq!(target, CommitID { branch: main.id, seq: 1 });
    let restored = Commit::get_by_spec(&ws, "main:1").expect("get by spec");
    assert_eq!(restored.treehash, t1.hash);
    let main_now = Branch::get(&ws, main.id).expect("main");
    let back = CurrentCommitSpec {
        commit_id: target,
        ver: main_now.ver,
        rebuild_seq: 0,
        rebuild_ver: 0,
    };
    back.save(&mut ws).expect("save current");
    let cur2 = CurrentCommitSpec::get(&ws).expect("current");
    assert_eq!(cur2.commit_id, CommitID { branch: main.id, seq: 1 });
}

#[test]
fn resolve_supports_all_three_forms() {
    let (_ctx, mut ws) = init_repo("resolve");
    let t1 = tree_with_files(&mut ws, vec![("a.txt", b"hi")]);
    Commit::new(&mut ws, t1.hash, String::from("add a")).expect("commit");
    let main = Branch::get_by_name(&ws, "main").expect("main");
    assert_eq!(
        CommitID::resolve(&ws, "main:0").expect("name:seq"),
        CommitID { branch: main.id, seq: 0 }
    );
    assert_eq!(
        CommitID::resolve(&ws, "1").expect("bare seq"),
        CommitID { branch: main.id, seq: 1 }
    );
    assert_eq!(
        CommitID::resolve(&ws, "main").expect("bare name"),
        CommitID { branch: main.id, seq: 1 }
    );
    match CommitID::resolve(&ws, "main:notanumber") {
        Err(CommitError::InvalidSequence(_)) => {}
        other => panic!("expected InvalidSequence, got {:?}", other),
    }
    match CommitID::resolve(&ws, "nosuchbranch") {
        Err(CommitError::BranchNotFound) => {}
        other => panic!("expected BranchNotFound, got {:?}", other),
    }
    match CommitID::resolve(&ws, "nosuchbranch:3") {
        Err(CommitError::BranchNotFound) => {}
        other => panic!("expected BranchNotFound, got {:?}", other),
    }
}

#[test]
fn s6_restored_tree_rehashes_to_same_digest() {
    let (_ctx, mut ws) = init_repo("s6");
    let t1 = tree_with_files(&mut ws, vec![("a.txt", b"hi")]);
    Commit::new(&mut ws, t1.hash, String::from("add a")).expect("commit");
    let t2 = tree_with_files(&mut ws, vec![("a.txt", b"hi"), ("c.txt", b"x")]);
    Commit::amend(&mut ws, t2.hash, None).expect("amend");
    // Plan the materialization of t2 into an empty directory, then
    // re-persist exactly what the plan writes.
    let stored = tree_get(&ws, t2.hash).expect("stored node");
    let steps = materialize_level(&stored, &String::new());
    let mut restored: Vec<HashedFile> = Vec::new();
    for step in steps.iter() {
        match step {
            CheckoutStep::MakeDir(p) => assert_eq!(p, ""),
            CheckoutStep::WriteBlob(path, hash) => {
                restored.push(HashedFile { name: path.clone(), hash: *hash })
            }
            other => panic!("unexpected step {:?}", other),
        }
    }
    let mut files: Vec<File> = Vec::new();
    let mut size: u64 = 0;
    for f in restored.iter() {
        let blob = get_blob_metadata(&ws, f.hash).expect("blob present");
        size += blob.size;
        files.push(File { name: f.name.clone(), blob });
    }
    let count = files.len() as u64;
    let t2_again = new_tree(&mut ws, Vec::new(), files, size, count, 0).expect("re-persist");
    assert_eq!(t2_again.hash, t2.hash);
}

#[test]
fn empty_tree_has_the_distinguished_digest() {
    let (_ctx, mut ws) = fresh_workspace("p9");
    let t1 = Tree::create_empty(&mut ws).expect("empty tree");
    let t2 = Tree::create_empty(&mut ws).expect("empty tree again");
    assert_eq!(t1.hash, t2.hash);
    assert_eq!(t1.hash, compute_bytes(&[]));
    assert_eq!(t1.size, 0);
    assert_eq!(t1.file_count, 0);
    assert_eq!(t1.folder_count, 0);
}

#[test]
fn blob_store_holds_one_record_per_content() {
    let (ctx, mut ws) = fresh_workspace("p3");
    let d = compute_bytes(b"content");
    assert!(!blob_stored(&ws, d).expect("lookup"));
    let b1 = blob_record(&mut ws, d, 7).expect("record");
    assert!(blob_stored(&ws, d).expect("lookup"));
    let b2 = blob_record(&mut ws, d, 7).expect("record again");
    assert_eq!(b1, b2);
    assert_eq!(get_blob_metadata(&ws, d).expect("metadata"), b1);
    // The blob path splits the hex form after two characters.
    let path = get_blob_path(&ctx, d);
    let hex = d.to_hex_string();
    assert_eq!(
        path,
        format!("{}/blobs/{}/{}", ctx.workspace_path, &hex[..2], &hex[2..])
    );
    match get_blob_metadata(&ws, d.wrapping_add(1)) {
        Err(BlobError::BlobNotFound(_)) => {}
        other => panic!("expected BlobNotFound, got {:?}", other),
    }
}

#[test]
fn listing_commits_walks_tip_first_with_decreasing_seqs() {
    let (_ctx, mut ws) = init_repo("p4");
    let t1 = tree_with_files(&mut ws, vec![("a.txt", b"one")]);
    Commit::new(&mut ws, t1.hash, String::from("first")).expect("commit");
    let t2 = tree_with_files(&mut ws, vec![("a.txt", b"one"), ("b.txt", b"two")]);
    Commit::new(&mut ws, t2.hash, String::from("second")).expect("commit");
    let main = Branch::get_by_name(&ws, "main").expect("main");
    let list = commits_list(&ws, main.id, main.ver, main.headseq).expect("list");
    assert_eq!(list.len(), 3);
    assert_eq!(list[0].id.seq, 2);
    assert_eq!(list[1].id.seq, 1);
    assert_eq!(list[2].id.seq, 0);
    assert!(list[0].id.seq > list[1].id.seq && list[1].id.seq > list[2].id.seq);
    assert_eq!(list[0].message, "second");
    assert_eq!(list[2].message, "Initial commit");
    let via_commit = Commit::list(&ws).expect("Commit::list");
    assert_eq!(via_commit.len(), 3);
    let via_name = Commit::list_by_branch(&ws, "main").expect("by branch");
    assert_eq!(via_name.len(), 3);
}

#[test]
fn branch_version_is_monotonic_across_operations() {
    let (_ctx, mut ws) = init_repo("p7");
    let mut last_ver = Branch::get_by_name(&ws, "main").expect("main").ver;
    assert_eq!(last_ver, 0);
    let t1 = tree_with_files(&mut ws, vec![("a.txt", b"1")]);
    Commit::new(&mut ws, t1.hash, String::from("one")).expect("commit");
    let v1 = Branch::get_by_name(&ws, "main").expect("main").ver;
    assert!(v1 > last_ver);
    last_ver = v1;
    let t2 = tree_with_files(&mut ws, vec![("a.txt", b"2")]);
    Commit::amend(&mut ws, t2.hash, None).expect("amend");
    let v2 = Branch::get_by_name(&ws, "main").expect("main").ver;
    assert!(v2 > last_ver);
    last_ver = v2;
    let t3 = tree_with_files(&mut ws, vec![("a.txt", b"2"), ("b.txt", b"3")]);
    Commit::new(&mut ws, t3.hash, String::from("two")).expect("commit");
    let v3 = Branch::get_by_name(&ws, "main").expect("main").ver;
    assert!(v3 > last_ver);
}

#[test]
fn branch_creation_requires_foundational_parent() {
    let (_ctx, mut ws) = init_repo("parent");
    let t1 = tree_with_files(&mut ws, vec![("a.txt", b"hi")]);
    Commit::new(&mut ws, t1.hash, String::from("add a")).expect("commit");
    Branch::new(&mut ws, String::from("feat")).expect("branch off main");
    // Now current sits on feat, which is not foundational.
    match Branch::new(&mut ws, String::from("sub")) {
        Err(vx::errors::BranchError::InvalidParent(_)) => {}
        other => panic!("expected InvalidParent, got {:?}", other),
    }
    match Branch::new(&mut ws, String::from("Bad Name")) {
        Err(vx::errors::BranchError::InvalidName(_)) => {}
        other => panic!("expected InvalidName, got {:?}", other),
    }
}

#[test]
fn existing_branch_name_is_refused() {
    let (_ctx, mut ws) = init_repo("exists");
    let t1 = tree_with_files(&mut ws, vec![("a.txt", b"hi")]);
    Commit::new(&mut ws, t1.hash, String::from("add a")).expect("commit");
    match Branch::new(&mut ws, String::from("main")) {
        Err(vx::errors::BranchError::BranchExists(_)) => {}
        other => panic!("expected BranchExists, got {:?}", other),
    }
    let listed = Branch::list(&ws).expect("list branches");
    assert_eq!(listed.len(), 1);
    assert_eq!(listed[0].name, "main");
}

#[test]
fn repo_rejects_invalid_names() {
    let (_ctx, mut ws) = fresh_workspace("badrepo");
    match Repo::new(&mut ws, String::from("Bad Name"), Vec::new()) {
        Err(vx::errors::RepoError::InvalidName(_)) => {}
        other => panic!("expected InvalidName, got {:?}", other),
    }
}

#[test]
fn subtree_digests_flow_into_the_parent() {
    let (_ctx, mut ws) = fresh_workspace("subtree");
    let d = compute_bytes(b"inner");
    let blob = blob_record(&mut ws, d, 5).expect("record");
    let child = new_tree(
        &mut ws,
        Vec::new(),
        vec![File { name: String::from("inner.txt"), blob }],
        5,
        1,
        0,
    )
    .expect("child");
    let parent = new_tree(
        &mut ws,
        vec![Folder { name: String::from("sub"), hash: child.hash }],
        Vec::new(),
        5,
        1,
        1,
    )
    .expect("parent");
    assert_ne!(parent.hash, child.hash);
    // A different child digest gives a different parent digest.
    let parent2 = new_tree(
        &mut ws,
        vec![Folder { name: String::from("sub"), hash: child.hash ^ 1 }],
        Vec::new(),
        5,
        1,
        1,
    )
    .expect("parent2");
    assert_ne!(parent.hash, parent2.hash);
    // Rebuilding the same parent gives the same digest.
    let parent3 = new_tree(
        &mut ws,
        vec![Folder { name: String::from("sub"), hash: child.hash }],
        Vec::new(),
        5,
        1,
        1,
    )
    .expect("parent3");
    assert_eq!(parent.hash, parent3.hash);
}

#[test]
fn missing_objects_report_not_found() {
    let (_ctx, mut ws) = init_repo("missing");
    match vx::tree::tree_get(&ws, 0xfeed_face) {
        Err(vx::errors::TreeError::TreeNotFound) => {}
        other => panic!("expected TreeNotFound, got {:?}", other),
    }
    match commit_get(&ws, CommitID { branch: 99, seq: 42 }, 0) {
        Err(CommitError::NotFound) => {}
        other => panic!("expected NotFound, got {:?}", other),
    }
    let t1 = tree_with_files(&mut ws, vec![("a.txt", b"hi")]);
    Commit::new(&mut ws, t1.hash, String::from("add a")).expect("commit");
    let got = Commit::get_from_current_branch(&ws, 1).expect("by seq");
    assert_eq!(got.id.seq, 1);
    assert_eq!(got.treehash, t1.hash);
    let cur_commit = Commit::get_current(&ws).expect("current commit");
    assert_eq!(cur_commit.id.seq, 1);
}


#[test]
fn mid_branch_amend_rebuilds_later_sequences() {
    let (_ctx, mut ws) = init_repo("rebuild");
    let t1 = tree_with_files(&mut ws, vec![("a.txt", b"one")]);
    Commit::new(&mut ws, t1.hash, String::from("first")).expect("commit 1");
    let t2 = tree_with_files(&mut ws, vec![("a.txt", b"one"), ("b.txt", b"two")]);
    Commit::new(&mut ws, t2.hash, String::from("second")).expect("commit 2");
    let main = Branch::get_by_name(&ws, "main").expect("main");
    assert_eq!(main.headseq, 2);
    assert_eq!(main.ver, 2);
    // Point the working state back at sequence 1, as a checkout does.
    let back = CurrentCommitSpec {
        commit_id: CommitID { branch: main.id, seq: 1 },
        ver: main.ver,
        rebuild_seq: 0,
        rebuild_ver: 0,
    };
    back.save(&mut ws).expect("move pointer");
    // Amend mid-branch: sequence 1 gets version 3, sequence 2 is re-saved
    // at version 4, the head sequence stays 2.
    let t3 = tree_with_files(&mut ws, vec![("a.txt", b"three")]);
    let amended = Commit::amend(&mut ws, t3.hash, None).expect("amend mid-branch");
    assert_eq!(amended.id.seq, 1);
    assert_eq!(amended.ver, 3);
    assert_eq!(amended.treehash, t3.hash);
    let after = Branch::get_by_name(&ws, "main").expect("main");
    assert_eq!(after.headseq, 2);
    assert_eq!(after.ver, 4);
    let bumped = commit_get(&ws, CommitID { branch: main.id, seq: 2 }, 4).expect("bumped");
    assert_eq!(bumped.ver, 4);
    assert_eq!(bumped.treehash, t2.hash);
    assert_eq!(bumped.message, "second");
    // Readers pinned to the old branch version still see the old content.
    let old1 = commit_get(&ws, CommitID { branch: main.id, seq: 1 }, 2).expect("old seq 1");
    assert_eq!(old1.ver, 1);
    assert_eq!(old1.treehash, t1.hash);
    let old2 = commit_get(&ws, CommitID { branch: main.id, seq: 2 }, 2).expect("old seq 2");
    assert_eq!(old2.ver, 2);
    assert_eq!(old2.treehash, t2.hash);
    // A rebuild leaves the pointer with the marker cleared.
    let cur = CurrentCommitSpec::get(&ws).expect("current");
    assert!(!cur.is_rebuild());
}
