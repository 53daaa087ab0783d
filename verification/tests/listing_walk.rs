use vx::blob::Blob;
use vx::errors::TreeError;
use vx::listing::{build_listing, EntryKind, RawEntry};
use vx::tree::{check_files_sorted, check_folders_sorted, default_tree, File, Folder, Tree};
use vx::walk::{
    checkout_level, diff_level, join_rel, materialize_level, Change, ChangeAction, ChangeType,
    CheckoutStep, HashedFile,
};

fn entry(name: &str, kind: EntryKind) -> RawEntry {
    RawEntry { name: String::from(name), kind }
}

fn plain_tree(folders: Vec<Folder>, files: Vec<File>) -> Tree {
    let mut t = default_tree();
    t.folders = folders;
    t.files = files;
    t
}

#[test]
fn listing_sorts_names_byte_wise() {
    let entries = vec![
        entry("zeta", EntryKind::Dir),
        entry("b.txt", EntryKind::File),
        entry("alpha", EntryKind::Dir),
        entry("a.txt", EntryKind::File),
    ];
    let l = build_listing(&entries).expect("listing");
    assert_eq!(l.dirs, vec![String::from("alpha"), String::from("zeta")]);
    assert_eq!(l.files, vec![String::from("a.txt"), String::from("b.txt")]);
}

#[test]
fn listing_skips_reserved_folders() {
    let entries = vec![
        entry(".vx", EntryKind::Dir),
        entry(".vxtemp", EntryKind::Dir),
        entry("src", EntryKind::Dir),
        entry(".vxother", EntryKind::Dir),
    ];
    let l = build_listing(&entries).expect("listing");
    assert_eq!(l.dirs, vec![String::from(".vxother"), String::from("src")]);
    assert!(l.files.is_empty());
}

#[test]
fn listing_rejects_symlinks() {
    let entries = vec![
        entry("ok.txt", EntryKind::File),
        entry("link", EntryKind::Symlink),
    ];
    match build_listing(&entries) {
        Err(TreeError::SymlinkNotSupported(name)) => assert_eq!(name, "link"),
        other => panic!("expected symlink rejection, got {:?}", other),
    }
}

#[test]
fn reserved_symlink_is_skipped_not_rejected() {
    let entries = vec![entry(".vx", EntryKind::Symlink), entry("a", EntryKind::File)];
    let l = build_listing(&entries).expect("listing");
    assert_eq!(l.files, vec![String::from("a")]);
}

#[test]
fn new_first_file_keeps_listing_sorted() {
    let entries = vec![
        entry("m.txt", EntryKind::File),
        entry("z.txt", EntryKind::File),
        entry("a.txt", EntryKind::File),
    ];
    let l = build_listing(&entries).expect("listing");
    assert_eq!(
        l.files,
        vec![String::from("a.txt"), String::from("m.txt"), String::from("z.txt")]
    );
    let files: Vec<File> = l
        .files
        .iter()
        .map(|n| File { name: n.clone(), blob: Blob { contenthash: 1, size: 1 } })
        .collect();
    assert!(check_files_sorted(&files));
}

#[test]
fn sorted_checkers_spot_disorder() {
    let bad = vec![
        Folder { name: String::from("b"), hash: 1 },
        Folder { name: String::from("a"), hash: 2 },
    ];
    assert!(!check_folders_sorted(&bad));
    let dup = vec![
        File { name: String::from("a"), blob: Blob { contenthash: 1, size: 1 } },
        File { name: String::from("a"), blob: Blob { contenthash: 1, size: 1 } },
    ];
    assert!(!check_files_sorted(&dup));
}

#[test]
fn join_uses_slash_and_skips_empty_root() {
    assert_eq!(join_rel(&String::new(), "a.txt"), "a.txt");
    assert_eq!(join_rel(&String::from("sub"), "a.txt"), "sub/a.txt");
}

#[test]
fn rename_shows_as_delete_then_add() {
    // A rename of a.txt to b.txt on disk: pure delete plus add, with the
    // trailing addition carrying the file's real digest.
    let d_a: u128 = 0x1234;
    let node = plain_tree(
        vec![],
        vec![File { name: String::from("a.txt"), blob: Blob { contenthash: d_a, size: 2 } }],
    );
    let fs_files = vec![HashedFile { name: String::from("b.txt"), hash: d_a }];
    let (changes, recurse) = diff_level(&node, &vec![], &fs_files, &String::new());
    assert!(recurse.is_empty());
    assert_eq!(changes.len(), 2);
    assert!(matches!(changes[0].action, ChangeAction::Deleted));
    assert!(matches!(changes[0].change_type, ChangeType::File));
    assert_eq!(changes[0].path, "a.txt");
    assert_eq!(changes[0].contenthash, d_a);
    assert!(matches!(changes[1].action, ChangeAction::Added));
    assert!(matches!(changes[1].change_type, ChangeType::File));
    assert_eq!(changes[1].path, "b.txt");
    assert_eq!(changes[1].contenthash, d_a);
}

#[test]
fn identical_level_shows_no_changes() {
    let node = plain_tree(
        vec![Folder { name: String::from("sub"), hash: 9 }],
        vec![File { name: String::from("a.txt"), blob: Blob { contenthash: 7, size: 1 } }],
    );
    let fs_dirs = vec![String::from("sub")];
    let fs_files = vec![HashedFile { name: String::from("a.txt"), hash: 7 }];
    let (changes, recurse) = diff_level(&node, &fs_dirs, &fs_files, &String::new());
    assert!(changes.is_empty());
    assert_eq!(recurse.len(), 1);
    assert_eq!(recurse[0].name, "sub");
    assert_eq!(recurse[0].hash, 9);
}

#[test]
fn modified_file_carries_new_digest() {
    let node = plain_tree(
        vec![],
        vec![File { name: String::from("a.txt"), blob: Blob { contenthash: 7, size: 1 } }],
    );
    let fs_files = vec![HashedFile { name: String::from("a.txt"), hash: 8 }];
    let (changes, _) = diff_level(&node, &vec![], &fs_files, &String::from("d"));
    assert_eq!(changes.len(), 1);
    assert!(matches!(changes[0].action, ChangeAction::Modified));
    assert_eq!(changes[0].path, "d/a.txt");
    assert_eq!(changes[0].contenthash, 8);
}

#[test]
fn checkout_plan_restores_the_stored_level() {
    let node = plain_tree(
        vec![Folder { name: String::from("keep"), hash: 3 }],
        vec![
            File { name: String::from("a.txt"), blob: Blob { contenthash: 10, size: 1 } },
            File { name: String::from("c.txt"), blob: Blob { contenthash: 12, size: 1 } },
        ],
    );
    // On disk: an extra dir, the matched dir, a modified a.txt, an extra
    // b.txt, and c.txt missing.
    let fs_dirs = vec![String::from("extra"), String::from("keep")];
    let fs_files = vec![
        HashedFile { name: String::from("a.txt"), hash: 11 },
        HashedFile { name: String::from("b.txt"), hash: 5 },
    ];
    let steps = checkout_level(&node, &fs_dirs, &fs_files, &String::new());
    assert_eq!(
        steps,
        vec![
            CheckoutStep::RemoveDirAll(String::from("extra")),
            CheckoutStep::EnterDir(String::from("keep"), 3),
            CheckoutStep::WriteBlob(String::from("a.txt"), 10),
            CheckoutStep::RemoveFile(String::from("b.txt")),
            CheckoutStep::WriteBlob(String::from("c.txt"), 12),
        ]
    );
}

#[test]
fn checkout_plan_keeps_identical_files() {
    let node = plain_tree(
        vec![],
        vec![File { name: String::from("same.txt"), blob: Blob { contenthash: 4, size: 1 } }],
    );
    let fs_files = vec![HashedFile { name: String::from("same.txt"), hash: 4 }];
    let steps = checkout_level(&node, &vec![], &fs_files, &String::new());
    assert!(steps.is_empty());
}

#[test]
fn materialize_plans_dir_then_children() {
    let node = plain_tree(
        vec![Folder { name: String::from("sub"), hash: 21 }],
        vec![File { name: String::from("f"), blob: Blob { contenthash: 22, size: 1 } }],
    );
    let steps = materialize_level(&node, &String::from("new"));
    assert_eq!(
        steps,
        vec![
            CheckoutStep::MakeDir(String::from("new")),
            CheckoutStep::MaterializeDir(String::from("new/sub"), 21),
            CheckoutStep::WriteBlob(String::from("new/f"), 22),
        ]
    );
}

#[test]
fn status_output_types_are_plain_values() {
    let c = Change {
        action: ChangeAction::Added,
        path: String::from("x"),
        change_type: ChangeType::Folder,
        contenthash: 0,
    };
    assert!(matches!(c.action, ChangeAction::Added));
    assert!(matches!(c.change_type, ChangeType::Folder));
}
