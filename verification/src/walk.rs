//! The two-cursor walk: an in-order merge of a sorted directory listing
//! and a stored tree node, the shared engine behind status and checkout.
//!
//! Each function here handles one directory level and returns plain
//! values: the changes seen, the filesystem actions to take, and the
//! matched subfolders to walk into next.  The caller owns the recursion
//! and the filesystem.

use vstd::prelude::*;
use vstd::utf8::encode_utf8;
use crate::bytes::{spec_cmp, bytes_cmp, Cmp};
use crate::digest::DIGEST_NONE;
use crate::tree::{FileV, Folder, FolderV, Tree, folder_views, file_views};

verus! {

/// What happened to an entry, seen from the filesystem side.
#[derive(Debug, Clone, Copy, PartialEq, Eq, Structural)]
pub enum ChangeAction {
    Added,
    Deleted,
    Modified,
}

/// Whether a change concerns a file or a folder.
#[derive(Debug, Clone, Copy, PartialEq, Eq, Structural)]
pub enum ChangeType {
    File,
    Folder,
}

/// One difference between the filesystem and a stored tree.
#[derive(Debug, Clone)]
pub struct Change {
    pub action: ChangeAction,
    pub path: String,
    pub change_type: ChangeType,
    pub contenthash: u128,
}

pub struct ChangeV {
    pub action: ChangeAction,
    pub path: Seq<char>,
    pub change_type: ChangeType,
    pub contenthash: u128,
}

impl View for Change {
    type V = ChangeV;

    open spec fn view(&self) -> ChangeV {
        ChangeV {
            action: self.action,
            path: self.path@,
            change_type: self.change_type,
            contenthash: self.contenthash,
        }
    }
}

pub open spec fn change_views(s: Seq<Change>) -> Seq<ChangeV> {
    s.map_values(|c: Change| c@)
}

/// A file on disk together with its content digest.
#[derive(Debug, Clone)]
pub struct HashedFile {
    pub name: String,
    pub hash: u128,
}

pub struct HashedFileV {
    pub name: Seq<char>,
    pub hash: u128,
}

impl View for HashedFile {
    type V = HashedFileV;

    open spec fn view(&self) -> HashedFileV {
        HashedFileV { name: self.name@, hash: self.hash }
    }
}

pub open spec fn hashed_views(s: Seq<HashedFile>) -> Seq<HashedFileV> {
    s.map_values(|f: HashedFile| f@)
}

/// A path below the checkout root, `/`-joined; the root itself is empty.
pub open spec fn spec_join(dir: Seq<char>, name: Seq<char>) -> Seq<char> {
    if dir.len() == 0 {
        name
    } else {
        dir + seq!['/'] + name
    }
}

/// Joins a relative directory path and an entry name.
pub fn join_rel(dir: &String, name: &str) -> (r: String)
    ensures
        r@ == spec_join(dir@, name@),
{
    if dir.as_str().is_empty() {
        String::from_str(name)
    } else {
        crate::workspace::join_path(dir, name)
    }
}

// ---------------------------------------------------------------------------
// Status: the difference lists
// ---------------------------------------------------------------------------
/// The merge over the folder cursors: equal names match (and are walked
/// into later), a filesystem-only name is an addition, a stored-only name
/// a deletion.
pub open spec fn spec_dir_changes(fs: Seq<Seq<char>>, vx: Seq<FolderV>, dir: Seq<char>) -> Seq<
    ChangeV,
>
    decreases fs.len() + vx.len(),
{
    if fs.len() == 0 && vx.len() == 0 {
        Seq::empty()
    } else if fs.len() == 0 {
        seq![
            ChangeV {
                action: ChangeAction::Deleted,
                path: spec_join(dir, vx[0].name),
                change_type: ChangeType::Folder,
                contenthash: vx[0].hash,
            },
        ] + spec_dir_changes(fs, vx.drop_first(), dir)
    } else if vx.len() == 0 {
        seq![
            ChangeV {
                action: ChangeAction::Added,
                path: spec_join(dir, fs[0]),
                change_type: ChangeType::Folder,
                contenthash: DIGEST_NONE,
            },
        ] + spec_dir_changes(fs.drop_first(), vx, dir)
    } else {
        let c = spec_cmp(encode_utf8(fs[0]), encode_utf8(vx[0].name));
        if c is Eq {
            spec_dir_changes(fs.drop_first(), vx.drop_first(), dir)
        } else if c is Lt {
            seq![
                ChangeV {
                    action: ChangeAction::Added,
                    path: spec_join(dir, fs[0]),
                    change_type: ChangeType::Folder,
                    contenthash: DIGEST_NONE,
                },
            ] + spec_dir_changes(fs.drop_first(), vx, dir)
        } else {
            seq![
                ChangeV {
                    action: ChangeAction::Deleted,
                    path: spec_join(dir, vx[0].name),
                    change_type: ChangeType::Folder,
                    contenthash: vx[0].hash,
                },
            ] + spec_dir_changes(fs, vx.drop_first(), dir)
        }
    }
}

/// The matched folder pairs the walk descends into, in order: the
/// filesystem name with the stored child digest.
pub open spec fn spec_dir_matches(fs: Seq<Seq<char>>, vx: Seq<FolderV>) -> Seq<FolderV>
    decreases fs.len() + vx.len(),
{
    if fs.len() == 0 || vx.len() == 0 {
        Seq::empty()
    } else {
        let c = spec_cmp(encode_utf8(fs[0]), encode_utf8(vx[0].name));
        if c is Eq {
            seq![FolderV { name: fs[0], hash: vx[0].hash }] + spec_dir_matches(
                fs.drop_first(),
                vx.drop_first(),
            )
        } else if c is Lt {
            spec_dir_matches(fs.drop_first(), vx)
        } else {
            spec_dir_matches(fs, vx.drop_first())
        }
    }
}

/// The merge over the file cursors: a name on both sides is compared by
/// digest, a filesystem-only name is an addition, a stored-only name a
/// deletion.  An addition that interleaves with stored names carries the
/// absent digest; a trailing addition carries the file's real digest.
pub open spec fn spec_file_changes(fs: Seq<HashedFileV>, vx: Seq<FileV>, dir: Seq<char>) -> Seq<
    ChangeV,
>
    decreases fs.len() + vx.len(),
{
    if fs.len() == 0 && vx.len() == 0 {
        Seq::empty()
    } else if fs.len() == 0 {
        seq![
            ChangeV {
                action: ChangeAction::Deleted,
                path: spec_join(dir, vx[0].name),
                change_type: ChangeType::File,
                contenthash: vx[0].blob.contenthash,
            },
        ] + spec_file_changes(fs, vx.drop_first(), dir)
    } else if vx.len() == 0 {
        seq![
            ChangeV {
                action: ChangeAction::Added,
                path: spec_join(dir, fs[0].name),
                change_type: ChangeType::File,
                contenthash: fs[0].hash,
            },
        ] + spec_file_changes(fs.drop_first(), vx, dir)
    } else {
        let c = spec_cmp(encode_utf8(fs[0].name), encode_utf8(vx[0].name));
        if c is Eq {
            if fs[0].hash != vx[0].blob.contenthash {
                seq![
                    ChangeV {
                        action: ChangeAction::Modified,
                        path: spec_join(dir, fs[0].name),
                        change_type: ChangeType::File,
                        contenthash: fs[0].hash,
                    },
                ] + spec_file_changes(fs.drop_first(), vx.drop_first(), dir)
            } else {
                spec_file_changes(fs.drop_first(), vx.drop_first(), dir)
            }
        } else if c is Lt {
            seq![
                ChangeV {
                    action: ChangeAction::Added,
                    path: spec_join(dir, fs[0].name),
                    change_type: ChangeType::File,
                    contenthash: DIGEST_NONE,
                },
            ] + spec_file_changes(fs.drop_first(), vx, dir)
        } else {
            seq![
                ChangeV {
                    action: ChangeAction::Deleted,
                    path: spec_join(dir, vx[0].name),
                    change_type: ChangeType::File,
                    contenthash: vx[0].blob.contenthash,
                },
            ] + spec_file_changes(fs, vx.drop_first(), dir)
        }
    }
}

/// Diffs one directory level against a stored node: the folder and file
/// changes, and the matched subfolders to recurse into.
pub fn diff_level(node: &Tree, fs_dirs: &Vec<String>, fs_files: &Vec<HashedFile>, dir: &String)
    -> (r: (Vec<Change>, Vec<Folder>))
    ensures
        change_views(r.0@) == spec_dir_changes(
            crate::listing::names_of(fs_dirs@),
            folder_views(node.folders@),
            dir@,
        ) + spec_file_changes(hashed_views(fs_files@), file_views(node.files@), dir@),
        folder_views(r.1@) == spec_dir_matches(
            crate::listing::names_of(fs_dirs@),
            folder_views(node.folders@),
        ),
{
    let ghost fsn = crate::listing::names_of(fs_dirs@);
    let ghost vxn = folder_views(node.folders@);
    let mut changes: Vec<Change> = Vec::new();
    let mut matches: Vec<Folder> = Vec::new();
    let fslen = fs_dirs.len();
    let vxlen = node.folders.len();
    let mut i: usize = 0;
    let mut j: usize = 0;
    proof {
        assert(fsn.skip(0) =~= fsn);
        assert(vxn.skip(0) =~= vxn);
        assert(change_views(changes@) =~= Seq::<ChangeV>::empty());
        assert(folder_views(matches@) =~= Seq::<FolderV>::empty());
    }
    while i < fslen || j < vxlen
        invariant
            i <= fslen,
            j <= vxlen,
            fslen == fs_dirs@.len(),
            vxlen == node.folders@.len(),
            fsn == crate::listing::names_of(fs_dirs@),
            vxn == folder_views(node.folders@),
            change_views(changes@) + spec_dir_changes(
                fsn.skip(i as int),
                vxn.skip(j as int),
                dir@,
            ) == spec_dir_changes(fsn, vxn, dir@),
            folder_views(matches@) + spec_dir_matches(fsn.skip(i as int), vxn.skip(j as int))
                == spec_dir_matches(fsn, vxn),
        decreases (fslen - i) + (vxlen - j),
    {
        proof {
            if i < fslen {
                assert(fsn.skip(i as int)[0] == fsn[i as int]);
                assert(fsn.skip(i as int).drop_first() =~= fsn.skip(i + 1));
            }
            if j < vxlen {
                assert(vxn.skip(j as int)[0] == vxn[j as int]);
                assert(vxn.skip(j as int).drop_first() =~= vxn.skip(j + 1));
            }
        }
        if i >= fslen {
            let f = &node.folders[j];
            let c = Change {
                action: ChangeAction::Deleted,
                path: join_rel(dir, f.name.as_str()),
                change_type: ChangeType::Folder,
                contenthash: f.hash,
            };
            proof {
                assert(change_views(changes@.push(c)) =~= change_views(changes@) + seq![c@]);
            }
            changes.push(c);
            j = j + 1;
        } else if j >= vxlen {
            let c = Change {
                action: ChangeAction::Added,
                path: join_rel(dir, fs_dirs[i].as_str()),
                change_type: ChangeType::Folder,
                contenthash: DIGEST_NONE,
            };
            proof {
                assert(change_views(changes@.push(c)) =~= change_views(changes@) + seq![c@]);
            }
            changes.push(c);
            i = i + 1;
        } else {
            let cmp = bytes_cmp(
                fs_dirs[i].as_str().as_bytes(),
                node.folders[j].name.as_str().as_bytes(),
            );
            match cmp {
                Cmp::Eq => {
                    let m = Folder { name: fs_dirs[i].clone(), hash: node.folders[j].hash };
                    proof {
                        assert(folder_views(matches@.push(m)) =~= folder_views(matches@)
                            + seq![m@]);
                    }
                    matches.push(m);
                    i = i + 1;
                    j = j + 1;
                },
                Cmp::Lt => {
                    let c = Change {
                        action: ChangeAction::Added,
                        path: join_rel(dir, fs_dirs[i].as_str()),
                        change_type: ChangeType::Folder,
                        contenthash: DIGEST_NONE,
                    };
                    proof {
                        assert(change_views(changes@.push(c)) =~= change_views(changes@)
                            + seq![c@]);
                    }
                    changes.push(c);
                    i = i + 1;
                },
                Cmp::Gt => {
                    let f = &node.folders[j];
                    let c = Change {
                        action: ChangeAction::Deleted,
                        path: join_rel(dir, f.name.as_str()),
                        change_type: ChangeType::Folder,
                        contenthash: f.hash,
                    };
                    proof {
                        assert(change_views(changes@.push(c)) =~= change_views(changes@)
                            + seq![c@]);
                    }
                    changes.push(c);
                    j = j + 1;
                },
            }
        }
    }
    proof {
        assert(fsn.skip(fslen as int) =~= Seq::<Seq<char>>::empty());
        assert(vxn.skip(vxlen as int) =~= Seq::<FolderV>::empty());
        assert(change_views(changes@) + Seq::<ChangeV>::empty() =~= change_views(changes@));
        assert(folder_views(matches@) + Seq::<FolderV>::empty() =~= folder_views(matches@));
    }
    let ghost fsf = hashed_views(fs_files@);
    let ghost vxf = file_views(node.files@);
    let flen = fs_files.len();
    let vlen = node.files.len();
    let mut a: usize = 0;
    let mut b: usize = 0;
    let ghost dir_part = change_views(changes@);
    proof {
        assert(fsf.skip(0) =~= fsf);
        assert(vxf.skip(0) =~= vxf);
    }
    while a < flen || b < vlen
        invariant
            a <= flen,
            b <= vlen,
            flen == fs_files@.len(),
            vlen == node.files@.len(),
            fsf == hashed_views(fs_files@),
            vxf == file_views(node.files@),
            dir_part == spec_dir_changes(
                crate::listing::names_of(fs_dirs@),
                folder_views(node.folders@),
                dir@,
            ),
            change_views(changes@) + spec_file_changes(
                fsf.skip(a as int),
                vxf.skip(b as int),
                dir@,
            ) == dir_part + spec_file_changes(fsf, vxf, dir@),
        decreases (flen - a) + (vlen - b),
    {
        proof {
            if a < flen {
                assert(fsf.skip(a as int)[0] == fsf[a as int]);
                assert(fsf.skip(a as int).drop_first() =~= fsf.skip(a + 1));
            }
            if b < vlen {
                assert(vxf.skip(b as int)[0] == vxf[b as int]);
                assert(vxf.skip(b as int).drop_first() =~= vxf.skip(b + 1));
            }
        }
        if a >= flen {
            let f = &node.files[b];
            let c = Change {
                action: ChangeAction::Deleted,
                path: join_rel(dir, f.name.as_str()),
                change_type: ChangeType::File,
                contenthash: f.blob.contenthash,
            };
            proof {
                assert(change_views(changes@.push(c)) =~= change_views(changes@) + seq![c@]);
            }
            changes.push(c);
            b = b + 1;
        } else if b >= vlen {
            let f = &fs_files[a];
            let c = Change {
                action: ChangeAction::Added,
                path: join_rel(dir, f.name.as_str()),
                change_type: ChangeType::File,
                contenthash: f.hash,
            };
            proof {
                assert(change_views(changes@.push(c)) =~= change_views(changes@) + seq![c@]);
            }
            changes.push(c);
            a = a + 1;
        } else {
            let cmp = bytes_cmp(
                fs_files[a].name.as_str().as_bytes(),
                node.files[b].name.as_str().as_bytes(),
            );
            match cmp {
                Cmp::Eq => {
                    if fs_files[a].hash != node.files[b].blob.contenthash {
                        let f = &fs_files[a];
                        let c = Change {
                            action: ChangeAction::Modified,
                            path: join_rel(dir, f.name.as_str()),
                            change_type: ChangeType::File,
                            contenthash: f.hash,
                        };
                        proof {
                            assert(change_views(changes@.push(c)) =~= change_views(changes@)
                                + seq![c@]);
                        }
                        changes.push(c);
                    }
                    a = a + 1;
                    b = b + 1;
                },
                Cmp::Lt => {
                    let f = &fs_files[a];
                    let c = Change {
                        action: ChangeAction::Added,
                        path: join_rel(dir, f.name.as_str()),
                        change_type: ChangeType::File,
                        contenthash: DIGEST_NONE,
                    };
                    proof {
                        assert(change_views(changes@.push(c)) =~= change_views(changes@)
                            + seq![c@]);
                    }
                    changes.push(c);
                    a = a + 1;
                },
                Cmp::Gt => {
                    let f = &node.files[b];
                    let c = Change {
                        action: ChangeAction::Deleted,
                        path: join_rel(dir, f.name.as_str()),
                        change_type: ChangeType::File,
                        contenthash: f.blob.contenthash,
                    };
                    proof {
                        assert(change_views(changes@.push(c)) =~= change_views(changes@)
                            + seq![c@]);
                    }
                    changes.push(c);
                    b = b + 1;
                },
            }
        }
    }
    proof {
        assert(fsf.skip(flen as int) =~= Seq::<HashedFileV>::empty());
        assert(vxf.skip(vlen as int) =~= Seq::<FileV>::empty());
        assert(change_views(changes@) + Seq::<ChangeV>::empty() =~= change_views(changes@));
    }
    (changes, matches)
}

// ---------------------------------------------------------------------------
// Checkout: the action plans
// ---------------------------------------------------------------------------
/// One filesystem action of a checkout plan, with paths relative to the
/// checkout root.
#[derive(Debug, Clone, PartialEq)]
pub enum CheckoutStep {
    /// Remove a directory and everything below it.
    RemoveDirAll(String),
    /// Remove a single file.
    RemoveFile(String),
    /// Write the blob with this digest to this path.
    WriteBlob(String, u128),
    /// Create a directory.
    MakeDir(String),
    /// Walk into a matched directory and plan it against this stored node.
    EnterDir(String, u128),
    /// Materialize this stored node under a directory that is absent.
    MaterializeDir(String, u128),
}

pub enum CheckoutStepV {
    RemoveDirAll(Seq<char>),
    RemoveFile(Seq<char>),
    WriteBlob(Seq<char>, u128),
    MakeDir(Seq<char>),
    EnterDir(Seq<char>, u128),
    MaterializeDir(Seq<char>, u128),
}

impl View for CheckoutStep {
    type V = CheckoutStepV;

    open spec fn view(&self) -> CheckoutStepV {
        match self {
            CheckoutStep::RemoveDirAll(p) => CheckoutStepV::RemoveDirAll(p@),
            CheckoutStep::RemoveFile(p) => CheckoutStepV::RemoveFile(p@),
            CheckoutStep::WriteBlob(p, h) => CheckoutStepV::WriteBlob(p@, *h),
            CheckoutStep::MakeDir(p) => CheckoutStepV::MakeDir(p@),
            CheckoutStep::EnterDir(p, h) => CheckoutStepV::EnterDir(p@, *h),
            CheckoutStep::MaterializeDir(p, h) => CheckoutStepV::MaterializeDir(p@, *h),
        }
    }
}

pub open spec fn step_views(s: Seq<CheckoutStep>) -> Seq<CheckoutStepV> {
    s.map_values(|c: CheckoutStep| c@)
}

/// The folder side of a checkout: a filesystem-only folder is removed, a
/// stored-only folder is materialized unconditionally, a matched pair is
/// walked into.
pub open spec fn spec_checkout_dirs(fs: Seq<Seq<char>>, vx: Seq<FolderV>, dir: Seq<char>) -> Seq<
    CheckoutStepV,
>
    decreases fs.len() + vx.len(),
{
    if fs.len() == 0 && vx.len() == 0 {
        Seq::empty()
    } else if fs.len() == 0 {
        seq![CheckoutStepV::MaterializeDir(spec_join(dir, vx[0].name), vx[0].hash)]
            + spec_checkout_dirs(fs, vx.drop_first(), dir)
    } else if vx.len() == 0 {
        seq![CheckoutStepV::RemoveDirAll(spec_join(dir, fs[0]))] + spec_checkout_dirs(
            fs.drop_first(),
            vx,
            dir,
        )
    } else {
        let c = spec_cmp(encode_utf8(fs[0]), encode_utf8(vx[0].name));
        if c is Eq {
            seq![CheckoutStepV::EnterDir(spec_join(dir, fs[0]), vx[0].hash)] + spec_checkout_dirs(
                fs.drop_first(),
                vx.drop_first(),
                dir,
            )
        } else if c is Lt {
            seq![CheckoutStepV::RemoveDirAll(spec_join(dir, fs[0]))] + spec_checkout_dirs(
                fs.drop_first(),
                vx,
                dir,
            )
        } else {
            seq![CheckoutStepV::MaterializeDir(spec_join(dir, vx[0].name), vx[0].hash)]
                + spec_checkout_dirs(fs, vx.drop_first(), dir)
        }
    }
}

/// The file side of a checkout: a filesystem-only file is removed, a
/// stored-only file is written, a matched pair is overwritten only when
/// the digests differ.
pub open spec fn spec_checkout_files(fs: Seq<HashedFileV>, vx: Seq<FileV>, dir: Seq<char>) -> Seq<
    CheckoutStepV,
>
    decreases fs.len() + vx.len(),
{
    if fs.len() == 0 && vx.len() == 0 {
        Seq::empty()
    } else if fs.len() == 0 {
        seq![CheckoutStepV::WriteBlob(spec_join(dir, vx[0].name), vx[0].blob.contenthash)]
            + spec_checkout_files(fs, vx.drop_first(), dir)
    } else if vx.len() == 0 {
        seq![CheckoutStepV::RemoveFile(spec_join(dir, fs[0].name))] + spec_checkout_files(
            fs.drop_first(),
            vx,
            dir,
        )
    } else {
        let c = spec_cmp(encode_utf8(fs[0].name), encode_utf8(vx[0].name));
        if c is Eq {
            if fs[0].hash != vx[0].blob.contenthash {
                seq![
                    CheckoutStepV::WriteBlob(spec_join(dir, fs[0].name), vx[0].blob.contenthash),
                ] + spec_checkout_files(fs.drop_first(), vx.drop_first(), dir)
            } else {
                spec_checkout_files(fs.drop_first(), vx.drop_first(), dir)
            }
        } else if c is Lt {
            seq![CheckoutStepV::RemoveFile(spec_join(dir, fs[0].name))] + spec_checkout_files(
                fs.drop_first(),
                vx,
                dir,
            )
        } else {
            seq![CheckoutStepV::WriteBlob(spec_join(dir, vx[0].name), vx[0].blob.contenthash)]
                + spec_checkout_files(fs, vx.drop_first(), dir)
        }
    }
}

/// Plans one directory level of a checkout: folder actions, then file
/// actions.
pub fn checkout_level(node: &Tree, fs_dirs: &Vec<String>, fs_files: &Vec<HashedFile>, dir: &String)
    -> (r: Vec<CheckoutStep>)
    ensures
        step_views(r@) == spec_checkout_dirs(
            crate::listing::names_of(fs_dirs@),
            folder_views(node.folders@),
            dir@,
        ) + spec_checkout_files(hashed_views(fs_files@), file_views(node.files@), dir@),
{
    let ghost fsn = crate::listing::names_of(fs_dirs@);
    let ghost vxn = folder_views(node.folders@);
    let mut steps: Vec<CheckoutStep> = Vec::new();
    let fslen = fs_dirs.len();
    let vxlen = node.folders.len();
    let mut i: usize = 0;
    let mut j: usize = 0;
    proof {
        assert(fsn.skip(0) =~= fsn);
        assert(vxn.skip(0) =~= vxn);
        assert(step_views(steps@) =~= Seq::<CheckoutStepV>::empty());
    }
    while i < fslen || j < vxlen
        invariant
            i <= fslen,
            j <= vxlen,
            fslen == fs_dirs@.len(),
            vxlen == node.folders@.len(),
            fsn == crate::listing::names_of(fs_dirs@),
            vxn == folder_views(node.folders@),
            step_views(steps@) + spec_checkout_dirs(fsn.skip(i as int), vxn.skip(j as int), dir@)
                == spec_checkout_dirs(fsn, vxn, dir@),
        decreases (fslen - i) + (vxlen - j),
    {
        proof {
            if i < fslen {
                assert(fsn.skip(i as int)[0] == fsn[i as int]);
                assert(fsn.skip(i as int).drop_first() =~= fsn.skip(i + 1));
            }
            if j < vxlen {
                assert(vxn.skip(j as int)[0] == vxn[j as int]);
                assert(vxn.skip(j as int).drop_first() =~= vxn.skip(j + 1));
            }
        }
        if i >= fslen {
            let f = &node.folders[j];
            let s = CheckoutStep::MaterializeDir(join_rel(dir, f.name.as_str()), f.hash);
            proof {
                assert(step_views(steps@.push(s)) =~= step_views(steps@) + seq![s@]);
            }
            steps.push(s);
            j = j + 1;
        } else if j >= vxlen {
            let s = CheckoutStep::RemoveDirAll(join_rel(dir, fs_dirs[i].as_str()));
            proof {
                assert(step_views(steps@.push(s)) =~= step_views(steps@) + seq![s@]);
            }
            steps.push(s);
            i = i + 1;
        } else {
            let cmp = bytes_cmp(
                fs_dirs[i].as_str().as_bytes(),
                node.folders[j].name.as_str().as_bytes(),
            );
            match cmp {
                Cmp::Eq => {
                    let s = CheckoutStep::EnterDir(
                        join_rel(dir, fs_dirs[i].as_str()),
                        node.folders[j].hash,
                    );
                    proof {
                        assert(step_views(steps@.push(s)) =~= step_views(steps@) + seq![s@]);
                    }
                    steps.push(s);
                    i = i + 1;
                    j = j + 1;
                },
                Cmp::Lt => {
                    let s = CheckoutStep::RemoveDirAll(join_rel(dir, fs_dirs[i].as_str()));
                    proof {
                        assert(step_views(steps@.push(s)) =~= step_views(steps@) + seq![s@]);
                    }
                    steps.push(s);
                    i = i + 1;
                },
                Cmp::Gt => {
                    let f = &node.folders[j];
                    let s = CheckoutStep::MaterializeDir(join_rel(dir, f.name.as_str()), f.hash);
                    proof {
                        assert(step_views(steps@.push(s)) =~= step_views(steps@) + seq![s@]);
                    }
                    steps.push(s);
                    j = j + 1;
                },
            }
        }
    }
    proof {
        assert(fsn.skip(fslen as int) =~= Seq::<Seq<char>>::empty());
        assert(vxn.skip(vxlen as int) =~= Seq::<FolderV>::empty());
        assert(step_views(steps@) + Seq::<CheckoutStepV>::empty() =~= step_views(steps@));
    }
    let ghost fsf = hashed_views(fs_files@);
    let ghost vxf = file_views(node.files@);
    let flen = fs_files.len();
    let vlen = node.files.len();
    let mut a: usize = 0;
    let mut b: usize = 0;
    let ghost dir_part = step_views(steps@);
    proof {
        assert(fsf.skip(0) =~= fsf);
        assert(vxf.skip(0) =~= vxf);
    }
    while a < flen || b < vlen
        invariant
            a <= flen,
            b <= vlen,
            flen == fs_files@.len(),
            vlen == node.files@.len(),
            fsf == hashed_views(fs_files@),
            vxf == file_views(node.files@),
            dir_part == spec_checkout_dirs(
                crate::listing::names_of(fs_dirs@),
                folder_views(node.folders@),
                dir@,
            ),
            step_views(steps@) + spec_checkout_files(
                fsf.skip(a as int),
                vxf.skip(b as int),
                dir@,
            ) == dir_part + spec_checkout_files(fsf, vxf, dir@),
        decreases (flen - a) + (vlen - b),
    {
        proof {
            if a < flen {
                assert(fsf.skip(a as int)[0] == fsf[a as int]);
                assert(fsf.skip(a as int).drop_first() =~= fsf.skip(a + 1));
            }
            if b < vlen {
                assert(vxf.skip(b as int)[0] == vxf[b as int]);
                assert(vxf.skip(b as int).drop_first() =~= vxf.skip(b + 1));
            }
        }
        if a >= flen {
            let f = &node.files[b];
            let s = CheckoutStep::WriteBlob(join_rel(dir, f.name.as_str()), f.blob.contenthash);
            proof {
                assert(step_views(steps@.push(s)) =~= step_views(steps@) + seq![s@]);
            }
            steps.push(s);
            b = b + 1;
        } else if b >= vlen {
            let s = CheckoutStep::RemoveFile(join_rel(dir, fs_files[a].name.as_str()));
            proof {
                assert(step_views(steps@.push(s)) =~= step_views(steps@) + seq![s@]);
            }
            steps.push(s);
            a = a + 1;
        } else {
            let cmp = bytes_cmp(
                fs_files[a].name.as_str().as_bytes(),
                node.files[b].name.as_str().as_bytes(),
            );
            match cmp {
                Cmp::Eq => {
                    if fs_files[a].hash != node.files[b].blob.contenthash {
                        let s = CheckoutStep::WriteBlob(
                            join_rel(dir, fs_files[a].name.as_str()),
                            node.files[b].blob.contenthash,
                        );
                        proof {
                            assert(step_views(steps@.push(s)) =~= step_views(steps@) + seq![s@]);
                        }
                        steps.push(s);
                    }
                    a = a + 1;
                    b = b + 1;
                },
                Cmp::Lt => {
                    let s = CheckoutStep::RemoveFile(join_rel(dir, fs_files[a].name.as_str()));
                    proof {
                        assert(step_views(steps@.push(s)) =~= step_views(steps@) + seq![s@]);
                    }
                    steps.push(s);
                    a = a + 1;
                },
                Cmp::Gt => {
                    let f = &node.files[b];
                    let s = CheckoutStep::WriteBlob(
                        join_rel(dir, f.name.as_str()),
                        f.blob.contenthash,
                    );
                    proof {
                        assert(step_views(steps@.push(s)) =~= step_views(steps@) + seq![s@]);
                    }
                    steps.push(s);
                    b = b + 1;
                },
            }
        }
    }
    proof {
        assert(fsf.skip(flen as int) =~= Seq::<HashedFileV>::empty());
        assert(vxf.skip(vlen as int) =~= Seq::<FileV>::empty());
        assert(step_views(steps@) + Seq::<CheckoutStepV>::empty() =~= step_views(steps@));
    }
    steps
}

/// The plan that materializes a stored node where nothing exists yet:
/// create the directory, recurse into every subfolder, write every file.
pub open spec fn spec_materialize_level(t: crate::tree::TreeV, dir: Seq<char>) -> Seq<
    CheckoutStepV,
> {
    seq![CheckoutStepV::MakeDir(dir)] + t.folders.map_values(
        |f: FolderV| CheckoutStepV::MaterializeDir(spec_join(dir, f.name), f.hash),
    ) + t.files.map_values(
        |f: FileV| CheckoutStepV::WriteBlob(spec_join(dir, f.name), f.blob.contenthash),
    )
}

/// Plans the unconditional materialization of one stored node.
pub fn materialize_level(node: &Tree, dir: &String) -> (r: Vec<CheckoutStep>)
    ensures
        step_views(r@) == spec_materialize_level(node@, dir@),
{
    let mut steps: Vec<CheckoutStep> = Vec::new();
    steps.push(CheckoutStep::MakeDir(dir.clone()));
    let n = node.folders.len();
    let mut i: usize = 0;
    proof {
        let t = node@;
        assert(step_views(steps@) =~= seq![CheckoutStepV::MakeDir(dir@)]);
        assert(t.folders.map_values(
            |f: FolderV| CheckoutStepV::MaterializeDir(spec_join(dir@, f.name), f.hash),
        ).take(0) =~= Seq::<CheckoutStepV>::empty());
    }
    while i < n
        invariant
            i <= n,
            n == node.folders@.len(),
            step_views(steps@) =~= seq![CheckoutStepV::MakeDir(dir@)] + folder_views(
                node.folders@,
            ).map_values(
                |f: FolderV| CheckoutStepV::MaterializeDir(spec_join(dir@, f.name), f.hash),
            ).take(i as int),
        decreases n - i,
    {
        let f = &node.folders[i];
        let s = CheckoutStep::MaterializeDir(join_rel(dir, f.name.as_str()), f.hash);
        proof {
            let m = folder_views(node.folders@).map_values(
                |f: FolderV| CheckoutStepV::MaterializeDir(spec_join(dir@, f.name), f.hash),
            );
            assert(m[i as int] == s@);
            assert(m.take(i + 1) =~= m.take(i as int).push(s@));
            assert(step_views(steps@.push(s)) =~= step_views(steps@) + seq![s@]);
        }
        steps.push(s);
        i = i + 1;
    }
    let k = node.files.len();
    let mut j: usize = 0;
    proof {
        let m = folder_views(node.folders@).map_values(
            |f: FolderV| CheckoutStepV::MaterializeDir(spec_join(dir@, f.name), f.hash),
        );
        assert(m.take(n as int) =~= m);
        assert(file_views(node.files@).map_values(
            |f: FileV| CheckoutStepV::WriteBlob(spec_join(dir@, f.name), f.blob.contenthash),
        ).take(0) =~= Seq::<CheckoutStepV>::empty());
    }
    while j < k
        invariant
            j <= k,
            k == node.files@.len(),
            step_views(steps@) =~= seq![CheckoutStepV::MakeDir(dir@)] + folder_views(
                node.folders@,
            ).map_values(
                |f: FolderV| CheckoutStepV::MaterializeDir(spec_join(dir@, f.name), f.hash),
            ) + file_views(node.files@).map_values(
                |f: FileV| CheckoutStepV::WriteBlob(spec_join(dir@, f.name), f.blob.contenthash),
            ).take(j as int),
        decreases k - j,
    {
        let f = &node.files[j];
        let s = CheckoutStep::WriteBlob(join_rel(dir, f.name.as_str()), f.blob.contenthash);
        proof {
            let m = file_views(node.files@).map_values(
                |f: FileV| CheckoutStepV::WriteBlob(spec_join(dir@, f.name), f.blob.contenthash),
            );
            assert(m[j as int] == s@);
            assert(m.take(j + 1) =~= m.take(j as int).push(s@));
            assert(step_views(steps@.push(s)) =~= step_views(steps@) + seq![s@]);
        }
        steps.push(s);
        j = j + 1;
    }
    proof {
        let m = file_views(node.files@).map_values(
            |f: FileV| CheckoutStepV::WriteBlob(spec_join(dir@, f.name), f.blob.contenthash),
        );
        assert(m.take(k as int) =~= m);
    }
    steps
}

// ---------------------------------------------------------------------------
// Restoration
// ---------------------------------------------------------------------------
/// The files a directory holds after its checkout plan runs: matched
/// files take the stored digest, filesystem-only files disappear,
/// stored-only files appear.
pub open spec fn spec_apply_files(fs: Seq<HashedFileV>, vx: Seq<FileV>) -> Seq<HashedFileV>
    decreases fs.len() + vx.len(),
{
    if vx.len() == 0 {
        Seq::empty()
    } else if fs.len() == 0 {
        seq![HashedFileV { name: vx[0].name, hash: vx[0].blob.contenthash }] + spec_apply_files(
            fs,
            vx.drop_first(),
        )
    } else {
        let c = spec_cmp(encode_utf8(fs[0].name), encode_utf8(vx[0].name));
        if c is Eq {
            seq![HashedFileV { name: vx[0].name, hash: vx[0].blob.contenthash }]
                + spec_apply_files(fs.drop_first(), vx.drop_first())
        } else if c is Lt {
            spec_apply_files(fs.drop_first(), vx)
        } else {
            seq![HashedFileV { name: vx[0].name, hash: vx[0].blob.contenthash }]
                + spec_apply_files(fs, vx.drop_first())
        }
    }
}

/// Round trip: whatever files a directory held before, after its
/// checkout plan runs it holds exactly the stored files, name for name
/// and digest for digest.  A snapshot of the restored state therefore
/// hashes back to the stored tree.
pub proof fn lemma_checkout_restores_files(fs: Seq<HashedFileV>, vx: Seq<FileV>)
    ensures
        spec_apply_files(fs, vx) == vx.map_values(
            |f: FileV| HashedFileV { name: f.name, hash: f.blob.contenthash },
        ),
    decreases fs.len() + vx.len(),
{
    let m = vx.map_values(|f: FileV| HashedFileV { name: f.name, hash: f.blob.contenthash });
    if vx.len() == 0 {
        assert(m =~= Seq::<HashedFileV>::empty());
    } else if fs.len() == 0 {
        lemma_checkout_restores_files(fs, vx.drop_first());
        assert(vx.drop_first().map_values(
            |f: FileV| HashedFileV { name: f.name, hash: f.blob.contenthash },
        ) =~= m.drop_first());
        assert(spec_apply_files(fs, vx) =~= m);
    } else {
        let c = spec_cmp(encode_utf8(fs[0].name), encode_utf8(vx[0].name));
        if c is Eq {
            lemma_checkout_restores_files(fs.drop_first(), vx.drop_first());
            assert(vx.drop_first().map_values(
                |f: FileV| HashedFileV { name: f.name, hash: f.blob.contenthash },
            ) =~= m.drop_first());
            assert(spec_apply_files(fs, vx) =~= m);
        } else if c is Lt {
            lemma_checkout_restores_files(fs.drop_first(), vx);
        } else {
            lemma_checkout_restores_files(fs, vx.drop_first());
            assert(vx.drop_first().map_values(
                |f: FileV| HashedFileV { name: f.name, hash: f.blob.contenthash },
            ) =~= m.drop_first());
            assert(spec_apply_files(fs, vx) =~= m);
        }
    }
}

/// Round trip, seen from status: diffing a directory level whose listing
/// mirrors the stored node exactly yields no changes, and walks into
/// every stored subfolder.
pub proof fn lemma_diff_clean_level(vx_dirs: Seq<FolderV>, vx_files: Seq<FileV>, dir: Seq<char>)
    ensures
        spec_dir_changes(vx_dirs.map_values(|f: FolderV| f.name), vx_dirs, dir) == Seq::<
            ChangeV,
        >::empty(),
        spec_dir_matches(vx_dirs.map_values(|f: FolderV| f.name), vx_dirs) == vx_dirs,
        spec_file_changes(
            vx_files.map_values(|f: FileV| HashedFileV { name: f.name, hash: f.blob.contenthash }),
            vx_files,
            dir,
        ) == Seq::<ChangeV>::empty(),
    decreases vx_dirs.len() + vx_files.len(),
{
    let fsd = vx_dirs.map_values(|f: FolderV| f.name);
    if vx_dirs.len() > 0 {
        crate::bytes::lemma_lex_irreflexive(encode_utf8(vx_dirs[0].name));
        assert(fsd[0] == vx_dirs[0].name);
        assert(fsd.drop_first() =~= vx_dirs.drop_first().map_values(|f: FolderV| f.name));
        lemma_diff_clean_level(vx_dirs.drop_first(), Seq::empty(), dir);
        assert(seq![FolderV { name: fsd[0], hash: vx_dirs[0].hash }] + vx_dirs.drop_first()
            =~= vx_dirs);
    } else {
        assert(fsd =~= Seq::<Seq<char>>::empty());
    }
    let fsf = vx_files.map_values(
        |f: FileV| HashedFileV { name: f.name, hash: f.blob.contenthash },
    );
    if vx_files.len() > 0 {
        crate::bytes::lemma_lex_irreflexive(encode_utf8(vx_files[0].name));
        assert(fsf[0].name == vx_files[0].name);
        assert(fsf[0].hash == vx_files[0].blob.contenthash);
        assert(fsf.drop_first() =~= vx_files.drop_first().map_values(
            |f: FileV| HashedFileV { name: f.name, hash: f.blob.contenthash },
        ));
        lemma_diff_clean_level(Seq::empty(), vx_files.drop_first(), dir);
    } else {
        assert(fsf =~= Seq::<HashedFileV>::empty());
    }
}

} // verus!
