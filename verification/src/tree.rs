//! Tree nodes: one immutable record per directory snapshot.
//!
//! A node lists its subfolders and files in strictly ascending byte order
//! of name, carries recursive size and count totals, and is addressed by
//! the digest of its canonical hash input: for each folder the name bytes
//! followed by the child digest, then the same for each file.

use vstd::prelude::*;
use vstd::utf8::encode_utf8;
use crate::blob::{Blob, spec_enc_blob, spec_dec_blob, append_blob, dec_blob, lemma_dec_blob_of_enc};
use crate::bytes::{spec_be_bytes, lex_lt, lemma_be_bytes_len, lemma_pow256_16};
use crate::codec::{
    spec_enc_u64,
    spec_enc_u128,
    spec_enc_str,
    spec_dec_uint,
    spec_dec_str,
    str_fits,
    append_u64,
    append_u128,
    append_str,
    dec_u64,
    dec_u128,
    dec_str,
    lemma_subrange_of_subrange,
    lemma_dec_uint_of_enc,
    lemma_dec_str_of_enc,
};
use crate::digest::xxh3_128_of;
use crate::errors::TreeError;
use crate::store::{db_get, db_insert, db_flush, db_contains};
use crate::workspace::Workspace;

verus! {

/// A file entry of a tree node.
#[derive(Debug, Clone)]
pub struct File {
    /// Name of the file within its directory.
    pub name: String,
    /// The blob holding the file's content.
    pub blob: Blob,
}

/// A subfolder entry of a tree node.
#[derive(Debug, Clone)]
pub struct Folder {
    /// Name of the folder within its directory.
    pub name: String,
    /// Digest of the child tree node.
    pub hash: u128,
}

/// One directory snapshot.
#[derive(Debug, Clone)]
pub struct Tree {
    /// Digest of this node's hash input.
    pub hash: u128,
    /// Subfolders, strictly ascending by name bytes.
    pub folders: Vec<Folder>,
    /// Files, strictly ascending by name bytes.
    pub files: Vec<File>,
    /// Total size in bytes of all files below this node.
    pub size: u64,
    /// Number of files below this node.
    pub file_count: u64,
    /// Number of folders below this node.
    pub folder_count: u64,
}

pub struct FileV {
    pub name: Seq<char>,
    pub blob: Blob,
}

pub struct FolderV {
    pub name: Seq<char>,
    pub hash: u128,
}

pub struct TreeV {
    pub hash: u128,
    pub folders: Seq<FolderV>,
    pub files: Seq<FileV>,
    pub size: u64,
    pub file_count: u64,
    pub folder_count: u64,
}

impl View for File {
    type V = FileV;

    open spec fn view(&self) -> FileV {
        FileV { name: self.name@, blob: self.blob }
    }
}

impl View for Folder {
    type V = FolderV;

    open spec fn view(&self) -> FolderV {
        FolderV { name: self.name@, hash: self.hash }
    }
}

pub open spec fn folder_views(s: Seq<Folder>) -> Seq<FolderV> {
    s.map_values(|f: Folder| f@)
}

pub open spec fn file_views(s: Seq<File>) -> Seq<FileV> {
    s.map_values(|f: File| f@)
}

impl View for Tree {
    type V = TreeV;

    open spec fn view(&self) -> TreeV {
        TreeV {
            hash: self.hash,
            folders: folder_views(self.folders@),
            files: file_views(self.files@),
            size: self.size,
            file_count: self.file_count,
            folder_count: self.folder_count,
        }
    }
}

/// The byte form a name is compared and hashed by.
pub open spec fn name_bytes(s: Seq<char>) -> Seq<u8> {
    encode_utf8(s)
}

/// Folder entries strictly ascending by name bytes (so also duplicate-free).
pub open spec fn folders_strictly_sorted(fs: Seq<FolderV>) -> bool {
    forall|i: int, j: int|
        0 <= i < j < fs.len() ==> lex_lt(name_bytes(#[trigger] fs[i].name), name_bytes(
            #[trigger] fs[j].name,
        ))
}

/// File entries strictly ascending by name bytes (so also duplicate-free).
pub open spec fn files_strictly_sorted(fs: Seq<FileV>) -> bool {
    forall|i: int, j: int|
        0 <= i < j < fs.len() ==> lex_lt(name_bytes(#[trigger] fs[i].name), name_bytes(
            #[trigger] fs[j].name,
        ))
}

/// A well-formed node: both entry lists in strictly ascending name order.
pub open spec fn spec_tree_wf(t: TreeV) -> bool {
    folders_strictly_sorted(t.folders) && files_strictly_sorted(t.files)
}

// ---------------------------------------------------------------------------
// Hash input
// ---------------------------------------------------------------------------
/// The bytes a node's digest is computed over: for each folder the name
/// bytes and the child digest, then for each file the name bytes and the
/// content digest.
pub open spec fn spec_folders_hash_input(fs: Seq<FolderV>) -> Seq<u8>
    decreases fs.len(),
{
    if fs.len() == 0 {
        Seq::empty()
    } else {
        name_bytes(fs[0].name) + spec_be_bytes(fs[0].hash as nat, 16) + spec_folders_hash_input(
            fs.drop_first(),
        )
    }
}

pub open spec fn spec_files_hash_input(fs: Seq<FileV>) -> Seq<u8>
    decreases fs.len(),
{
    if fs.len() == 0 {
        Seq::empty()
    } else {
        name_bytes(fs[0].name) + spec_be_bytes(fs[0].blob.contenthash as nat, 16)
            + spec_files_hash_input(fs.drop_first())
    }
}

pub open spec fn spec_hash_input(folders: Seq<FolderV>, files: Seq<FileV>) -> Seq<u8> {
    spec_folders_hash_input(folders) + spec_files_hash_input(files)
}

/// The digest every tree node with these entries carries.
pub open spec fn spec_tree_hash(folders: Seq<FolderV>, files: Seq<FileV>) -> u128 {
    xxh3_128_of(spec_hash_input(folders, files))
}

/// Builds the hash input for a node's entry lists.
fn hash_input(folders: &Vec<Folder>, files: &Vec<File>) -> (r: Vec<u8>)
    ensures
        r@ == spec_hash_input(folder_views(folders@), file_views(files@)),
{
    let mut out: Vec<u8> = Vec::new();
    let flen = folders.len();
    let mut i: usize = 0;
    proof {
        assert(folder_views(folders@).skip(0) =~= folder_views(folders@));
    }
    while i < flen
        invariant
            i <= flen,
            flen == folders@.len(),
            out@ + spec_folders_hash_input(folder_views(folders@).skip(i as int))
                == spec_folders_hash_input(folder_views(folders@)),
        decreases flen - i,
    {
        let f = &folders[i];
        let mut nb = f.name.as_str().as_bytes_vec();
        out.append(&mut nb);
        let mut hb = crate::bytes::u128_to_be(f.hash);
        out.append(&mut hb);
        proof {
            let fv = folder_views(folders@);
            assert(fv.skip(i as int)[0] == fv[i as int]);
            assert(fv.skip(i as int).drop_first() =~= fv.skip(i + 1));
            assert(out@ + spec_folders_hash_input(fv.skip(i + 1)) =~= spec_folders_hash_input(fv));
        }
        i = i + 1;
    }
    proof {
        assert(folder_views(folders@).skip(flen as int) =~= Seq::<FolderV>::empty());
        assert(out@ =~= spec_folders_hash_input(folder_views(folders@)));
        assert(file_views(files@).skip(0) =~= file_views(files@));
    }
    let ghost folders_part = out@;
    let klen = files.len();
    let mut k: usize = 0;
    while k < klen
        invariant
            k <= klen,
            klen == files@.len(),
            folders_part == spec_folders_hash_input(folder_views(folders@)),
            out@ + spec_files_hash_input(file_views(files@).skip(k as int)) == folders_part
                + spec_files_hash_input(file_views(files@)),
        decreases klen - k,
    {
        let f = &files[k];
        let mut nb = f.name.as_str().as_bytes_vec();
        out.append(&mut nb);
        let mut hb = crate::bytes::u128_to_be(f.blob.contenthash);
        out.append(&mut hb);
        proof {
            let fv = file_views(files@);
            assert(fv.skip(k as int)[0] == fv[k as int]);
            assert(fv.skip(k as int).drop_first() =~= fv.skip(k + 1));
            assert(out@ + spec_files_hash_input(fv.skip(k + 1)) =~= folders_part
                + spec_files_hash_input(fv));
        }
        k = k + 1;
    }
    proof {
        assert(file_views(files@).skip(klen as int) =~= Seq::<FileV>::empty());
        assert(out@ =~= spec_hash_input(folder_views(folders@), file_views(files@)));
    }
    out
}

// ---------------------------------------------------------------------------
// Canonical encoding
// ---------------------------------------------------------------------------
pub open spec fn spec_enc_folder(f: FolderV) -> Seq<u8> {
    spec_enc_str(f.name) + spec_enc_u128(f.hash)
}

pub open spec fn spec_enc_folders(fs: Seq<FolderV>) -> Seq<u8>
    decreases fs.len(),
{
    if fs.len() == 0 {
        Seq::empty()
    } else {
        spec_enc_folder(fs[0]) + spec_enc_folders(fs.drop_first())
    }
}

pub open spec fn spec_enc_file(f: FileV) -> Seq<u8> {
    spec_enc_str(f.name) + spec_enc_blob(f.blob)
}

pub open spec fn spec_enc_files(fs: Seq<FileV>) -> Seq<u8>
    decreases fs.len(),
{
    if fs.len() == 0 {
        Seq::empty()
    } else {
        spec_enc_file(fs[0]) + spec_enc_files(fs.drop_first())
    }
}

/// A tree record: digest, totals, then both length-prefixed entry lists.
pub open spec fn spec_enc_tree(t: TreeV) -> Seq<u8> {
    spec_enc_u128(t.hash) + spec_enc_u64(t.size) + spec_enc_u64(t.file_count) + spec_enc_u64(
        t.folder_count,
    ) + spec_enc_u64(t.folders.len() as u64) + spec_enc_folders(t.folders) + spec_enc_u64(
        t.files.len() as u64,
    ) + spec_enc_files(t.files)
}

/// Whether a node's entry lists fit the encoding's length prefixes.
pub open spec fn tree_fits(t: TreeV) -> bool {
    &&& t.folders.len() < 0x1_0000_0000_0000_0000
    &&& t.files.len() < 0x1_0000_0000_0000_0000
    &&& forall|i: int| 0 <= i < t.folders.len() ==> str_fits(#[trigger] t.folders[i].name)
    &&& forall|i: int| 0 <= i < t.files.len() ==> str_fits(#[trigger] t.files[i].name)
}

pub open spec fn spec_dec_folder(b: Seq<u8>, pos: int) -> Option<(FolderV, int)> {
    match spec_dec_str(b, pos) {
        None => None,
        Some((name, p1)) => match spec_dec_uint(b, p1, 16) {
            None => None,
            Some((h, p2)) => Some((FolderV { name, hash: h as u128 }, p2)),
        },
    }
}

pub open spec fn spec_dec_folders(b: Seq<u8>, pos: int, count: nat) -> Option<(Seq<FolderV>, int)>
    decreases count,
{
    if count == 0 {
        Some((Seq::empty(), pos))
    } else {
        match spec_dec_folder(b, pos) {
            None => None,
            Some((f, p1)) => match spec_dec_folders(b, p1, (count - 1) as nat) {
                None => None,
                Some((rest, p2)) => Some((seq![f] + rest, p2)),
            },
        }
    }
}

pub open spec fn spec_dec_file(b: Seq<u8>, pos: int) -> Option<(FileV, int)> {
    match spec_dec_str(b, pos) {
        None => None,
        Some((name, p1)) => match spec_dec_blob(b, p1) {
            None => None,
            Some((blob, p2)) => Some((FileV { name, blob }, p2)),
        },
    }
}

pub open spec fn spec_dec_files(b: Seq<u8>, pos: int, count: nat) -> Option<(Seq<FileV>, int)>
    decreases count,
{
    if count == 0 {
        Some((Seq::empty(), pos))
    } else {
        match spec_dec_file(b, pos) {
            None => None,
            Some((f, p1)) => match spec_dec_files(b, p1, (count - 1) as nat) {
                None => None,
                Some((rest, p2)) => Some((seq![f] + rest, p2)),
            },
        }
    }
}

pub open spec fn spec_dec_tree(b: Seq<u8>, pos: int) -> Option<(TreeV, int)> {
    match spec_dec_uint(b, pos, 16) {
        None => None,
        Some((hash, p1)) => match spec_dec_uint(b, p1, 8) {
            None => None,
            Some((size, p2)) => match spec_dec_uint(b, p2, 8) {
                None => None,
                Some((file_count, p3)) => match spec_dec_uint(b, p3, 8) {
                    None => None,
                    Some((folder_count, p4)) => match spec_dec_uint(b, p4, 8) {
                        None => None,
                        Some((nfolders, p5)) => match spec_dec_folders(b, p5, nfolders) {
                            None => None,
                            Some((folders, p6)) => match spec_dec_uint(b, p6, 8) {
                                None => None,
                                Some((nfiles, p7)) => match spec_dec_files(b, p7, nfiles) {
                                    None => None,
                                    Some((files, p8)) => Some(
                                        (
                                            TreeV {
                                                hash: hash as u128,
                                                folders,
                                                files,
                                                size: size as u64,
                                                file_count: file_count as u64,
                                                folder_count: folder_count as u64,
                                            },
                                            p8,
                                        ),
                                    ),
                                },
                            },
                        },
                    },
                },
            },
        },
    }
}

/// Encodes a tree record.
pub fn enc_tree(t: &Tree) -> (r: Vec<u8>)
    ensures
        r@ == spec_enc_tree(t@),
        tree_fits(t@),
{
    let mut out: Vec<u8> = Vec::new();
    append_u128(&mut out, t.hash);
    append_u64(&mut out, t.size);
    append_u64(&mut out, t.file_count);
    append_u64(&mut out, t.folder_count);
    let flen = t.folders.len();
    append_u64(&mut out, flen as u64);
    let ghost head = out@;
    let mut i: usize = 0;
    proof {
        assert(folder_views(t.folders@).skip(0) =~= folder_views(t.folders@));
    }
    while i < flen
        invariant
            i <= flen,
            flen == t.folders@.len(),
            out@ + spec_enc_folders(folder_views(t.folders@).skip(i as int)) == head
                + spec_enc_folders(folder_views(t.folders@)),
            forall|j: int| 0 <= j < i ==> str_fits(#[trigger] folder_views(t.folders@)[j].name),
        decreases flen - i,
    {
        let f = &t.folders[i];
        append_str(&mut out, &f.name);
        append_u128(&mut out, f.hash);
        proof {
            let fv = folder_views(t.folders@);
            assert(fv.skip(i as int)[0] == fv[i as int]);
            assert(fv.skip(i as int).drop_first() =~= fv.skip(i + 1));
            assert(out@ + spec_enc_folders(fv.skip(i + 1)) =~= head + spec_enc_folders(fv));
        }
        i = i + 1;
    }
    proof {
        assert(folder_views(t.folders@).skip(flen as int) =~= Seq::<FolderV>::empty());
        assert(out@ =~= head + spec_enc_folders(folder_views(t.folders@)));
    }
    let klen = t.files.len();
    append_u64(&mut out, klen as u64);
    let ghost head2 = out@;
    let mut k: usize = 0;
    proof {
        assert(file_views(t.files@).skip(0) =~= file_views(t.files@));
    }
    while k < klen
        invariant
            k <= klen,
            klen == t.files@.len(),
            out@ + spec_enc_files(file_views(t.files@).skip(k as int)) == head2 + spec_enc_files(
                file_views(t.files@),
            ),
            forall|j: int| 0 <= j < k ==> str_fits(#[trigger] file_views(t.files@)[j].name),
            head2 == head + spec_enc_folders(folder_views(t.folders@)) + spec_enc_u64(
                t.files@.len() as u64,
            ),
            forall|j: int| 0 <= j < flen ==> str_fits(#[trigger] folder_views(t.folders@)[j].name),
        decreases klen - k,
    {
        let f = &t.files[k];
        append_str(&mut out, &f.name);
        append_blob(&mut out, &f.blob);
        proof {
            let fv = file_views(t.files@);
            assert(fv.skip(k as int)[0] == fv[k as int]);
            assert(fv.skip(k as int).drop_first() =~= fv.skip(k + 1));
            assert(out@ + spec_enc_files(fv.skip(k + 1)) =~= head2 + spec_enc_files(fv));
        }
        k = k + 1;
    }
    proof {
        assert(file_views(t.files@).skip(klen as int) =~= Seq::<FileV>::empty());
        assert(out@ =~= spec_enc_tree(t@));
    }
    out
}

/// Decodes one folder entry.
fn dec_folder(b: &Vec<u8>, pos: usize) -> (r: Option<(Folder, usize)>)
    ensures
        match r {
            Some((f, next)) => spec_dec_folder(b@, pos as int) == Some((f@, next as int)),
            None => spec_dec_folder(b@, pos as int) is None,
        },
{
    match dec_str(b, pos) {
        None => None,
        Some((name, p1)) => match dec_u128(b, p1) {
            None => None,
            Some((h, p2)) => Some((Folder { name, hash: h }, p2)),
        },
    }
}

/// Decodes one file entry.
fn dec_file(b: &Vec<u8>, pos: usize) -> (r: Option<(File, usize)>)
    ensures
        match r {
            Some((f, next)) => spec_dec_file(b@, pos as int) == Some((f@, next as int)),
            None => spec_dec_file(b@, pos as int) is None,
        },
{
    match dec_str(b, pos) {
        None => None,
        Some((name, p1)) => match dec_blob(b, p1) {
            None => None,
            Some((blob, p2)) => Some((File { name, blob }, p2)),
        },
    }
}

/// Splitting a folder-list decode at any point composes.
proof fn lemma_dec_folders_split(b: Seq<u8>, pos: int, k: nat, m: nat)
    ensures
        spec_dec_folders(b, pos, k + m) == match spec_dec_folders(b, pos, k) {
            None => None::<(Seq<FolderV>, int)>,
            Some((s1, p1)) => match spec_dec_folders(b, p1, m) {
                None => None,
                Some((s2, p2)) => Some((s1 + s2, p2)),
            },
        },
    decreases k,
{
    if k == 0 {
        match spec_dec_folders(b, pos, m) {
            None => {
            },
            Some((s2, p2)) => {
                assert(Seq::<FolderV>::empty() + s2 =~= s2);
            },
        }
    } else {
        match spec_dec_folder(b, pos) {
            None => {
            },
            Some((f, p1)) => {
                lemma_dec_folders_split(b, p1, (k - 1) as nat, m);
                match spec_dec_folders(b, p1, ((k - 1) + m) as nat) {
                    None => {
                    },
                    Some((s, p)) => {
                        match spec_dec_folders(b, p1, (k - 1) as nat) {
                            None => {
                            },
                            Some((s1, q1)) => {
                                match spec_dec_folders(b, q1, m) {
                                    None => {
                                    },
                                    Some((s2, q2)) => {
                                        assert(seq![f] + (s1 + s2) =~= (seq![f] + s1) + s2);
                                    },
                                }
                            },
                        }
                    },
                }
            },
        }
    }
}

/// Splitting a file-list decode at any point composes.
proof fn lemma_dec_files_split(b: Seq<u8>, pos: int, k: nat, m: nat)
    ensures
        spec_dec_files(b, pos, k + m) == match spec_dec_files(b, pos, k) {
            None => None::<(Seq<FileV>, int)>,
            Some((s1, p1)) => match spec_dec_files(b, p1, m) {
                None => None,
                Some((s2, p2)) => Some((s1 + s2, p2)),
            },
        },
    decreases k,
{
    if k == 0 {
        match spec_dec_files(b, pos, m) {
            None => {
            },
            Some((s2, p2)) => {
                assert(Seq::<FileV>::empty() + s2 =~= s2);
            },
        }
    } else {
        match spec_dec_file(b, pos) {
            None => {
            },
            Some((f, p1)) => {
                lemma_dec_files_split(b, p1, (k - 1) as nat, m);
                match spec_dec_files(b, p1, ((k - 1) + m) as nat) {
                    None => {
                    },
                    Some((s, p)) => {
                        match spec_dec_files(b, p1, (k - 1) as nat) {
                            None => {
                            },
                            Some((s1, q1)) => {
                                match spec_dec_files(b, q1, m) {
                                    None => {
                                    },
                                    Some((s2, q2)) => {
                                        assert(seq![f] + (s1 + s2) =~= (seq![f] + s1) + s2);
                                    },
                                }
                            },
                        }
                    },
                }
            },
        }
    }
}

/// Decodes `count` folder entries.
fn dec_folders(b: &Vec<u8>, pos: usize, count: u64) -> (r: Option<(Vec<Folder>, usize)>)
    ensures
        match r {
            Some((fs, next)) => spec_dec_folders(b@, pos as int, count as nat) == Some(
                (folder_views(fs@), next as int),
            ),
            None => spec_dec_folders(b@, pos as int, count as nat) is None,
        },
{
    let mut acc: Vec<Folder> = Vec::new();
    let mut p: usize = pos;
    let mut k: u64 = 0;
    proof {
        assert(folder_views(acc@) =~= Seq::<FolderV>::empty());
    }
    while k < count
        invariant
            k <= count,
            spec_dec_folders(b@, pos as int, k as nat) == Some((folder_views(acc@), p as int)),
        decreases count - k,
    {
        proof {
            lemma_dec_folders_split(b@, pos as int, k as nat, (count - k) as nat);
            lemma_dec_folders_split(b@, pos as int, k as nat, 1);
        }
        match dec_folder(b, p) {
            None => {
                return None;
            },
            Some((f, p1)) => {
                proof {
                    let fv = folder_views(acc@);
                    assert(spec_dec_folders(b@, p1 as int, 0) == Some(
                        (Seq::<FolderV>::empty(), p1 as int),
                    ));
                    assert(seq![f@] + Seq::<FolderV>::empty() =~= seq![f@]);
                    assert(spec_dec_folders(b@, p as int, 1) == Some((seq![f@], p1 as int)));
                    assert(folder_views(acc@.push(f)) =~= fv + seq![f@]);
                }
                acc.push(f);
                p = p1;
            },
        }
        k = k + 1;
    }
    Some((acc, p))
}

/// Decodes `count` file entries.
fn dec_files(b: &Vec<u8>, pos: usize, count: u64) -> (r: Option<(Vec<File>, usize)>)
    ensures
        match r {
            Some((fs, next)) => spec_dec_files(b@, pos as int, count as nat) == Some(
                (file_views(fs@), next as int),
            ),
            None => spec_dec_files(b@, pos as int, count as nat) is None,
        },
{
    let mut acc: Vec<File> = Vec::new();
    let mut p: usize = pos;
    let mut k: u64 = 0;
    proof {
        assert(file_views(acc@) =~= Seq::<FileV>::empty());
    }
    while k < count
        invariant
            k <= count,
            spec_dec_files(b@, pos as int, k as nat) == Some((file_views(acc@), p as int)),
        decreases count - k,
    {
        proof {
            lemma_dec_files_split(b@, pos as int, k as nat, (count - k) as nat);
            lemma_dec_files_split(b@, pos as int, k as nat, 1);
        }
        match dec_file(b, p) {
            None => {
                return None;
            },
            Some((f, p1)) => {
                proof {
                    let fv = file_views(acc@);
                    assert(spec_dec_files(b@, p1 as int, 0) == Some(
                        (Seq::<FileV>::empty(), p1 as int),
                    ));
                    assert(seq![f@] + Seq::<FileV>::empty() =~= seq![f@]);
                    assert(spec_dec_files(b@, p as int, 1) == Some((seq![f@], p1 as int)));
                    assert(file_views(acc@.push(f)) =~= fv + seq![f@]);
                }
                acc.push(f);
                p = p1;
            },
        }
        k = k + 1;
    }
    Some((acc, p))
}

/// Decodes a tree record.
pub fn dec_tree(b: &Vec<u8>, pos: usize) -> (r: Option<(Tree, usize)>)
    ensures
        match r {
            Some((t, next)) => spec_dec_tree(b@, pos as int) == Some((t@, next as int)),
            None => spec_dec_tree(b@, pos as int) is None,
        },
{
    let (hash, p1) = match dec_u128(b, pos) {
        None => {
            return None;
        },
        Some(x) => x,
    };
    let (size, p2) = match dec_u64(b, p1) {
        None => {
            return None;
        },
        Some(x) => x,
    };
    let (file_count, p3) = match dec_u64(b, p2) {
        None => {
            return None;
        },
        Some(x) => x,
    };
    let (folder_count, p4) = match dec_u64(b, p3) {
        None => {
            return None;
        },
        Some(x) => x,
    };
    let (nfolders, p5) = match dec_u64(b, p4) {
        None => {
            return None;
        },
        Some(x) => x,
    };
    let (folders, p6) = match dec_folders(b, p5, nfolders) {
        None => {
            return None;
        },
        Some(x) => x,
    };
    let (nfiles, p7) = match dec_u64(b, p6) {
        None => {
            return None;
        },
        Some(x) => x,
    };
    let (files, p8) = match dec_files(b, p7, nfiles) {
        None => {
            return None;
        },
        Some(x) => x,
    };
    Some((Tree { hash, folders, files, size, file_count, folder_count }, p8))
}

/// Decoding a folder list where one was encoded yields it back.
pub proof fn lemma_dec_folders_of_enc(b: Seq<u8>, pos: int, fs: Seq<FolderV>)
    requires
        0 <= pos,
        pos + spec_enc_folders(fs).len() <= b.len(),
        forall|i: int| 0 <= i < fs.len() ==> str_fits(#[trigger] fs[i].name),
        b.subrange(pos, pos + spec_enc_folders(fs).len() as int) == spec_enc_folders(fs),
    ensures
        spec_dec_folders(b, pos, fs.len()) == Some((fs, pos + spec_enc_folders(fs).len())),
    decreases fs.len(),
{
    let e = spec_enc_folders(fs);
    if fs.len() == 0 {
        assert(fs =~= Seq::<FolderV>::empty());
    } else {
        let name = fs[0].name;
        let es = spec_enc_str(name);
        let ls = es.len() as int;
        lemma_be_bytes_len(name_bytes(name).len(), 8);
        lemma_be_bytes_len(fs[0].hash as nat, 16);
        let l0 = ls + 16;
        let rest = fs.drop_first();
        let er = spec_enc_folders(rest);
        assert(e =~= es + spec_enc_u128(fs[0].hash) + er);
        assert(e.len() == l0 + er.len());
        lemma_subrange_of_subrange(b, pos, e.len() as int, 0, ls);
        assert(e.subrange(0, ls) =~= es);
        lemma_dec_str_of_enc(b, pos, name);
        lemma_subrange_of_subrange(b, pos, e.len() as int, ls, l0);
        assert(e.subrange(ls, l0) =~= spec_enc_u128(fs[0].hash));
        lemma_pow256_16();
        lemma_dec_uint_of_enc(b, pos + ls, fs[0].hash as nat, 16);
        assert(spec_dec_folder(b, pos) == Some((fs[0], pos + l0)));
        lemma_subrange_of_subrange(b, pos, e.len() as int, l0, e.len() as int);
        assert(e.subrange(l0, e.len() as int) =~= er);
        assert(forall|i: int| 0 <= i < rest.len() ==> str_fits(#[trigger] rest[i].name));
        lemma_dec_folders_of_enc(b, pos + l0, rest);
        assert(seq![fs[0]] + rest =~= fs);
    }
}

/// Decoding a file list where one was encoded yields it back.
pub proof fn lemma_dec_files_of_enc(b: Seq<u8>, pos: int, fs: Seq<FileV>)
    requires
        0 <= pos,
        pos + spec_enc_files(fs).len() <= b.len(),
        forall|i: int| 0 <= i < fs.len() ==> str_fits(#[trigger] fs[i].name),
        b.subrange(pos, pos + spec_enc_files(fs).len() as int) == spec_enc_files(fs),
    ensures
        spec_dec_files(b, pos, fs.len()) == Some((fs, pos + spec_enc_files(fs).len())),
    decreases fs.len(),
{
    let e = spec_enc_files(fs);
    if fs.len() == 0 {
        assert(fs =~= Seq::<FileV>::empty());
    } else {
        let name = fs[0].name;
        let es = spec_enc_str(name);
        let ls = es.len() as int;
        lemma_be_bytes_len(name_bytes(name).len(), 8);
        lemma_be_bytes_len(fs[0].blob.contenthash as nat, 16);
        lemma_be_bytes_len(fs[0].blob.size as nat, 8);
        let l0 = ls + 24;
        let rest = fs.drop_first();
        let er = spec_enc_files(rest);
        assert(e =~= es + spec_enc_blob(fs[0].blob) + er);
        assert(e.len() == l0 + er.len());
        lemma_subrange_of_subrange(b, pos, e.len() as int, 0, ls);
        assert(e.subrange(0, ls) =~= es);
        lemma_dec_str_of_enc(b, pos, name);
        lemma_subrange_of_subrange(b, pos, e.len() as int, ls, l0);
        assert(e.subrange(ls, l0) =~= spec_enc_blob(fs[0].blob));
        lemma_dec_blob_of_enc(b, pos + ls, fs[0].blob);
        assert(spec_dec_file(b, pos) == Some((fs[0], pos + l0)));
        lemma_subrange_of_subrange(b, pos, e.len() as int, l0, e.len() as int);
        assert(e.subrange(l0, e.len() as int) =~= er);
        assert(forall|i: int| 0 <= i < rest.len() ==> str_fits(#[trigger] rest[i].name));
        lemma_dec_files_of_enc(b, pos + l0, rest);
        assert(seq![fs[0]] + rest =~= fs);
    }
}

/// Decoding a tree record where one was encoded yields it back.
pub proof fn lemma_dec_tree_of_enc(b: Seq<u8>, pos: int, t: TreeV)
    requires
        0 <= pos,
        pos + spec_enc_tree(t).len() <= b.len(),
        tree_fits(t),
        b.subrange(pos, pos + spec_enc_tree(t).len() as int) == spec_enc_tree(t),
    ensures
        spec_dec_tree(b, pos) == Some((t, pos + spec_enc_tree(t).len())),
{
    let e = spec_enc_tree(t);
    let e6 = spec_enc_folders(t.folders);
    let e8 = spec_enc_files(t.files);
    lemma_be_bytes_len(t.hash as nat, 16);
    lemma_be_bytes_len(t.size as nat, 8);
    lemma_be_bytes_len(t.file_count as nat, 8);
    lemma_be_bytes_len(t.folder_count as nat, 8);
    lemma_be_bytes_len(t.folders.len(), 8);
    lemma_be_bytes_len(t.files.len(), 8);
    lemma_pow256_16();
    let o6 = 48 + e6.len() as int;
    let o7 = o6 + 8;
    let lt = e.len() as int;
    assert(lt == o7 + e8.len());
    lemma_subrange_of_subrange(b, pos, lt, 0, 16);
    assert(e.subrange(0, 16) =~= spec_enc_u128(t.hash));
    lemma_dec_uint_of_enc(b, pos, t.hash as nat, 16);
    lemma_subrange_of_subrange(b, pos, lt, 16, 24);
    assert(e.subrange(16, 24) =~= spec_enc_u64(t.size));
    lemma_dec_uint_of_enc(b, pos + 16, t.size as nat, 8);
    lemma_subrange_of_subrange(b, pos, lt, 24, 32);
    assert(e.subrange(24, 32) =~= spec_enc_u64(t.file_count));
    lemma_dec_uint_of_enc(b, pos + 24, t.file_count as nat, 8);
    lemma_subrange_of_subrange(b, pos, lt, 32, 40);
    assert(e.subrange(32, 40) =~= spec_enc_u64(t.folder_count));
    lemma_dec_uint_of_enc(b, pos + 32, t.folder_count as nat, 8);
    lemma_subrange_of_subrange(b, pos, lt, 40, 48);
    assert(e.subrange(40, 48) =~= spec_enc_u64(t.folders.len() as u64));
    lemma_dec_uint_of_enc(b, pos + 40, t.folders.len(), 8);
    lemma_subrange_of_subrange(b, pos, lt, 48, o6);
    assert(e.subrange(48, o6) =~= e6);
    lemma_dec_folders_of_enc(b, pos + 48, t.folders);
    lemma_subrange_of_subrange(b, pos, lt, o6, o7);
    assert(e.subrange(o6, o7) =~= spec_enc_u64(t.files.len() as u64));
    lemma_dec_uint_of_enc(b, pos + o6, t.files.len(), 8);
    lemma_subrange_of_subrange(b, pos, lt, o7, lt);
    assert(e.subrange(o7, lt) =~= e8);
    lemma_dec_files_of_enc(b, pos + o7, t.files);
}

// ---------------------------------------------------------------------------
// Tree store
// ---------------------------------------------------------------------------
/// The key a tree node is stored under: its digest, big-endian.
pub open spec fn spec_tree_key(h: u128) -> Seq<u8> {
    spec_be_bytes(h as nat, 16)
}

/// The node stored for digest `h`, if the map holds a well-formed record.
pub open spec fn spec_tree_at(m: Map<Seq<u8>, Seq<u8>>, h: u128) -> Option<TreeV> {
    if m.contains_key(spec_tree_key(h)) {
        match spec_dec_tree(m[spec_tree_key(h)], 0) {
            Some((t, n)) => if n == m[spec_tree_key(h)].len() {
                Some(t)
            } else {
                None
            },
            None => None,
        }
    } else {
        None
    }
}

/// Saves a node under its digest.  Flushing is left to the caller at the
/// end of a batch.
pub fn tree_save(ws: &mut Workspace, t: &Tree) -> (r: Result<(), TreeError>)
    ensures
        final(ws).blobs == old(ws).blobs,
        final(ws).branches == old(ws).branches,
        final(ws).commitdb == old(ws).commitdb,
        final(ws).repodb == old(ws).repodb,
        match r {
            Ok(()) => {
                &&& final(ws).trees_kv() == old(ws).trees_kv().insert(
                    spec_tree_key(t.hash),
                    spec_enc_tree(t@),
                )
                &&& spec_tree_at(final(ws).trees_kv(), t.hash) == Some(t@)
            },
            Err(e) => e is DatabaseError,
        },
{
    let key = crate::bytes::u128_to_be(t.hash);
    let val = enc_tree(t);
    match db_insert(&mut ws.trees, key.as_slice(), val.as_slice()) {
        Ok(()) => {
            proof {
                let m = ws.trees_kv();
                let k = spec_tree_key(t.hash);
                assert(m[k].subrange(0, m[k].len() as int) =~= m[k]);
                lemma_dec_tree_of_enc(m[k], 0, t@);
            }
            Ok(())
        },
        Err(m) => Err(TreeError::DatabaseError(m)),
    }
}

/// Retrieves the node stored under a digest.
pub fn tree_get(ws: &Workspace, hash: u128) -> (r: Result<Tree, TreeError>)
    ensures
        match r {
            Ok(t) => spec_tree_at(ws.trees_kv(), hash) == Some(t@),
            Err(e) => match e {
                TreeError::TreeNotFound => !ws.trees_kv().contains_key(spec_tree_key(hash)),
                TreeError::SerializationError(_) => ws.trees_kv().contains_key(spec_tree_key(hash))
                    && spec_tree_at(ws.trees_kv(), hash) is None,
                TreeError::DatabaseError(_) => true,
                _ => false,
            },
        },
{
    let key = crate::bytes::u128_to_be(hash);
    match db_get(&ws.trees, key.as_slice()) {
        Ok(Some(bytes)) => match dec_tree(&bytes, 0) {
            Some((t, n)) => {
                if n == bytes.len() {
                    Ok(t)
                } else {
                    Err(TreeError::SerializationError(String::new()))
                }
            },
            None => Err(TreeError::SerializationError(String::new())),
        },
        Ok(None) => Err(TreeError::TreeNotFound),
        Err(m) => Err(TreeError::DatabaseError(m)),
    }
}

/// Whether a node is stored under this digest.
pub fn tree_exists(ws: &Workspace, hash: u128) -> (r: Result<bool, TreeError>)
    ensures
        match r {
            Ok(b) => b == ws.trees_kv().contains_key(spec_tree_key(hash)),
            Err(e) => e is DatabaseError,
        },
{
    let key = crate::bytes::u128_to_be(hash);
    match db_contains(&ws.trees, key.as_slice()) {
        Ok(b) => Ok(b),
        Err(m) => Err(TreeError::DatabaseError(m)),
    }
}

/// An empty node with the reserved absent digest, used as a placeholder.
pub fn default_tree() -> (t: Tree)
    ensures
        t.hash == crate::digest::DIGEST_NONE,
        t@.folders.len() == 0,
        t@.files.len() == 0,
        t.size == 0,
        t.file_count == 0,
        t.folder_count == 0,
{
    Tree {
        hash: crate::digest::DIGEST_NONE,
        folders: Vec::new(),
        files: Vec::new(),
        size: 0,
        file_count: 0,
        folder_count: 0,
    }
}

/// Builds a node from sorted entry lists, computes its content digest,
/// and saves it.  The digest is the hash of the canonical input, so equal
/// entry lists always produce equal digests.
pub fn new_tree(
    ws: &mut Workspace,
    folders: Vec<Folder>,
    files: Vec<File>,
    size: u64,
    file_count: u64,
    folder_count: u64,
) -> (r: Result<Tree, TreeError>)
    requires
        folders_strictly_sorted(folder_views(folders@)),
        files_strictly_sorted(file_views(files@)),
    ensures
        final(ws).blobs == old(ws).blobs,
        final(ws).branches == old(ws).branches,
        final(ws).commitdb == old(ws).commitdb,
        final(ws).repodb == old(ws).repodb,
        match r {
            Ok(t) => {
                &&& t.hash == spec_tree_hash(folder_views(folders@), file_views(files@))
                &&& t@.folders == folder_views(folders@)
                &&& t@.files == file_views(files@)
                &&& t.size == size
                &&& t.file_count == file_count
                &&& t.folder_count == folder_count
                &&& spec_tree_wf(t@)
                &&& final(ws).trees_kv() == old(ws).trees_kv().insert(
                    spec_tree_key(t.hash),
                    spec_enc_tree(t@),
                )
                &&& spec_tree_at(final(ws).trees_kv(), t.hash) == Some(t@)
            },
            Err(e) => e is DatabaseError,
        },
{
    let input = hash_input(&folders, &files);
    let hash = crate::digest::compute_bytes(input.as_slice());
    let t = Tree { hash, folders, files, size, file_count, folder_count };
    match tree_save(ws, &t) {
        Ok(()) => Ok(t),
        Err(e) => Err(e),
    }
}

/// Whether a folder list is strictly ascending by name bytes.
pub fn check_folders_sorted(folders: &Vec<Folder>) -> (r: bool)
    ensures
        r == folders_strictly_sorted(folder_views(folders@)),
{
    let len = folders.len();
    if len == 0 {
        return true;
    }
    let mut i: usize = 0;
    while i < len - 1
        invariant
            len == folders@.len(),
            len >= 1,
            i <= len - 1,
            forall|j: int|
                0 <= j < i ==> lex_lt(
                    name_bytes(#[trigger] folder_views(folders@)[j].name),
                    name_bytes(folder_views(folders@)[j + 1].name),
                ),
        decreases len - i,
    {
        let c = crate::bytes::bytes_cmp(folders[i].name.as_str().as_bytes(), folders[i
            + 1].name.as_str().as_bytes());
        if !matches!(c, crate::bytes::Cmp::Lt) {
            proof {
                let fv = folder_views(folders@);
                assert(!lex_lt(name_bytes(fv[i as int].name), name_bytes(fv[i + 1].name)));
                assert(!folders_strictly_sorted(fv)) by {
                    if folders_strictly_sorted(fv) {
                        assert(lex_lt(name_bytes(fv[i as int].name), name_bytes(fv[i + 1].name)));
                    }
                }
            }
            return false;
        }
        i = i + 1;
    }
    proof {
        lemma_adjacent_sorted_folders(folder_views(folders@));
    }
    true
}

/// Whether a file list is strictly ascending by name bytes.
pub fn check_files_sorted(files: &Vec<File>) -> (r: bool)
    ensures
        r == files_strictly_sorted(file_views(files@)),
{
    let len = files.len();
    if len == 0 {
        return true;
    }
    let mut i: usize = 0;
    while i < len - 1
        invariant
            len == files@.len(),
            len >= 1,
            i <= len - 1,
            forall|j: int|
                0 <= j < i ==> lex_lt(
                    name_bytes(#[trigger] file_views(files@)[j].name),
                    name_bytes(file_views(files@)[j + 1].name),
                ),
        decreases len - i,
    {
        let c = crate::bytes::bytes_cmp(files[i].name.as_str().as_bytes(), files[i
            + 1].name.as_str().as_bytes());
        if !matches!(c, crate::bytes::Cmp::Lt) {
            proof {
                let fv = file_views(files@);
                assert(!lex_lt(name_bytes(fv[i as int].name), name_bytes(fv[i + 1].name)));
                assert(!files_strictly_sorted(fv)) by {
                    if files_strictly_sorted(fv) {
                        assert(lex_lt(name_bytes(fv[i as int].name), name_bytes(fv[i + 1].name)));
                    }
                }
            }
            return false;
        }
        i = i + 1;
    }
    proof {
        lemma_adjacent_sorted_files(file_views(files@));
    }
    true
}

/// Adjacent order implies total strict order for folder lists.
pub proof fn lemma_adjacent_sorted_folders(fs: Seq<FolderV>)
    requires
        forall|j: int|
            0 <= j < fs.len() - 1 ==> lex_lt(
                name_bytes(#[trigger] fs[j].name),
                name_bytes(fs[j + 1].name),
            ),
    ensures
        folders_strictly_sorted(fs),
{
    assert forall|i: int, j: int| 0 <= i < j < fs.len() implies lex_lt(
        name_bytes(#[trigger] fs[i].name),
        name_bytes(#[trigger] fs[j].name),
    ) by {
        lemma_chain_folders(fs, i, j);
    }
}

proof fn lemma_chain_folders(fs: Seq<FolderV>, i: int, j: int)
    requires
        forall|k: int|
            0 <= k < fs.len() - 1 ==> lex_lt(
                name_bytes(#[trigger] fs[k].name),
                name_bytes(fs[k + 1].name),
            ),
        0 <= i < j < fs.len(),
    ensures
        lex_lt(name_bytes(fs[i].name), name_bytes(fs[j].name)),
    decreases j - i,
{
    if i + 1 == j {
    } else {
        lemma_chain_folders(fs, i, j - 1);
        crate::bytes::lemma_lex_transitive(
            name_bytes(fs[i].name),
            name_bytes(fs[j - 1].name),
            name_bytes(fs[j].name),
        );
    }
}

/// Adjacent order implies total strict order for file lists.
pub proof fn lemma_adjacent_sorted_files(fs: Seq<FileV>)
    requires
        forall|j: int|
            0 <= j < fs.len() - 1 ==> lex_lt(
                name_bytes(#[trigger] fs[j].name),
                name_bytes(fs[j + 1].name),
            ),
    ensures
        files_strictly_sorted(fs),
{
    assert forall|i: int, j: int| 0 <= i < j < fs.len() implies lex_lt(
        name_bytes(#[trigger] fs[i].name),
        name_bytes(#[trigger] fs[j].name),
    ) by {
        lemma_chain_files(fs, i, j);
    }
}

proof fn lemma_chain_files(fs: Seq<FileV>, i: int, j: int)
    requires
        forall|k: int|
            0 <= k < fs.len() - 1 ==> lex_lt(
                name_bytes(#[trigger] fs[k].name),
                name_bytes(fs[k + 1].name),
            ),
        0 <= i < j < fs.len(),
    ensures
        lex_lt(name_bytes(fs[i].name), name_bytes(fs[j].name)),
    decreases j - i,
{
    if i + 1 == j {
    } else {
        lemma_chain_files(fs, i, j - 1);
        crate::bytes::lemma_lex_transitive(
            name_bytes(fs[i].name),
            name_bytes(fs[j - 1].name),
            name_bytes(fs[j].name),
        );
    }
}

impl Tree {
    /// Writes the empty node: no entries, zero totals, the distinguished
    /// digest of the empty hash input.
    pub fn create_empty(ws: &mut Workspace) -> (r: Result<Tree, TreeError>)
        ensures
            final(ws).blobs == old(ws).blobs,
            final(ws).branches == old(ws).branches,
            final(ws).commitdb == old(ws).commitdb,
            final(ws).repodb == old(ws).repodb,
            match r {
                Ok(t) => {
                    &&& t.hash == spec_tree_hash(Seq::empty(), Seq::empty())
                    &&& t@.folders.len() == 0
                    &&& t@.files.len() == 0
                    &&& t.size == 0
                    &&& t.file_count == 0
                    &&& t.folder_count == 0
                    &&& spec_tree_at(final(ws).trees_kv(), t.hash) == Some(t@)
                },
                Err(e) => e is DatabaseError,
            },
    {
        let folders: Vec<Folder> = Vec::new();
        let files: Vec<File> = Vec::new();
        proof {
            assert(folder_views(folders@) =~= Seq::<FolderV>::empty());
            assert(file_views(files@) =~= Seq::<FileV>::empty());
        }
        let t = new_tree(ws, folders, files, 0, 0, 0)?;
        match crate::store::db_flush(&ws.trees) {
            Ok(()) => Ok(t),
            Err(m) => Err(TreeError::DatabaseError(m)),
        }
    }
}


/// Sort-canonicalization: a well-formed node's entry lists hold no
/// duplicate names, since strict byte order already separates them.
pub proof fn lemma_wf_tree_no_duplicates(t: TreeV)
    requires
        spec_tree_wf(t),
    ensures
        forall|i: int, j: int|
            0 <= i < j < t.folders.len() ==> (#[trigger] t.folders[i]).name != (
            #[trigger] t.folders[j]).name,
        forall|i: int, j: int|
            0 <= i < j < t.files.len() ==> (#[trigger] t.files[i]).name != (
            #[trigger] t.files[j]).name,
{
    assert forall|i: int, j: int| 0 <= i < j < t.folders.len() implies (
    #[trigger] t.folders[i]).name != (#[trigger] t.folders[j]).name by {
        crate::bytes::lemma_lex_asymmetric(
            name_bytes(t.folders[i].name),
            name_bytes(t.folders[j].name),
        );
    }
    assert forall|i: int, j: int| 0 <= i < j < t.files.len() implies (
    #[trigger] t.files[i]).name != (#[trigger] t.files[j]).name by {
        crate::bytes::lemma_lex_asymmetric(
            name_bytes(t.files[i].name),
            name_bytes(t.files[j].name),
        );
    }
}

/// A walked subfolder, as the snapshot recursion reports it: its digest
/// and recursive totals.
#[derive(Debug, Clone)]
pub struct ChildStats {
    /// Name of the subfolder within its directory.
    pub name: String,
    /// Digest of the subfolder's tree node.
    pub hash: u128,
    /// Total size in bytes below the subfolder.
    pub size: u64,
    /// Number of files below the subfolder.
    pub file_count: u64,
    /// Number of folders below the subfolder.
    pub folder_count: u64,
}

pub struct ChildStatsV {
    pub name: Seq<char>,
    pub hash: u128,
    pub size: u64,
    pub file_count: u64,
    pub folder_count: u64,
}

impl View for ChildStats {
    type V = ChildStatsV;

    open spec fn view(&self) -> ChildStatsV {
        ChildStatsV {
            name: self.name@,
            hash: self.hash,
            size: self.size,
            file_count: self.file_count,
            folder_count: self.folder_count,
        }
    }
}

pub open spec fn child_views(s: Seq<ChildStats>) -> Seq<ChildStatsV> {
    s.map_values(|c: ChildStats| c@)
}

/// The folder references a directory node carries for these children.
pub open spec fn child_folders(cs: Seq<ChildStatsV>) -> Seq<FolderV> {
    cs.map_values(|c: ChildStatsV| FolderV { name: c.name, hash: c.hash })
}

pub open spec fn children_strictly_sorted(cs: Seq<ChildStatsV>) -> bool {
    forall|i: int, j: int|
        0 <= i < j < cs.len() ==> lex_lt(name_bytes(#[trigger] cs[i].name), name_bytes(
            #[trigger] cs[j].name,
        ))
}

pub open spec fn spec_sum_sizes(cs: Seq<ChildStatsV>) -> int
    decreases cs.len(),
{
    if cs.len() == 0 {
        0
    } else {
        cs[0].size + spec_sum_sizes(cs.drop_first())
    }
}

pub open spec fn spec_sum_file_counts(cs: Seq<ChildStatsV>) -> int
    decreases cs.len(),
{
    if cs.len() == 0 {
        0
    } else {
        cs[0].file_count + spec_sum_file_counts(cs.drop_first())
    }
}

pub open spec fn spec_sum_folder_counts(cs: Seq<ChildStatsV>) -> int
    decreases cs.len(),
{
    if cs.len() == 0 {
        0
    } else {
        cs[0].folder_count + spec_sum_folder_counts(cs.drop_first())
    }
}

pub open spec fn spec_sum_file_sizes(fs: Seq<FileV>) -> int
    decreases fs.len(),
{
    if fs.len() == 0 {
        0
    } else {
        fs[0].blob.size + spec_sum_file_sizes(fs.drop_first())
    }
}

/// Whether a child list is strictly ascending by name bytes.
pub fn check_children_sorted(children: &Vec<ChildStats>) -> (r: bool)
    ensures
        r == children_strictly_sorted(child_views(children@)),
{
    let len = children.len();
    if len == 0 {
        return true;
    }
    let mut i: usize = 0;
    while i < len - 1
        invariant
            len == children@.len(),
            len >= 1,
            i <= len - 1,
            forall|j: int|
                0 <= j < i ==> lex_lt(
                    name_bytes(#[trigger] child_views(children@)[j].name),
                    name_bytes(child_views(children@)[j + 1].name),
                ),
        decreases len - i,
    {
        let c = crate::bytes::bytes_cmp(children[i].name.as_str().as_bytes(), children[i
            + 1].name.as_str().as_bytes());
        if !matches!(c, crate::bytes::Cmp::Lt) {
            proof {
                let cv = child_views(children@);
                assert(!lex_lt(name_bytes(cv[i as int].name), name_bytes(cv[i + 1].name)));
                assert(!children_strictly_sorted(cv)) by {
                    if children_strictly_sorted(cv) {
                        assert(lex_lt(name_bytes(cv[i as int].name), name_bytes(cv[i + 1].name)));
                    }
                }
            }
            return false;
        }
        i = i + 1;
    }
    proof {
        let cv = child_views(children@);
        assert forall|a: int, b: int| 0 <= a < b < cv.len() implies lex_lt(
            name_bytes(#[trigger] cv[a].name),
            name_bytes(#[trigger] cv[b].name),
        ) by {
            lemma_chain_children(cv, a, b);
        }
    }
    true
}

proof fn lemma_chain_children(cs: Seq<ChildStatsV>, i: int, j: int)
    requires
        forall|k: int|
            0 <= k < cs.len() - 1 ==> lex_lt(
                name_bytes(#[trigger] cs[k].name),
                name_bytes(cs[k + 1].name),
            ),
        0 <= i < j < cs.len(),
    ensures
        lex_lt(name_bytes(cs[i].name), name_bytes(cs[j].name)),
    decreases j - i,
{
    if i + 1 == j {
    } else {
        lemma_chain_children(cs, i, j - 1);
        crate::bytes::lemma_lex_transitive(
            name_bytes(cs[i].name),
            name_bytes(cs[j - 1].name),
            name_bytes(cs[j].name),
        );
    }
}

/// Builds and persists one directory node from its walked children and
/// its files: the folder references in order, the recursive totals summed
/// exactly, the digest computed over the canonical input.
pub fn assemble_node(ws: &mut Workspace, children: Vec<ChildStats>, files: Vec<File>) -> (r:
    Result<Tree, TreeError>)
    requires
        children_strictly_sorted(child_views(children@)),
        files_strictly_sorted(file_views(files@)),
    ensures
        final(ws).blobs == old(ws).blobs,
        final(ws).branches == old(ws).branches,
        final(ws).commitdb == old(ws).commitdb,
        final(ws).repodb == old(ws).repodb,
        match r {
            Ok(t) => {
                &&& t@.folders == child_folders(child_views(children@))
                &&& t@.files == file_views(files@)
                &&& t.hash == spec_tree_hash(
                    child_folders(child_views(children@)),
                    file_views(files@),
                )
                &&& t.size as int == spec_sum_sizes(child_views(children@))
                    + spec_sum_file_sizes(file_views(files@))
                &&& t.file_count as int == files@.len() + spec_sum_file_counts(
                    child_views(children@),
                )
                &&& t.folder_count as int == children@.len() + spec_sum_folder_counts(
                    child_views(children@),
                )
                &&& spec_tree_wf(t@)
                &&& final(ws).trees_kv() == old(ws).trees_kv().insert(
                    spec_tree_key(t.hash),
                    spec_enc_tree(t@),
                )
                &&& spec_tree_at(final(ws).trees_kv(), t.hash) == Some(t@)
            },
            Err(e) => e is DatabaseError || e is Other,
        },
{
    let ghost cv = child_views(children@);
    let ghost fv = file_views(files@);
    let n = children.len();
    let mut folders: Vec<Folder> = Vec::new();
    let mut total_size: u64 = 0;
    let mut file_count: u64 = files.len() as u64;
    let mut folder_count: u64 = children.len() as u64;
    let mut i: usize = 0;
    proof {
        assert(cv.skip(0) =~= cv);
        assert(folder_views(folders@) =~= Seq::<FolderV>::empty());
        assert(Seq::<FolderV>::empty() + child_folders(cv.skip(0)) =~= child_folders(cv));
    }
    while i < n
        invariant
            i <= n,
            n == children@.len(),
            cv == child_views(children@),
            file_count as int == files@.len() + spec_sum_file_counts(cv) - spec_sum_file_counts(
                cv.skip(i as int),
            ),
            folder_count as int == children@.len() + spec_sum_folder_counts(cv)
                - spec_sum_folder_counts(cv.skip(i as int)),
            total_size as int == spec_sum_sizes(cv) - spec_sum_sizes(cv.skip(i as int)),
            folder_views(folders@) + child_folders(cv.skip(i as int)) == child_folders(cv),
        decreases n - i,
    {
        proof {
            assert(cv.skip(i as int)[0] == cv[i as int]);
            assert(cv.skip(i as int).drop_first() =~= cv.skip(i + 1));
        }
        let c = &children[i];
        if total_size > u64::MAX - c.size || file_count > u64::MAX - c.file_count || folder_count
            > u64::MAX - c.folder_count {
            return Err(TreeError::Other(String::from_str("directory totals overflow")));
        }
        total_size = total_size + c.size;
        file_count = file_count + c.file_count;
        folder_count = folder_count + c.folder_count;
        let f = Folder { name: c.name.clone(), hash: c.hash };
        proof {
            assert(folder_views(folders@.push(f)) =~= folder_views(folders@) + seq![f@]);
            assert(folder_views(folders@.push(f)) + child_folders(cv.skip(i + 1)) =~= child_folders(
                cv,
            ));
        }
        folders.push(f);
        i = i + 1;
    }
    let klen = files.len();
    let mut k: usize = 0;
    proof {
        assert(cv.skip(n as int) =~= Seq::<ChildStatsV>::empty());
        assert(fv.skip(0) =~= fv);
        assert(folder_views(folders@) + Seq::<FolderV>::empty() =~= folder_views(folders@));
    }
    while k < klen
        invariant
            k <= klen,
            klen == files@.len(),
            fv == file_views(files@),
            cv == child_views(children@),
            total_size as int == spec_sum_sizes(cv) + spec_sum_file_sizes(fv)
                - spec_sum_file_sizes(fv.skip(k as int)),
        decreases klen - k,
    {
        proof {
            assert(fv.skip(k as int)[0] == fv[k as int]);
            assert(fv.skip(k as int).drop_first() =~= fv.skip(k + 1));
        }
        let sz = files[k].blob.size;
        if total_size > u64::MAX - sz {
            return Err(TreeError::Other(String::from_str("directory totals overflow")));
        }
        total_size = total_size + sz;
        k = k + 1;
    }
    proof {
        assert(fv.skip(klen as int) =~= Seq::<FileV>::empty());
        assert(folder_views(folders@) == child_folders(cv));
        assert(folders_strictly_sorted(folder_views(folders@))) by {
            assert forall|a: int, b: int| 0 <= a < b < folder_views(folders@).len() implies lex_lt(
                name_bytes(#[trigger] folder_views(folders@)[a].name),
                name_bytes(#[trigger] folder_views(folders@)[b].name),
            ) by {
                assert(folder_views(folders@)[a].name == cv[a].name);
                assert(folder_views(folders@)[b].name == cv[b].name);
            }
        }
    }
    match new_tree(ws, folders, files, total_size, file_count, folder_count) {
        Ok(t) => Ok(t),
        Err(e) => Err(e),
    }
}

} // verus!
