//! Commits and the version-stacked commit store.
//!
//! A commit is keyed by `(branch, seq)`.  The store has no multi-value
//! keys, so each key holds a stack of commit records sorted by version in
//! descending order; a reader pinned to an older branch version still
//! sees the record that was current then.

use vstd::prelude::*;
use vstd::string::StrSliceExecFns;
use vstd::utf8::encode_utf8;
use crate::bytes::{spec_be_bytes, lemma_be_bytes_len, lemma_be_bytes_injective, lemma_pow256_16};
use crate::codec::{
    spec_enc_u64,
    spec_enc_u128,
    spec_enc_str,
    spec_dec_uint,
    spec_dec_str,
    str_fits,
    append_u64,
    append_u128,
    append_str,
    dec_u64,
    dec_u128,
    dec_str,
    lemma_subrange_of_subrange,
    lemma_dec_uint_of_enc,
    lemma_dec_str_of_enc,
};
use crate::branch::{BranchV, spec_branch_at, spec_branch_key};
use crate::errors::CommitError;
use crate::store::{db_tree_get, db_tree_insert, db_tree_flush};
use crate::workspace::{Workspace, commits_keyspace_name, meta_keyspace_name};

verus! {

/// The sequence number of every sentinel commit.
pub const SEQ_ZERO: u64 = 0;

/// The rebuild marker value meaning "no rebuild in progress".
pub const NO_REBUILD: u64 = 0;

/// Identifier of a commit: a branch and a sequence number on it.
#[derive(Debug, Clone, Copy, PartialEq, Eq, Structural)]
pub struct CommitID {
    /// Identifier of the branch.
    pub branch: u64,
    /// The sequential number of the commit on the branch.
    pub seq: u64,
}

/// The process-wide pointer naming what the working directory reflects.
#[derive(Debug, Clone, Copy, PartialEq, Eq, Structural)]
pub struct CurrentCommitSpec {
    /// The id of the current commit.
    pub commit_id: CommitID,
    /// The branch version the working directory reflects.
    pub ver: u64,
    /// The sequence being rebuilt, or `NO_REBUILD`.
    pub rebuild_seq: u64,
    /// The version being rebuilt, or `NO_REBUILD`.
    pub rebuild_ver: u64,
}

/// A single commit record.
#[derive(Debug, Clone)]
pub struct Commit {
    /// Identifier of the commit.
    pub id: CommitID,
    /// Version of the branch at which this record became current.
    pub ver: u64,
    /// Hash of the commit: message bytes followed by the tree digest.
    pub hash: u128,
    /// Digest of the root tree node this commit snapshots.
    pub treehash: u128,
    /// The commit message.
    pub message: String,
}

pub struct CommitV {
    pub id: CommitID,
    pub ver: u64,
    pub hash: u128,
    pub treehash: u128,
    pub message: Seq<char>,
}

impl View for Commit {
    type V = CommitV;

    open spec fn view(&self) -> CommitV {
        CommitV {
            id: self.id,
            ver: self.ver,
            hash: self.hash,
            treehash: self.treehash,
            message: self.message@,
        }
    }
}

impl Commit {
    /// A field-for-field copy whose view equals this record's.
    pub fn duplicate(&self) -> (c: Commit)
        ensures
            c@ == self@,
    {
        Commit {
            id: self.id,
            ver: self.ver,
            hash: self.hash,
            treehash: self.treehash,
            message: self.message.clone(),
        }
    }
}

// ---------------------------------------------------------------------------
// Keys and encoding
// ---------------------------------------------------------------------------
/// The composite key of a commit: branch id then sequence, big-endian.
pub open spec fn spec_commit_key(id: CommitID) -> Seq<u8> {
    spec_be_bytes(id.branch as nat, 8) + spec_be_bytes(id.seq as nat, 8)
}

/// Builds the composite key for a commit id.
pub fn compose_key(commit_id: CommitID) -> (r: Vec<u8>)
    ensures
        r@ == spec_commit_key(commit_id),
{
    let mut key = crate::bytes::u64_to_be(commit_id.branch);
    let mut seqb = crate::bytes::u64_to_be(commit_id.seq);
    key.append(&mut seqb);
    key
}

/// Distinct commit ids have distinct keys.
pub proof fn lemma_commit_key_injective(a: CommitID, b: CommitID)
    requires
        spec_commit_key(a) == spec_commit_key(b),
    ensures
        a == b,
{
    lemma_be_bytes_len(a.branch as nat, 8);
    lemma_be_bytes_len(a.seq as nat, 8);
    lemma_be_bytes_len(b.branch as nat, 8);
    lemma_be_bytes_len(b.seq as nat, 8);
    lemma_pow256_16();
    let ka = spec_commit_key(a);
    let kb = spec_commit_key(b);
    assert(ka.subrange(0, 8) =~= spec_be_bytes(a.branch as nat, 8));
    assert(ka.subrange(8, 16) =~= spec_be_bytes(a.seq as nat, 8));
    assert(kb.subrange(0, 8) =~= spec_be_bytes(b.branch as nat, 8));
    assert(kb.subrange(8, 16) =~= spec_be_bytes(b.seq as nat, 8));
    lemma_be_bytes_injective(a.branch as nat, b.branch as nat, 8);
    lemma_be_bytes_injective(a.seq as nat, b.seq as nat, 8);
}

pub open spec fn spec_enc_commit(c: CommitV) -> Seq<u8> {
    spec_be_bytes(c.id.branch as nat, 8) + spec_be_bytes(c.id.seq as nat, 8) + spec_enc_u64(c.ver)
        + spec_enc_u128(c.hash) + spec_enc_u128(c.treehash) + spec_enc_str(c.message)
}

pub open spec fn spec_dec_commit(b: Seq<u8>, pos: int) -> Option<(CommitV, int)> {
    match spec_dec_uint(b, pos, 8) {
        None => None,
        Some((branch, p1)) => match spec_dec_uint(b, p1, 8) {
            None => None,
            Some((seq, p2)) => match spec_dec_uint(b, p2, 8) {
                None => None,
                Some((ver, p3)) => match spec_dec_uint(b, p3, 16) {
                    None => None,
                    Some((hash, p4)) => match spec_dec_uint(b, p4, 16) {
                        None => None,
                        Some((treehash, p5)) => match spec_dec_str(b, p5) {
                            None => None,
                            Some((message, p6)) => Some(
                                (
                                    CommitV {
                                        id: CommitID {
                                            branch: branch as u64,
                                            seq: seq as u64,
                                        },
                                        ver: ver as u64,
                                        hash: hash as u128,
                                        treehash: treehash as u128,
                                        message,
                                    },
                                    p6,
                                ),
                            ),
                        },
                    },
                },
            },
        },
    }
}

pub fn append_commit(out: &mut Vec<u8>, c: &Commit)
    ensures
        final(out)@ == old(out)@ + spec_enc_commit(c@),
        str_fits(c.message@),
{
    append_u64(out, c.id.branch);
    append_u64(out, c.id.seq);
    append_u64(out, c.ver);
    append_u128(out, c.hash);
    append_u128(out, c.treehash);
    append_str(out, &c.message);
    proof {
        assert(final(out)@ =~= old(out)@ + spec_enc_commit(c@));
    }
}

pub fn dec_commit(b: &Vec<u8>, pos: usize) -> (r: Option<(Commit, usize)>)
    ensures
        match r {
            Some((c, next)) => spec_dec_commit(b@, pos as int) == Some((c@, next as int)),
            None => spec_dec_commit(b@, pos as int) is None,
        },
{
    let (branch, p1) = match dec_u64(b, pos) {
        None => {
            return None;
        },
        Some(x) => x,
    };
    let (seq, p2) = match dec_u64(b, p1) {
        None => {
            return None;
        },
        Some(x) => x,
    };
    let (ver, p3) = match dec_u64(b, p2) {
        None => {
            return None;
        },
        Some(x) => x,
    };
    let (hash, p4) = match dec_u128(b, p3) {
        None => {
            return None;
        },
        Some(x) => x,
    };
    let (treehash, p5) = match dec_u128(b, p4) {
        None => {
            return None;
        },
        Some(x) => x,
    };
    let (message, p6) = match dec_str(b, p5) {
        None => {
            return None;
        },
        Some(x) => x,
    };
    Some((Commit { id: CommitID { branch, seq }, ver, hash, treehash, message }, p6))
}

/// Decoding a commit record where one was encoded yields it back.
pub proof fn lemma_dec_commit_of_enc(b: Seq<u8>, pos: int, c: CommitV)
    requires
        0 <= pos,
        pos + spec_enc_commit(c).len() <= b.len(),
        str_fits(c.message),
        b.subrange(pos, pos + spec_enc_commit(c).len() as int) == spec_enc_commit(c),
    ensures
        spec_dec_commit(b, pos) == Some((c, pos + spec_enc_commit(c).len())),
{
    let e = spec_enc_commit(c);
    let es = spec_enc_str(c.message);
    lemma_be_bytes_len(c.id.branch as nat, 8);
    lemma_be_bytes_len(c.id.seq as nat, 8);
    lemma_be_bytes_len(c.ver as nat, 8);
    lemma_be_bytes_len(c.hash as nat, 16);
    lemma_be_bytes_len(c.treehash as nat, 16);
    lemma_be_bytes_len(encode_utf8(c.message).len(), 8);
    lemma_pow256_16();
    let lt = e.len() as int;
    assert(lt == 56 + es.len());
    lemma_subrange_of_subrange(b, pos, lt, 0, 8);
    assert(e.subrange(0, 8) =~= spec_be_bytes(c.id.branch as nat, 8));
    lemma_dec_uint_of_enc(b, pos, c.id.branch as nat, 8);
    lemma_subrange_of_subrange(b, pos, lt, 8, 16);
    assert(e.subrange(8, 16) =~= spec_be_bytes(c.id.seq as nat, 8));
    lemma_dec_uint_of_enc(b, pos + 8, c.id.seq as nat, 8);
    lemma_subrange_of_subrange(b, pos, lt, 16, 24);
    assert(e.subrange(16, 24) =~= spec_enc_u64(c.ver));
    lemma_dec_uint_of_enc(b, pos + 16, c.ver as nat, 8);
    lemma_subrange_of_subrange(b, pos, lt, 24, 40);
    assert(e.subrange(24, 40) =~= spec_enc_u128(c.hash));
    lemma_dec_uint_of_enc(b, pos + 24, c.hash as nat, 16);
    lemma_subrange_of_subrange(b, pos, lt, 40, 56);
    assert(e.subrange(40, 56) =~= spec_enc_u128(c.treehash));
    lemma_dec_uint_of_enc(b, pos + 40, c.treehash as nat, 16);
    lemma_subrange_of_subrange(b, pos, lt, 56, lt);
    assert(e.subrange(56, lt) =~= es);
    lemma_dec_str_of_enc(b, pos + 56, c.message);
}

// ---------------------------------------------------------------------------
// Version stacks
// ---------------------------------------------------------------------------
pub open spec fn spec_enc_commits(cs: Seq<CommitV>) -> Seq<u8>
    decreases cs.len(),
{
    if cs.len() == 0 {
        Seq::empty()
    } else {
        spec_enc_commit(cs[0]) + spec_enc_commits(cs.drop_first())
    }
}

/// A stored stack: an eight-byte count, then the records, newest version
/// first.
pub open spec fn spec_enc_stack(cs: Seq<CommitV>) -> Seq<u8> {
    spec_enc_u64(cs.len() as u64) + spec_enc_commits(cs)
}

pub open spec fn stack_fits(cs: Seq<CommitV>) -> bool {
    &&& cs.len() < 0x1_0000_0000_0000_0000
    &&& forall|i: int| 0 <= i < cs.len() ==> str_fits((#[trigger] cs[i]).message)
}

pub open spec fn spec_dec_commits(b: Seq<u8>, pos: int, count: nat) -> Option<(Seq<CommitV>, int)>
    decreases count,
{
    if count == 0 {
        Some((Seq::empty(), pos))
    } else {
        match spec_dec_commit(b, pos) {
            None => None,
            Some((c, p1)) => match spec_dec_commits(b, p1, (count - 1) as nat) {
                None => None,
                Some((rest, p2)) => Some((seq![c] + rest, p2)),
            },
        }
    }
}

pub open spec fn spec_dec_stack(b: Seq<u8>, pos: int) -> Option<(Seq<CommitV>, int)> {
    match spec_dec_uint(b, pos, 8) {
        None => None,
        Some((count, p1)) => spec_dec_commits(b, p1, count),
    }
}

/// Splitting a commit-list decode at any point composes.
proof fn lemma_dec_commits_split(b: Seq<u8>, pos: int, k: nat, m: nat)
    ensures
        spec_dec_commits(b, pos, k + m) == match spec_dec_commits(b, pos, k) {
            None => None::<(Seq<CommitV>, int)>,
            Some((s1, p1)) => match spec_dec_commits(b, p1, m) {
                None => None,
                Some((s2, p2)) => Some((s1 + s2, p2)),
            },
        },
    decreases k,
{
    if k == 0 {
        match spec_dec_commits(b, pos, m) {
            None => {
            },
            Some((s2, p2)) => {
                assert(Seq::<CommitV>::empty() + s2 =~= s2);
            },
        }
    } else {
        match spec_dec_commit(b, pos) {
            None => {
            },
            Some((c, p1)) => {
                lemma_dec_commits_split(b, p1, (k - 1) as nat, m);
                match spec_dec_commits(b, p1, ((k - 1) + m) as nat) {
                    None => {
                    },
                    Some((s, p)) => {
                        match spec_dec_commits(b, p1, (k - 1) as nat) {
                            None => {
                            },
                            Some((s1, q1)) => {
                                match spec_dec_commits(b, q1, m) {
                                    None => {
                                    },
                                    Some((s2, q2)) => {
                                        assert(seq![c] + (s1 + s2) =~= (seq![c] + s1) + s2);
                                    },
                                }
                            },
                        }
                    },
                }
            },
        }
    }
}

/// Decoding a commit list where one was encoded yields it back.
pub proof fn lemma_dec_commits_of_enc(b: Seq<u8>, pos: int, cs: Seq<CommitV>)
    requires
        0 <= pos,
        pos + spec_enc_commits(cs).len() <= b.len(),
        forall|i: int| 0 <= i < cs.len() ==> str_fits((#[trigger] cs[i]).message),
        b.subrange(pos, pos + spec_enc_commits(cs).len() as int) == spec_enc_commits(cs),
    ensures
        spec_dec_commits(b, pos, cs.len()) == Some((cs, pos + spec_enc_commits(cs).len())),
    decreases cs.len(),
{
    let e = spec_enc_commits(cs);
    if cs.len() == 0 {
        assert(cs =~= Seq::<CommitV>::empty());
    } else {
        let e0 = spec_enc_commit(cs[0]);
        let l0 = e0.len() as int;
        let rest = cs.drop_first();
        let er = spec_enc_commits(rest);
        assert(e.len() == l0 + er.len());
        lemma_subrange_of_subrange(b, pos, e.len() as int, 0, l0);
        assert(e.subrange(0, l0) =~= e0);
        lemma_dec_commit_of_enc(b, pos, cs[0]);
        lemma_subrange_of_subrange(b, pos, e.len() as int, l0, e.len() as int);
        assert(e.subrange(l0, e.len() as int) =~= er);
        assert(forall|i: int| 0 <= i < rest.len() ==> str_fits((#[trigger] rest[i]).message));
        lemma_dec_commits_of_enc(b, pos + l0, rest);
        assert(seq![cs[0]] + rest =~= cs);
    }
}

/// Decoding a stack where one was encoded yields it back.
pub proof fn lemma_dec_stack_of_enc(b: Seq<u8>, pos: int, cs: Seq<CommitV>)
    requires
        0 <= pos,
        pos + spec_enc_stack(cs).len() <= b.len(),
        stack_fits(cs),
        b.subrange(pos, pos + spec_enc_stack(cs).len() as int) == spec_enc_stack(cs),
    ensures
        spec_dec_stack(b, pos) == Some((cs, pos + spec_enc_stack(cs).len())),
{
    let e = spec_enc_stack(cs);
    lemma_be_bytes_len(cs.len(), 8);
    lemma_pow256_16();
    let lt = e.len() as int;
    lemma_subrange_of_subrange(b, pos, lt, 0, 8);
    assert(e.subrange(0, 8) =~= spec_enc_u64(cs.len() as u64));
    lemma_dec_uint_of_enc(b, pos, cs.len(), 8);
    lemma_subrange_of_subrange(b, pos, lt, 8, lt);
    assert(e.subrange(8, lt) =~= spec_enc_commits(cs));
    lemma_dec_commits_of_enc(b, pos + 8, cs);
}

pub fn enc_stack(cs: &Vec<Commit>) -> (r: Vec<u8>)
    ensures
        r@ == spec_enc_stack(commit_views(cs@)),
        stack_fits(commit_views(cs@)),
{
    let mut out: Vec<u8> = Vec::new();
    let n = cs.len();
    append_u64(&mut out, n as u64);
    let ghost head = out@;
    let mut i: usize = 0;
    proof {
        assert(commit_views(cs@).skip(0) =~= commit_views(cs@));
    }
    while i < n
        invariant
            i <= n,
            n == cs@.len(),
            out@ + spec_enc_commits(commit_views(cs@).skip(i as int)) == head + spec_enc_commits(
                commit_views(cs@),
            ),
            forall|j: int| 0 <= j < i ==> str_fits((#[trigger] commit_views(cs@)[j]).message),
        decreases n - i,
    {
        append_commit(&mut out, &cs[i]);
        proof {
            let cv = commit_views(cs@);
            assert(cv.skip(i as int)[0] == cv[i as int]);
            assert(cv.skip(i as int).drop_first() =~= cv.skip(i + 1));
            assert(out@ + spec_enc_commits(cv.skip(i + 1)) =~= head + spec_enc_commits(cv));
        }
        i = i + 1;
    }
    proof {
        assert(commit_views(cs@).skip(n as int) =~= Seq::<CommitV>::empty());
        assert(out@ =~= spec_enc_stack(commit_views(cs@)));
    }
    out
}

pub open spec fn commit_views(s: Seq<Commit>) -> Seq<CommitV> {
    s.map_values(|c: Commit| c@)
}

pub fn dec_stack(b: &Vec<u8>, pos: usize) -> (r: Option<(Vec<Commit>, usize)>)
    ensures
        match r {
            Some((cs, next)) => spec_dec_stack(b@, pos as int) == Some(
                (commit_views(cs@), next as int),
            ),
            None => spec_dec_stack(b@, pos as int) is None,
        },
{
    let (count, p1) = match dec_u64(b, pos) {
        None => {
            return None;
        },
        Some(x) => x,
    };
    let mut acc: Vec<Commit> = Vec::new();
    let mut p: usize = p1;
    let mut k: u64 = 0;
    proof {
        assert(commit_views(acc@) =~= Seq::<CommitV>::empty());
    }
    while k < count
        invariant
            k <= count,
            spec_dec_commits(b@, p1 as int, k as nat) == Some((commit_views(acc@), p as int)),
            spec_dec_uint(b@, pos as int, 8) == Some((count as nat, p1 as int)),
        decreases count - k,
    {
        proof {
            lemma_dec_commits_split(b@, p1 as int, k as nat, (count - k) as nat);
            lemma_dec_commits_split(b@, p1 as int, k as nat, 1);
        }
        match dec_commit(b, p) {
            None => {
                return None;
            },
            Some((c, pnext)) => {
                proof {
                    let cv = commit_views(acc@);
                    assert(spec_dec_commits(b@, pnext as int, 0) == Some(
                        (Seq::<CommitV>::empty(), pnext as int),
                    ));
                    assert(seq![c@] + Seq::<CommitV>::empty() =~= seq![c@]);
                    assert(spec_dec_commits(b@, p as int, 1) == Some((seq![c@], pnext as int)));
                    assert(commit_views(acc@.push(c)) =~= cv + seq![c@]);
                }
                acc.push(c);
                p = pnext;
            },
        }
        k = k + 1;
    }
    Some((acc, p))
}

// ---------------------------------------------------------------------------
// Stack insertion and lookup
// ---------------------------------------------------------------------------
/// Where a new record lands in a stack sorted by descending version: in
/// front of the first entry it outranks, replacing one of equal version.
pub open spec fn spec_stack_insert(stack: Seq<CommitV>, c: CommitV) -> Seq<CommitV>
    decreases stack.len(),
{
    if stack.len() == 0 {
        seq![c]
    } else if c.ver > stack[0].ver {
        seq![c] + stack
    } else if c.ver == stack[0].ver {
        stack.update(0, c)
    } else {
        seq![stack[0]] + spec_stack_insert(stack.drop_first(), c)
    }
}

/// The record a reader pinned to `ver` sees: the first entry at or below
/// that version.
pub open spec fn spec_stack_lookup(stack: Seq<CommitV>, ver: u64) -> Option<CommitV>
    decreases stack.len(),
{
    if stack.len() == 0 {
        None
    } else if stack[0].ver <= ver {
        Some(stack[0])
    } else {
        spec_stack_lookup(stack.drop_first(), ver)
    }
}

/// Inserting a newer record leaves every older reader's view unchanged.
pub proof fn lemma_stack_insert_preserves_low(stack: Seq<CommitV>, c: CommitV, ver: u64)
    requires
        c.ver > ver,
    ensures
        spec_stack_lookup(spec_stack_insert(stack, c), ver) == spec_stack_lookup(stack, ver),
    decreases stack.len(),
{
    if stack.len() == 0 {
        let s2 = spec_stack_insert(stack, c);
        assert(s2 =~= seq![c]);
        assert(s2.drop_first() =~= Seq::<CommitV>::empty());
        assert(s2[0] == c && c.ver > ver);
        assert(spec_stack_lookup(s2, ver) == spec_stack_lookup(s2.drop_first(), ver));
        assert(spec_stack_lookup(s2, ver) is None);
    } else if c.ver > stack[0].ver {
        let s2 = spec_stack_insert(stack, c);
        assert(s2 =~= seq![c] + stack);
        assert(s2[0] == c);
        assert(s2.drop_first() =~= stack);
        assert(spec_stack_lookup(s2, ver) == spec_stack_lookup(stack, ver));
    } else if c.ver == stack[0].ver {
        let s2 = spec_stack_insert(stack, c);
        assert(s2 =~= stack.update(0, c));
        assert(s2.len() == stack.len());
        assert(s2[0] == c);
        assert(s2.drop_first() =~= stack.drop_first());
        assert(spec_stack_lookup(s2, ver) == spec_stack_lookup(stack.drop_first(), ver));
        assert(spec_stack_lookup(stack, ver) == spec_stack_lookup(stack.drop_first(), ver));
    } else {
        let s2 = spec_stack_insert(stack, c);
        assert(s2 =~= seq![stack[0]] + spec_stack_insert(stack.drop_first(), c));
        assert(s2.len() > 0);
        assert(s2[0] == stack[0]);
        assert(s2.drop_first() =~= spec_stack_insert(stack.drop_first(), c));
        lemma_stack_insert_preserves_low(stack.drop_first(), c, ver);
        if stack[0].ver <= ver {
            assert(spec_stack_lookup(s2, ver) == Some(stack[0]));
            assert(spec_stack_lookup(stack, ver) == Some(stack[0]));
        } else {
            assert(spec_stack_lookup(s2, ver) == spec_stack_lookup(s2.drop_first(), ver));
            assert(spec_stack_lookup(stack, ver) == spec_stack_lookup(stack.drop_first(), ver));
        }
    }
}

/// Inserts a record into a stack, keeping descending version order.
fn stack_insert(stack: &mut Vec<Commit>, c: &Commit)
    ensures
        commit_views(final(stack)@) == spec_stack_insert(commit_views(old(stack)@), c@),
    decreases old(stack)@.len(),
{
    if stack.len() == 0 {
        stack.push(c.duplicate());
        proof {
            assert(commit_views(stack@) =~= seq![c@]);
        }
    } else if c.ver > stack[0].ver {
        stack.insert(0, c.duplicate());
        proof {
            assert(commit_views(stack@) =~= seq![c@] + commit_views(old(stack)@));
        }
    } else if c.ver == stack[0].ver {
        stack.set(0, c.duplicate());
        proof {
            assert(commit_views(stack@) =~= commit_views(old(stack)@).update(0, c@));
        }
    } else {
        let head = stack.remove(0);
        stack_insert(stack, c);
        stack.insert(0, head);
        proof {
            let ov = commit_views(old(stack)@);
            assert(commit_views(old(stack)@.remove(0)) =~= ov.drop_first());
            assert(commit_views(stack@) =~= seq![ov[0]] + spec_stack_insert(ov.drop_first(), c@));
        }
    }
}

/// Looks up the first record at or below `ver` in a descending stack.
fn stack_lookup(stack: &Vec<Commit>, ver: u64) -> (r: Option<Commit>)
    ensures
        match r {
            Some(c) => spec_stack_lookup(commit_views(stack@), ver) == Some(c@),
            None => spec_stack_lookup(commit_views(stack@), ver) is None,
        },
{
    let n = stack.len();
    let mut i: usize = 0;
    proof {
        assert(commit_views(stack@).skip(0) =~= commit_views(stack@));
    }
    while i < n
        invariant
            i <= n,
            n == stack@.len(),
            spec_stack_lookup(commit_views(stack@), ver) == spec_stack_lookup(
                commit_views(stack@).skip(i as int),
                ver,
            ),
        decreases n - i,
    {
        proof {
            let cv = commit_views(stack@);
            assert(cv.skip(i as int)[0] == cv[i as int]);
            assert(cv.skip(i as int).drop_first() =~= cv.skip(i + 1));
        }
        if stack[i].ver <= ver {
            return Some(stack[i].duplicate());
        }
        i = i + 1;
    }
    proof {
        assert(commit_views(stack@).skip(n as int) =~= Seq::<CommitV>::empty());
    }
    None
}

// ---------------------------------------------------------------------------
// Store model
// ---------------------------------------------------------------------------
/// The stack stored for a commit id, if the map holds a well-formed one.
pub open spec fn spec_stack_at(m: Map<Seq<u8>, Seq<u8>>, id: CommitID) -> Option<Seq<CommitV>> {
    if m.contains_key(spec_commit_key(id)) {
        match spec_dec_stack(m[spec_commit_key(id)], 0) {
            Some((s, n)) => if n == m[spec_commit_key(id)].len() {
                Some(s)
            } else {
                None
            },
            None => None,
        }
    } else {
        None
    }
}

/// The commit a reader pinned to `ver` resolves for an id.
pub open spec fn spec_commit_get(m: Map<Seq<u8>, Seq<u8>>, id: CommitID, ver: u64) -> Option<
    CommitV,
> {
    match spec_stack_at(m, id) {
        Some(s) => spec_stack_lookup(s, ver),
        None => None,
    }
}

/// The stack a save leaves at the record's key.
pub open spec fn spec_stack_after_save(m: Map<Seq<u8>, Seq<u8>>, c: CommitV) -> Seq<CommitV> {
    match spec_stack_at(m, c.id) {
        Some(s) => spec_stack_insert(s, c),
        None => seq![c],
    }
}

/// Saves a commit into the version stack at its key, by one
/// read-modify-write of the stored stack.
#[verifier::spinoff_prover]
#[verifier::rlimit(100)]
pub fn commit_save(ws: &mut Workspace, commit: &Commit) -> (r: Result<(), CommitError>)
    ensures
        final(ws).blobs == old(ws).blobs,
        final(ws).trees == old(ws).trees,
        final(ws).branches == old(ws).branches,
        final(ws).repodb == old(ws).repodb,
        match r {
            Ok(()) => {
                &&& final(ws).commits_kv() == old(ws).commits_kv().insert(
                    spec_commit_key(commit.id),
                    spec_enc_stack(spec_stack_after_save(old(ws).commits_kv(), commit@)),
                )
                &&& spec_stack_at(final(ws).commits_kv(), commit.id) == Some(
                    spec_stack_after_save(old(ws).commits_kv(), commit@),
                )
                &&& final(ws).meta_kv() == old(ws).meta_kv()
                &&& commits_wf(old(ws).commits_kv()) ==> commits_wf(final(ws).commits_kv())
            },
            Err(e) => match e {
                CommitError::SerializationError(_) => final(ws).commitdb == old(ws).commitdb
                    && old(ws).commits_kv().contains_key(spec_commit_key(commit.id))
                    && spec_stack_at(old(ws).commits_kv(), commit.id) is None,
                CommitError::DatabaseError(_) => true,
                _ => false,
            },
        },
{
    proof {
        crate::workspace::lemma_keyspace_names_distinct();
    }
    let key = compose_key(commit.id);
    let bytes = match db_tree_get(&ws.commitdb, "commits", key.as_slice()) {
        Ok(b) => b,
        Err(m) => {
            return Err(CommitError::DatabaseError(m));
        },
    };
    let mut stack: Vec<Commit> = match bytes {
        Some(b) => {
            match dec_stack(&b, 0) {
                Some((s, n)) => {
                    if n == b.len() {
                        proof {
                            assert(spec_stack_at(ws.commits_kv(), commit.id) == Some(
                                commit_views(s@),
                            ));
                        }
                        s
                    } else {
                        return Err(CommitError::SerializationError(String::new()));
                    }
                },
                None => {
                    return Err(CommitError::SerializationError(String::new()));
                },
            }
        },
        None => {
            let v: Vec<Commit> = Vec::new();
            proof {
                assert(commit_views(v@) =~= Seq::<CommitV>::empty());
                assert(spec_stack_at(ws.commits_kv(), commit.id) is None);
            }
            v
        },
    };
    proof {
        assert(match spec_stack_at(ws.commits_kv(), commit.id) {
            Some(s0) => commit_views(stack@) == s0,
            None => commit_views(stack@) == Seq::<CommitV>::empty(),
        });
    }
    stack_insert(&mut stack, commit);
    proof {
        reveal_strlit("commits");
        reveal_strlit("sequences");
        assert("commits"@.len() == 7);
        assert("sequences"@.len() == 9);
        assert(commit_views(stack@) == spec_stack_after_save(old(ws).commits_kv(), commit@)) by {
            if spec_stack_at(old(ws).commits_kv(), commit.id) is None {
                assert(spec_stack_insert(Seq::<CommitV>::empty(), commit@) =~= seq![commit@]);
            }
        }
    }
    let val = enc_stack(&stack);
    match db_tree_insert(&mut ws.commitdb, "commits", key.as_slice(), val.as_slice()) {
        Ok(()) => {
            proof {
                let m = ws.commits_kv();
                let k = spec_commit_key(commit.id);
                assert(m[k].subrange(0, m[k].len() as int) =~= m[k]);
                if spec_stack_at(old(ws).commits_kv(), commit.id) is None {
                    assert(spec_stack_insert(Seq::<CommitV>::empty(), commit@) =~= seq![commit@]);
                }
                lemma_dec_stack_of_enc(m[k], 0, commit_views(stack@));
                if commits_wf(old(ws).commits_kv()) {
                    lemma_save_preserves_wf(old(ws).commits_kv(), commit@);
                }
            }
            match db_tree_flush(&ws.commitdb, "commits") {
                Ok(()) => Ok(()),
                Err(m) => Err(CommitError::DatabaseError(m)),
            }
        },
        Err(m) => Err(CommitError::DatabaseError(m)),
    }
}

/// Retrieves the commit at an id whose version is the greatest at or
/// below `ver`.
pub fn commit_get(ws: &Workspace, commit_id: CommitID, ver: u64) -> (r: Result<Commit, CommitError>)
    ensures
        match r {
            Ok(c) => spec_commit_get(ws.commits_kv(), commit_id, ver) == Some(c@),
            Err(e) => match e {
                CommitError::NotFound => spec_commit_get(ws.commits_kv(), commit_id, ver) is None,
                CommitError::SerializationError(_) => ws.commits_kv().contains_key(
                    spec_commit_key(commit_id),
                ) && spec_stack_at(ws.commits_kv(), commit_id) is None,
                CommitError::DatabaseError(_) => true,
                _ => false,
            },
        },
{
    proof {
        crate::workspace::lemma_keyspace_names_distinct();
    }
    let key = compose_key(commit_id);
    match db_tree_get(&ws.commitdb, "commits", key.as_slice()) {
        Ok(Some(b)) => match dec_stack(&b, 0) {
            Some((stack, n)) => {
                if n == b.len() {
                    match stack_lookup(&stack, ver) {
                        Some(c) => Ok(c),
                        None => Err(CommitError::NotFound),
                    }
                } else {
                    Err(CommitError::SerializationError(String::new()))
                }
            },
            None => Err(CommitError::SerializationError(String::new())),
        },
        Ok(None) => Err(CommitError::NotFound),
        Err(m) => Err(CommitError::DatabaseError(m)),
    }
}

// ---------------------------------------------------------------------------
// The current-commit pointer
// ---------------------------------------------------------------------------
/// The key of the current-commit pointer in the metadata keyspace.
pub open spec fn spec_current_key() -> Seq<u8> {
    encode_utf8("current"@)
}

pub open spec fn spec_enc_cur(c: CurrentCommitSpec) -> Seq<u8> {
    spec_be_bytes(c.commit_id.branch as nat, 8) + spec_be_bytes(c.commit_id.seq as nat, 8)
        + spec_enc_u64(c.ver) + spec_enc_u64(c.rebuild_seq) + spec_enc_u64(c.rebuild_ver)
}

pub open spec fn spec_dec_cur(b: Seq<u8>, pos: int) -> Option<(CurrentCommitSpec, int)> {
    match spec_dec_uint(b, pos, 8) {
        None => None,
        Some((branch, p1)) => match spec_dec_uint(b, p1, 8) {
            None => None,
            Some((seq, p2)) => match spec_dec_uint(b, p2, 8) {
                None => None,
                Some((ver, p3)) => match spec_dec_uint(b, p3, 8) {
                    None => None,
                    Some((rseq, p4)) => match spec_dec_uint(b, p4, 8) {
                        None => None,
                        Some((rver, p5)) => Some(
                            (
                                CurrentCommitSpec {
                                    commit_id: CommitID {
                                        branch: branch as u64,
                                        seq: seq as u64,
                                    },
                                    ver: ver as u64,
                                    rebuild_seq: rseq as u64,
                                    rebuild_ver: rver as u64,
                                },
                                p5,
                            ),
                        ),
                    },
                },
            },
        },
    }
}

/// The current-commit pointer the metadata map holds, if well-formed.
pub open spec fn spec_current_at(m: Map<Seq<u8>, Seq<u8>>) -> Option<CurrentCommitSpec> {
    if m.contains_key(spec_current_key()) {
        match spec_dec_cur(m[spec_current_key()], 0) {
            Some((c, n)) => if n == m[spec_current_key()].len() {
                Some(c)
            } else {
                None
            },
            None => None,
        }
    } else {
        None
    }
}

/// Decoding a pointer record where one was encoded yields it back.
pub proof fn lemma_dec_cur_of_enc(b: Seq<u8>, pos: int, c: CurrentCommitSpec)
    requires
        0 <= pos,
        pos + 40 <= b.len(),
        b.subrange(pos, pos + 40) == spec_enc_cur(c),
    ensures
        spec_dec_cur(b, pos) == Some((c, pos + 40)),
{
    let e = spec_enc_cur(c);
    lemma_be_bytes_len(c.commit_id.branch as nat, 8);
    lemma_be_bytes_len(c.commit_id.seq as nat, 8);
    lemma_be_bytes_len(c.ver as nat, 8);
    lemma_be_bytes_len(c.rebuild_seq as nat, 8);
    lemma_be_bytes_len(c.rebuild_ver as nat, 8);
    lemma_pow256_16();
    lemma_subrange_of_subrange(b, pos, 40, 0, 8);
    assert(e.subrange(0, 8) =~= spec_be_bytes(c.commit_id.branch as nat, 8));
    lemma_dec_uint_of_enc(b, pos, c.commit_id.branch as nat, 8);
    lemma_subrange_of_subrange(b, pos, 40, 8, 16);
    assert(e.subrange(8, 16) =~= spec_be_bytes(c.commit_id.seq as nat, 8));
    lemma_dec_uint_of_enc(b, pos + 8, c.commit_id.seq as nat, 8);
    lemma_subrange_of_subrange(b, pos, 40, 16, 24);
    assert(e.subrange(16, 24) =~= spec_enc_u64(c.ver));
    lemma_dec_uint_of_enc(b, pos + 16, c.ver as nat, 8);
    lemma_subrange_of_subrange(b, pos, 40, 24, 32);
    assert(e.subrange(24, 32) =~= spec_enc_u64(c.rebuild_seq));
    lemma_dec_uint_of_enc(b, pos + 24, c.rebuild_seq as nat, 8);
    lemma_subrange_of_subrange(b, pos, 40, 32, 40);
    assert(e.subrange(32, 40) =~= spec_enc_u64(c.rebuild_ver));
    lemma_dec_uint_of_enc(b, pos + 32, c.rebuild_ver as nat, 8);
}

impl CurrentCommitSpec {
    /// Whether the branch is in rebuild mode.
    pub fn is_rebuild(&self) -> (r: bool)
        ensures
            r == (self.rebuild_ver > 0),
    {
        self.rebuild_ver > 0
    }

    /// Retrieves the current-commit pointer.
    pub fn get(ws: &Workspace) -> (r: Result<CurrentCommitSpec, CommitError>)
        ensures
            match r {
                Ok(c) => spec_current_at(ws.meta_kv()) == Some(c),
                Err(e) => match e {
                    CommitError::NotFound => !ws.meta_kv().contains_key(spec_current_key()),
                    CommitError::SerializationError(_) => ws.meta_kv().contains_key(
                        spec_current_key(),
                    ) && spec_current_at(ws.meta_kv()) is None,
                    CommitError::DatabaseError(_) => true,
                    _ => false,
                },
            },
    {
        proof {
            crate::workspace::lemma_keyspace_names_distinct();
        }
        let key = "current".as_bytes();
        match db_tree_get(&ws.commitdb, "sequences", key) {
            Ok(Some(b)) => {
                let (branch, p1) = match dec_u64(&b, 0) {
                    None => {
                        return Err(CommitError::SerializationError(String::new()));
                    },
                    Some(x) => x,
                };
                let (seq, p2) = match dec_u64(&b, p1) {
                    None => {
                        return Err(CommitError::SerializationError(String::new()));
                    },
                    Some(x) => x,
                };
                let (ver, p3) = match dec_u64(&b, p2) {
                    None => {
                        return Err(CommitError::SerializationError(String::new()));
                    },
                    Some(x) => x,
                };
                let (rseq, p4) = match dec_u64(&b, p3) {
                    None => {
                        return Err(CommitError::SerializationError(String::new()));
                    },
                    Some(x) => x,
                };
                let (rver, p5) = match dec_u64(&b, p4) {
                    None => {
                        return Err(CommitError::SerializationError(String::new()));
                    },
                    Some(x) => x,
                };
                if p5 == b.len() {
                    Ok(
                        CurrentCommitSpec {
                            commit_id: CommitID { branch, seq },
                            ver,
                            rebuild_seq: rseq,
                            rebuild_ver: rver,
                        },
                    )
                } else {
                    Err(CommitError::SerializationError(String::new()))
                }
            },
            Ok(None) => Err(CommitError::NotFound),
            Err(m) => Err(CommitError::DatabaseError(m)),
        }
    }

    /// Saves the current-commit pointer.
    pub fn save(&self, ws: &mut Workspace) -> (r: Result<(), CommitError>)
        ensures
            final(ws).blobs == old(ws).blobs,
            final(ws).trees == old(ws).trees,
            final(ws).branches == old(ws).branches,
            final(ws).repodb == old(ws).repodb,
            match r {
                Ok(()) => {
                    &&& final(ws).meta_kv() == old(ws).meta_kv().insert(
                        spec_current_key(),
                        spec_enc_cur(*self),
                    )
                    &&& spec_current_at(final(ws).meta_kv()) == Some(*self)
                    &&& final(ws).commits_kv() == old(ws).commits_kv()
                },
                Err(e) => e is DatabaseError,
            },
    {
        proof {
            crate::workspace::lemma_keyspace_names_distinct();
        }
        let key = "current".as_bytes();
        let mut val: Vec<u8> = Vec::new();
        append_u64(&mut val, self.commit_id.branch);
        append_u64(&mut val, self.commit_id.seq);
        append_u64(&mut val, self.ver);
        append_u64(&mut val, self.rebuild_seq);
        append_u64(&mut val, self.rebuild_ver);
        proof {
            assert(val@ =~= spec_enc_cur(*self));
            lemma_be_bytes_len(self.commit_id.branch as nat, 8);
            lemma_be_bytes_len(self.commit_id.seq as nat, 8);
            lemma_be_bytes_len(self.ver as nat, 8);
            lemma_be_bytes_len(self.rebuild_seq as nat, 8);
            lemma_be_bytes_len(self.rebuild_ver as nat, 8);
            reveal_strlit("commits");
            reveal_strlit("sequences");
            assert("commits"@.len() == 7);
            assert("sequences"@.len() == 9);
        }
        match db_tree_insert(&mut ws.commitdb, "sequences", key, val.as_slice()) {
            Ok(()) => {
                proof {
                    let m = ws.meta_kv();
                    let k = spec_current_key();
                    assert(m[k].subrange(0, 40) =~= m[k]);
                    lemma_dec_cur_of_enc(m[k], 0, *self);
                }
                match db_tree_flush(&ws.commitdb, "sequences") {
                    Ok(()) => Ok(()),
                    Err(m) => Err(CommitError::DatabaseError(m)),
                }
            },
            Err(m) => Err(CommitError::DatabaseError(m)),
        }
    }
}

// ---------------------------------------------------------------------------
// Listing a branch
// ---------------------------------------------------------------------------
/// Lists the commits of a branch, tip first, one per sequence from
/// `headseq` down to the sentinel, each resolved at `branch_ver`.
pub fn commits_list(ws: &Workspace, branch_id: u64, branch_ver: u64, branch_headseq: u64) -> (r:
    Result<Vec<Commit>, CommitError>)
    ensures
        match r {
            Ok(v) => {
                &&& v@.len() == branch_headseq + 1
                &&& forall|i: int|
                    0 <= i <= branch_headseq ==> spec_commit_get(
                        ws.commits_kv(),
                        CommitID { branch: branch_id, seq: (branch_headseq - i) as u64 },
                        branch_ver,
                    ) == Some((#[trigger] v@[i])@)
            },
            Err(e) => match e {
                CommitError::NotFound => exists|s: u64|
                    s <= branch_headseq && (#[trigger] spec_commit_get(
                        ws.commits_kv(),
                        CommitID { branch: branch_id, seq: s },
                        branch_ver,
                    )) is None,
                CommitError::SerializationError(_) => true,
                CommitError::DatabaseError(_) => true,
                _ => false,
            },
        },
{
    let mut out: Vec<Commit> = Vec::new();
    let mut s: u64 = branch_headseq;
    loop
        invariant_except_break
            s <= branch_headseq,
            out@.len() == branch_headseq - s,
            forall|i: int|
                0 <= i < out@.len() ==> spec_commit_get(
                    ws.commits_kv(),
                    CommitID { branch: branch_id, seq: (branch_headseq - i) as u64 },
                    branch_ver,
                ) == Some((#[trigger] out@[i])@),
        ensures
            out@.len() == branch_headseq + 1,
            forall|i: int|
                0 <= i < out@.len() ==> spec_commit_get(
                    ws.commits_kv(),
                    CommitID { branch: branch_id, seq: (branch_headseq - i) as u64 },
                    branch_ver,
                ) == Some((#[trigger] out@[i])@),
        decreases s,
    {
        match commit_get(ws, CommitID { branch: branch_id, seq: s }, branch_ver) {
            Ok(c) => {
                out.push(c);
                proof {
                    let l = out@.len() - 1;
                    assert(out@[l] == c);
                    assert((branch_headseq - l) as u64 == s);
                }
            },
            Err(CommitError::NotFound) => {
                proof {
                    assert(spec_commit_get(
                        ws.commits_kv(),
                        CommitID { branch: branch_id, seq: s },
                        branch_ver,
                    ) is None);
                }
                return Err(CommitError::NotFound);
            },
            Err(e) => {
                return Err(match e {
                    CommitError::SerializationError(m) => CommitError::SerializationError(m),
                    CommitError::DatabaseError(m) => CommitError::DatabaseError(m),
                    _ => CommitError::NotFound,
                });
            },
        }
        if s == 0 {
            break ;
        }
        s = s - 1;
    }
    Ok(out)
}

// ---------------------------------------------------------------------------
// Graph coherence
// ---------------------------------------------------------------------------
/// A coherent commit store: every record in the stack at a key carries
/// that key's id.
pub open spec fn commits_wf(m: Map<Seq<u8>, Seq<u8>>) -> bool {
    forall|id: CommitID|
        #![trigger spec_stack_at(m, id)]
        match spec_stack_at(m, id) {
            Some(s) => forall|i: int| 0 <= i < s.len() ==> (#[trigger] s[i]).id == id,
            None => true,
        }
}

/// A lookup result is one of the stack's records.
pub proof fn lemma_stack_lookup_mem(s: Seq<CommitV>, ver: u64)
    ensures
        match spec_stack_lookup(s, ver) {
            Some(c) => exists|i: int| 0 <= i < s.len() && (#[trigger] s[i]) == c,
            None => true,
        },
    decreases s.len(),
{
    if s.len() == 0 {
    } else if s[0].ver <= ver {
        assert(s[0] == s[0]);
    } else {
        lemma_stack_lookup_mem(s.drop_first(), ver);
        match spec_stack_lookup(s.drop_first(), ver) {
            Some(c) => {
                let i = choose|i: int|
                    0 <= i < s.drop_first().len() && (#[trigger] s.drop_first()[i]) == c;
                assert(s[i + 1] == c);
            },
            None => {
            },
        }
    }
}

/// Every record of an inserted stack is the new record or one of the old.
pub proof fn lemma_stack_insert_entries(s: Seq<CommitV>, c: CommitV)
    ensures
        forall|i: int|
            0 <= i < spec_stack_insert(s, c).len() ==> (#[trigger] spec_stack_insert(s, c)[i]) == c
                || (exists|j: int| 0 <= j < s.len() && s[j] == spec_stack_insert(s, c)[i]),
    decreases s.len(),
{
    let s2 = spec_stack_insert(s, c);
    if s.len() == 0 {
    } else if c.ver > s[0].ver {
        assert forall|i: int| 0 <= i < s2.len() implies (#[trigger] s2[i]) == c || (exists|j: int|
            0 <= j < s.len() && s[j] == s2[i]) by {
            if i > 0 {
                assert(s[i - 1] == s2[i]);
            }
        }
    } else if c.ver == s[0].ver {
        assert forall|i: int| 0 <= i < s2.len() implies (#[trigger] s2[i]) == c || (exists|j: int|
            0 <= j < s.len() && s[j] == s2[i]) by {
            if i > 0 {
                assert(s[i] == s2[i]);
            }
        }
    } else {
        lemma_stack_insert_entries(s.drop_first(), c);
        let r = spec_stack_insert(s.drop_first(), c);
        assert forall|i: int| 0 <= i < s2.len() implies (#[trigger] s2[i]) == c || (exists|j: int|
            0 <= j < s.len() && s[j] == s2[i]) by {
            if i == 0 {
                assert(s[0] == s2[0]);
            } else {
                assert(s2[i] == r[i - 1]);
                if r[i - 1] == c {
                } else {
                    let j = choose|j: int|
                        0 <= j < s.drop_first().len() && (#[trigger] s.drop_first()[j]) == r[i - 1];
                    assert(s[j + 1] == s2[i]);
                }
            }
        }
    }
}

/// Saving a commit into a coherent store keeps it coherent (commit graph
/// coherence: every stack still holds only records of its own id).
pub proof fn lemma_save_preserves_wf(m: Map<Seq<u8>, Seq<u8>>, c: CommitV)
    requires
        commits_wf(m),
        stack_fits(spec_stack_after_save(m, c)),
    ensures
        commits_wf(
            m.insert(
                spec_commit_key(c.id),
                spec_enc_stack(spec_stack_after_save(m, c)),
            ),
        ),
{
    let k = spec_commit_key(c.id);
    let s2 = spec_stack_after_save(m, c);
    let m2 = m.insert(k, spec_enc_stack(s2));
    assert forall|id: CommitID| #![trigger spec_stack_at(m2, id)] match spec_stack_at(m2, id) {
        Some(s) => forall|i: int| 0 <= i < s.len() ==> (#[trigger] s[i]).id == id,
        None => true,
    } by {
        if spec_commit_key(id) == k {
            lemma_commit_key_injective(id, c.id);
            let e = spec_enc_stack(s2);
            assert(e.subrange(0, e.len() as int) =~= e);
            lemma_dec_stack_of_enc(e, 0, s2);
            assert(m2[k] == e);
            assert(spec_stack_at(m2, id) == Some(s2));
            assert forall|i: int| 0 <= i < s2.len() implies (#[trigger] s2[i]).id == id by {
                match spec_stack_at(m, c.id) {
                    Some(s0) => {
                        lemma_stack_insert_entries(s0, c);
                        assert(s2 == spec_stack_insert(s0, c));
                        if s2[i] != c {
                            let j = choose|j: int| 0 <= j < s0.len() && s0[j] == s2[i];
                            assert(s0[j].id == c.id);
                        }
                    },
                    None => {
                        assert(s2 =~= seq![c]);
                    },
                }
            }
        } else {
            let kid = spec_commit_key(id);
            assert(m2.contains_key(kid) == m.contains_key(kid));
            if m.contains_key(kid) {
                assert(m2[kid] == m[kid]);
            }
            assert(spec_stack_at(m2, id) == spec_stack_at(m, id));
        }
    }
}


// ---------------------------------------------------------------------------
// Commit construction
// ---------------------------------------------------------------------------
/// The digest every commit with this message and tree carries: the hash
/// of the message bytes followed by the tree digest bytes.
pub open spec fn spec_commit_hash(message: Seq<char>, treehash: u128) -> u128 {
    crate::digest::xxh3_128_of(encode_utf8(message) + spec_be_bytes(treehash as nat, 16))
}

/// Builds a commit record, computing its content hash.  It does not save
/// the record.
pub fn create_commit(id: CommitID, ver: u64, treehash: u128, message: String) -> (c: Commit)
    ensures
        c@ == (CommitV {
            id,
            ver,
            hash: spec_commit_hash(message@, treehash),
            treehash,
            message: message@,
        }),
{
    let mut input = message.as_str().as_bytes_vec();
    let mut tb = crate::bytes::u128_to_be(treehash);
    input.append(&mut tb);
    let hash = crate::digest::compute_bytes(input.as_slice());
    Commit { id, ver, hash, treehash, message }
}

/// A record lands at the top of its stack for its own version.
pub proof fn lemma_stack_insert_lookup_self(s: Seq<CommitV>, c: CommitV)
    ensures
        spec_stack_lookup(spec_stack_insert(s, c), c.ver) == Some(c),
    decreases s.len(),
{
    let s2 = spec_stack_insert(s, c);
    if s.len() == 0 {
        assert(s2 =~= seq![c]);
        assert(s2[0] == c);
    } else if c.ver > s[0].ver {
        assert(s2 =~= seq![c] + s);
        assert(s2[0] == c);
    } else if c.ver == s[0].ver {
        assert(s2 =~= s.update(0, c));
        assert(s2[0] == c);
    } else {
        assert(s2 =~= seq![s[0]] + spec_stack_insert(s.drop_first(), c));
        assert(s2[0] == s[0]);
        assert(s2.drop_first() =~= spec_stack_insert(s.drop_first(), c));
        lemma_stack_insert_lookup_self(s.drop_first(), c);
    }
}

/// Inserting at one commit key leaves every other id's stack unchanged.
pub proof fn lemma_stack_at_other(m: Map<Seq<u8>, Seq<u8>>, k2: Seq<u8>, v: Seq<u8>, id: CommitID)
    requires
        spec_commit_key(id) != k2,
    ensures
        spec_stack_at(m.insert(k2, v), id) == spec_stack_at(m, id),
{
    let kid = spec_commit_key(id);
    let m2 = m.insert(k2, v);
    assert(m2.contains_key(kid) == m.contains_key(kid));
    if m.contains_key(kid) {
        assert(m2[kid] == m[kid]);
    }
}

impl Commit {
    /// Writes the sentinel record that starts a branch: sequence zero,
    /// version zero, the given tree and message.
    pub fn create_zero_commit(
        ws: &mut Workspace,
        branch_id: u64,
        treehash: u128,
        message: String,
    ) -> (r: Result<Commit, CommitError>)
        ensures
            final(ws).blobs == old(ws).blobs,
            final(ws).trees == old(ws).trees,
            final(ws).branches == old(ws).branches,
            final(ws).repodb == old(ws).repodb,
            match r {
                Ok(c) => {
                    &&& c@ == (CommitV {
                        id: CommitID { branch: branch_id, seq: SEQ_ZERO },
                        ver: 0,
                        hash: spec_commit_hash(message@, treehash),
                        treehash,
                        message: message@,
                    })
                    &&& spec_commit_get(
                        final(ws).commits_kv(),
                        CommitID { branch: branch_id, seq: SEQ_ZERO },
                        0,
                    ) == Some(c@)
                    &&& final(ws).meta_kv() == old(ws).meta_kv()
                    &&& forall|other: CommitID|
                        other != (CommitID { branch: branch_id, seq: SEQ_ZERO })
                            ==> spec_stack_at(final(ws).commits_kv(), other) == spec_stack_at(
                            old(ws).commits_kv(),
                            other,
                        )
                    &&& commits_wf(old(ws).commits_kv()) ==> commits_wf(final(ws).commits_kv())
                },
                Err(e) => e is DatabaseError || e is SerializationError,
            },
    {
        let commit = create_commit(CommitID { branch: branch_id, seq: SEQ_ZERO }, 0, treehash, message);
        match commit_save(ws, &commit) {
            Ok(()) => {
                proof {
                    match spec_stack_at(old(ws).commits_kv(), commit.id) {
                        Some(s0) => {
                            lemma_stack_insert_lookup_self(s0, commit@);
                        },
                        None => {
                            lemma_stack_insert_lookup_self(Seq::<CommitV>::empty(), commit@);
                            assert(spec_stack_after_save(old(ws).commits_kv(), commit@)
                                == spec_stack_insert(Seq::<CommitV>::empty(), commit@)) by {
                                assert(spec_stack_insert(Seq::<CommitV>::empty(), commit@)
                                    =~= seq![commit@]);
                            }
                        },
                    }
                    assert forall|other: CommitID| other != commit.id implies spec_stack_at(
                        ws.commits_kv(),
                        other,
                    ) == spec_stack_at(old(ws).commits_kv(), other) by {
                        assert(spec_commit_key(other) != spec_commit_key(commit.id)) by {
                            if spec_commit_key(other) == spec_commit_key(commit.id) {
                                lemma_commit_key_injective(other, commit.id);
                            }
                        }
                        lemma_stack_at_other(
                            old(ws).commits_kv(),
                            spec_commit_key(commit.id),
                            ws.commits_kv()[spec_commit_key(commit.id)],
                            other,
                        );
                    }
                }
                Ok(commit)
            },
            Err(e) => Err(e),
        }
    }

    /// Creates a new commit at the next sequence of the current branch,
    /// then advances the current-commit pointer and the branch head.  When
    /// the new sequence lands at or below the stored head, the head moves
    /// there without re-versioning the later sequences: the frame clause
    /// states that every other commit key is left as it was.
    #[verifier::spinoff_prover]
    #[verifier::rlimit(100)]
    pub fn new(ws: &mut Workspace, treehash: u128, message: String) -> (r: Result<
        Commit,
        CommitError,
    >)
        ensures
            final(ws).blobs == old(ws).blobs,
            final(ws).trees == old(ws).trees,
            final(ws).repodb == old(ws).repodb,
            match r {
                Ok(c) => {
                    &&& spec_current_at(old(ws).meta_kv()) matches Some(cur0)
                        && spec_commit_get(old(ws).commits_kv(), cur0.commit_id, cur0.ver)
                        matches Some(prev) && spec_branch_at(old(ws).branches_kv(), prev.id.branch)
                        matches Some(bv) && {
                        &&& prev.treehash != treehash
                        &&& c@.id.branch == prev.id.branch
                        &&& c@.id.seq == prev.id.seq + 1
                        &&& c@.ver == bv.ver + 1
                        &&& c@.treehash == treehash
                        &&& c@.message == message@
                        &&& c@.hash == spec_commit_hash(message@, treehash)
                        &&& spec_commit_get(final(ws).commits_kv(), c.id, c@.ver) == Some(c@)
                        &&& spec_current_at(final(ws).meta_kv()) == Some(
                            CurrentCommitSpec {
                                commit_id: c.id,
                                ver: c@.ver,
                                rebuild_seq: NO_REBUILD,
                                rebuild_ver: NO_REBUILD,
                            },
                        )
                        &&& spec_branch_at(final(ws).branches_kv(), prev.id.branch) matches Some(
                            bv2,
                        ) && bv2 == (BranchV { headseq: c@.id.seq, ver: (bv.ver + 1) as u64, ..bv })
                        &&& forall|other: CommitID|
                            other != c.id ==> spec_stack_at(final(ws).commits_kv(), other)
                                == spec_stack_at(old(ws).commits_kv(), other)
                        &&& forall|other: u64|
                            other != prev.id.branch ==> spec_branch_at(
                                final(ws).branches_kv(),
                                other,
                            ) == spec_branch_at(old(ws).branches_kv(), other)
                        &&& (commits_wf(old(ws).commits_kv()) ==> commits_wf(
                            final(ws).commits_kv(),
                        ))
                    }
                },
                Err(e) => match e {
                    CommitError::NoChanges => {
                        &&& spec_current_at(old(ws).meta_kv()) matches Some(cur0)
                            && spec_commit_get(old(ws).commits_kv(), cur0.commit_id, cur0.ver)
                            matches Some(prev) && prev.treehash == treehash
                        &&& final(ws).commitdb == old(ws).commitdb
                        &&& final(ws).branches == old(ws).branches
                    },
                    CommitError::NotFound => true,
                    CommitError::BranchNotFound => true,
                    CommitError::SerializationError(_) => true,
                    CommitError::DatabaseError(_) => true,
                    CommitError::Other(_) => true,
                    _ => false,
                },
            },
    {
        let cur = match CurrentCommitSpec::get(ws) {
            Ok(c) => c,
            Err(e) => {
                return Err(e);
            },
        };
        let prev = match commit_get(ws, cur.commit_id, cur.ver) {
            Ok(c) => c,
            Err(e) => {
                return Err(e);
            },
        };
        if prev.treehash == treehash {
            return Err(CommitError::NoChanges);
        }
        let branch = match crate::branch::Branch::get(ws, prev.id.branch) {
            Ok(b) => b,
            Err(crate::errors::BranchError::NotFound) => {
                return Err(CommitError::BranchNotFound);
            },
            Err(_) => {
                return Err(CommitError::Other(String::new()));
            },
        };
        if branch.ver == u64::MAX || prev.id.seq == u64::MAX {
            return Err(CommitError::Other(String::new()));
        }
        let new_ver = branch.ver + 1;
        let new_id = CommitID { branch: prev.id.branch, seq: prev.id.seq + 1 };
        let new_commit = create_commit(new_id, new_ver, treehash, message);
        match commit_save(ws, &new_commit) {
            Ok(()) => {
            },
            Err(e) => {
                return Err(e);
            },
        }
        proof {
            match spec_stack_at(old(ws).commits_kv(), new_id) {
                Some(s0) => {
                    lemma_stack_insert_lookup_self(s0, new_commit@);
                },
                None => {
                    lemma_stack_insert_lookup_self(Seq::<CommitV>::empty(), new_commit@);
                    assert(spec_stack_after_save(old(ws).commits_kv(), new_commit@)
                        == spec_stack_insert(Seq::<CommitV>::empty(), new_commit@)) by {
                        assert(spec_stack_insert(Seq::<CommitV>::empty(), new_commit@)
                            =~= seq![new_commit@]);
                    }
                },
            }
            assert forall|other: CommitID| other != new_id implies spec_stack_at(
                ws.commits_kv(),
                other,
            ) == spec_stack_at(old(ws).commits_kv(), other) by {
                assert(spec_commit_key(other) != spec_commit_key(new_id)) by {
                    if spec_commit_key(other) == spec_commit_key(new_id) {
                        lemma_commit_key_injective(other, new_id);
                    }
                }
                lemma_stack_at_other(
                    old(ws).commits_kv(),
                    spec_commit_key(new_id),
                    ws.commits_kv()[spec_commit_key(new_id)],
                    other,
                );
            }
        }
        let current = CurrentCommitSpec {
            commit_id: new_id,
            ver: new_ver,
            rebuild_seq: NO_REBUILD,
            rebuild_ver: NO_REBUILD,
        };
        match current.save(ws) {
            Ok(()) => {
            },
            Err(e) => {
                return Err(e);
            },
        }
        let ghost branches_before = ws.branches_kv();
        match crate::branch::Branch::advance_head(ws, new_id.branch, new_id.seq, new_ver) {
            Ok(_) => {
                proof {
                    assert forall|other: u64| other != new_id.branch implies spec_branch_at(
                        ws.branches_kv(),
                        other,
                    ) == spec_branch_at(branches_before, other) by {
                        assert(spec_branch_key(other) != spec_branch_key(new_id.branch)) by {
                            if spec_branch_key(other) == spec_branch_key(new_id.branch) {
                                crate::branch::lemma_branch_key_injective(other, new_id.branch);
                            }
                        }
                        crate::branch::lemma_branch_at_other(
                            branches_before,
                            spec_branch_key(new_id.branch),
                            ws.branches_kv()[spec_branch_key(new_id.branch)],
                            other,
                        );
                    }
                }
                Ok(new_commit)
            },
            Err(crate::errors::BranchError::NotFound) => Err(CommitError::BranchNotFound),
            Err(_) => Err(CommitError::Other(String::new())),
        }
    }
}

impl Commit {
    /// Amends the current commit in place: a new record at the same id
    /// with the next branch version, optionally with a new message.  A
    /// mid-branch amendment rebuilds the branch: every later sequence is
    /// re-saved with a fresh version, preserving its content, and the
    /// branch version advances past them all.
    #[verifier::spinoff_prover]
    #[verifier::rlimit(100)]
    pub fn amend(ws: &mut Workspace, treehash: u128, message: Option<String>) -> (r: Result<
        Commit,
        CommitError,
    >)
        ensures
            final(ws).blobs == old(ws).blobs,
            final(ws).trees == old(ws).trees,
            final(ws).repodb == old(ws).repodb,
            match r {
                Ok(c) => {
                    &&& spec_current_at(old(ws).meta_kv()) matches Some(cur0)
                        && spec_commit_get(old(ws).commits_kv(), cur0.commit_id, cur0.ver)
                        matches Some(prev) && spec_branch_at(old(ws).branches_kv(), prev.id.branch)
                        matches Some(bv) && {
                        &&& prev.id.seq != SEQ_ZERO
                        &&& prev.treehash != treehash || (message matches Some(m) && m@
                            != prev.message)
                        &&& c@.id == prev.id
                        &&& c@.ver == bv.ver + 1
                        &&& c@.treehash == treehash
                        &&& c@.message == (match message {
                            Some(m) => m@,
                            None => prev.message,
                        })
                        &&& c@.hash == spec_commit_hash(c@.message, treehash)
                        &&& spec_commit_get(final(ws).commits_kv(), c.id, c@.ver) == Some(c@)
                        &&& (cur0.ver < c@.ver ==> spec_commit_get(
                            final(ws).commits_kv(),
                            c.id,
                            cur0.ver,
                        ) == spec_commit_get(old(ws).commits_kv(), c.id, cur0.ver))
                        &&& spec_branch_at(final(ws).branches_kv(), prev.id.branch) matches Some(
                            bv2,
                        ) && bv2.id == bv.id && bv2.name == bv.name && bv2.parent == bv.parent
                            && bv2.parentseq == bv.parentseq && bv2.headseq == bv.headseq
                            && bv2.ver >= bv.ver + 1
                        &&& (prev.id.seq >= bv.headseq ==> spec_branch_at(
                            final(ws).branches_kv(),
                            prev.id.branch,
                        ) == Some(
                            BranchV { headseq: bv.headseq, ver: (bv.ver + 1) as u64, ..bv },
                        ))
                        &&& ((prev.id.seq >= bv.headseq || prev.treehash == treehash)
                            ==> final(ws).meta_kv() == old(ws).meta_kv())
                        &&& forall|other: CommitID|
                            other != prev.id && (other.branch != prev.id.branch || other.seq
                                < prev.id.seq || other.seq > bv.headseq) ==> spec_stack_at(
                                final(ws).commits_kv(),
                                other,
                            ) == spec_stack_at(old(ws).commits_kv(), other)
                        &&& forall|other: u64|
                            other != prev.id.branch ==> spec_branch_at(
                                final(ws).branches_kv(),
                                other,
                            ) == spec_branch_at(old(ws).branches_kv(), other)
                        &&& (commits_wf(old(ws).commits_kv()) ==> commits_wf(
                            final(ws).commits_kv(),
                        ))
                        &&& (prev.id.seq < bv.headseq ==> {
                            &&& spec_branch_at(final(ws).branches_kv(), prev.id.branch) == Some(
                                BranchV {
                                    headseq: bv.headseq,
                                    ver: (bv.ver + 1 + (bv.headseq - prev.id.seq)) as u64,
                                    ..bv
                                },
                            )
                            &&& forall|q: u64|
                                prev.id.seq < q <= bv.headseq ==> ((#[trigger] spec_commit_get(
                                    old(ws).commits_kv(),
                                    CommitID { branch: prev.id.branch, seq: q },
                                    bv.ver,
                                )) matches Some(oldc) && spec_commit_get(
                                    final(ws).commits_kv(),
                                    CommitID { branch: prev.id.branch, seq: q },
                                    (bv.ver + 1 + (q - prev.id.seq)) as u64,
                                ) == Some(
                                    CommitV {
                                        id: CommitID { branch: prev.id.branch, seq: q },
                                        ver: (bv.ver + 1 + (q - prev.id.seq)) as u64,
                                        hash: oldc.hash,
                                        treehash: oldc.treehash,
                                        message: oldc.message,
                                    },
                                ))
                        })
                    }
                },
                Err(e) => match e {
                    CommitError::CannotAmendSentinel => {
                        &&& spec_current_at(old(ws).meta_kv()) matches Some(cur0)
                            && spec_commit_get(old(ws).commits_kv(), cur0.commit_id, cur0.ver)
                            matches Some(prev) && prev.id.seq == SEQ_ZERO
                        &&& final(ws).commitdb == old(ws).commitdb
                        &&& final(ws).branches == old(ws).branches
                    },
                    CommitError::NoChanges => {
                        &&& spec_current_at(old(ws).meta_kv()) matches Some(cur0)
                            && spec_commit_get(old(ws).commits_kv(), cur0.commit_id, cur0.ver)
                            matches Some(prev) && prev.id.seq != SEQ_ZERO && prev.treehash
                            == treehash && (message matches Some(m) ==> m@ == prev.message)
                        &&& final(ws).commitdb == old(ws).commitdb
                        &&& final(ws).branches == old(ws).branches
                    },
                    CommitError::NotFound => true,
                    CommitError::BranchNotFound => true,
                    CommitError::SerializationError(_) => true,
                    CommitError::DatabaseError(_) => true,
                    CommitError::Other(_) => true,
                    _ => false,
                },
            },
    {
        let mut cur = match CurrentCommitSpec::get(ws) {
            Ok(c) => c,
            Err(e) => {
                return Err(e);
            },
        };
        let prev = match commit_get(ws, cur.commit_id, cur.ver) {
            Ok(c) => c,
            Err(e) => {
                return Err(e);
            },
        };
        if prev.id.seq == SEQ_ZERO {
            return Err(CommitError::CannotAmendSentinel);
        }
        let files_changed = prev.treehash != treehash;
        let same_msg = match &message {
            None => true,
            Some(m) => m.eq(&prev.message),
        };
        if !files_changed && same_msg {
            return Err(CommitError::NoChanges);
        }
        let commit_message = match message {
            Some(m) => m,
            None => prev.message.clone(),
        };
        let branch = match crate::branch::Branch::get(ws, prev.id.branch) {
            Ok(b) => b,
            Err(crate::errors::BranchError::NotFound) => {
                return Err(CommitError::BranchNotFound);
            },
            Err(_) => {
                return Err(CommitError::Other(String::new()));
            },
        };
        if branch.ver == u64::MAX {
            return Err(CommitError::Other(String::new()));
        }
        let mut new_ver = branch.ver + 1;
        let amended = create_commit(prev.id, new_ver, treehash, commit_message);
        match commit_save(ws, &amended) {
            Ok(()) => {
            },
            Err(e) => {
                return Err(e);
            },
        }
        proof {
            match spec_stack_at(old(ws).commits_kv(), amended.id) {
                Some(s0) => {
                    lemma_stack_insert_lookup_self(s0, amended@);
                    if cur.ver < amended@.ver {
                        lemma_stack_insert_preserves_low(s0, amended@, cur.ver);
                    }
                },
                None => {
                    lemma_stack_insert_lookup_self(Seq::<CommitV>::empty(), amended@);
                    if cur.ver < amended@.ver {
                        lemma_stack_insert_preserves_low(
                            Seq::<CommitV>::empty(),
                            amended@,
                            cur.ver,
                        );
                    }
                    assert(spec_stack_after_save(old(ws).commits_kv(), amended@)
                        == spec_stack_insert(Seq::<CommitV>::empty(), amended@)) by {
                        assert(spec_stack_insert(Seq::<CommitV>::empty(), amended@)
                            =~= seq![amended@]);
                    }
                },
            }
            assert forall|other: CommitID| other != amended.id implies spec_stack_at(
                ws.commits_kv(),
                other,
            ) == spec_stack_at(old(ws).commits_kv(), other) by {
                assert(spec_commit_key(other) != spec_commit_key(amended.id)) by {
                    if spec_commit_key(other) == spec_commit_key(amended.id) {
                        lemma_commit_key_injective(other, amended.id);
                    }
                }
                lemma_stack_at_other(
                    old(ws).commits_kv(),
                    spec_commit_key(amended.id),
                    ws.commits_kv()[spec_commit_key(amended.id)],
                    other,
                );
            }
        }
        if prev.id.seq < branch.headseq {
            if files_changed {
                cur.rebuild_seq = prev.id.seq;
                cur.rebuild_ver = new_ver;
                match cur.save(ws) {
                    Ok(()) => {
                    },
                    Err(e) => {
                        return Err(e);
                    },
                }
            }
            let mut s: u64 = prev.id.seq + 1;
            loop
                invariant_except_break
                    prev.id.seq < s <= branch.headseq,
                    branch.ver + 1 <= new_ver,
                    new_ver == branch.ver + (s - prev.id.seq),
                    amended@.ver == branch.ver + 1,
                    amended.id == prev.id,
                    spec_commit_get(ws.commits_kv(), amended.id, amended@.ver) == Some(amended@),
                    cur.ver < amended@.ver ==> spec_commit_get(
                        ws.commits_kv(),
                        amended.id,
                        cur.ver,
                    ) == spec_commit_get(old(ws).commits_kv(), amended.id, cur.ver),
                    forall|other: CommitID|
                        other != prev.id && (other.branch != prev.id.branch || other.seq
                            < prev.id.seq || other.seq >= s) ==> spec_stack_at(
                            ws.commits_kv(),
                            other,
                        ) == spec_stack_at(old(ws).commits_kv(), other),
                    forall|q: u64|
                        prev.id.seq < q < s ==> ((#[trigger] spec_commit_get(
                            old(ws).commits_kv(),
                            CommitID { branch: prev.id.branch, seq: q },
                            branch.ver,
                        )) matches Some(oldc) && spec_commit_get(
                            ws.commits_kv(),
                            CommitID { branch: prev.id.branch, seq: q },
                            (branch.ver + 1 + (q - prev.id.seq)) as u64,
                        ) == Some(
                            CommitV {
                                id: CommitID { branch: prev.id.branch, seq: q },
                                ver: (branch.ver + 1 + (q - prev.id.seq)) as u64,
                                hash: oldc.hash,
                                treehash: oldc.treehash,
                                message: oldc.message,
                            },
                        )),
                    commits_wf(old(ws).commits_kv()) ==> commits_wf(ws.commits_kv()),
                    !files_changed ==> ws.meta_kv() == old(ws).meta_kv(),
                    ws.blobs == old(ws).blobs,
                    ws.trees == old(ws).trees,
                    ws.branches == old(ws).branches,
                    ws.repodb == old(ws).repodb,
                ensures
                    branch.ver + 1 <= new_ver,
                    new_ver == branch.ver + 1 + (branch.headseq - prev.id.seq),
                    spec_commit_get(ws.commits_kv(), amended.id, amended@.ver) == Some(amended@),
                    cur.ver < amended@.ver ==> spec_commit_get(
                        ws.commits_kv(),
                        amended.id,
                        cur.ver,
                    ) == spec_commit_get(old(ws).commits_kv(), amended.id, cur.ver),
                    forall|other: CommitID|
                        other != prev.id && (other.branch != prev.id.branch || other.seq
                            < prev.id.seq || other.seq > branch.headseq) ==> spec_stack_at(
                            ws.commits_kv(),
                            other,
                        ) == spec_stack_at(old(ws).commits_kv(), other),
                    forall|q: u64|
                        prev.id.seq < q <= branch.headseq ==> ((#[trigger] spec_commit_get(
                            old(ws).commits_kv(),
                            CommitID { branch: prev.id.branch, seq: q },
                            branch.ver,
                        )) matches Some(oldc) && spec_commit_get(
                            ws.commits_kv(),
                            CommitID { branch: prev.id.branch, seq: q },
                            (branch.ver + 1 + (q - prev.id.seq)) as u64,
                        ) == Some(
                            CommitV {
                                id: CommitID { branch: prev.id.branch, seq: q },
                                ver: (branch.ver + 1 + (q - prev.id.seq)) as u64,
                                hash: oldc.hash,
                                treehash: oldc.treehash,
                                message: oldc.message,
                            },
                        )),
                    commits_wf(old(ws).commits_kv()) ==> commits_wf(ws.commits_kv()),
                    !files_changed ==> ws.meta_kv() == old(ws).meta_kv(),
                    ws.blobs == old(ws).blobs,
                    ws.trees == old(ws).trees,
                    ws.branches == old(ws).branches,
                    ws.repodb == old(ws).repodb,
                decreases branch.headseq - s,
            {
                let old_c = match commit_get(
                    ws,
                    CommitID { branch: prev.id.branch, seq: s },
                    branch.ver,
                ) {
                    Ok(c) => c,
                    Err(e) => {
                        return Err(e);
                    },
                };
                if new_ver == u64::MAX {
                    return Err(CommitError::Other(String::new()));
                }
                new_ver = new_ver + 1;
                let bumped = Commit {
                    id: CommitID { branch: prev.id.branch, seq: s },
                    ver: new_ver,
                    hash: old_c.hash,
                    treehash: old_c.treehash,
                    message: old_c.message,
                };
                let ghost pre_kv = ws.commits_kv();
                match commit_save(ws, &bumped) {
                    Ok(()) => {
                    },
                    Err(e) => {
                        return Err(e);
                    },
                }
                proof {
                    let bid = bumped.id;
                    assert(spec_commit_key(bid) != spec_commit_key(amended.id)) by {
                        if spec_commit_key(bid) == spec_commit_key(amended.id) {
                            lemma_commit_key_injective(bid, amended.id);
                        }
                    }
                    lemma_stack_at_other(
                        pre_kv,
                        spec_commit_key(bid),
                        ws.commits_kv()[spec_commit_key(bid)],
                        amended.id,
                    );
                    assert forall|other: CommitID|
                        other != prev.id && (other.branch != prev.id.branch || other.seq
                            < prev.id.seq || other.seq >= s + 1) implies spec_stack_at(
                        ws.commits_kv(),
                        other,
                    ) == spec_stack_at(old(ws).commits_kv(), other) by {
                        assert(other != bid);
                        assert(spec_commit_key(other) != spec_commit_key(bid)) by {
                            if spec_commit_key(other) == spec_commit_key(bid) {
                                lemma_commit_key_injective(other, bid);
                            }
                        }
                        lemma_stack_at_other(
                            pre_kv,
                            spec_commit_key(bid),
                            ws.commits_kv()[spec_commit_key(bid)],
                            other,
                        );
                    }
                    assert forall|q: u64| prev.id.seq < q < s + 1 implies ((
                    #[trigger] spec_commit_get(
                        old(ws).commits_kv(),
                        CommitID { branch: prev.id.branch, seq: q },
                        branch.ver,
                    )) matches Some(oldc) && spec_commit_get(
                        ws.commits_kv(),
                        CommitID { branch: prev.id.branch, seq: q },
                        (branch.ver + 1 + (q - prev.id.seq)) as u64,
                    ) == Some(
                        CommitV {
                            id: CommitID { branch: prev.id.branch, seq: q },
                            ver: (branch.ver + 1 + (q - prev.id.seq)) as u64,
                            hash: oldc.hash,
                            treehash: oldc.treehash,
                            message: oldc.message,
                        },
                    )) by {
                        let qid = CommitID { branch: prev.id.branch, seq: q };
                        if q < s {
                            assert(qid != bid);
                            assert(spec_commit_key(qid) != spec_commit_key(bid)) by {
                                if spec_commit_key(qid) == spec_commit_key(bid) {
                                    lemma_commit_key_injective(qid, bid);
                                }
                            }
                            lemma_stack_at_other(
                                pre_kv,
                                spec_commit_key(bid),
                                ws.commits_kv()[spec_commit_key(bid)],
                                qid,
                            );
                        } else {
                            assert(qid == bid);
                            assert((branch.ver + 1 + (s - prev.id.seq)) as u64 == new_ver);
                            assert(spec_stack_at(pre_kv, qid) == spec_stack_at(
                                old(ws).commits_kv(),
                                qid,
                            ));
                            match spec_stack_at(pre_kv, bid) {
                                Some(s0) => {
                                    lemma_stack_insert_lookup_self(s0, bumped@);
                                },
                                None => {
                                    lemma_stack_insert_lookup_self(
                                        Seq::<CommitV>::empty(),
                                        bumped@,
                                    );
                                    assert(spec_stack_after_save(pre_kv, bumped@)
                                        == spec_stack_insert(
                                        Seq::<CommitV>::empty(),
                                        bumped@,
                                    )) by {
                                        assert(spec_stack_insert(
                                            Seq::<CommitV>::empty(),
                                            bumped@,
                                        ) =~= seq![bumped@]);
                                    }
                                },
                            }
                        }
                    }
                }
                if s == branch.headseq {
                    break ;
                }
                s = s + 1;
            }
            if files_changed {
                cur.rebuild_seq = NO_REBUILD;
                cur.rebuild_ver = NO_REBUILD;
                match cur.save(ws) {
                    Ok(()) => {
                    },
                    Err(e) => {
                        return Err(e);
                    },
                }
            }
        }
        let ghost branches_before = ws.branches_kv();
        match crate::branch::Branch::advance_head(ws, prev.id.branch, branch.headseq, new_ver) {
            Ok(_) => {
                proof {
                    assert forall|other: u64| other != prev.id.branch implies spec_branch_at(
                        ws.branches_kv(),
                        other,
                    ) == spec_branch_at(branches_before, other) by {
                        assert(spec_branch_key(other) != spec_branch_key(prev.id.branch)) by {
                            if spec_branch_key(other) == spec_branch_key(prev.id.branch) {
                                crate::branch::lemma_branch_key_injective(other, prev.id.branch);
                            }
                        }
                        crate::branch::lemma_branch_at_other(
                            branches_before,
                            spec_branch_key(prev.id.branch),
                            ws.branches_kv()[spec_branch_key(prev.id.branch)],
                            other,
                        );
                    }
                }
                Ok(amended)
            },
            Err(crate::errors::BranchError::NotFound) => Err(CommitError::BranchNotFound),
            Err(_) => Err(CommitError::Other(String::new())),
        }
    }
}

// ---------------------------------------------------------------------------
// Commit specification resolution
// ---------------------------------------------------------------------------
/// The position of the first `:` in a string, if any.
pub open spec fn spec_find_colon(s: Seq<char>) -> Option<int>
    decreases s.len(),
{
    if s.len() == 0 {
        None
    } else if s[0] == ':' {
        Some(0)
    } else {
        match spec_find_colon(s.drop_first()) {
            Some(i) => Some(i + 1),
            None => None,
        }
    }
}

proof fn lemma_find_colon_skip(s: Seq<char>, i: int)
    requires
        0 <= i <= s.len(),
        forall|j: int| 0 <= j < i ==> s[j] != ':',
    ensures
        spec_find_colon(s) == match spec_find_colon(s.skip(i)) {
            Some(p) => Some(p + i),
            None => None::<int>,
        },
    decreases i,
{
    if i == 0 {
        assert(s.skip(0) =~= s);
    } else {
        assert(s.len() > 0 && s[0] != ':');
        assert(forall|j: int| 0 <= j < i - 1 ==> s.drop_first()[j] != ':');
        lemma_find_colon_skip(s.drop_first(), i - 1);
        assert(s.drop_first().skip(i - 1) =~= s.skip(i));
    }
}

/// A found colon is a real position in the string.
pub proof fn lemma_find_colon_bounds(s: Seq<char>)
    ensures
        match spec_find_colon(s) {
            Some(p) => 0 <= p < s.len() && s[p] == ':',
            None => true,
        },
    decreases s.len(),
{
    if s.len() > 0 && s[0] != ':' {
        lemma_find_colon_bounds(s.drop_first());
    }
}

/// Finds the first `:` in a string.
pub fn find_colon(s: &str) -> (r: Option<usize>)
    ensures
        match r {
            Some(i) => spec_find_colon(s@) == Some(i as int),
            None => spec_find_colon(s@) is None,
        },
{
    let len = s.unicode_len();
    let mut i: usize = 0;
    while i < len
        invariant
            i <= len,
            len == s@.len(),
            forall|j: int| 0 <= j < i ==> s@[j] != ':',
        decreases len - i,
    {
        if s.get_char(i) == ':' {
            proof {
                lemma_find_colon_skip(s@, i as int);
                assert(s@.skip(i as int)[0] == s@[i as int]);
            }
            return Some(i);
        }
        i = i + 1;
    }
    proof {
        lemma_find_colon_skip(s@, len as int);
        assert(s@.skip(len as int) =~= Seq::<char>::empty());
    }
    None
}

pub open spec fn spec_is_digit(c: char) -> bool {
    48 <= (c as u32) && (c as u32) <= 57
}

pub open spec fn spec_all_digits(s: Seq<char>) -> bool {
    forall|i: int| 0 <= i < s.len() ==> spec_is_digit(#[trigger] s[i])
}

/// The value of a digit string, most significant first.
pub open spec fn spec_digits_val(s: Seq<char>) -> nat
    decreases s.len(),
{
    if s.len() == 0 {
        0
    } else {
        spec_digits_val(s.drop_last()) * 10 + (((s.last() as u32) - 48) as nat)
    }
}

/// What parsing an unsigned decimal yields: the digits' value, with an
/// optional leading `+`, when every character is a digit and the value
/// fits in 64 bits.
pub open spec fn spec_parse_u64(s: Seq<char>) -> Option<u64> {
    let body = if s.len() > 0 && s[0] == '+' {
        s.drop_first()
    } else {
        s
    };
    if body.len() > 0 && spec_all_digits(body) && spec_digits_val(body) < 0x1_0000_0000_0000_0000 {
        Some(spec_digits_val(body) as u64)
    } else {
        None
    }
}

proof fn lemma_digits_val_take_step(s: Seq<char>, i: int)
    requires
        0 <= i < s.len(),
        spec_is_digit(s[i]),
    ensures
        spec_digits_val(s.take(i + 1)) == spec_digits_val(s.take(i)) * 10 + ((s[i] as u32) - 48),
{
    assert(s.take(i + 1).drop_last() =~= s.take(i));
    assert(s.take(i + 1).last() == s[i]);
}

proof fn lemma_digits_val_monotone(s: Seq<char>, i: int)
    requires
        0 <= i <= s.len(),
        spec_all_digits(s),
    ensures
        spec_digits_val(s) >= spec_digits_val(s.take(i)),
    decreases s.len() - i,
{
    if i == s.len() {
        assert(s.take(i) =~= s);
    } else {
        lemma_digits_val_take_step(s, i);
        assert(spec_digits_val(s.take(i + 1)) >= spec_digits_val(s.take(i))) by (nonlinear_arith)
            requires
                spec_digits_val(s.take(i + 1)) == spec_digits_val(s.take(i)) * 10 + ((s[i] as u32)
                    - 48),
                48 <= (s[i] as u32) && (s[i] as u32) <= 57;
        lemma_digits_val_monotone(s, i + 1);
    }
}

/// Parses an unsigned decimal, with an optional leading `+`.
pub fn parse_u64(s: &str) -> (r: Option<u64>)
    ensures
        r == spec_parse_u64(s@),
{
    let len = s.unicode_len();
    let start: usize = if len > 0 && s.get_char(0) == '+' {
        1
    } else {
        0
    };
    let ghost body = if s@.len() > 0 && s@[0] == '+' {
        s@.drop_first()
    } else {
        s@
    };
    proof {
        assert(body =~= s@.skip(start as int));
    }
    if len == start {
        return None;
    }
    let mut acc: u64 = 0;
    let mut i: usize = start;
    proof {
        assert(body.take(0) =~= Seq::<char>::empty());
    }
    while i < len
        invariant
            start <= i <= len,
            len == s@.len(),
            body == s@.skip(start as int),
            body == (if s@.len() > 0 && s@[0] == '+' {
                s@.drop_first()
            } else {
                s@
            }),
            body.len() == len - start,
            forall|j: int| 0 <= j < i - start ==> spec_is_digit(#[trigger] body[j]),
            acc as nat == spec_digits_val(body.take(i - start)),
        decreases len - i,
    {
        let c = s.get_char(i);
        let u = c as u32;
        proof {
            assert(body[i - start] == s@[i as int]);
        }
        if !(48 <= u && u <= 57) {
            proof {
                assert(!spec_all_digits(body)) by {
                    if spec_all_digits(body) {
                        assert(spec_is_digit(body[i - start]));
                    }
                }
                assert(spec_parse_u64(s@) is None);
            }
            return None;
        }
        let d = (u - 48) as u64;
        if acc > (u64::MAX - d) / 10 {
            proof {
                lemma_digits_val_take_step(body, i - start);
                assert(spec_digits_val(body.take(i - start + 1)) > u64::MAX as nat) by (
                nonlinear_arith)
                    requires
                        spec_digits_val(body.take(i - start + 1)) == spec_digits_val(
                            body.take(i - start),
                        ) * 10 + ((body[i - start] as u32) - 48),
                        spec_digits_val(body.take(i - start)) == acc as nat,
                        acc > (u64::MAX - ((body[i - start] as u32) - 48)) / 10,
                        48 <= (body[i - start] as u32) <= 57;
                if spec_all_digits(body) {
                    lemma_digits_val_monotone(body, i - start + 1);
                }
                assert(spec_parse_u64(s@) is None);
            }
            return None;
        }
        proof {
            lemma_digits_val_take_step(body, i - start);
            assert((acc as nat) * 10 + (u - 48) <= u64::MAX as nat) by (nonlinear_arith)
                requires
                    acc <= (u64::MAX - (u - 48)) / 10,
                    48 <= u <= 57;
        }
        acc = acc * 10 + d;
        i = i + 1;
    }
    proof {
        assert(body.take(len - start) =~= body);
    }
    Some(acc)
}

/// What a commit specification resolves to: `name:seq` through the named
/// branch, a bare number through the current branch, a bare name through
/// that branch's head.
pub open spec fn spec_resolve(
    meta: Map<Seq<u8>, Seq<u8>>,
    branches: Map<Seq<u8>, Seq<u8>>,
    s: Seq<char>,
) -> Option<CommitID> {
    match spec_find_colon(s) {
        Some(p) => {
            let name = s.subrange(0, p);
            let seqs = s.subrange(p + 1, s.len() as int);
            match spec_parse_u64(seqs) {
                Some(q) => match spec_branch_at(branches, crate::branch::spec_branch_id(name)) {
                    Some(bv) => Some(CommitID { branch: bv.id, seq: q }),
                    None => None,
                },
                None => None,
            }
        },
        None => match spec_parse_u64(s) {
            Some(q) => match spec_current_at(meta) {
                Some(cur) => Some(CommitID { branch: cur.commit_id.branch, seq: q }),
                None => None,
            },
            None => match spec_branch_at(branches, crate::branch::spec_branch_id(s)) {
                Some(bv) => Some(CommitID { branch: bv.id, seq: bv.headseq }),
                None => None,
            },
        },
    }
}

impl CommitID {
    /// Resolves a commit specification string into a commit id.
    pub fn resolve(ws: &Workspace, spec: &str) -> (r: Result<CommitID, CommitError>)
        ensures
            match r {
                Ok(cid) => spec_resolve(ws.meta_kv(), ws.branches_kv(), spec@) == Some(cid),
                Err(e) => match e {
                    CommitError::InvalidSequence(_) => spec_find_colon(spec@) matches Some(p)
                        && spec_parse_u64(spec@.subrange(p + 1, spec@.len() as int)) is None,
                    CommitError::BranchNotFound => match spec_find_colon(spec@) {
                        Some(p) => !ws.branches_kv().contains_key(
                            crate::branch::spec_branch_key(
                                crate::branch::spec_branch_id(spec@.subrange(0, p)),
                            ),
                        ),
                        None => !ws.branches_kv().contains_key(
                            crate::branch::spec_branch_key(crate::branch::spec_branch_id(spec@)),
                        ),
                    },
                    CommitError::NotFound => spec_current_at(ws.meta_kv()) is None,
                    CommitError::SerializationError(_) => true,
                    CommitError::DatabaseError(_) => true,
                    _ => false,
                },
            },
            (spec_find_colon(spec@) matches Some(p) && spec_parse_u64(
                spec@.subrange(p + 1, spec@.len() as int),
            ) is None) ==> (r matches Err(e) && e is InvalidSequence),
    {
        match find_colon(spec) {
            Some(p) => {
                proof {
                    lemma_find_colon_bounds(spec@);
                }
                let len = spec.unicode_len();
                let name = spec.substring_char(0, p);
                let seq_str = spec.substring_char(p + 1, len);
                let seq = match parse_u64(seq_str) {
                    Some(q) => q,
                    None => {
                        return Err(CommitError::InvalidSequence(String::from_str(seq_str)));
                    },
                };
                match crate::branch::Branch::get_by_name(ws, name) {
                    Ok(b) => Ok(CommitID { branch: b.id, seq }),
                    Err(crate::errors::BranchError::NotFound) => Err(CommitError::BranchNotFound),
                    Err(crate::errors::BranchError::DatabaseError(m)) => Err(
                        CommitError::DatabaseError(m),
                    ),
                    Err(_) => Err(CommitError::SerializationError(String::new())),
                }
            },
            None => {
                match parse_u64(spec) {
                    Some(seq) => {
                        match CurrentCommitSpec::get(ws) {
                            Ok(cur) => Ok(CommitID { branch: cur.commit_id.branch, seq }),
                            Err(e) => Err(e),
                        }
                    },
                    None => {
                        match crate::branch::Branch::get_by_name(ws, spec) {
                            Ok(b) => Ok(CommitID { branch: b.id, seq: b.headseq }),
                            Err(crate::errors::BranchError::NotFound) => Err(
                                CommitError::BranchNotFound,
                            ),
                            Err(crate::errors::BranchError::DatabaseError(m)) => Err(
                                CommitError::DatabaseError(m),
                            ),
                            Err(_) => Err(CommitError::SerializationError(String::new())),
                        }
                    },
                }
            },
        }
    }
}

impl Commit {
    /// Retrieves a commit by id, at its branch's current version.
    pub fn get(ws: &Workspace, id: CommitID) -> (r: Result<Commit, CommitError>)
        ensures
            match r {
                Ok(c) => spec_branch_at(ws.branches_kv(), id.branch) matches Some(bv)
                    && spec_commit_get(ws.commits_kv(), id, bv.ver) == Some(c@),
                Err(e) => match e {
                    CommitError::BranchNotFound => !ws.branches_kv().contains_key(
                        crate::branch::spec_branch_key(id.branch),
                    ),
                    CommitError::NotFound => spec_branch_at(ws.branches_kv(), id.branch) matches
                        Some(bv) && spec_commit_get(ws.commits_kv(), id, bv.ver) is None,
                    CommitError::SerializationError(_) => true,
                    CommitError::DatabaseError(_) => true,
                    CommitError::Other(_) => true,
                    _ => false,
                },
            },
    {
        let branch = match crate::branch::Branch::get(ws, id.branch) {
            Ok(b) => b,
            Err(crate::errors::BranchError::NotFound) => {
                return Err(CommitError::BranchNotFound);
            },
            Err(crate::errors::BranchError::DatabaseError(m)) => {
                return Err(CommitError::DatabaseError(m));
            },
            Err(_) => {
                return Err(CommitError::SerializationError(String::new()));
            },
        };
        commit_get(ws, id, branch.ver)
    }

    /// Retrieves a commit on the current branch by sequence number.
    pub fn get_from_current_branch(ws: &Workspace, seq: u64) -> (r: Result<Commit, CommitError>)
        ensures
            match r {
                Ok(c) => spec_current_at(ws.meta_kv()) matches Some(cur) && spec_branch_at(
                    ws.branches_kv(),
                    cur.commit_id.branch,
                ) matches Some(bv) && spec_commit_get(
                    ws.commits_kv(),
                    CommitID { branch: cur.commit_id.branch, seq },
                    bv.ver,
                ) == Some(c@),
                Err(_) => true,
            },
    {
        let cur = match CurrentCommitSpec::get(ws) {
            Ok(c) => c,
            Err(e) => {
                return Err(e);
            },
        };
        Commit::get(ws, CommitID { branch: cur.commit_id.branch, seq })
    }

    /// Retrieves the commit the current pointer names, at the pointer's
    /// version.
    pub fn get_current(ws: &Workspace) -> (r: Result<Commit, CommitError>)
        ensures
            match r {
                Ok(c) => spec_current_at(ws.meta_kv()) matches Some(cur) && spec_commit_get(
                    ws.commits_kv(),
                    cur.commit_id,
                    cur.ver,
                ) == Some(c@),
                Err(e) => match e {
                    CommitError::NotFound => spec_current_at(ws.meta_kv()) is None || (
                    spec_current_at(ws.meta_kv()) matches Some(cur) && spec_commit_get(
                        ws.commits_kv(),
                        cur.commit_id,
                        cur.ver,
                    ) is None),
                    CommitError::SerializationError(_) => true,
                    CommitError::DatabaseError(_) => true,
                    _ => false,
                },
            },
    {
        let cur = match CurrentCommitSpec::get(ws) {
            Ok(c) => c,
            Err(e) => {
                return Err(e);
            },
        };
        commit_get(ws, cur.commit_id, cur.ver)
    }

    /// Retrieves a commit by specification string.
    pub fn get_by_spec(ws: &Workspace, spec: &str) -> (r: Result<Commit, CommitError>)
        ensures
            match r {
                Ok(c) => spec_resolve(ws.meta_kv(), ws.branches_kv(), spec@) matches Some(cid)
                    && spec_branch_at(ws.branches_kv(), cid.branch) matches Some(bv)
                    && spec_commit_get(ws.commits_kv(), cid, bv.ver) == Some(c@),
                Err(_) => true,
            },
    {
        let commit_id = match CommitID::resolve(ws, spec) {
            Ok(cid) => cid,
            Err(e) => {
                return Err(e);
            },
        };
        Commit::get(ws, commit_id)
    }

    /// Lists the current branch's commits, tip first.
    pub fn list(ws: &Workspace) -> (r: Result<Vec<Commit>, CommitError>)
        ensures
            match r {
                Ok(v) => spec_current_at(ws.meta_kv()) matches Some(cur) && spec_branch_at(
                    ws.branches_kv(),
                    cur.commit_id.branch,
                ) matches Some(bv) && {
                    &&& v@.len() == bv.headseq + 1
                    &&& forall|i: int|
                        0 <= i <= bv.headseq ==> spec_commit_get(
                            ws.commits_kv(),
                            CommitID { branch: bv.id, seq: (bv.headseq - i) as u64 },
                            bv.ver,
                        ) == Some((#[trigger] v@[i])@)
                },
                Err(_) => true,
            },
    {
        let cur = match CurrentCommitSpec::get(ws) {
            Ok(c) => c,
            Err(e) => {
                return Err(e);
            },
        };
        let branch = match crate::branch::Branch::get(ws, cur.commit_id.branch) {
            Ok(b) => b,
            Err(crate::errors::BranchError::NotFound) => {
                return Err(CommitError::BranchNotFound);
            },
            Err(crate::errors::BranchError::DatabaseError(m)) => {
                return Err(CommitError::DatabaseError(m));
            },
            Err(_) => {
                return Err(CommitError::SerializationError(String::new()));
            },
        };
        commits_list(ws, branch.id, branch.ver, branch.headseq)
    }

    /// Lists a named branch's commits, tip first.
    pub fn list_by_branch(ws: &Workspace, branch_name: &str) -> (r: Result<Vec<Commit>, CommitError>)
        ensures
            match r {
                Ok(v) => spec_branch_at(
                    ws.branches_kv(),
                    crate::branch::spec_branch_id(branch_name@),
                ) matches Some(bv) && {
                    &&& v@.len() == bv.headseq + 1
                    &&& forall|i: int|
                        0 <= i <= bv.headseq ==> spec_commit_get(
                            ws.commits_kv(),
                            CommitID { branch: bv.id, seq: (bv.headseq - i) as u64 },
                            bv.ver,
                        ) == Some((#[trigger] v@[i])@)
                },
                Err(_) => true,
            },
    {
        let branch = match crate::branch::Branch::get_by_name(ws, branch_name) {
            Ok(b) => b,
            Err(crate::errors::BranchError::NotFound) => {
                return Err(CommitError::BranchNotFound);
            },
            Err(crate::errors::BranchError::DatabaseError(m)) => {
                return Err(CommitError::DatabaseError(m));
            },
            Err(_) => {
                return Err(CommitError::SerializationError(String::new()));
            },
        };
        commits_list(ws, branch.id, branch.ver, branch.headseq)
    }
}

/// Commit graph coherence: on a coherent store, a branch listing's
/// records carry their own ids, so the sequence numbers strictly
/// decrease from the head down to the sentinel.
pub proof fn lemma_list_seqs_strictly_decrease(
    m: Map<Seq<u8>, Seq<u8>>,
    branch_id: u64,
    branch_ver: u64,
    headseq: u64,
    vs: Seq<CommitV>,
)
    requires
        commits_wf(m),
        vs.len() == headseq + 1,
        forall|i: int|
            0 <= i <= headseq ==> spec_commit_get(
                m,
                CommitID { branch: branch_id, seq: (headseq - i) as u64 },
                branch_ver,
            ) == Some(#[trigger] vs[i]),
    ensures
        forall|i: int|
            0 <= i <= headseq ==> (#[trigger] vs[i]).id.seq == headseq - i && vs[i].id.branch
                == branch_id,
        forall|i: int, j: int| 0 <= i < j <= headseq ==> vs[i].id.seq > vs[j].id.seq,
{
    assert forall|i: int| 0 <= i <= headseq implies (#[trigger] vs[i]).id.seq == headseq - i
        && vs[i].id.branch == branch_id by {
        let id = CommitID { branch: branch_id, seq: (headseq - i) as u64 };
        assert(spec_commit_get(m, id, branch_ver) == Some(vs[i]));
        match spec_stack_at(m, id) {
            Some(s) => {
                lemma_stack_lookup_mem(s, branch_ver);
                let k = choose|k: int| 0 <= k < s.len() && (#[trigger] s[k]) == vs[i];
                assert(s[k].id == id);
            },
            None => {
            },
        }
    }
}

} // verus!
