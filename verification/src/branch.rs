//! Branches: named lines of commits.
//!
//! A branch is keyed by the 64-bit hash of its name.  Creation is an
//! atomic insert-if-absent; head advancement is a read-modify-write that
//! bumps both the head sequence and the branch version.

use vstd::prelude::*;
use vstd::string::StrSliceExecFns;
use vstd::utf8::encode_utf8;
use crate::bytes::{spec_be_bytes, lemma_be_bytes_len, lemma_pow256_16};
use crate::codec::{
    spec_enc_u64,
    spec_enc_str,
    spec_dec_uint,
    spec_dec_str,
    str_fits,
    append_u64,
    append_str,
    dec_u64,
    dec_str,
    lemma_subrange_of_subrange,
    lemma_dec_uint_of_enc,
    lemma_dec_str_of_enc,
};
use crate::digest::{xxh3_64_of, hash64};
use crate::errors::BranchError;
use crate::store::{db_get, db_insert, db_insert_if_absent, db_flush, db_entries};
use crate::workspace::Workspace;

verus! {

/// The reserved parent id of a foundational branch.
pub const FOUNDATIONAL_ID: u64 = 0;

/// A branch record.
#[derive(Debug, Clone)]
pub struct Branch {
    /// Unique identifier: the 64-bit hash of the name.
    pub id: u64,
    /// Name of the branch, unique in the repository.
    pub name: String,
    /// Sequence number of the head commit on this branch.
    pub headseq: u64,
    /// Version of the branch; every change increases it.
    pub ver: u64,
    /// Identifier of the parent branch, or `FOUNDATIONAL_ID`.
    pub parent: u64,
    /// The parent's commit sequence at the time this branch was created.
    pub parentseq: u64,
}

pub struct BranchV {
    pub id: u64,
    pub name: Seq<char>,
    pub headseq: u64,
    pub ver: u64,
    pub parent: u64,
    pub parentseq: u64,
}

impl View for Branch {
    type V = BranchV;

    open spec fn view(&self) -> BranchV {
        BranchV {
            id: self.id,
            name: self.name@,
            headseq: self.headseq,
            ver: self.ver,
            parent: self.parent,
            parentseq: self.parentseq,
        }
    }
}

/// The id every branch of this name carries.
pub open spec fn spec_branch_id(name: Seq<char>) -> u64 {
    xxh3_64_of(encode_utf8(name))
}

/// The key a branch is stored under: its id, big-endian.
pub open spec fn spec_branch_key(id: u64) -> Seq<u8> {
    spec_be_bytes(id as nat, 8)
}

pub open spec fn spec_enc_branch(b: BranchV) -> Seq<u8> {
    spec_enc_u64(b.id) + spec_enc_str(b.name) + spec_enc_u64(b.headseq) + spec_enc_u64(b.ver)
        + spec_enc_u64(b.parent) + spec_enc_u64(b.parentseq)
}

pub open spec fn spec_dec_branch(bytes: Seq<u8>, pos: int) -> Option<(BranchV, int)> {
    match spec_dec_uint(bytes, pos, 8) {
        None => None,
        Some((id, p1)) => match spec_dec_str(bytes, p1) {
            None => None,
            Some((name, p2)) => match spec_dec_uint(bytes, p2, 8) {
                None => None,
                Some((headseq, p3)) => match spec_dec_uint(bytes, p3, 8) {
                    None => None,
                    Some((ver, p4)) => match spec_dec_uint(bytes, p4, 8) {
                        None => None,
                        Some((parent, p5)) => match spec_dec_uint(bytes, p5, 8) {
                            None => None,
                            Some((parentseq, p6)) => Some(
                                (
                                    BranchV {
                                        id: id as u64,
                                        name,
                                        headseq: headseq as u64,
                                        ver: ver as u64,
                                        parent: parent as u64,
                                        parentseq: parentseq as u64,
                                    },
                                    p6,
                                ),
                            ),
                        },
                    },
                },
            },
        },
    }
}

pub fn enc_branch(b: &Branch) -> (r: Vec<u8>)
    ensures
        r@ == spec_enc_branch(b@),
        str_fits(b.name@),
{
    let mut out: Vec<u8> = Vec::new();
    append_u64(&mut out, b.id);
    append_str(&mut out, &b.name);
    append_u64(&mut out, b.headseq);
    append_u64(&mut out, b.ver);
    append_u64(&mut out, b.parent);
    append_u64(&mut out, b.parentseq);
    proof {
        assert(out@ =~= spec_enc_branch(b@));
    }
    out
}

pub fn dec_branch(b: &Vec<u8>, pos: usize) -> (r: Option<(Branch, usize)>)
    ensures
        match r {
            Some((br, next)) => spec_dec_branch(b@, pos as int) == Some((br@, next as int)),
            None => spec_dec_branch(b@, pos as int) is None,
        },
{
    let (id, p1) = match dec_u64(b, pos) {
        None => {
            return None;
        },
        Some(x) => x,
    };
    let (name, p2) = match dec_str(b, p1) {
        None => {
            return None;
        },
        Some(x) => x,
    };
    let (headseq, p3) = match dec_u64(b, p2) {
        None => {
            return None;
        },
        Some(x) => x,
    };
    let (ver, p4) = match dec_u64(b, p3) {
        None => {
            return None;
        },
        Some(x) => x,
    };
    let (parent, p5) = match dec_u64(b, p4) {
        None => {
            return None;
        },
        Some(x) => x,
    };
    let (parentseq, p6) = match dec_u64(b, p5) {
        None => {
            return None;
        },
        Some(x) => x,
    };
    Some((Branch { id, name, headseq, ver, parent, parentseq }, p6))
}

/// Decoding a branch record where one was encoded yields it back.
pub proof fn lemma_dec_branch_of_enc(b: Seq<u8>, pos: int, bv: BranchV)
    requires
        0 <= pos,
        pos + spec_enc_branch(bv).len() <= b.len(),
        str_fits(bv.name),
        b.subrange(pos, pos + spec_enc_branch(bv).len() as int) == spec_enc_branch(bv),
    ensures
        spec_dec_branch(b, pos) == Some((bv, pos + spec_enc_branch(bv).len())),
{
    let e = spec_enc_branch(bv);
    let es = spec_enc_str(bv.name);
    let ls = es.len() as int;
    lemma_be_bytes_len(bv.id as nat, 8);
    lemma_be_bytes_len(encode_utf8(bv.name).len(), 8);
    lemma_be_bytes_len(bv.headseq as nat, 8);
    lemma_be_bytes_len(bv.ver as nat, 8);
    lemma_be_bytes_len(bv.parent as nat, 8);
    lemma_be_bytes_len(bv.parentseq as nat, 8);
    lemma_pow256_16();
    let lt = e.len() as int;
    assert(lt == 8 + ls + 8 + 8 + 8 + 8);
    lemma_subrange_of_subrange(b, pos, lt, 0, 8);
    assert(e.subrange(0, 8) =~= spec_enc_u64(bv.id));
    lemma_dec_uint_of_enc(b, pos, bv.id as nat, 8);
    lemma_subrange_of_subrange(b, pos, lt, 8, 8 + ls);
    assert(e.subrange(8, 8 + ls) =~= es);
    lemma_dec_str_of_enc(b, pos + 8, bv.name);
    let o2 = 8 + ls;
    lemma_subrange_of_subrange(b, pos, lt, o2, o2 + 8);
    assert(e.subrange(o2, o2 + 8) =~= spec_enc_u64(bv.headseq));
    lemma_dec_uint_of_enc(b, pos + o2, bv.headseq as nat, 8);
    let o3 = o2 + 8;
    lemma_subrange_of_subrange(b, pos, lt, o3, o3 + 8);
    assert(e.subrange(o3, o3 + 8) =~= spec_enc_u64(bv.ver));
    lemma_dec_uint_of_enc(b, pos + o3, bv.ver as nat, 8);
    let o4 = o3 + 8;
    lemma_subrange_of_subrange(b, pos, lt, o4, o4 + 8);
    assert(e.subrange(o4, o4 + 8) =~= spec_enc_u64(bv.parent));
    lemma_dec_uint_of_enc(b, pos + o4, bv.parent as nat, 8);
    let o5 = o4 + 8;
    lemma_subrange_of_subrange(b, pos, lt, o5, o5 + 8);
    assert(e.subrange(o5, o5 + 8) =~= spec_enc_u64(bv.parentseq));
    lemma_dec_uint_of_enc(b, pos + o5, bv.parentseq as nat, 8);
}

/// Whether the map holds some record that decodes exactly to this branch.
pub open spec fn branch_listed(m: Map<Seq<u8>, Seq<u8>>, bv: BranchV) -> bool {
    exists|k: Seq<u8>|
        m.contains_key(k) && spec_dec_branch(#[trigger] m[k], 0) == Some((bv, m[k].len() as int))
}

/// Distinct branch ids have distinct keys.
pub proof fn lemma_branch_key_injective(a: u64, b: u64)
    requires
        spec_branch_key(a) == spec_branch_key(b),
    ensures
        a == b,
{
    lemma_pow256_16();
    crate::bytes::lemma_be_bytes_injective(a as nat, b as nat, 8);
}

/// Inserting at one branch key leaves every other id's record unchanged.
pub proof fn lemma_branch_at_other(m: Map<Seq<u8>, Seq<u8>>, k2: Seq<u8>, v: Seq<u8>, id: u64)
    requires
        spec_branch_key(id) != k2,
    ensures
        spec_branch_at(m.insert(k2, v), id) == spec_branch_at(m, id),
{
    let kid = spec_branch_key(id);
    let m2 = m.insert(k2, v);
    assert(m2.contains_key(kid) == m.contains_key(kid));
    if m.contains_key(kid) {
        assert(m2[kid] == m[kid]);
    }
}

/// The branch stored under id `id`, if the map holds a well-formed record.
pub open spec fn spec_branch_at(m: Map<Seq<u8>, Seq<u8>>, id: u64) -> Option<BranchV> {
    if m.contains_key(spec_branch_key(id)) {
        match spec_dec_branch(m[spec_branch_key(id)], 0) {
            Some((bv, n)) => if n == m[spec_branch_key(id)].len() {
                Some(bv)
            } else {
                None
            },
            None => None,
        }
    } else {
        None
    }
}

/// Whether a character may appear in a branch or repository name.
pub open spec fn spec_valid_name_char(c: char) -> bool {
    let u = c as u32;
    (97 <= u && u <= 122) || (48 <= u && u <= 57) || u == 46 || u == 47 || u == 45
}

/// Valid names: one or more characters, each a lower-case letter, a
/// digit, `.`, `/` or `-`.
pub open spec fn spec_valid_name(s: Seq<char>) -> bool {
    s.len() > 0 && forall|i: int| 0 <= i < s.len() ==> spec_valid_name_char(#[trigger] s[i])
}

/// Validates a branch (or repository) name.
pub fn validate_branch_name(name: &str) -> (r: Result<(), BranchError>)
    ensures
        match r {
            Ok(()) => spec_valid_name(name@),
            Err(e) => !spec_valid_name(name@) && e is InvalidName,
        },
{
    let len = name.unicode_len();
    if len == 0 {
        return Err(BranchError::InvalidName(String::from_str("names cannot be empty")));
    }
    let mut i: usize = 0;
    while i < len
        invariant
            i <= len,
            len == name@.len(),
            forall|j: int| 0 <= j < i ==> spec_valid_name_char(#[trigger] name@[j]),
        decreases len - i,
    {
        let c = name.get_char(i);
        let u = c as u32;
        if !((97 <= u && u <= 122) || (48 <= u && u <= 57) || u == 46 || u == 47 || u == 45) {
            return Err(
                BranchError::InvalidName(
                    String::from_str(
                        "names can only contain lowercase letters, numbers, and the characters . / -",
                    ),
                ),
            );
        }
        i = i + 1;
    }
    Ok(())
}

impl Branch {
    /// Whether this branch is foundational (based on no other branch).
    pub fn is_foundational(&self) -> (r: bool)
        ensures
            r == (self.parent == FOUNDATIONAL_ID),
    {
        self.parent == FOUNDATIONAL_ID
    }

    /// Retrieves a branch by id.
    pub fn get(ws: &Workspace, id: u64) -> (r: Result<Branch, BranchError>)
        ensures
            match r {
                Ok(b) => spec_branch_at(ws.branches_kv(), id) == Some(b@),
                Err(e) => match e {
                    BranchError::NotFound => !ws.branches_kv().contains_key(spec_branch_key(id)),
                    BranchError::SerializationError(_) => ws.branches_kv().contains_key(
                        spec_branch_key(id),
                    ) && spec_branch_at(ws.branches_kv(), id) is None,
                    BranchError::DatabaseError(_) => true,
                    _ => false,
                },
            },
    {
        let key = crate::bytes::u64_to_be(id);
        match db_get(&ws.branches, key.as_slice()) {
            Ok(Some(bytes)) => match dec_branch(&bytes, 0) {
                Some((b, n)) => {
                    if n == bytes.len() {
                        Ok(b)
                    } else {
                        Err(BranchError::SerializationError(String::new()))
                    }
                },
                None => Err(BranchError::SerializationError(String::new())),
            },
            Ok(None) => Err(BranchError::NotFound),
            Err(m) => Err(BranchError::DatabaseError(m)),
        }
    }

    /// Retrieves a branch by name, through the name's 64-bit hash.
    pub fn get_by_name(ws: &Workspace, name: &str) -> (r: Result<Branch, BranchError>)
        ensures
            match r {
                Ok(b) => spec_branch_at(ws.branches_kv(), spec_branch_id(name@)) == Some(b@),
                Err(e) => match e {
                    BranchError::NotFound => !ws.branches_kv().contains_key(
                        spec_branch_key(spec_branch_id(name@)),
                    ),
                    BranchError::SerializationError(_) => spec_branch_at(
                        ws.branches_kv(),
                        spec_branch_id(name@),
                    ) is None,
                    BranchError::DatabaseError(_) => true,
                    _ => false,
                },
            },
    {
        let id = hash64(name.as_bytes());
        Branch::get(ws, id)
    }

    /// Lists every branch record in the store.
    pub fn list(ws: &Workspace) -> (r: Result<Vec<Branch>, BranchError>)
        ensures
            match r {
                Ok(v) => forall|i: int|
                    0 <= i < v@.len() ==> branch_listed(ws.branches_kv(), (#[trigger] v@[i])@),
                Err(e) => e is DatabaseError || e is SerializationError,
            },
    {
        let entries = match db_entries(&ws.branches) {
            Ok(es) => es,
            Err(m) => {
                return Err(BranchError::DatabaseError(m));
            },
        };
        let mut out: Vec<Branch> = Vec::new();
        let n = entries.len();
        let mut i: usize = 0;
        while i < n
            invariant
                i <= n,
                n == entries@.len(),
                forall|j: int|
                    0 <= j < entries@.len() ==> ws.branches_kv().contains_key(
                        #[trigger] entries@[j].0@,
                    ) && entries@[j].1@ == ws.branches_kv()[entries@[j].0@],
                out@.len() == i,
                forall|j: int| 0 <= j < i ==> branch_listed(ws.branches_kv(), (#[trigger] out@[j])@),
            decreases n - i,
        {
            let bytes = &entries[i].1;
            match dec_branch(bytes, 0) {
                Some((b, consumed)) => {
                    if consumed == bytes.len() {
                        proof {
                            let k = entries@[i as int].0@;
                            assert(ws.branches_kv().contains_key(k) && spec_dec_branch(
                                ws.branches_kv()[k],
                                0,
                            ) == Some((b@, ws.branches_kv()[k].len() as int)));
                            assert(branch_listed(ws.branches_kv(), b@));
                        }
                        out.push(b);
                    } else {
                        return Err(BranchError::SerializationError(String::new()));
                    }
                },
                None => {
                    return Err(BranchError::SerializationError(String::new()));
                },
            }
            i = i + 1;
        }
        Ok(out)
    }

    /// Creates a branch record by atomic insert-if-absent.  The id is the
    /// hash of the name; an existing record under that id means the name
    /// is taken, or, with a different stored name, a hash collision.
    pub fn create_record(
        ws: &mut Workspace,
        name: String,
        headseq: u64,
        parent: u64,
        parentseq: u64,
    ) -> (r: Result<Branch, BranchError>)
        ensures
            final(ws).blobs == old(ws).blobs,
            final(ws).trees == old(ws).trees,
            final(ws).commitdb == old(ws).commitdb,
            final(ws).repodb == old(ws).repodb,
            match r {
                Ok(b) => {
                    &&& b@ == (BranchV {
                        id: spec_branch_id(name@),
                        name: name@,
                        headseq,
                        ver: 0,
                        parent,
                        parentseq,
                    })
                    &&& !old(ws).branches_kv().contains_key(spec_branch_key(b.id))
                    &&& final(ws).branches_kv() == old(ws).branches_kv().insert(
                        spec_branch_key(b.id),
                        spec_enc_branch(b@),
                    )
                    &&& spec_branch_at(final(ws).branches_kv(), b.id) == Some(b@)
                },
                Err(e) => match e {
                    BranchError::BranchExists(_) => {
                        &&& final(ws).branches_kv() == old(ws).branches_kv()
                        &&& spec_branch_at(old(ws).branches_kv(), spec_branch_id(name@)) matches
                            Some(bv) && bv.name == name@
                    },
                    BranchError::HashCollision(_) => {
                        &&& final(ws).branches_kv() == old(ws).branches_kv()
                        &&& spec_branch_at(old(ws).branches_kv(), spec_branch_id(name@)) matches
                            Some(bv) && bv.name != name@
                    },
                    BranchError::SerializationError(_) => final(ws).branches_kv() == old(
                        ws,
                    ).branches_kv() && old(ws).branches_kv().contains_key(
                        spec_branch_key(spec_branch_id(name@)),
                    ) && spec_branch_at(old(ws).branches_kv(), spec_branch_id(name@)) is None,
                    BranchError::DatabaseError(_) => true,
                    _ => false,
                },
            },
    {
        let id = hash64(name.as_str().as_bytes());
        let branch = Branch { id, name, headseq, ver: 0, parent, parentseq };
        let key = crate::bytes::u64_to_be(id);
        let val = enc_branch(&branch);
        match db_insert_if_absent(&mut ws.branches, key.as_slice(), val.as_slice()) {
            Ok(Ok(())) => {
                proof {
                    let m = ws.branches_kv();
                    let k = spec_branch_key(id);
                    assert(m[k].subrange(0, m[k].len() as int) =~= m[k]);
                    lemma_dec_branch_of_enc(m[k], 0, branch@);
                }
                match db_flush(&ws.branches) {
                    Ok(()) => Ok(branch),
                    Err(m) => Err(BranchError::DatabaseError(m)),
                }
            },
            Ok(Err(Some(existing))) => {
                match dec_branch(&existing, 0) {
                    Some((eb, n)) => {
                        if n == existing.len() {
                            if eb.name.eq(&branch.name) {
                                Err(BranchError::BranchExists(eb.name))
                            } else {
                                Err(BranchError::HashCollision(eb.name))
                            }
                        } else {
                            Err(BranchError::SerializationError(String::new()))
                        }
                    },
                    None => Err(BranchError::SerializationError(String::new())),
                }
            },
            Ok(Err(None)) => Err(
                BranchError::DatabaseError(String::from_str("existing record unavailable")),
            ),
            Err(m) => Err(BranchError::DatabaseError(m)),
        }
    }

    /// Advances a branch's head sequence and version in one
    /// read-modify-write.
    pub fn advance_head(ws: &mut Workspace, branch_id: u64, new_headseq: u64, new_ver: u64) -> (r:
        Result<Branch, BranchError>)
        ensures
            final(ws).blobs == old(ws).blobs,
            final(ws).trees == old(ws).trees,
            final(ws).commitdb == old(ws).commitdb,
            final(ws).repodb == old(ws).repodb,
            match r {
                Ok(b) => {
                    &&& spec_branch_at(old(ws).branches_kv(), branch_id) matches Some(bv0) && b@
                        == (BranchV { headseq: new_headseq, ver: new_ver, ..bv0 })
                    &&& final(ws).branches_kv() == old(ws).branches_kv().insert(
                        spec_branch_key(branch_id),
                        spec_enc_branch(b@),
                    )
                    &&& spec_branch_at(final(ws).branches_kv(), branch_id) == Some(b@)
                    &&& b.headseq == new_headseq
                    &&& b.ver == new_ver
                },
                Err(e) => match e {
                    BranchError::NotFound => final(ws).branches == old(ws).branches && !old(
                        ws,
                    ).branches_kv().contains_key(spec_branch_key(branch_id)),
                    BranchError::SerializationError(_) => final(ws).branches == old(ws).branches,
                    BranchError::DatabaseError(_) => true,
                    _ => false,
                },
            },
    {
        let mut b = match Branch::get(ws, branch_id) {
            Ok(b) => b,
            Err(e) => {
                return Err(e);
            },
        };
        proof {
            assert(spec_branch_at(ws.branches_kv(), branch_id) matches Some(bv) && bv.id == b.id);
        }
        b.headseq = new_headseq;
        b.ver = new_ver;
        let key = crate::bytes::u64_to_be(branch_id);
        let val = enc_branch(&b);
        match db_insert(&mut ws.branches, key.as_slice(), val.as_slice()) {
            Ok(()) => {
                proof {
                    let m = ws.branches_kv();
                    let k = spec_branch_key(branch_id);
                    assert(m[k].subrange(0, m[k].len() as int) =~= m[k]);
                    lemma_dec_branch_of_enc(m[k], 0, b@);
                }
                match db_flush(&ws.branches) {
                    Ok(()) => Ok(b),
                    Err(m) => Err(BranchError::DatabaseError(m)),
                }
            },
            Err(m) => Err(BranchError::DatabaseError(m)),
        }
    }
}

impl Branch {
    /// Retrieves the branch the current commit sits on.
    pub fn get_current(ws: &Workspace) -> (r: Result<Branch, BranchError>)
        ensures
            match r {
                Ok(b) => crate::commit::spec_current_at(ws.meta_kv()) matches Some(cur)
                    && crate::commit::spec_commit_get(ws.commits_kv(), cur.commit_id, cur.ver)
                    matches Some(prev) && spec_branch_at(ws.branches_kv(), prev.id.branch) == Some(
                    b@,
                ),
                Err(_) => true,
            },
    {
        let commit = match crate::commit::Commit::get_current(ws) {
            Ok(c) => c,
            Err(_) => {
                return Err(BranchError::Other(String::new()));
            },
        };
        Branch::get(ws, commit.id.branch)
    }

    /// Creates the foundational branch: no parent, head at the sentinel.
    pub fn create_foundational_branch(ws: &mut Workspace, name: String) -> (r: Result<
        Branch,
        BranchError,
    >)
        ensures
            final(ws).blobs == old(ws).blobs,
            final(ws).trees == old(ws).trees,
            final(ws).commitdb == old(ws).commitdb,
            final(ws).repodb == old(ws).repodb,
            !spec_valid_name(name@) ==> (r matches Err(e) && e is InvalidName),
            match r {
                Ok(b) => {
                    &&& spec_valid_name(name@)
                    &&& b@ == (BranchV {
                        id: spec_branch_id(name@),
                        name: name@,
                        headseq: crate::commit::SEQ_ZERO,
                        ver: 0,
                        parent: FOUNDATIONAL_ID,
                        parentseq: crate::commit::SEQ_ZERO,
                    })
                    &&& spec_branch_at(final(ws).branches_kv(), b.id) == Some(b@)
                },
                Err(e) => match e {
                    BranchError::InvalidName(_) => !spec_valid_name(name@) && final(ws).branches
                        == old(ws).branches,
                    _ => true,
                },
            },
    {
        match validate_branch_name(name.as_str()) {
            Ok(()) => {
            },
            Err(e) => {
                return Err(e);
            },
        }
        Branch::create_record(
            ws,
            name,
            crate::commit::SEQ_ZERO,
            FOUNDATIONAL_ID,
            crate::commit::SEQ_ZERO,
        )
    }

    /// Creates a new branch off the current commit of the foundational
    /// branch: a record anchored to the parent's sequence, a sentinel
    /// commit copying the current snapshot, and the pointer moved to it.
    #[verifier::spinoff_prover]
    #[verifier::rlimit(100)]
    pub fn new(ws: &mut Workspace, name: String) -> (r: Result<Branch, BranchError>)
        ensures
            final(ws).blobs == old(ws).blobs,
            final(ws).trees == old(ws).trees,
            final(ws).repodb == old(ws).repodb,
            !spec_valid_name(name@) ==> (r matches Err(e) && e is InvalidName),
            match r {
                Ok(b) => {
                    &&& spec_valid_name(name@)
                    &&& crate::commit::spec_current_at(old(ws).meta_kv()) matches Some(cur0)
                        && crate::commit::spec_commit_get(
                        old(ws).commits_kv(),
                        cur0.commit_id,
                        cur0.ver,
                    ) matches Some(prev) && spec_branch_at(old(ws).branches_kv(), prev.id.branch)
                        matches Some(pbv) && {
                        &&& pbv.parent == FOUNDATIONAL_ID
                        &&& b@ == (BranchV {
                            id: spec_branch_id(name@),
                            name: name@,
                            headseq: crate::commit::SEQ_ZERO,
                            ver: 0,
                            parent: prev.id.branch,
                            parentseq: prev.id.seq,
                        })
                        &&& spec_branch_at(final(ws).branches_kv(), b.id) == Some(b@)
                        &&& crate::commit::spec_commit_get(
                            final(ws).commits_kv(),
                            crate::commit::CommitID { branch: b.id, seq: crate::commit::SEQ_ZERO },
                            0,
                        ) == Some(
                            crate::commit::CommitV {
                                id: crate::commit::CommitID {
                                    branch: b.id,
                                    seq: crate::commit::SEQ_ZERO,
                                },
                                ver: 0,
                                hash: crate::commit::spec_commit_hash(
                                    prev.message,
                                    prev.treehash,
                                ),
                                treehash: prev.treehash,
                                message: prev.message,
                            },
                        )
                        &&& crate::commit::spec_current_at(final(ws).meta_kv()) == Some(
                            crate::commit::CurrentCommitSpec {
                                commit_id: crate::commit::CommitID {
                                    branch: b.id,
                                    seq: crate::commit::SEQ_ZERO,
                                },
                                ver: 0,
                                rebuild_seq: crate::commit::NO_REBUILD,
                                rebuild_ver: crate::commit::NO_REBUILD,
                            },
                        )
                        &&& forall|other: u64|
                            other != b.id ==> spec_branch_at(final(ws).branches_kv(), other)
                                == spec_branch_at(old(ws).branches_kv(), other)
                        &&& forall|other: crate::commit::CommitID|
                            other != (crate::commit::CommitID {
                                branch: b.id,
                                seq: crate::commit::SEQ_ZERO,
                            }) ==> crate::commit::spec_stack_at(final(ws).commits_kv(), other)
                                == crate::commit::spec_stack_at(old(ws).commits_kv(), other)
                        &&& (crate::commit::commits_wf(old(ws).commits_kv())
                            ==> crate::commit::commits_wf(final(ws).commits_kv()))
                    }
                },
                Err(e) => match e {
                    BranchError::InvalidName(_) => {
                        &&& !spec_valid_name(name@)
                        &&& final(ws).branches == old(ws).branches
                        &&& final(ws).commitdb == old(ws).commitdb
                    },
                    BranchError::InvalidParent(_) => {
                        &&& crate::commit::spec_current_at(old(ws).meta_kv()) matches Some(cur0)
                            && crate::commit::spec_commit_get(
                            old(ws).commits_kv(),
                            cur0.commit_id,
                            cur0.ver,
                        ) matches Some(prev) && spec_branch_at(
                            old(ws).branches_kv(),
                            prev.id.branch,
                        ) matches Some(pbv) && pbv.parent != FOUNDATIONAL_ID
                        &&& final(ws).branches == old(ws).branches
                        &&& final(ws).commitdb == old(ws).commitdb
                    },
                    BranchError::BranchExists(_) => {
                        &&& spec_branch_at(old(ws).branches_kv(), spec_branch_id(name@)) matches
                            Some(bv) && bv.name == name@
                        &&& final(ws).branches_kv() == old(ws).branches_kv()
                        &&& final(ws).commitdb == old(ws).commitdb
                    },
                    BranchError::HashCollision(_) => {
                        &&& spec_branch_at(old(ws).branches_kv(), spec_branch_id(name@)) matches
                            Some(bv) && bv.name != name@
                        &&& final(ws).branches_kv() == old(ws).branches_kv()
                        &&& final(ws).commitdb == old(ws).commitdb
                    },
                    _ => true,
                },
            },
    {
        match validate_branch_name(name.as_str()) {
            Ok(()) => {
            },
            Err(e) => {
                return Err(e);
            },
        }
        let commit = match crate::commit::Commit::get_current(ws) {
            Ok(c) => c,
            Err(_) => {
                return Err(BranchError::Other(String::new()));
            },
        };
        let parent_branch = match Branch::get(ws, commit.id.branch) {
            Ok(b) => b,
            Err(e) => {
                return Err(e);
            },
        };
        if !parent_branch.is_foundational() {
            return Err(
                BranchError::InvalidParent(
                    String::from_str("parent branch must be foundational"),
                ),
            );
        }
        let branch = match Branch::create_record(
            ws,
            name,
            crate::commit::SEQ_ZERO,
            commit.id.branch,
            commit.id.seq,
        ) {
            Ok(b) => b,
            Err(e) => {
                return Err(e);
            },
        };
        proof {
            assert forall|other: u64| other != branch.id implies spec_branch_at(
                ws.branches_kv(),
                other,
            ) == spec_branch_at(old(ws).branches_kv(), other) by {
                assert(spec_branch_key(other) != spec_branch_key(branch.id)) by {
                    if spec_branch_key(other) == spec_branch_key(branch.id) {
                        lemma_branch_key_injective(other, branch.id);
                    }
                }
                lemma_branch_at_other(
                    old(ws).branches_kv(),
                    spec_branch_key(branch.id),
                    ws.branches_kv()[spec_branch_key(branch.id)],
                    other,
                );
            }
        }
        let branch_commit = match crate::commit::Commit::create_zero_commit(
            ws,
            branch.id,
            commit.treehash,
            commit.message,
        ) {
            Ok(c) => c,
            Err(_) => {
                return Err(BranchError::Other(String::new()));
            },
        };
        let current = crate::commit::CurrentCommitSpec {
            commit_id: branch_commit.id,
            ver: 0,
            rebuild_seq: crate::commit::NO_REBUILD,
            rebuild_ver: crate::commit::NO_REBUILD,
        };
        match current.save(ws) {
            Ok(()) => Ok(branch),
            Err(_) => Err(BranchError::Other(String::new())),
        }
    }
}

} // verus!
