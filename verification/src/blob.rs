//! Content-addressed blob metadata: the record type, its canonical
//! encoding, and the key/value side of the blob store.
//!
//! The key/value map is the source of truth: a digest present in the map
//! means the caller has persisted the bytes under that digest's path.

use vstd::prelude::*;
use crate::bytes::{spec_be_bytes, lemma_be_bytes_len, lemma_be_bytes_injective, lemma_pow256_16};
use crate::codec::{
    spec_enc_u128,
    spec_enc_u64,
    spec_dec_uint,
    append_u128,
    append_u64,
    dec_u128,
    dec_u64,
    lemma_subrange_of_subrange,
    lemma_dec_uint_of_enc,
};
use crate::context::Context;
use crate::digest::{spec_hex_of, hex_append};
use crate::errors::BlobError;
use crate::store::{db_get, db_contains, db_insert};
use crate::workspace::{join_path, Workspace};

verus! {

/// Immutable byte content addressed by its 128-bit digest.
#[derive(Debug, Clone, Copy, PartialEq, Eq, Structural)]
pub struct Blob {
    /// Hash of the blob's content, its unique address.
    pub contenthash: u128,
    /// Size of the content in bytes.
    pub size: u64,
}

/// The key a blob is stored under: its digest, big-endian.
pub open spec fn spec_blob_key(h: u128) -> Seq<u8> {
    spec_be_bytes(h as nat, 16)
}

pub open spec fn spec_enc_blob(b: Blob) -> Seq<u8> {
    spec_enc_u128(b.contenthash) + spec_enc_u64(b.size)
}

pub open spec fn spec_dec_blob(bytes: Seq<u8>, pos: int) -> Option<(Blob, int)> {
    match spec_dec_uint(bytes, pos, 16) {
        None => None,
        Some((h, p1)) => match spec_dec_uint(bytes, p1, 8) {
            None => None,
            Some((s, p2)) => Some((Blob { contenthash: h as u128, size: s as u64 }, p2)),
        },
    }
}

pub fn append_blob(out: &mut Vec<u8>, b: &Blob)
    ensures
        final(out)@ == old(out)@ + spec_enc_blob(*b),
{
    append_u128(out, b.contenthash);
    append_u64(out, b.size);
    proof {
        assert(final(out)@ =~= old(out)@ + spec_enc_blob(*b));
    }
}

pub fn dec_blob(b: &Vec<u8>, pos: usize) -> (r: Option<(Blob, usize)>)
    ensures
        match r {
            Some((blob, next)) => spec_dec_blob(b@, pos as int) == Some((blob, next as int)),
            None => spec_dec_blob(b@, pos as int) is None,
        },
{
    match dec_u128(b, pos) {
        None => None,
        Some((h, p1)) => match dec_u64(b, p1) {
            None => None,
            Some((s, p2)) => Some((Blob { contenthash: h, size: s }, p2)),
        },
    }
}

/// Decoding a blob record where one was encoded yields it back.
pub proof fn lemma_dec_blob_of_enc(b: Seq<u8>, pos: int, blob: Blob)
    requires
        0 <= pos,
        pos + 24 <= b.len(),
        b.subrange(pos, pos + 24) == spec_enc_blob(blob),
    ensures
        spec_dec_blob(b, pos) == Some((blob, pos + 24)),
{
    let e = spec_enc_blob(blob);
    lemma_be_bytes_len(blob.contenthash as nat, 16);
    lemma_be_bytes_len(blob.size as nat, 8);
    lemma_pow256_16();
    lemma_subrange_of_subrange(b, pos, 24, 0, 16);
    assert(e.subrange(0, 16) =~= spec_enc_u128(blob.contenthash));
    lemma_dec_uint_of_enc(b, pos, blob.contenthash as nat, 16);
    lemma_subrange_of_subrange(b, pos, 24, 16, 24);
    assert(e.subrange(16, 24) =~= spec_enc_u64(blob.size));
    lemma_dec_uint_of_enc(b, pos + 16, blob.size as nat, 8);
}

/// The blob record stored for digest `h`, if the map holds a well-formed one.
pub open spec fn spec_blob_at(m: Map<Seq<u8>, Seq<u8>>, h: u128) -> Option<Blob> {
    if m.contains_key(spec_blob_key(h)) {
        match spec_dec_blob(m[spec_blob_key(h)], 0) {
            Some((b, n)) => if n == m[spec_blob_key(h)].len() {
                Some(b)
            } else {
                None
            },
            None => None,
        }
    } else {
        None
    }
}

/// Distinct digests are stored under distinct keys, so the store holds at
/// most one record per content digest.
pub proof fn lemma_blob_key_injective(h1: u128, h2: u128)
    requires
        spec_blob_key(h1) == spec_blob_key(h2),
    ensures
        h1 == h2,
{
    lemma_pow256_16();
    lemma_be_bytes_injective(h1 as nat, h2 as nat, 16);
}

/// The directory all blob files live under.
pub fn get_blob_dir(context: &Context) -> (r: String)
    ensures
        r@ == context.workspace_path@ + seq!['/'] + "blobs"@,
{
    join_path(&context.workspace_path, "blobs")
}

/// The path of the blob file for a digest: the first two hex characters
/// name a subdirectory, the remaining thirty the file.
pub fn get_blob_path(context: &Context, contenthash: u128) -> (r: String)
    ensures
        r@ == context.workspace_path@ + seq!['/'] + "blobs"@ + seq!['/'] + spec_hex_of(
            spec_be_bytes(contenthash as nat, 16).subrange(0, 1),
        ) + seq!['/'] + spec_hex_of(spec_be_bytes(contenthash as nat, 16).subrange(1, 16)),
{
    proof {
        reveal_strlit("/");
        assert("/"@ =~= seq!['/']);
        lemma_be_bytes_len(contenthash as nat, 16);
    }
    let bytes = crate::bytes::u128_to_be(contenthash);
    let first = vstd::slice::slice_to_vec(vstd::slice::slice_subrange(bytes.as_slice(), 0, 1));
    let rest = vstd::slice::slice_to_vec(vstd::slice::slice_subrange(bytes.as_slice(), 1, 16));
    let mut r = get_blob_dir(context);
    r.append("/");
    hex_append(&mut r, &first);
    r.append("/");
    hex_append(&mut r, &rest);
    proof {
        assert(r@ =~= context.workspace_path@ + seq!['/'] + "blobs"@ + seq!['/'] + spec_hex_of(
            spec_be_bytes(contenthash as nat, 16).subrange(0, 1),
        ) + seq!['/'] + spec_hex_of(spec_be_bytes(contenthash as nat, 16).subrange(1, 16)));
    }
    r
}

/// Whether the store already holds a record for this digest.  Presence
/// means the content bytes are persisted.
pub fn blob_stored(ws: &Workspace, contenthash: u128) -> (r: Result<bool, BlobError>)
    ensures
        match r {
            Ok(b) => b == ws.blobs_kv().contains_key(spec_blob_key(contenthash)),
            Err(e) => e is DatabaseError,
        },
{
    let key = crate::bytes::u128_to_be(contenthash);
    match db_contains(&ws.blobs, key.as_slice()) {
        Ok(b) => Ok(b),
        Err(m) => Err(BlobError::DatabaseError(m)),
    }
}

/// Records a blob under its digest.  The caller has already persisted the
/// content bytes; after this the digest resolves in the store.
pub fn blob_record(ws: &mut Workspace, contenthash: u128, size: u64) -> (r: Result<
    Blob,
    BlobError,
>)
    ensures
        match r {
            Ok(b) => {
                &&& b == (Blob { contenthash, size })
                &&& final(ws).blobs_kv() == old(ws).blobs_kv().insert(
                    spec_blob_key(contenthash),
                    spec_enc_blob(b),
                )
                &&& final(ws).trees_kv() == old(ws).trees_kv()
                &&& final(ws).branches_kv() == old(ws).branches_kv()
                &&& final(ws).commits_kv() == old(ws).commits_kv()
                &&& final(ws).meta_kv() == old(ws).meta_kv()
                &&& final(ws).repodb == old(ws).repodb
                &&& spec_blob_at(final(ws).blobs_kv(), contenthash) == Some(b)
            },
            Err(e) => e is DatabaseError,
        },
{
    let blob = Blob { contenthash, size };
    let key = crate::bytes::u128_to_be(contenthash);
    let mut val: Vec<u8> = Vec::new();
    append_blob(&mut val, &blob);
    proof {
        assert(val@ =~= spec_enc_blob(blob));
    }
    match db_insert(&mut ws.blobs, key.as_slice(), val.as_slice()) {
        Ok(()) => {
            proof {
                let m = ws.blobs_kv();
                let k = spec_blob_key(contenthash);
                assert(m.contains_key(k));
                assert(m[k] == spec_enc_blob(blob));
                lemma_be_bytes_len(contenthash as nat, 16);
                lemma_be_bytes_len(size as nat, 8);
                assert(m[k].len() == 24);
                assert(m[k].subrange(0, 24) =~= m[k]);
                lemma_dec_blob_of_enc(m[k], 0, blob);
            }
            Ok(blob)
        },
        Err(m) => Err(BlobError::DatabaseError(m)),
    }
}

/// Retrieves the stored metadata record for a digest.
pub fn get_blob_metadata(ws: &Workspace, contenthash: u128) -> (r: Result<Blob, BlobError>)
    ensures
        match r {
            Ok(b) => spec_blob_at(ws.blobs_kv(), contenthash) == Some(b),
            Err(e) => match e {
                BlobError::BlobNotFound(_) => !ws.blobs_kv().contains_key(
                    spec_blob_key(contenthash),
                ),
                BlobError::SerializationError(_) => ws.blobs_kv().contains_key(
                    spec_blob_key(contenthash),
                ) && spec_blob_at(ws.blobs_kv(), contenthash) is None,
                BlobError::DatabaseError(_) => true,
                _ => false,
            },
        },
{
    let key = crate::bytes::u128_to_be(contenthash);
    match db_get(&ws.blobs, key.as_slice()) {
        Ok(Some(bytes)) => match dec_blob(&bytes, 0) {
            Some((b, n)) => {
                if n == bytes.len() {
                    Ok(b)
                } else {
                    Err(BlobError::SerializationError(String::new()))
                }
            },
            None => Err(BlobError::SerializationError(String::new())),
        },
        Ok(None) => Err(BlobError::BlobNotFound(crate::digest::DigestExt::to_hex_string(&contenthash))),
        Err(m) => Err(BlobError::DatabaseError(m)),
    }
}

/// Content addressing: recording a blob under a digest it is already
/// stored at leaves the store exactly as one record per content.
pub proof fn lemma_blob_record_idempotent(m: Map<Seq<u8>, Seq<u8>>, b: Blob)
    ensures
        m.insert(spec_blob_key(b.contenthash), spec_enc_blob(b)).insert(
            spec_blob_key(b.contenthash),
            spec_enc_blob(b),
        ) == m.insert(spec_blob_key(b.contenthash), spec_enc_blob(b)),
{
    let m1 = m.insert(spec_blob_key(b.contenthash), spec_enc_blob(b));
    assert(m1.insert(spec_blob_key(b.contenthash), spec_enc_blob(b)) =~= m1);
}

} // verus!
