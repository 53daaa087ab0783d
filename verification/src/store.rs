//! Trusted boundary around the embedded key/value store (sled).
//!
//! A database handle is modelled by two abstract maps: `db_kv`, the
//! key/value map of its default keyspace, and `db_tree_kv`, the map of a
//! named keyspace.  Every wrapper states its effect over those maps;
//! everything above this module is verified against these contracts.

use vstd::prelude::*;

verus! {

#[verifier::external_type_specification]
#[verifier::external_body]
pub struct ExSledDb(sled::Db);

/// What a database's default keyspace holds.
pub uninterp spec fn db_kv(db: sled::Db) -> Map<Seq<u8>, Seq<u8>>;

/// What a database's named keyspace holds.
pub uninterp spec fn db_tree_kv(db: sled::Db, name: Seq<char>) -> Map<Seq<u8>, Seq<u8>>;

/// The keyspace name sled reserves for the default keyspace: opening a
/// keyspace under this name returns the default one, so the named-keyspace
/// wrappers refuse it and the frame clauses leave it out.
pub open spec fn sled_reserved_name() -> Seq<char> {
    "__sled__default"@
}

/// Relies on `sled::open`: opens the database at `path`, creating the
/// storage directory on demand.  Nothing is known of the contents, which
/// come from disk.
#[verifier::external_body]
pub(crate) fn open_db(path: &str) -> (r: Result<sled::Db, String>)
{
    sled::open(path).map_err(|e| format!("{}", e))
}

/// Relies on `sled::Tree::get` through the handle's default keyspace:
/// returns the value stored at `key`, if any.
#[verifier::external_body]
pub(crate) fn db_get(db: &sled::Db, key: &[u8]) -> (r: Result<Option<Vec<u8>>, String>)
    ensures
        match r {
            Ok(Some(v)) => db_kv(*db).contains_key(key@) && v@ == db_kv(*db)[key@],
            Ok(None) => !db_kv(*db).contains_key(key@),
            Err(_) => true,
        },
{
    match db.get(key) {
        Ok(Some(ivec)) => Ok(Some(ivec.to_vec())),
        Ok(None) => Ok(None),
        Err(e) => Err(format!("{}", e)),
    }
}

/// Relies on `sled::Tree::contains_key` through the default keyspace.
#[verifier::external_body]
pub(crate) fn db_contains(db: &sled::Db, key: &[u8]) -> (r: Result<bool, String>)
    ensures
        match r {
            Ok(b) => b == db_kv(*db).contains_key(key@),
            Err(_) => true,
        },
{
    db.contains_key(key).map_err(|e| format!("{}", e))
}

/// Relies on `sled::Tree::insert` through the default keyspace: sets `key`
/// to `val`.  Named keyspaces are untouched.  On failure the default
/// keyspace's contents are unknown.
#[verifier::external_body]
pub(crate) fn db_insert(db: &mut sled::Db, key: &[u8], val: &[u8]) -> (r: Result<(), String>)
    ensures
        match r {
            Ok(()) => db_kv(*final(db)) == db_kv(*old(db)).insert(key@, val@),
            Err(_) => true,
        },
        forall|n: Seq<char>|
            n != sled_reserved_name() ==> #[trigger] db_tree_kv(*final(db), n) == db_tree_kv(
                *old(db),
                n,
            ),
{
    db.insert(key, val).map(|_| ()).map_err(|e| format!("{}", e))
}

/// Relies on `sled::Tree::compare_and_swap` with expected absence, through
/// the default keyspace: inserts `val` at `key` only if no value is stored
/// there; otherwise returns the value found and changes nothing.
#[verifier::external_body]
pub(crate) fn db_insert_if_absent(db: &mut sled::Db, key: &[u8], val: &[u8]) -> (r: Result<
    Result<(), Option<Vec<u8>>>,
    String,
>)
    ensures
        match r {
            Ok(Ok(())) => !db_kv(*old(db)).contains_key(key@) && db_kv(*final(db)) == db_kv(
                *old(db),
            ).insert(key@, val@),
            Ok(Err(cur)) => db_kv(*final(db)) == db_kv(*old(db)) && match cur {
                Some(v) => db_kv(*old(db)).contains_key(key@) && v@ == db_kv(*old(db))[key@],
                None => !db_kv(*old(db)).contains_key(key@),
            },
            Err(_) => true,
        },
        forall|n: Seq<char>|
            n != sled_reserved_name() ==> #[trigger] db_tree_kv(*final(db), n) == db_tree_kv(
                *old(db),
                n,
            ),
{
    match db.compare_and_swap(key, None as Option<&[u8]>, Some(val)) {
        Ok(Ok(())) => Ok(Ok(())),
        Ok(Err(cas)) => Ok(Err(cas.current.map(|ivec| ivec.to_vec()))),
        Err(e) => Err(format!("{}", e)),
    }
}

/// Relies on `sled::Tree::flush` through the default keyspace: forces
/// dirty data to disk.  Durability is outside the model; no contents
/// change.
#[verifier::external_body]
pub(crate) fn db_flush(db: &sled::Db) -> (r: Result<(), String>)
{
    db.flush().map(|_| ()).map_err(|e| format!("{}", e))
}

/// Relies on `sled::Tree::iter` through the default keyspace: yields every
/// key/value pair, each key once, in ascending key order.
#[verifier::external_body]
pub(crate) fn db_entries(db: &sled::Db) -> (r: Result<Vec<(Vec<u8>, Vec<u8>)>, String>)
    ensures
        match r {
            Ok(v) => {
                &&& forall|i: int|
                    0 <= i < v@.len() ==> db_kv(*db).contains_key(#[trigger] v@[i].0@) && v@[i].1@
                        == db_kv(*db)[v@[i].0@]
                &&& forall|k: Seq<u8>|
                    db_kv(*db).contains_key(k) ==> exists|i: int|
                        0 <= i < v@.len() && (#[trigger] v@[i].0@) == k
                &&& forall|i: int, j: int|
                    0 <= i < v@.len() && 0 <= j < v@.len() && i != j ==> (#[trigger] v@[i].0@) != (
                    #[trigger] v@[j].0@)
            },
            Err(_) => true,
        },
{
    let mut out = Vec::new();
    for item in db.iter() {
        match item {
            Ok((k, v)) => out.push((k.to_vec(), v.to_vec())),
            Err(e) => {
                return Err(format!("{}", e));
            },
        }
    }
    Ok(out)
}

/// Relies on `sled::Db::open_tree` and `sled::Tree::get`: returns the
/// value at `key` in the named keyspace, if any.
#[verifier::external_body]
pub(crate) fn db_tree_get(db: &sled::Db, name: &str, key: &[u8]) -> (r: Result<
    Option<Vec<u8>>,
    String,
>)
    requires
        name@ != sled_reserved_name(),
    ensures
        match r {
            Ok(Some(v)) => db_tree_kv(*db, name@).contains_key(key@) && v@ == db_tree_kv(
                *db,
                name@,
            )[key@],
            Ok(None) => !db_tree_kv(*db, name@).contains_key(key@),
            Err(_) => true,
        },
{
    let tree = db.open_tree(name).map_err(|e| format!("{}", e))?;
    match tree.get(key) {
        Ok(Some(ivec)) => Ok(Some(ivec.to_vec())),
        Ok(None) => Ok(None),
        Err(e) => Err(format!("{}", e)),
    }
}

/// Relies on `sled::Db::open_tree` and `sled::Tree::insert`: sets `key` to
/// `val` in the named keyspace.  Other keyspaces, named or default, are
/// untouched.  On failure the named keyspace's contents are unknown.
#[verifier::external_body]
pub(crate) fn db_tree_insert(db: &mut sled::Db, name: &str, key: &[u8], val: &[u8]) -> (r: Result<
    (),
    String,
>)
    requires
        name@ != sled_reserved_name(),
    ensures
        match r {
            Ok(()) => db_tree_kv(*final(db), name@) == db_tree_kv(*old(db), name@).insert(
                key@,
                val@,
            ),
            Err(_) => true,
        },
        forall|n: Seq<char>|
            n != name@ ==> #[trigger] db_tree_kv(*final(db), n) == db_tree_kv(*old(db), n),
        db_kv(*final(db)) == db_kv(*old(db)),
{
    let tree = db.open_tree(name).map_err(|e| format!("{}", e))?;
    tree.insert(key, val).map(|_| ()).map_err(|e| format!("{}", e))
}

/// Relies on `sled::Db::open_tree` and `sled::Tree::flush`: forces the
/// named keyspace's dirty data to disk.  No contents change.
#[verifier::external_body]
pub(crate) fn db_tree_flush(db: &sled::Db, name: &str) -> (r: Result<(), String>)
    requires
        name@ != sled_reserved_name(),
{
    let tree = db.open_tree(name).map_err(|e| format!("{}", e))?;
    tree.flush().map(|_| ()).map_err(|e| format!("{}", e))
}

} // verus!
