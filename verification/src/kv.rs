//! The persistent ordered key/value store the vault is built on, seen by the
//! proofs as a map from byte-string keys to byte-string values.

use vstd::prelude::*;
use crate::VaultError;

verus! {

#[verifier::external_type_specification]
#[verifier::external_body]
pub struct ExSledDb(sled::Db);

/// What the store holds: every present key mapped to its value.
pub uninterp spec fn kv_view(db: sled::Db) -> Map<Seq<u8>, Seq<u8>>;

/// `p` is a prefix of `k`.
pub open spec fn is_prefix_of(p: Seq<u8>, k: Seq<u8>) -> bool {
    p.len() <= k.len() && k.subrange(0, p.len() as int) == p
}

/// Relies on `sled::open`: opens (or creates) the store at `path`. What it
/// holds is whatever the directory held.
#[verifier::external_body]
pub(crate) fn kv_open(path: &str) -> (r: Result<sled::Db, VaultError>)
{
    sled::open(path).map_err(|e| VaultError::Storage(format!("{}", e)))
}

/// Relies on `sled::Config::temporary`: opens a fresh store in a temporary
/// directory, removed again when the handle is dropped; it starts empty.
#[verifier::external_body]
pub(crate) fn kv_open_temporary() -> (r: Result<sled::Db, VaultError>)
    ensures
        match r {
            Ok(db) => kv_view(db) == Map::<Seq<u8>, Seq<u8>>::empty(),
            Err(e) => e is Storage,
        },
{
    sled::Config::new().temporary(true).open().map_err(|e| VaultError::Storage(format!("{}", e)))
}

/// Relies on `sled::Tree::insert`: on success the store holds `value` under
/// `key` and is otherwise unchanged.
#[verifier::external_body]
pub(crate) fn kv_insert(db: &mut sled::Db, key: &[u8], value: &[u8]) -> (r: Result<
    (),
    VaultError,
>)
    ensures
        match r {
            Ok(_) => kv_view(*final(db)) == kv_view(*old(db)).insert(key@, value@),
            Err(e) => e is Storage,
        },
{
    db.insert(key, value).map(|_| ()).map_err(|e| VaultError::Storage(format!("{}", e)))
}

/// Relies on `sled::Tree::get`: returns the value stored under `key`, if any.
#[verifier::external_body]
pub(crate) fn kv_get(db: &sled::Db, key: &[u8]) -> (r: Result<Option<Vec<u8>>, VaultError>)
    ensures
        match r {
            Ok(Some(v)) => kv_view(*db).contains_key(key@) && v@ == kv_view(*db)[key@],
            Ok(None) => !kv_view(*db).contains_key(key@),
            Err(e) => e is Storage,
        },
{
    match db.get(key) {
        Ok(Some(v)) => Ok(Some(v.to_vec())),
        Ok(None) => Ok(None),
        Err(e) => Err(VaultError::Storage(format!("{}", e))),
    }
}

/// Relies on `sled::Tree::scan_prefix`: yields exactly the stored pairs whose
/// key starts with `prefix`, each key once, with its stored value. An empty
/// prefix yields the whole store.
#[verifier::external_body]
pub(crate) fn kv_scan_prefix(db: &sled::Db, prefix: &[u8]) -> (r: Result<
    Vec<(Vec<u8>, Vec<u8>)>,
    VaultError,
>)
    ensures
        match r {
            Ok(pairs) => {
                &&& forall|i: int|
                    0 <= i < pairs@.len() ==> {
                        &&& kv_view(*db).contains_key((#[trigger] pairs@[i]).0@)
                        &&& pairs@[i].1@ == kv_view(*db)[pairs@[i].0@]
                        &&& is_prefix_of(prefix@, pairs@[i].0@)
                    }
                &&& forall|k: Seq<u8>|
                    kv_view(*db).contains_key(k) && is_prefix_of(prefix@, k) ==> exists|i: int|
                        0 <= i < pairs@.len() && (#[trigger] pairs@[i]).0@ == k
                &&& forall|i: int, j: int|
                    0 <= i < pairs@.len() && 0 <= j < pairs@.len() && i != j ==> (
                    #[trigger] pairs@[i]).0@ != (#[trigger] pairs@[j]).0@
            },
            Err(e) => e is Storage,
        },
{
    db.scan_prefix(prefix)
        .map(|item| item.map(|(k, v)| (k.to_vec(), v.to_vec())))
        .collect::<Result<Vec<_>, _>>()
        .map_err(|e| VaultError::Storage(format!("{}", e)))
}

} // verus!
