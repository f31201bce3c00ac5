use vstd::prelude::*;

verus! {

#[verifier::external_type_specification]
#[verifier::external_body]
pub struct ExDb(sled::Db);

#[verifier::external_type_specification]
#[verifier::external_body]
pub struct ExSledError(sled::Error);

/// What the key-value store holds: a map from key bytes to value bytes.
pub uninterp spec fn kv_view(db: sled::Db) -> Map<Seq<u8>, Seq<u8>>;

/// Relies on sled::Tree::get (reached through sled::Db): returns the value
/// stored at the key, None when the key is absent, Err on backend failure.
#[verifier::external_body]
pub(crate) fn kv_get(db: &sled::Db, key: &[u8]) -> (r: Result<Option<Vec<u8>>, sled::Error>)
    ensures
        match r {
            Ok(Some(v)) => kv_view(*db).contains_key(key@) && kv_view(*db)[key@] == v@,
            Ok(None) => !kv_view(*db).contains_key(key@),
            Err(_) => true,
        },
{
    match db.get(key) {
        Ok(Some(iv)) => Ok(Some(iv.to_vec())),
        Ok(None) => Ok(None),
        Err(e) => Err(e),
    }
}

/// Relies on sled::Tree::insert (reached through sled::Db): maps the key to
/// the value, replacing any previous value; Err on backend failure, in which
/// case nothing is assumed about the contents.
#[verifier::external_body]
pub(crate) fn kv_insert(db: &mut sled::Db, key: &[u8], value: &[u8]) -> (r: Result<
    (),
    sled::Error,
>)
    ensures
        r is Ok ==> kv_view(*final(db)) == kv_view(*old(db)).insert(key@, value@),
{
    match db.insert(key, value) {
        Ok(_) => Ok(()),
        Err(e) => Err(e),
    }
}

/// Relies on sled::Tree::flush (reached through sled::Db): forces dirty
/// buffers to disk; the logical contents do not change.
#[verifier::external_body]
pub(crate) fn kv_flush(db: &mut sled::Db) -> (r: Result<(), sled::Error>)
    ensures
        kv_view(*final(db)) == kv_view(*old(db)),
{
    match db.flush() {
        Ok(_) => Ok(()),
        Err(e) => Err(e),
    }
}

} // verus!
