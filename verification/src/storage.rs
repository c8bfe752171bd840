//! The per-node durable key-value engine, an external collaborator: sled's
//! handle is carried opaquely, and every call into it goes through a trusted
//! wrapper. Nothing is promised of the engine's state, so each wrapper only
//! reports which way the call went; the verified logic decides from there.

use vstd::prelude::*;

verus! {

/// sled's storage-engine handle, opaque to verification.
#[verifier::external_type_specification]
#[verifier::external_body]
pub struct ExDb(sled::Db);

/// The outcome of reading one key from a node's storage engine.
pub enum StorageProbe {
    /// The key is present, with these value bytes.
    Present(Vec<u8>),
    /// The key is absent.
    Absent,
    /// The engine reported an error.
    Failed,
}

/// Relies on sled's `Tree::get`: reads the value stored for a key. The result
/// depends on the engine's on-disk state, so nothing is promised of which
/// variant comes back.
#[verifier::external_body]
pub(crate) fn db_get(db: &sled::Db, key: &str) -> StorageProbe {
    match db.get(key.as_bytes()) {
        Ok(Some(v)) => StorageProbe::Present(v.to_vec()),
        Ok(None) => StorageProbe::Absent,
        Err(_) => StorageProbe::Failed,
    }
}

/// Relies on sled's `Tree::insert`: stores a value under a key, reporting
/// whether the engine accepted the write.
#[verifier::external_body]
pub(crate) fn db_insert(db: &sled::Db, key: &str, value: &str) -> bool {
    db.insert(key.as_bytes(), value.as_bytes()).is_ok()
}

/// Relies on sled's `Tree::remove`: deletes a key, reporting whether the
/// engine accepted the removal.
#[verifier::external_body]
pub(crate) fn db_remove(db: &sled::Db, key: &str) -> bool {
    db.remove(key.as_bytes()).is_ok()
}

/// Relies on sled's `Tree::flush`: forces outstanding writes to stable
/// storage, reporting whether the sync succeeded.
#[verifier::external_body]
pub(crate) fn db_flush(db: &sled::Db) -> bool {
    db.flush().is_ok()
}

/// Relies on `String::from_utf8`: decodes value bytes as UTF-8; `Some`
/// exactly when the bytes are valid UTF-8, and then the decoded characters.
#[verifier::external_body]
pub(crate) fn bytes_to_string(b: Vec<u8>) -> (r: Option<String>)
    ensures
        r is Some <==> vstd::utf8::valid_utf8(b@),
        r matches Some(s) ==> s@ == vstd::utf8::decode_utf8(b@),
{
    String::from_utf8(b).ok()
}

} // verus!
