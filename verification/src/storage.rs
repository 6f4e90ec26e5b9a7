//! The durable key-value store behind the sync layer: a Bitcask-style
//! engine, held to a map model through trusted wrappers.

use vstd::prelude::*;

verus! {

#[verifier::external_type_specification]
#[verifier::external_body]
pub struct ExBitCask(bitcask_engine_rs::bitcask::BitCask);

/// Errors of the storage engine, one arm per engine error.
#[derive(Clone, Copy, Debug, PartialEq, Eq, Structural)]
pub enum StorageError {
    KeyExists,
    KeyNotFound,
    Io,
    Corrupted,
    Other,
}

/// A storage fault (disk or log corruption), as opposed to an unmet
/// `NX`/`XX` condition.
pub open spec fn is_fault(e: StorageError) -> bool {
    e matches StorageError::Io || e matches StorageError::Corrupted || e
        matches StorageError::Other
}

/// The key-value contents that the engine currently answers reads from:
/// keys whose newest index entry is not a tombstone, each with the value
/// its log entry holds.
pub uninterp spec fn store_view(b: bitcask_engine_rs::bitcask::BitCask) -> Map<Seq<u8>, Seq<u8>>;

/// Relies on `BitCask::get` (through `KVStorage`): the in-memory index is
/// consulted; an absent or tombstoned key answers `None`; a present key
/// answers its stored value, or `None` if the disk read fails.
#[verifier::external_body]
pub fn store_get(b: &bitcask_engine_rs::bitcask::BitCask, key: &Vec<u8>) -> (r: Option<Vec<u8>>)
    ensures
        r matches Option::Some(v) ==> store_view(*b).contains_key(key@) && v@ == store_view(
            *b,
        )[key@],
        !store_view(*b).contains_key(key@) ==> r is None,
{
    bitcask_engine_rs::bitcask::KVStorage::get(b, key)
}

/// Relies on `BitCask::put_with_option`: with `nx` and a present key it
/// refuses with `KeyExists`; with `xx` alone and an absent key it refuses
/// with `KeyNotFound`; otherwise it appends to the log and updates the
/// index, failing only on a storage fault, in which case the index is left
/// as it was.
#[verifier::external_body]
pub fn store_put(
    b: &mut bitcask_engine_rs::bitcask::BitCask,
    key: &Vec<u8>,
    value: &Vec<u8>,
    nx: bool,
    xx: bool,
) -> (r: Result<(), StorageError>)
    ensures
        ({
            let m0 = store_view(*old(b));
            let m1 = store_view(*final(b));
            match r {
                Result::Ok(_) => m1 == m0.insert(key@, value@) && (nx ==> !m0.contains_key(key@))
                    && (!nx && xx ==> m0.contains_key(key@)),
                Result::Err(e) => m1 == m0 && (if nx && m0.contains_key(key@) {
                    e == StorageError::KeyExists
                } else if !nx && xx && !m0.contains_key(key@) {
                    e == StorageError::KeyNotFound
                } else {
                    is_fault(e)
                }),
            }
        }),
        nx && store_view(*old(b)).contains_key(key@) ==> r is Err,
        !nx && xx && !store_view(*old(b)).contains_key(key@) ==> r is Err,
{
    let option = Some(bitcask_engine_rs::bitcask::PutOption { nx, xx });
    match bitcask_engine_rs::bitcask::KVStorage::put_with_option(b, key, value, option) {
        Ok(()) => Ok(()),
        Err(bitcask_engine_rs::error::BitCaskError::KeyExists) => Err(StorageError::KeyExists),
        Err(bitcask_engine_rs::error::BitCaskError::KeyNotFound) => Err(StorageError::KeyNotFound),
        Err(bitcask_engine_rs::error::BitCaskError::IoError(_)) => Err(StorageError::Io),
        Err(bitcask_engine_rs::error::BitCaskError::CorruptedData(_)) => Err(
            StorageError::Corrupted,
        ),
        Err(bitcask_engine_rs::error::BitCaskError::UnexpectedError(_)) => Err(StorageError::Other),
    }
}

/// Relies on `BitCask::delete`: a tombstone is appended to the log and the
/// index updated, so reads of the key answer `None`; deleting an absent key
/// succeeds the same way. It fails only on a storage fault, leaving the
/// index as it was.
#[verifier::external_body]
pub fn store_delete(b: &mut bitcask_engine_rs::bitcask::BitCask, key: &Vec<u8>) -> (r: Result<
    (),
    StorageError,
>)
    ensures
        match r {
            Result::Ok(_) => store_view(*final(b)) == store_view(*old(b)).remove(key@),
            Result::Err(e) => store_view(*final(b)) == store_view(*old(b)) && is_fault(e),
        },
{
    match bitcask_engine_rs::bitcask::KVStorage::delete(b, key) {
        Ok(()) => Ok(()),
        Err(bitcask_engine_rs::error::BitCaskError::KeyExists) => Err(StorageError::KeyExists),
        Err(bitcask_engine_rs::error::BitCaskError::KeyNotFound) => Err(StorageError::KeyNotFound),
        Err(bitcask_engine_rs::error::BitCaskError::IoError(_)) => Err(StorageError::Io),
        Err(bitcask_engine_rs::error::BitCaskError::CorruptedData(_)) => Err(
            StorageError::Corrupted,
        ),
        Err(bitcask_engine_rs::error::BitCaskError::UnexpectedError(_)) => Err(StorageError::Other),
    }
}

} // verus!
