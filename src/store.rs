use vstd::prelude::*;
use cosmwasm_std::{MemoryStorage, Order, Storage};
use crate::order::lex_le;

verus! {

#[verifier::external_type_specification]
#[verifier::external_body]
pub struct ExMemoryStorage(MemoryStorage);

/// What a `MemoryStorage` holds: each raw key with its value.
pub uninterp spec fn stored(s: MemoryStorage) -> Map<Seq<u8>, Seq<u8>>;

/// Relies on `Storage::get` of cosmwasm_std's `MemoryStorage`: a copy of the
/// value held under `key`, if any.
#[verifier::external_body]
pub(crate) fn storage_get(storage: &MemoryStorage, key: &[u8]) -> (r: Option<Vec<u8>>)
    ensures
        match r {
            Some(v) => stored(*storage).contains_key(key@) && v@ == stored(*storage)[key@],
            None => !stored(*storage).contains_key(key@),
        },
{
    storage.get(key)
}

/// Relies on `Storage::set` of cosmwasm_std's `MemoryStorage`: it puts
/// `value` under `key`, replacing what was there, and panics on an empty value.
#[verifier::external_body]
pub(crate) fn storage_set(storage: &mut MemoryStorage, key: &[u8], value: &[u8])
    requires
        value@.len() > 0,
    ensures
        stored(*final(storage)) == stored(*old(storage)).insert(key@, value@),
{
    storage.set(key, value)
}

/// Relies on `Storage::range` of cosmwasm_std's `MemoryStorage`, ascending and
/// without an end: its first item is the least key at or after `from` in the
/// byte order of `Vec<u8>`, if there is one.
#[verifier::external_body]
pub(crate) fn storage_first_from(storage: &MemoryStorage, from: &[u8]) -> (r: Option<Vec<u8>>)
    ensures
        match r {
            Some(k) => {
                &&& stored(*storage).contains_key(k@)
                &&& lex_le(from@, k@)
                &&& forall|k2: Seq<u8>|
                    stored(*storage).contains_key(k2) && lex_le(from@, k2) ==> lex_le(k@, k2)
            },
            None => forall|k2: Seq<u8>|
                stored(*storage).contains_key(k2) ==> !lex_le(from@, k2),
        },
{
    storage.range(Some(from), None, Order::Ascending).next().map(|(k, _)| k)
}

} // verus!
