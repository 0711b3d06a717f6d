use vstd::prelude::*;
use cosmwasm_std::MemoryStorage;
use crate::bucket::{byte_strings, opt_bytes, table_ids, Bucket, ReadonlyBucket};
use crate::error::StateError;
use crate::namespace::{length_prefixed, nested_prefix, MAX_COMPONENT_LEN};
use crate::page::{is_page, page};
use crate::store::stored;
use crate::swap::AtomicSwap;

verus! {

/// Namespace of the table of swaps, keyed by swap id: `atomic_swap`.
pub const PREFIX_SWAP: [u8; 11] = [97, 116, 111, 109, 105, 99, 95, 115, 119, 97, 112];

/// Namespace of the index of swap ids by recipient: `asri`.
pub const RECIPIENT_INDEX: [u8; 4] = [97, 115, 114, 105];

/// The value of every recipient index entry; only its presence matters.
pub const MARKER_VALUE: u64 = 0;

/// Raw key prefix of the swap table.
pub open spec fn swaps_prefix() -> Seq<u8> {
    length_prefixed(PREFIX_SWAP@)
}

/// Raw key prefix of the index entries of one recipient.
pub open spec fn recipient_prefix(recipient: Seq<u8>) -> Seq<u8> {
    nested_prefix(seq![RECIPIENT_INDEX@, recipient])
}

/// The ids of all stored swaps.
pub open spec fn swap_ids(raw: Map<Seq<u8>, Seq<u8>>) -> Set<Seq<u8>> {
    table_ids(raw, swaps_prefix())
}

/// The ids the recipient index lists under `recipient`.
pub open spec fn recipient_ids(raw: Map<Seq<u8>, Seq<u8>>, recipient: Seq<u8>) -> Set<Seq<u8>> {
    table_ids(raw, recipient_prefix(recipient))
}

/// The store after the swap `record` of `recipient` is created under `key`:
/// the swap row, then the index entry holding `marker`.
pub open spec fn created(
    raw: Map<Seq<u8>, Seq<u8>>,
    key: Seq<u8>,
    recipient: Seq<u8>,
    record: Seq<u8>,
    marker: Seq<u8>,
) -> Map<Seq<u8>, Seq<u8>> {
    raw.insert(swaps_prefix() + key, record).insert(recipient_prefix(recipient) + key, marker)
}

/// What `cosmwasm_std::to_json_vec` gives for an integer.
pub uninterp spec fn json_of_u64(n: u64) -> Option<Seq<u8>>;

/// Relies on `cosmwasm_std::to_json_vec`: the JSON encoding of `n`, a
/// function of `n` alone, or an error.
#[verifier::external_body]
fn encode_u64(n: u64) -> (r: Option<Vec<u8>>)
    ensures
        match r {
            Some(v) => json_of_u64(n) == Some(v@),
            None => json_of_u64(n) is None,
        },
{
    cosmwasm_std::to_json_vec(&n).ok()
}

/// What `String::from_utf8` gives for a byte string: its characters, or
/// nothing when it is not valid UTF-8.
pub uninterp spec fn utf8_text(b: Seq<u8>) -> Option<Seq<char>>;

/// Relies on `String::from_utf8`: the text of `b` when it is valid UTF-8.
#[verifier::external_body]
fn decode_utf8(b: Vec<u8>) -> (r: Option<String>)
    ensures
        match r {
            Some(s) => utf8_text(b@) == Some(s@),
            None => utf8_text(b@) is None,
        },
{
    String::from_utf8(b).ok()
}

/// The index entry marker in its stored form, when it encodes to a value
/// the store accepts.
pub open spec fn marker_ok() -> bool {
    json_of_u64(MARKER_VALUE) matches Some(m) && m.len() > 0
}

/// Creates the swap `a` under `key`: its row in the swap table, holding its
/// encoded form `record`, and the entry `(a.recipient, key)` of the recipient
/// index. Every check comes before the first write, so a refused swap leaves
/// the store as it was.
pub fn create_atomic_swap(
    storage: &mut MemoryStorage,
    key: &[u8],
    a: &AtomicSwap,
    record: &[u8],
) -> (r: Result<(), StateError>)
    ensures
        r is Ok <==> record@.len() > 0 && a.recipient@.len() <= MAX_COMPONENT_LEN && marker_ok(),
        r is Ok ==> stored(*final(storage)) == created(
            stored(*old(storage)),
            key@,
            a.recipient@,
            record@,
            json_of_u64(MARKER_VALUE)->0,
        ),
        r is Err ==> r == Err::<(), StateError>(StateError::WriteRejected) && stored(
            *final(storage),
        ) == stored(*old(storage)),
{
    if record.len() == 0 || a.recipient.len() > MAX_COMPONENT_LEN {
        return Err(StateError::WriteRejected);
    }
    let marker = match encode_u64(MARKER_VALUE) {
        Some(m) => m,
        None => return Err(StateError::WriteRejected),
    };
    if marker.len() == 0 {
        return Err(StateError::WriteRejected);
    }
    atomic_swaps().save(storage, key, record)?;
    atomic_swaps_recipient_index(a.recipient.as_slice()).save(storage, key, marker.as_slice())?;
    Ok(())
}

/// The recipient index of `rec`: ids of the swaps that `rec` may claim.
pub fn atomic_swaps_recipient_index(rec: &[u8]) -> (r: Bucket)
    requires
        rec@.len() <= MAX_COMPONENT_LEN,
    ensures
        r@ == recipient_prefix(rec@),
{
    let namespaces: [&[u8]; 2] = [&RECIPIENT_INDEX, rec];
    let r = Bucket::multilevel(namespaces.as_slice());
    assert(namespaces@.map_values(|c: &[u8]| c@) =~= seq![RECIPIENT_INDEX@, rec@]);
    r
}

/// The table of all swaps, by id.
pub fn atomic_swaps() -> (r: Bucket)
    ensures
        r@ == swaps_prefix(),
{
    Bucket::new(&PREFIX_SWAP)
}

/// The table of all swaps, by id, for queries.
pub fn atomic_swaps_read() -> (r: ReadonlyBucket)
    ensures
        r@ == swaps_prefix(),
{
    ReadonlyBucket::new(&PREFIX_SWAP)
}

/// The bytes of an optional byte vector.
pub open spec fn opt_vec_bytes(o: Option<Vec<u8>>) -> Option<Seq<u8>> {
    match o {
        Some(v) => Some(v@),
        None => None,
    }
}

/// The ids of the stored swaps as text, in ascending byte order, strictly
/// after `start` when it is given, at most `limit` of them. Fails with
/// `InvalidUtf8` when one of those ids is not valid UTF-8.
pub fn all_swap_ids(storage: &MemoryStorage, start: Option<Vec<u8>>, limit: usize) -> (r: Result<
    Vec<String>,
    StateError,
>)
    ensures
        is_page(
            page(swap_ids(stored(*storage)), opt_vec_bytes(start), limit as nat),
            swap_ids(stored(*storage)),
            opt_vec_bytes(start),
            limit as nat,
        ),
        ({
            let ids = page(swap_ids(stored(*storage)), opt_vec_bytes(start), limit as nat);
            match r {
                Ok(v) => v@.len() == ids.len() && forall|i: int|
                    0 <= i < ids.len() ==> utf8_text(#[trigger] ids[i]) == Some(v@[i]@),
                Err(e) => e == StateError::InvalidUtf8 && exists|i: int|
                    0 <= i < ids.len() && utf8_text(#[trigger] ids[i]) is None,
            }
        }),
        swap_ids(stored(*storage)).is_empty() ==> (r matches Ok(v) && v@.len() == 0),
{
    let from: Option<&[u8]> = match &start {
        Some(s) => Some(s.as_slice()),
        None => None,
    };
    assert(opt_bytes(from) == opt_vec_bytes(start));
    let keys = atomic_swaps_read().keys(storage, from, limit);
    let ghost ids = byte_strings(keys@);
    let ghost all = swap_ids(stored(*storage));
    let mut out: Vec<String> = Vec::new();
    let mut i: usize = 0;
    while i < keys.len()
        invariant
            ids == byte_strings(keys@),
            all == swap_ids(stored(*storage)),
            ids == page(all, opt_vec_bytes(start), limit as nat),
            is_page(ids, all, opt_vec_bytes(start), limit as nat),
            i <= keys@.len(),
            out@.len() == i,
            forall|j: int| 0 <= j < i ==> utf8_text(#[trigger] ids[j]) == Some(out@[j]@),
        decreases keys@.len() - i,
    {
        let k = keys[i].clone();
        assert(k@ == ids[i as int]);
        match decode_utf8(k) {
            Some(s) => out.push(s),
            None => return Err(StateError::InvalidUtf8),
        }
        i = i + 1;
    }
    proof {
        if swap_ids(stored(*storage)).is_empty() {
            if ids.len() > 0 {
                assert(swap_ids(stored(*storage)).contains(ids[0]));
            }
        }
    }
    Ok(out)
}

} // verus!
