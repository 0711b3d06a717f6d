use vstd::prelude::*;
use cosmwasm_std::MemoryStorage;
use crate::bytes::{concat, starts_with, suffix};
use crate::error::StateError;
use crate::namespace::{
    length_prefixed, nested_prefix, to_length_prefixed, to_length_prefixed_nested,
    MAX_COMPONENT_LEN,
};
use crate::order::{
    lemma_lex_asymmetric, lemma_lex_common_prefix, lemma_lex_past_prefix, lemma_lex_successor,
    lemma_lex_transitive, lemma_prefix_cancel, lex_le, lex_lt,
};
use crate::page::{after, is_page, lemma_page_is_page, page};
use crate::store::{stored, storage_first_from, storage_get, storage_set};

verus! {

/// The ids of a table: the raw keys under `prefix`, with the prefix taken off.
pub open spec fn table_ids(raw: Map<Seq<u8>, Seq<u8>>, prefix: Seq<u8>) -> Set<Seq<u8>> {
    Set::new(|id: Seq<u8>| raw.contains_key(prefix + id))
}

/// The value a table holds under `id`.
pub open spec fn table_get(raw: Map<Seq<u8>, Seq<u8>>, prefix: Seq<u8>, id: Seq<u8>) -> Option<
    Seq<u8>,
> {
    if raw.contains_key(prefix + id) {
        Some(raw[prefix + id])
    } else {
        None
    }
}

/// The byte strings of a list of byte vectors.
pub open spec fn byte_strings(v: Seq<Vec<u8>>) -> Seq<Seq<u8>> {
    v.map_values(|b: Vec<u8>| b@)
}

/// The bytes of an optional byte slice.
pub open spec fn opt_bytes(o: Option<&[u8]>) -> Option<Seq<u8>> {
    match o {
        Some(s) => Some(s@),
        None => None,
    }
}

/// The least id suffix a scan that resumes after `lo` starts from.
spec fn scan_lower(lo: Option<Seq<u8>>) -> Seq<u8> {
    match lo {
        Some(x) => x.push(0),
        None => Seq::empty(),
    }
}

/// A table of byte values under a namespace of a shared store.
pub struct Bucket {
    prefix: Vec<u8>,
}

/// A table under a namespace of a shared store, offering only reads.
pub struct ReadonlyBucket {
    prefix: Vec<u8>,
}

impl View for Bucket {
    type V = Seq<u8>;

    /// The raw key prefix of the table.
    closed spec fn view(&self) -> Seq<u8> {
        self.prefix@
    }
}

impl View for ReadonlyBucket {
    type V = Seq<u8>;

    /// The raw key prefix of the table.
    closed spec fn view(&self) -> Seq<u8> {
        self.prefix@
    }
}

/// Resuming after `lo` is the same as scanning raw keys from `p + scan_lower(lo)`.
proof fn lemma_scan_bound(p: Seq<u8>, lo: Option<Seq<u8>>, k: Seq<u8>)
    ensures
        after(lo, k) == lex_le(p + scan_lower(lo), p + k),
{
    let l = scan_lower(lo);
    lemma_lex_common_prefix(p, l, k);
    if p + l == p + k {
        lemma_prefix_cancel(p, l, k);
    }
    match lo {
        Some(x) => {
            lemma_lex_successor(x, k);
        },
        None => {
            if l != k {
                assert(lex_lt(l, k));
            }
        },
    }
}

fn load_at(prefix: &Vec<u8>, storage: &MemoryStorage, key: &[u8]) -> (r: Result<Vec<u8>, StateError>)
    ensures
        match r {
            Ok(v) => table_get(stored(*storage), prefix@, key@) == Some(v@),
            Err(e) => e == StateError::NotFound && table_get(stored(*storage), prefix@, key@)
                is None,
        },
{
    let raw_key = concat(prefix.as_slice(), key);
    match storage_get(storage, raw_key.as_slice()) {
        Some(v) => Ok(v),
        None => Err(StateError::NotFound),
    }
}

fn keys_at(prefix: &Vec<u8>, storage: &MemoryStorage, start: Option<&[u8]>, limit: usize) -> (r: Vec<
    Vec<u8>,
>)
    ensures
        is_page(byte_strings(r@), table_ids(stored(*storage), prefix@), opt_bytes(start), limit as nat),
{
    let ghost raw = stored(*storage);
    let ghost p = prefix@;
    let ghost ids = table_ids(raw, p);
    let ghost st = opt_bytes(start);
    let mut from: Vec<u8> = match start {
        Some(s) => {
            let mut f = concat(prefix.as_slice(), s);
            f.push(0);
            f
        },
        None => concat(prefix.as_slice(), &[]),
    };
    assert(from@ =~= p + scan_lower(st));
    let mut out: Vec<Vec<u8>> = Vec::new();
    let ghost mut lo: Option<Seq<u8>> = st;
    let mut done = false;
    while !done && out.len() < limit
        invariant
            raw == stored(*storage),
            p == prefix@,
            ids == table_ids(raw, p),
            from@ == p + scan_lower(lo),
            out@.len() <= limit,
            forall|i: int|
                0 <= i < out@.len() ==> ids.contains(#[trigger] byte_strings(out@)[i]) && after(
                    st,
                    byte_strings(out@)[i],
                ),
            forall|i: int, j: int|
                0 <= i < j < out@.len() ==> lex_lt(
                    #[trigger] byte_strings(out@)[i],
                    #[trigger] byte_strings(out@)[j],
                ),
            out@.len() == 0 ==> lo == st,
            out@.len() > 0 ==> lo == Some(byte_strings(out@).last()),
            forall|k: Seq<u8>|
                ids.contains(k) && after(st, k) && !after(lo, k) ==> #[trigger] byte_strings(
                    out@,
                ).contains(k),
            done ==> forall|k: Seq<u8>| ids.contains(k) ==> !after(lo, k),
        decreases limit - out@.len() + (if done {
            0int
        } else {
            1int
        }),
    {
        let found = storage_first_from(storage, from.as_slice());
        match found {
            None => {
                assert forall|k: Seq<u8>| ids.contains(k) implies !after(lo, k) by {
                    lemma_scan_bound(p, lo, k);
                    assert(raw.contains_key(p + k));
                }
                done = true;
            },
            Some(k0) => {
                if starts_with(k0.as_slice(), prefix.as_slice()) {
                    let id = suffix(k0.as_slice(), prefix.len());
                    proof {
                        assert(k0@ =~= p + id@);
                        assert(ids.contains(id@));
                        lemma_scan_bound(p, lo, id@);
                        if out@.len() > 0 {
                            assert(lex_lt(byte_strings(out@).last(), id@));
                        }
                        if let Some(s) = st {
                            if out@.len() > 0 {
                                assert(after(st, byte_strings(out@).last()));
                                lemma_lex_transitive(s, byte_strings(out@).last(), id@);
                            }
                        }
                    }
                    let ghost old_out = byte_strings(out@);
                    let ghost old_lo = lo;
                    out.push(id);
                    proof {
                        lo = Some(id@);
                        assert(byte_strings(out@) =~= old_out.push(id@));
                        assert forall|i: int, j: int|
                            0 <= i < j < out@.len() implies lex_lt(
                            #[trigger] byte_strings(out@)[i],
                            #[trigger] byte_strings(out@)[j],
                        ) by {
                            if j == out@.len() - 1 && i < j - 1 {
                                lemma_lex_transitive(old_out[i], old_out.last(), id@);
                            }
                        }
                        assert forall|k: Seq<u8>|
                            ids.contains(k) && after(st, k) && !after(
                                lo,
                                k,
                            ) implies #[trigger] byte_strings(out@).contains(k) by {
                            if after(old_lo, k) {
                                lemma_scan_bound(p, old_lo, k);
                                assert(raw.contains_key(p + k));
                                assert(lex_le(k0@, p + k));
                                lemma_lex_common_prefix(p, id@, k);
                                if k != id@ {
                                    lemma_lex_asymmetric(id@, k);
                                    if p + id@ == p + k {
                                        lemma_prefix_cancel(p, id@, k);
                                    }
                                }
                                assert(k == id@);
                                assert(byte_strings(out@)[out@.len() - 1] == k);
                            } else {
                                assert(old_out.contains(k));
                                let j = choose|j: int| 0 <= j < old_out.len() && old_out[j] == k;
                                assert(byte_strings(out@)[j] == k);
                            }
                        }
                    }
                    from = k0;
                    from.push(0);
                    assert(from@ =~= p + scan_lower(lo));
                } else {
                    assert forall|k: Seq<u8>| ids.contains(k) implies !after(lo, k) by {
                        if after(lo, k) {
                            lemma_scan_bound(p, lo, k);
                            assert(raw.contains_key(p + k));
                            lemma_lex_past_prefix(p, scan_lower(lo), k0@, k);
                            lemma_lex_asymmetric(p + k, k0@);
                        }
                    }
                    done = true;
                }
            },
        }
    }
    proof {
        let o = byte_strings(out@);
        assert forall|k: Seq<u8>|
            #![trigger ids.contains(k), o.contains(k)]
            ids.contains(k) && after(st, k) && !o.contains(k) implies o.len() == limit && forall|
                i: int,
            |
                0 <= i < o.len() ==> lex_lt(#[trigger] o[i], k) by {
            assert(after(lo, k));
            assert forall|i: int| 0 <= i < o.len() implies lex_lt(#[trigger] o[i], k) by {
                if i < o.len() - 1 {
                    lemma_lex_transitive(o[i], o.last(), k);
                }
            }
        }
    }
    out
}

fn range_at(prefix: &Vec<u8>, storage: &MemoryStorage, start: Option<&[u8]>, limit: usize) -> (r: Vec<
    (Vec<u8>, Vec<u8>),
>)
    ensures
        ({
            let ids = page(table_ids(stored(*storage), prefix@), opt_bytes(start), limit as nat);
            &&& r@.len() == ids.len()
            &&& forall|i: int|
                0 <= i < r@.len() ==> (#[trigger] r@[i]).0@ == ids[i] && table_get(
                    stored(*storage),
                    prefix@,
                    ids[i],
                ) == Some(r@[i].1@)
        }),
{
    let ghost all = table_ids(stored(*storage), prefix@);
    let keys = keys_at(prefix, storage, start, limit);
    let ghost ids = byte_strings(keys@);
    proof {
        lemma_page_is_page(ids, all, opt_bytes(start), limit as nat);
    }
    let mut out: Vec<(Vec<u8>, Vec<u8>)> = Vec::new();
    let mut i: usize = 0;
    while i < keys.len()
        invariant
            all == table_ids(stored(*storage), prefix@),
            ids == byte_strings(keys@),
            is_page(ids, all, opt_bytes(start), limit as nat),
            i <= keys@.len(),
            out@.len() == i,
            forall|j: int|
                0 <= j < i ==> (#[trigger] out@[j]).0@ == ids[j] && table_get(
                    stored(*storage),
                    prefix@,
                    ids[j],
                ) == Some(out@[j].1@),
        decreases keys@.len() - i,
    {
        let id = keys[i].clone();
        assert(id@ == ids[i as int]);
        assert(all.contains(ids[i as int]));
        match load_at(prefix, storage, id.as_slice()) {
            Ok(v) => out.push((id, v)),
            Err(_) => {
                assert(false);
            },
        }
        i = i + 1;
    }
    out
}

impl Bucket {
    /// The table under a single-level namespace.
    pub fn new(namespace: &[u8]) -> (r: Bucket)
        requires
            namespace@.len() <= MAX_COMPONENT_LEN,
        ensures
            r@ == length_prefixed(namespace@),
    {
        Bucket { prefix: to_length_prefixed(namespace) }
    }

    /// The table under a nested namespace.
    pub fn multilevel(namespaces: &[&[u8]]) -> (r: Bucket)
        requires
            forall|i: int| 0 <= i < namespaces@.len() ==> (#[trigger] namespaces@[i])@.len() <= MAX_COMPONENT_LEN,
        ensures
            r@ == nested_prefix(namespaces@.map_values(|c: &[u8]| c@)),
    {
        Bucket { prefix: to_length_prefixed_nested(namespaces) }
    }

    /// Stores `value` under `key`, replacing any earlier value. An empty
    /// value is refused and leaves the store as it was.
    pub fn save(&self, storage: &mut MemoryStorage, key: &[u8], value: &[u8]) -> (r: Result<
        (),
        StateError,
    >)
        ensures
            r is Ok <==> value@.len() > 0,
            r is Ok ==> stored(*final(storage)) == stored(*old(storage)).insert(
                self@ + key@,
                value@,
            ),
            r is Err ==> r == Err::<(), StateError>(StateError::WriteRejected) && stored(
                *final(storage),
            ) == stored(*old(storage)),
    {
        if value.len() == 0 {
            return Err(StateError::WriteRejected);
        }
        let raw_key = concat(self.prefix.as_slice(), key);
        storage_set(storage, raw_key.as_slice(), value);
        Ok(())
    }

    /// The value stored under `key`, or `NotFound`.
    pub fn load(&self, storage: &MemoryStorage, key: &[u8]) -> (r: Result<Vec<u8>, StateError>)
        ensures
            match r {
                Ok(v) => table_get(stored(*storage), self@, key@) == Some(v@),
                Err(e) => e == StateError::NotFound && table_get(stored(*storage), self@, key@)
                    is None,
            },
    {
        load_at(&self.prefix, storage, key)
    }

    /// The ids of the table in ascending byte order, strictly after `start`
    /// when it is given, at most `limit` of them.
    pub fn keys(&self, storage: &MemoryStorage, start: Option<&[u8]>, limit: usize) -> (r: Vec<
        Vec<u8>,
    >)
        ensures
            is_page(byte_strings(r@), table_ids(stored(*storage), self@), opt_bytes(start), limit as nat),
            byte_strings(r@) == page(table_ids(stored(*storage), self@), opt_bytes(start), limit as nat),
    {
        let r = keys_at(&self.prefix, storage, start, limit);
        proof {
            lemma_page_is_page(byte_strings(r@), table_ids(stored(*storage), self@), opt_bytes(start), limit as nat);
        }
        r
    }

    /// The ids of the table with their values, in ascending byte order of
    /// id, strictly after `start` when it is given, at most `limit` of them.
    pub fn range(&self, storage: &MemoryStorage, start: Option<&[u8]>, limit: usize) -> (r: Vec<
        (Vec<u8>, Vec<u8>),
    >)
        ensures
            ({
                let ids = page(table_ids(stored(*storage), self@), opt_bytes(start), limit as nat);
                &&& r@.len() == ids.len()
                &&& forall|i: int|
                    0 <= i < r@.len() ==> (#[trigger] r@[i]).0@ == ids[i] && table_get(
                        stored(*storage),
                        self@,
                        ids[i],
                    ) == Some(r@[i].1@)
            }),
    {
        range_at(&self.prefix, storage, start, limit)
    }
}

impl ReadonlyBucket {
    /// The read-only table under a single-level namespace.
    pub fn new(namespace: &[u8]) -> (r: ReadonlyBucket)
        requires
            namespace@.len() <= MAX_COMPONENT_LEN,
        ensures
            r@ == length_prefixed(namespace@),
    {
        ReadonlyBucket { prefix: to_length_prefixed(namespace) }
    }

    /// The value stored under `key`, or `NotFound`.
    pub fn load(&self, storage: &MemoryStorage, key: &[u8]) -> (r: Result<Vec<u8>, StateError>)
        ensures
            match r {
                Ok(v) => table_get(stored(*storage), self@, key@) == Some(v@),
                Err(e) => e == StateError::NotFound && table_get(stored(*storage), self@, key@)
                    is None,
            },
    {
        load_at(&self.prefix, storage, key)
    }

    /// The ids of the table in ascending byte order, strictly after `start`
    /// when it is given, at most `limit` of them.
    pub fn keys(&self, storage: &MemoryStorage, start: Option<&[u8]>, limit: usize) -> (r: Vec<
        Vec<u8>,
    >)
        ensures
            is_page(byte_strings(r@), table_ids(stored(*storage), self@), opt_bytes(start), limit as nat),
            byte_strings(r@) == page(table_ids(stored(*storage), self@), opt_bytes(start), limit as nat),
    {
        let r = keys_at(&self.prefix, storage, start, limit);
        proof {
            lemma_page_is_page(byte_strings(r@), table_ids(stored(*storage), self@), opt_bytes(start), limit as nat);
        }
        r
    }

    /// The ids of the table with their values, in ascending byte order of
    /// id, strictly after `start` when it is given, at most `limit` of them.
    pub fn range(&self, storage: &MemoryStorage, start: Option<&[u8]>, limit: usize) -> (r: Vec<
        (Vec<u8>, Vec<u8>),
    >)
        ensures
            ({
                let ids = page(table_ids(stored(*storage), self@), opt_bytes(start), limit as nat);
                &&& r@.len() == ids.len()
                &&& forall|i: int|
                    0 <= i < r@.len() ==> (#[trigger] r@[i]).0@ == ids[i] && table_get(
                        stored(*storage),
                        self@,
                        ids[i],
                    ) == Some(r@[i].1@)
            }),
    {
        range_at(&self.prefix, storage, start, limit)
    }
}

} // verus!
