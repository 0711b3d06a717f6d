use vstd::prelude::*;
use crate::bucket::table_get;
use crate::namespace::{length_prefixed, nested_prefix, MAX_COMPONENT_LEN};
use crate::order::lemma_prefix_cancel;
use crate::state::{
    created, recipient_ids, recipient_prefix, swap_ids, swaps_prefix, RECIPIENT_INDEX,
};

verus! {

/// The store after a sequence of creates, each given as (id, recipient, record).
pub open spec fn created_all(
    raw: Map<Seq<u8>, Seq<u8>>,
    swaps: Seq<(Seq<u8>, Seq<u8>, Seq<u8>)>,
    marker: Seq<u8>,
) -> Map<Seq<u8>, Seq<u8>>
    decreases swaps.len(),
{
    if swaps.len() == 0 {
        raw
    } else {
        let (key, recipient, record) = swaps.last();
        created(created_all(raw, swaps.drop_last(), marker), key, recipient, record, marker)
    }
}

proof fn lemma_recipient_prefix_shape(r: Seq<u8>)
    ensures
        recipient_prefix(r) == length_prefixed(RECIPIENT_INDEX@) + length_prefixed(r),
{
    let cs = seq![RECIPIENT_INDEX@, r];
    assert(cs.drop_last() =~= seq![RECIPIENT_INDEX@]);
    assert(seq![RECIPIENT_INDEX@].drop_last() =~= Seq::<Seq<u8>>::empty());
    assert(seq![RECIPIENT_INDEX@].last() == RECIPIENT_INDEX@);
    assert(cs.last() == r);
    assert(nested_prefix(Seq::<Seq<u8>>::empty()) == Seq::<u8>::empty());
    assert(nested_prefix(seq![RECIPIENT_INDEX@]) =~= length_prefixed(RECIPIENT_INDEX@));
}

/// No key of the swap table is a key of the recipient index.
proof fn lemma_tables_disjoint(x: Seq<u8>, r: Seq<u8>, y: Seq<u8>)
    ensures
        swaps_prefix() + x != recipient_prefix(r) + y,
{
    lemma_recipient_prefix_shape(r);
    assert((swaps_prefix() + x)[1] == 11);
    assert((recipient_prefix(r) + y)[1] == 4);
}

/// Index keys of different recipients or ids differ.
proof fn lemma_index_keys_injective(r1: Seq<u8>, y1: Seq<u8>, r2: Seq<u8>, y2: Seq<u8>)
    requires
        r1.len() <= MAX_COMPONENT_LEN,
        r2.len() <= MAX_COMPONENT_LEN,
        recipient_prefix(r1) + y1 == recipient_prefix(r2) + y2,
    ensures
        r1 == r2,
        y1 == y2,
{
    lemma_recipient_prefix_shape(r1);
    lemma_recipient_prefix_shape(r2);
    let a = length_prefixed(RECIPIENT_INDEX@);
    let k1 = recipient_prefix(r1) + y1;
    let k2 = recipient_prefix(r2) + y2;
    assert(k1 =~= a + (length_prefixed(r1) + y1));
    assert(k2 =~= a + (length_prefixed(r2) + y2));
    lemma_prefix_cancel(a, length_prefixed(r1) + y1, length_prefixed(r2) + y2);
    let t1 = length_prefixed(r1) + y1;
    let t2 = length_prefixed(r2) + y2;
    let n1 = r1.len() as int;
    let n2 = r2.len() as int;
    assert(t1[0] == t2[0] && t1[1] == t2[1]);
    assert(t1[0] == (n1 / 256) as u8 && t1[1] == (n1 % 256) as u8);
    assert(t2[0] == (n2 / 256) as u8 && t2[1] == (n2 % 256) as u8);
    assert(n1 / 256 < 256 && n2 / 256 < 256) by (nonlinear_arith)
        requires
            n1 <= 0xFFFF,
            n2 <= 0xFFFF,
    ;
    assert(n1 / 256 == n2 / 256);
    assert(n1 % 256 == n2 % 256);
    assert(n1 == n2) by (nonlinear_arith)
        requires
            n1 / 256 == n2 / 256,
            n1 % 256 == n2 % 256,
    ;
    assert(r1 =~= t1.subrange(2, 2 + n1));
    assert(r2 =~= t2.subrange(2, 2 + n2));
    assert(y1 =~= t1.subrange(2 + n1, t1.len() as int));
    assert(y2 =~= t2.subrange(2 + n2, t2.len() as int));
}

/// After a swap is created under `key`, the swap table gives back its record
/// under `key`, and the recipient index holds the single entry
/// `(recipient, key)` with the marker.
pub proof fn lemma_create_then_load(
    raw: Map<Seq<u8>, Seq<u8>>,
    key: Seq<u8>,
    recipient: Seq<u8>,
    record: Seq<u8>,
    marker: Seq<u8>,
)
    ensures
        table_get(created(raw, key, recipient, record, marker), swaps_prefix(), key) == Some(
            record,
        ),
        table_get(created(raw, key, recipient, record, marker), recipient_prefix(recipient), key)
            == Some(marker),
        recipient_ids(created(raw, key, recipient, record, marker), recipient).contains(key),
{
    lemma_tables_disjoint(key, recipient, key);
}

/// A create adds its id to the swap ids and to the index of its recipient,
/// and to no other recipient's index.
pub proof fn lemma_create_updates_ids(
    raw: Map<Seq<u8>, Seq<u8>>,
    key: Seq<u8>,
    recipient: Seq<u8>,
    record: Seq<u8>,
    marker: Seq<u8>,
    other: Seq<u8>,
)
    requires
        recipient.len() <= MAX_COMPONENT_LEN,
        other.len() <= MAX_COMPONENT_LEN,
    ensures
        swap_ids(created(raw, key, recipient, record, marker)) == swap_ids(raw).insert(key),
        recipient_ids(created(raw, key, recipient, record, marker), other) == if other
            == recipient {
            recipient_ids(raw, other).insert(key)
        } else {
            recipient_ids(raw, other)
        },
{
    let after = created(raw, key, recipient, record, marker);
    assert forall|id: Seq<u8>| #[trigger]
        swap_ids(after).contains(id) == swap_ids(raw).insert(key).contains(id) by {
        lemma_tables_disjoint(id, recipient, key);
        if swaps_prefix() + id == swaps_prefix() + key {
            lemma_prefix_cancel(swaps_prefix(), id, key);
        }
    }
    assert(swap_ids(after) =~= swap_ids(raw).insert(key));
    let expected = if other == recipient {
        recipient_ids(raw, other).insert(key)
    } else {
        recipient_ids(raw, other)
    };
    assert forall|id: Seq<u8>| #[trigger]
        recipient_ids(after, other).contains(id) == expected.contains(id) by {
        lemma_tables_disjoint(key, other, id);
        if recipient_prefix(other) + id == recipient_prefix(recipient) + key {
            lemma_index_keys_injective(other, id, recipient, key);
        }
    }
    assert(recipient_ids(after, other) =~= expected);
}

/// After any sequence of creates on an empty store, the swap ids are exactly
/// the ids created, and the index lists under each recipient exactly the ids
/// created for that recipient.
pub proof fn lemma_index_matches_creates(
    swaps: Seq<(Seq<u8>, Seq<u8>, Seq<u8>)>,
    marker: Seq<u8>,
    recipient: Seq<u8>,
)
    requires
        forall|i: int| 0 <= i < swaps.len() ==> (#[trigger] swaps[i]).1.len() <= MAX_COMPONENT_LEN,
        recipient.len() <= MAX_COMPONENT_LEN,
    ensures
        swap_ids(created_all(Map::empty(), swaps, marker)) == Set::new(
            |id: Seq<u8>| exists|i: int| 0 <= i < swaps.len() && (#[trigger] swaps[i]).0 == id,
        ),
        recipient_ids(created_all(Map::empty(), swaps, marker), recipient) == Set::new(
            |id: Seq<u8>|
                exists|i: int|
                    0 <= i < swaps.len() && (#[trigger] swaps[i]).0 == id && swaps[i].1
                        == recipient,
        ),
    decreases swaps.len(),
{
    let all_ids = Set::new(
        |id: Seq<u8>| exists|i: int| 0 <= i < swaps.len() && (#[trigger] swaps[i]).0 == id,
    );
    let rec_ids = Set::new(
        |id: Seq<u8>|
            exists|i: int|
                0 <= i < swaps.len() && (#[trigger] swaps[i]).0 == id && swaps[i].1 == recipient,
    );
    let raw = created_all(Map::empty(), swaps, marker);
    if swaps.len() == 0 {
        assert(swap_ids(raw) =~= all_ids);
        assert(recipient_ids(raw, recipient) =~= rec_ids);
    } else {
        let init = swaps.drop_last();
        let (key, r, v) = swaps.last();
        assert forall|i: int| 0 <= i < init.len() implies (#[trigger] init[i]).1.len()
            <= MAX_COMPONENT_LEN by {
            assert(init[i] == swaps[i]);
        }
        lemma_index_matches_creates(init, marker, recipient);
        assert(swaps[swaps.len() - 1] == swaps.last());
        lemma_create_updates_ids(
            created_all(Map::empty(), init, marker),
            key,
            r,
            v,
            marker,
            recipient,
        );
        assert forall|id: Seq<u8>| #[trigger] swap_ids(raw).contains(id) == all_ids.contains(id) by {
            if all_ids.contains(id) {
                let i = choose|i: int| 0 <= i < swaps.len() && (#[trigger] swaps[i]).0 == id;
                if i < init.len() {
                    assert(init[i] == swaps[i]);
                }
            }
            if exists|i: int| 0 <= i < init.len() && (#[trigger] init[i]).0 == id {
                let i = choose|i: int| 0 <= i < init.len() && (#[trigger] init[i]).0 == id;
                assert(swaps[i] == init[i]);
            }
        }
        assert(swap_ids(raw) =~= all_ids);
        assert forall|id: Seq<u8>| #[trigger]
            recipient_ids(raw, recipient).contains(id) == rec_ids.contains(id) by {
            if rec_ids.contains(id) {
                let i = choose|i: int|
                    0 <= i < swaps.len() && (#[trigger] swaps[i]).0 == id && swaps[i].1
                        == recipient;
                if i < init.len() {
                    assert(init[i] == swaps[i]);
                }
            }
            if exists|i: int|
                0 <= i < init.len() && (#[trigger] init[i]).0 == id && init[i].1 == recipient {
                let i = choose|i: int|
                    0 <= i < init.len() && (#[trigger] init[i]).0 == id && init[i].1
                        == recipient;
                assert(swaps[i] == init[i]);
            }
        }
        assert(recipient_ids(raw, recipient) =~= rec_ids);
    }
}

/// Every entry of the recipient index has its row in the swap table.
pub open spec fn index_backed(raw: Map<Seq<u8>, Seq<u8>>) -> bool {
    forall|recipient: Seq<u8>, id: Seq<u8>|
        #![trigger raw.contains_key(recipient_prefix(recipient) + id)]
        recipient.len() <= MAX_COMPONENT_LEN && raw.contains_key(recipient_prefix(recipient) + id)
            ==> raw.contains_key(swaps_prefix() + id)
}

/// The index never runs ahead of the swap table: an empty store satisfies
/// this, and every create keeps it.
pub proof fn lemma_create_keeps_index_backed(
    raw: Map<Seq<u8>, Seq<u8>>,
    key: Seq<u8>,
    recipient: Seq<u8>,
    record: Seq<u8>,
    marker: Seq<u8>,
)
    requires
        index_backed(raw),
        recipient.len() <= MAX_COMPONENT_LEN,
    ensures
        index_backed(Map::empty()),
        index_backed(created(raw, key, recipient, record, marker)),
{
    let after = created(raw, key, recipient, record, marker);
    assert forall|r: Seq<u8>, id: Seq<u8>|
        r.len() <= MAX_COMPONENT_LEN && #[trigger] after.contains_key(
            recipient_prefix(r) + id,
        ) implies after.contains_key(swaps_prefix() + id) by {
        lemma_tables_disjoint(key, r, id);
        if recipient_prefix(r) + id == recipient_prefix(recipient) + key {
            lemma_index_keys_injective(r, id, recipient, key);
        } else {
            assert(raw.contains_key(recipient_prefix(r) + id));
        }
    }
}

} // verus!
