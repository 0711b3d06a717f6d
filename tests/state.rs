use cosmwasm_std::testing::MockStorage;
use cosmwasm_std::Storage;
use cw20_atomic_swap::bucket::{Bucket, ReadonlyBucket};
use cw20_atomic_swap::error::StateError;
use cw20_atomic_swap::namespace::{to_length_prefixed, to_length_prefixed_nested};
use cw20_atomic_swap::state::{
    all_swap_ids, atomic_swaps, atomic_swaps_read, atomic_swaps_recipient_index,
    create_atomic_swap, PREFIX_SWAP, RECIPIENT_INDEX,
};
use cw20_atomic_swap::swap::{AtomicSwap, Balance, BlockInfo, Coin, Expiration};

fn dummy_swap() -> AtomicSwap {
    AtomicSwap {
        recipient: b"recip".to_vec(),
        source: b"source".to_vec(),
        hash: b"hash".to_vec(),
        ..AtomicSwap::default()
    }
}

fn dummy_record() -> Vec<u8> {
    br#"{"hash":"aGFzaA==","recipient":"cmVjaXA=","source":"c291cmNl"}"#.to_vec()
}

fn swap_for(recipient: &[u8]) -> AtomicSwap {
    AtomicSwap {
        recipient: recipient.to_vec(),
        ..AtomicSwap::default()
    }
}

fn ids(v: &[&str]) -> Vec<String> {
    v.iter().map(|s| s.to_string()).collect()
}

fn store_with(keys: &[&str]) -> MockStorage {
    let mut storage = MockStorage::new();
    for k in keys {
        create_atomic_swap(&mut storage, k.as_bytes(), &dummy_swap(), &dummy_record()).unwrap();
    }
    storage
}

#[test]
fn test_no_swap_ids() {
    let storage = MockStorage::new();
    let ids = all_swap_ids(&storage, None, 10).unwrap();
    assert_eq!(0, ids.len());
}

#[test]
fn test_all_swap_ids() {
    let mut storage = MockStorage::new();
    atomic_swaps()
        .save(&mut storage, "lazy".as_bytes(), &dummy_record())
        .unwrap();
    atomic_swaps()
        .save(&mut storage, "assign".as_bytes(), &dummy_record())
        .unwrap();
    atomic_swaps()
        .save(&mut storage, "zen".as_bytes(), &dummy_record())
        .unwrap();

    let ids = all_swap_ids(&storage, None, 10).unwrap();
    assert_eq!(3, ids.len());
    assert_eq!(
        vec!["assign".to_string(), "lazy".to_string(), "zen".to_string()],
        ids
    )
}

#[test]
fn test_atomic_swap_recipient_index() {
    let mut storage = MockStorage::new();
    let recipient1 = b"0";
    let key11 = 00u8;
    let recipient2 = b"1";
    let key21 = 01u8;
    let key22 = 02u8;

    let aswap1 = AtomicSwap {
        recipient: recipient1.to_vec(),
        ..AtomicSwap::default()
    };
    create_atomic_swap(&mut storage, &vec![key11], &aswap1, &dummy_record()).unwrap();

    let aswap2 = AtomicSwap {
        recipient: recipient2.to_vec(),
        ..AtomicSwap::default()
    };
    create_atomic_swap(&mut storage, &vec![key21], &aswap2, &dummy_record()).unwrap();
    create_atomic_swap(&mut storage, &vec![key22], &aswap2, &dummy_record()).unwrap();

    // first recipient
    let res = atomic_swaps_recipient_index(recipient1).keys(&storage, None, usize::MAX);
    assert_eq!(vec![key11], res.concat());

    // second recipient
    let res = atomic_swaps_recipient_index(recipient2).keys(&storage, None, usize::MAX);
    assert_eq!(vec![key21, key22], res.concat());
}

#[test]
fn create_then_load_gives_back_the_record() {
    let mut storage = MockStorage::new();
    let record = dummy_record();
    create_atomic_swap(&mut storage, b"swap-1", &dummy_swap(), &record).unwrap();
    assert_eq!(atomic_swaps_read().load(&storage, b"swap-1"), Ok(record.clone()));
    assert_eq!(atomic_swaps().load(&storage, b"swap-1"), Ok(record));
    let index = atomic_swaps_recipient_index(b"recip").keys(&storage, None, 10);
    assert_eq!(index, vec![b"swap-1".to_vec()]);
}

#[test]
fn create_writes_the_documented_raw_layout() {
    let mut storage = MockStorage::new();
    let record = dummy_record();
    create_atomic_swap(&mut storage, b"k", &swap_for(b"rc"), &record).unwrap();
    let mut swap_key = vec![0u8, 11];
    swap_key.extend_from_slice(b"atomic_swap");
    swap_key.extend_from_slice(b"k");
    assert_eq!(storage.get(&swap_key), Some(record));
    let mut index_key = vec![0u8, 4];
    index_key.extend_from_slice(b"asri");
    index_key.extend_from_slice(&[0u8, 2]);
    index_key.extend_from_slice(b"rc");
    index_key.extend_from_slice(b"k");
    assert_eq!(storage.get(&index_key), Some(b"0".to_vec()));
}

#[test]
fn load_of_a_missing_id_is_not_found() {
    let storage = store_with(&["a"]);
    assert_eq!(atomic_swaps_read().load(&storage, b"b"), Err(StateError::NotFound));
}

#[test]
fn listing_is_sorted_and_truncated() {
    let storage = store_with(&["zen", "lazy", "assign", "b", "ab", "a"]);
    assert_eq!(
        all_swap_ids(&storage, None, 10).unwrap(),
        ids(&["a", "ab", "assign", "b", "lazy", "zen"])
    );
    assert_eq!(all_swap_ids(&storage, None, 2).unwrap(), ids(&["a", "ab"]));
    assert_eq!(all_swap_ids(&storage, None, 0).unwrap(), ids(&[]));
}

#[test]
fn listing_resumes_strictly_after_start() {
    let storage = store_with(&["lazy", "assign", "zen"]);
    assert_eq!(
        all_swap_ids(&storage, Some(b"assign".to_vec()), 10).unwrap(),
        ids(&["lazy", "zen"])
    );
    assert_eq!(
        all_swap_ids(&storage, Some(b"b".to_vec()), 10).unwrap(),
        ids(&["lazy", "zen"])
    );
    assert_eq!(all_swap_ids(&storage, Some(b"zen".to_vec()), 10).unwrap(), ids(&[]));
}

#[test]
fn pages_compose_at_every_split() {
    let storage = store_with(&["e", "d", "c", "b", "a", "aa"]);
    let whole_list = all_swap_ids(&storage, None, 100).unwrap();
    for n in 1..6 {
        for m in 0..6 {
            let first = all_swap_ids(&storage, None, n).unwrap();
            let last = first.last().unwrap().as_bytes().to_vec();
            let rest = all_swap_ids(&storage, Some(last), m).unwrap();
            let whole = all_swap_ids(&storage, None, n + m).unwrap();
            let mut joined = first.clone();
            joined.extend(rest);
            assert_eq!(joined, whole);
            assert_eq!(whole, whole_list[..(n + m).min(whole_list.len())].to_vec());
        }
    }
}

#[test]
fn recipient_listing_excludes_other_recipients() {
    let mut storage = MockStorage::new();
    create_atomic_swap(&mut storage, b"x", &swap_for(b"alice"), &dummy_record()).unwrap();
    create_atomic_swap(&mut storage, b"a", &swap_for(b"bob"), &dummy_record()).unwrap();
    create_atomic_swap(&mut storage, b"m", &swap_for(b"alice"), &dummy_record()).unwrap();
    create_atomic_swap(&mut storage, b"b", &swap_for(b"alic"), &dummy_record()).unwrap();
    let alice = atomic_swaps_recipient_index(b"alice").keys(&storage, None, 10);
    assert_eq!(alice, vec![b"m".to_vec(), b"x".to_vec()]);
    let bob = atomic_swaps_recipient_index(b"bob").keys(&storage, None, 10);
    assert_eq!(bob, vec![b"a".to_vec()]);
    let alic = atomic_swaps_recipient_index(b"alic").keys(&storage, None, 10);
    assert_eq!(alic, vec![b"b".to_vec()]);
    let page = atomic_swaps_recipient_index(b"alice").keys(&storage, Some(b"m"), 10);
    assert_eq!(page, vec![b"x".to_vec()]);
    assert_eq!(
        all_swap_ids(&storage, None, 10).unwrap(),
        ids(&["a", "b", "m", "x"])
    );
}

#[test]
fn listing_an_empty_store_is_empty() {
    let storage = MockStorage::new();
    assert_eq!(all_swap_ids(&storage, Some(b"a".to_vec()), 5), Ok(vec![]));
    let index = atomic_swaps_recipient_index(b"anyone").keys(&storage, None, 5);
    assert!(index.is_empty());
}

#[test]
fn invalid_utf8_id_fails_the_listing() {
    let mut storage = MockStorage::new();
    atomic_swaps().save(&mut storage, b"ok", &dummy_record()).unwrap();
    atomic_swaps().save(&mut storage, &[0xff, 0xfe], &dummy_record()).unwrap();
    assert_eq!(all_swap_ids(&storage, None, 10), Err(StateError::InvalidUtf8));
    assert_eq!(all_swap_ids(&storage, None, 1).unwrap(), ids(&["ok"]));
}

#[test]
fn empty_record_is_rejected_without_writes() {
    let mut storage = MockStorage::new();
    assert_eq!(
        create_atomic_swap(&mut storage, b"id", &dummy_swap(), &[]),
        Err(StateError::WriteRejected)
    );
    assert_eq!(all_swap_ids(&storage, None, 10).unwrap(), ids(&[]));
    assert!(atomic_swaps_recipient_index(b"recip").keys(&storage, None, 10).is_empty());
    assert_eq!(
        atomic_swaps().save(&mut storage, b"id", &[]),
        Err(StateError::WriteRejected)
    );
}

#[test]
fn overlong_recipient_is_rejected_without_writes() {
    let mut storage = MockStorage::new();
    let long = vec![7u8; 0x10000];
    assert_eq!(
        create_atomic_swap(&mut storage, b"id", &swap_for(&long), &dummy_record()),
        Err(StateError::WriteRejected)
    );
    assert_eq!(all_swap_ids(&storage, None, 10).unwrap(), ids(&[]));
    let longest = vec![7u8; 0xFFFF];
    create_atomic_swap(&mut storage, b"id", &swap_for(&longest), &dummy_record()).unwrap();
    let index = atomic_swaps_recipient_index(&longest).keys(&storage, None, 10);
    assert_eq!(index, vec![b"id".to_vec()]);
}

#[test]
fn recreating_an_id_overwrites_the_record() {
    let mut storage = MockStorage::new();
    create_atomic_swap(&mut storage, b"id", &dummy_swap(), b"first").unwrap();
    create_atomic_swap(&mut storage, b"id", &dummy_swap(), b"second").unwrap();
    assert_eq!(atomic_swaps_read().load(&storage, b"id"), Ok(b"second".to_vec()));
    assert_eq!(all_swap_ids(&storage, None, 10).unwrap(), ids(&["id"]));
    let index = atomic_swaps_recipient_index(b"recip").keys(&storage, None, 10);
    assert_eq!(index, vec![b"id".to_vec()]);
}

#[test]
fn namespaces_are_length_prefixed() {
    assert_eq!(to_length_prefixed(b""), vec![0u8, 0]);
    assert_eq!(to_length_prefixed(b"abc"), vec![0u8, 3, b'a', b'b', b'c']);
    assert_eq!(to_length_prefixed(&vec![1u8; 300])[..2], [1u8, 44]);
    let nested = to_length_prefixed_nested(&[b"a", b"bc"]);
    assert_eq!(nested, vec![0u8, 1, b'a', 0, 2, b'b', b'c']);
    assert_eq!(PREFIX_SWAP, *b"atomic_swap");
    assert_eq!(RECIPIENT_INDEX, *b"asri");
}

#[test]
fn buckets_of_distinct_namespaces_do_not_mix() {
    let mut storage = MockStorage::new();
    let a = Bucket::new(b"a");
    let ab = Bucket::new(b"ab");
    a.save(&mut storage, b"bx", b"1").unwrap();
    ab.save(&mut storage, b"x", b"2").unwrap();
    assert_eq!(a.keys(&storage, None, 10), vec![b"bx".to_vec()]);
    assert_eq!(ab.keys(&storage, None, 10), vec![b"x".to_vec()]);
    let nested = Bucket::multilevel(&[b"a", b"b"]);
    nested.save(&mut storage, b"y", b"3").unwrap();
    assert_eq!(nested.keys(&storage, None, 10), vec![b"y".to_vec()]);
    assert_eq!(ab.keys(&storage, None, 10), vec![b"x".to_vec()]);
    let read = ReadonlyBucket::new(b"a");
    assert_eq!(read.load(&storage, b"bx"), Ok(b"1".to_vec()));
    assert_eq!(read.keys(&storage, Some(b"bx"), 10), Vec::<Vec<u8>>::new());
}

#[test]
fn expiration_by_height_time_and_never() {
    let block = BlockInfo {
        height: 100,
        time: 5_000,
        chain_id: "test".to_string(),
    };
    let mut swap = dummy_swap();
    swap.expires = Expiration::AtHeight(100);
    assert!(swap.is_expired(&block));
    swap.expires = Expiration::AtHeight(101);
    assert!(!swap.is_expired(&block));
    swap.expires = Expiration::AtTime(5_000);
    assert!(swap.is_expired(&block));
    swap.expires = Expiration::AtTime(5_001);
    assert!(!swap.is_expired(&block));
    swap.expires = Expiration::Never;
    assert!(!swap.is_expired(&block));
}

#[test]
fn default_swap_is_empty_and_never_expires() {
    let swap = AtomicSwap::default();
    assert!(swap.hash.is_empty() && swap.recipient.is_empty() && swap.source.is_empty());
    assert_eq!(swap.expires, Expiration::Never);
    assert!(matches!(swap.balance, Balance::Native(ref c) if c.is_empty()));
    let funded = Balance::Native(vec![Coin {
        denom: "uatom".to_string(),
        amount: 5,
    }]);
    assert!(matches!(funded, Balance::Native(ref c) if c[0].amount == 5));
}

#[test]
fn range_pairs_ids_with_their_values() {
    let mut storage = MockStorage::new();
    create_atomic_swap(&mut storage, b"b", &swap_for(b"r"), b"rec-b").unwrap();
    create_atomic_swap(&mut storage, b"a", &swap_for(b"r"), b"rec-a").unwrap();
    create_atomic_swap(&mut storage, b"c", &swap_for(b"s"), b"rec-c").unwrap();
    let all = atomic_swaps_read().range(&storage, None, 10);
    assert_eq!(
        all,
        vec![
            (b"a".to_vec(), b"rec-a".to_vec()),
            (b"b".to_vec(), b"rec-b".to_vec()),
            (b"c".to_vec(), b"rec-c".to_vec()),
        ]
    );
    let after_a = atomic_swaps().range(&storage, Some(b"a"), 1);
    assert_eq!(after_a, vec![(b"b".to_vec(), b"rec-b".to_vec())]);
    let index = atomic_swaps_recipient_index(b"r").range(&storage, None, 10);
    assert_eq!(
        index,
        vec![(b"a".to_vec(), b"0".to_vec()), (b"b".to_vec(), b"0".to_vec())]
    );
}
