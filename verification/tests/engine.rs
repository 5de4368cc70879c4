//! The engine's pieces: reference extraction, caches, the DAG walk, and
//! incremental verification.

use car_mirror::cache::{cached_references, Cache, CacheMissing, InMemoryCache, NoCache};
use car_mirror::cid::{Cid, CODEC_DAG_CBOR, CODEC_RAW};
use car_mirror::dag_walk::{DagWalk, TraversedItem};
use car_mirror::store::MemoryBlockStore;

/// Encode a DAG-CBOR list of links to the given CIDs, so the reference
/// extractor can find them.
fn link_block(links: &[&Cid]) -> Vec<u8> {
    let ipld = ipld_core::ipld::Ipld::List(
        links
            .iter()
            .map(|c| {
                ipld_core::ipld::Ipld::Link(
                    ipld_core::cid::Cid::try_from(c.to_bytes().as_slice()).unwrap(),
                )
            })
            .collect(),
    );
    serde_ipld_dagcbor::to_vec(&ipld).unwrap()
}

#[test]
fn test_references_cache() {
    let mut store = MemoryBlockStore::new();
    let mut cache = InMemoryCache::new(100_000);

    let hello_one_cid = store.put_block(b"Hello, One?".to_vec(), CODEC_RAW);
    let hello_two_cid = store.put_block(b"Hello, Two?".to_vec(), CODEC_RAW);
    let cid = store.put_block(link_block(&[&hello_one_cid, &hello_two_cid]), CODEC_DAG_CBOR);

    // cache unpopulated initially
    assert!(cache.get_references_cache(&cid).is_none());

    // this populates the references cache
    let refs = cached_references(&mut cache, &cid, &store).expect("parses");
    assert_eq!(refs.len(), 2);
    assert!(refs[0].eq(&hello_one_cid));
    assert!(refs[1].eq(&hello_two_cid));

    // the cache now holds the references
    let cached = cache.get_references_cache(&cid).expect("cached");
    assert_eq!(cached.len(), 2);
    assert!(cached[0].eq(&hello_one_cid));
    assert!(cached[1].eq(&hello_two_cid));
}

#[test]
fn test_no_cache_references() {
    let mut store = MemoryBlockStore::new();
    let mut cache = NoCache;

    let hello_one_cid = store.put_block(b"Hello, One?".to_vec(), CODEC_RAW);
    let hello_two_cid = store.put_block(b"Hello, Two?".to_vec(), CODEC_RAW);
    let cid = store.put_block(link_block(&[&hello_one_cid, &hello_two_cid]), CODEC_DAG_CBOR);

    // the cache starts out unpopulated
    assert!(cache.get_references_cache(&cid).is_none());

    // we still get the correct answer
    let refs = cached_references(&mut cache, &cid, &store).expect("parses");
    assert_eq!(refs.len(), 2);
    assert!(refs[0].eq(&hello_one_cid));
    assert!(refs[1].eq(&hello_two_cid));

    // but nothing was recorded
    assert!(cache.get_references_cache(&cid).is_none());
}

#[test]
fn test_walk_dag_breadth_first() {
    let mut store = MemoryBlockStore::new();

    // cid_root ---> cid_1_wrap ---> cid_1
    //            -> cid_2
    //            -> cid_3
    let cid_1 = store.put_block(link_block(&[]), CODEC_DAG_CBOR);
    let cid_2 = store.put_block(b"two".to_vec(), CODEC_RAW);
    let cid_3 = store.put_block(b"three".to_vec(), CODEC_RAW);
    let cid_1_wrap = store.put_block(link_block(&[&cid_1]), CODEC_DAG_CBOR);
    let cid_root = store.put_block(link_block(&[&cid_1_wrap, &cid_2, &cid_3]), CODEC_DAG_CBOR);

    let mut walk = DagWalk::breadth_first(vec![cid_root.clone()]);
    let mut cache = NoCache;
    let mut cids = Vec::new();
    while let Some(item) = walk.next(&store, &mut cache).expect("walks") {
        match item {
            TraversedItem::Have(c) => cids.push(c),
            TraversedItem::Missing(_) => panic!("nothing should be missing"),
        }
    }
    let expected = [cid_root, cid_1_wrap, cid_2, cid_3, cid_1];
    assert_eq!(cids.len(), expected.len());
    for (got, want) in cids.iter().zip(expected.iter()) {
        assert!(got.eq(want));
    }
}

#[test]
fn test_walk_reports_missing_blocks() {
    let mut full = MemoryBlockStore::new();
    let leaf = full.put_block(b"leaf".to_vec(), CODEC_RAW);
    let root_bytes = link_block(&[&leaf]);

    // a store holding only the root, not the leaf
    let mut partial = MemoryBlockStore::new();
    let root = partial.put_block(root_bytes, CODEC_DAG_CBOR);

    let mut walk = DagWalk::breadth_first(vec![root.clone()]);
    let mut cache = NoCache;
    let mut have = 0;
    let mut missing = 0;
    while let Some(item) = walk.next(&partial, &mut cache).expect("walks") {
        match item {
            TraversedItem::Have(_) => have += 1,
            TraversedItem::Missing(c) => {
                assert!(c.eq(&leaf));
                missing += 1;
            }
        }
    }
    assert_eq!(have, 1);
    assert_eq!(missing, 1);
}

#[test]
fn test_receiver_state_is_not_a_huge_debug() {
    let mut store = MemoryBlockStore::new();
    let mut cids = Vec::new();
    for i in 0..1000u32 {
        cids.push(store.put_block(i.to_le_bytes().to_vec(), CODEC_RAW));
    }
    let state = car_mirror::messages::ReceiverState {
        missing_subgraph_roots: cids,
        have_cids_bloom: Some(car_mirror::bloom::Bloom { hash_count: 3, bytes: vec![0u8; 4096] }),
    };
    let debug_print = state.debug_string();
    assert!(debug_print.len() < 1000);
}

#[test]
fn test_receiver_state_wire_round_trip() {
    let mut store = MemoryBlockStore::new();
    let a = store.put_block(b"a".to_vec(), CODEC_RAW);
    let state = car_mirror::messages::ReceiverState {
        missing_subgraph_roots: vec![a.clone()],
        have_cids_bloom: Some(car_mirror::bloom::Bloom { hash_count: 5, bytes: vec![7u8; 16] }),
    };
    let response = state.into_push_response();
    assert_eq!(response.bloom_hash_count, 5);
    assert_eq!(response.bloom_bytes, vec![7u8; 16]);
    assert!(!response.indicates_finished());
    let back = car_mirror::messages::ReceiverState::from_push_response(response);
    assert_eq!(back.missing_subgraph_roots.len(), 1);
    assert!(back.missing_subgraph_roots[0].eq(&a));
    let bloom = back.have_cids_bloom.expect("sketch kept");
    assert_eq!(bloom.hash_count, 5);
    assert_eq!(bloom.bytes, vec![7u8; 16]);

    // an empty sketch reads back as no sketch
    let none_state = car_mirror::messages::ReceiverState {
        missing_subgraph_roots: Vec::new(),
        have_cids_bloom: None,
    };
    let req = none_state.into_pull_request();
    assert!(req.indicates_finished());
    assert!(req.bloom_bytes.is_empty());
    let back = car_mirror::messages::ReceiverState::from_pull_request(req);
    assert!(back.have_cids_bloom.is_none());
}

/// A full cache keeps what it holds and records nothing new.
#[test]
fn test_references_cache_capacity() {
    let mut store = MemoryBlockStore::new();
    let mut cache = InMemoryCache::new(1);

    let one = store.put_block(b"one".to_vec(), CODEC_RAW);
    let two = store.put_block(b"two".to_vec(), CODEC_RAW);
    let first = store.put_block(link_block(&[&one]), CODEC_DAG_CBOR);
    let second = store.put_block(link_block(&[&two]), CODEC_DAG_CBOR);

    // the single slot fills with the first entry
    cached_references(&mut cache, &first, &store).expect("parses");
    assert!(cache.get_references_cache(&first).is_some());

    // a second entry no longer fits, but lookups still answer correctly
    let refs = cached_references(&mut cache, &second, &store).expect("parses");
    assert_eq!(refs.len(), 1);
    assert!(refs[0].eq(&two));
    assert!(cache.get_references_cache(&second).is_none());
    assert!(cache.get_references_cache(&first).is_some());
}

/// The missing-block cache answers like the wrapped store, remembers
/// absence, and refreshes its answers when a block is written through it.
#[test]
fn test_cache_missing_agrees_with_store() {
    let mut inner = MemoryBlockStore::new();
    let held = inner.put_block(b"held".to_vec(), CODEC_RAW);
    let mut cached = CacheMissing::new(inner);

    assert!(cached.has_block(&held));
    assert_eq!(cached.get_block(&held).unwrap(), b"held".to_vec());

    // a CID from elsewhere is reported absent, repeatedly
    let mut other = MemoryBlockStore::new();
    let missing = other.put_block(b"elsewhere".to_vec(), CODEC_RAW);
    assert!(!cached.has_block(&missing));
    assert!(cached.get_block(&missing).is_none());
    assert!(!cached.has_block(&missing));

    // writing through the wrapper refreshes the remembered absence
    cached.put_block_keyed(missing.clone(), b"elsewhere".to_vec());
    assert!(cached.has_block(&missing));
    assert_eq!(cached.get_block(&missing).unwrap(), b"elsewhere".to_vec());
}
