//! Protocol runs between two in-memory peers: cold transfers, overlaps,
//! oversize and adversarial blocks, and unrelated-root requests.

use car_mirror::cache::NoCache;
use car_mirror::cid::{Cid, CODEC_DAG_CBOR, CODEC_RAW};
use car_mirror::common::{block_receive, block_send, CarFile, Config};
use car_mirror::error::{Error, IncrementalVerificationError};
use car_mirror::messages::ReceiverState;
use car_mirror::store::MemoryBlockStore;
use car_mirror::{pull, push};
use sha2::Digest;

fn link_block(links: &[&Cid]) -> Vec<u8> {
    let ipld = ipld_core::ipld::Ipld::List(
        links
            .iter()
            .map(|c| {
                ipld_core::ipld::Ipld::Link(
                    ipld_core::cid::Cid::try_from(c.to_bytes().as_slice()).unwrap(),
                )
            })
            .collect(),
    );
    serde_ipld_dagcbor::to_vec(&ipld).unwrap()
}

/// All CIDs reachable from `root` in `store`, as encoded byte strings.
fn reachable_cids(root: &Cid, store: &MemoryBlockStore) -> Vec<Vec<u8>> {
    let mut walk = car_mirror::dag_walk::DagWalk::breadth_first(vec![root.clone()]);
    let mut cache = NoCache;
    let mut out = Vec::new();
    while let Some(item) = walk.next(store, &mut cache).expect("walks") {
        out.push(item.to_cid().expect("present").to_bytes());
    }
    out.sort();
    out
}

/// Run the push protocol to completion; returns the number of rounds and
/// the total bytes that crossed the wire in CAR files.
fn simulate_push(
    root: &Cid,
    config: &Config,
    client_store: &MemoryBlockStore,
    server_store: &mut MemoryBlockStore,
) -> (usize, usize) {
    let mut rounds = 0;
    let mut network_bytes = 0;
    let mut last_response = None;
    loop {
        let request =
            push::request(root.clone(), last_response, config, client_store, &mut NoCache)
                .expect("send side");
        network_bytes += request.bytes.len();
        rounds += 1;
        assert!(rounds <= 1000, "the protocol must halt");
        let response =
            push::response(root.clone(), request, config, server_store, &mut NoCache)
                .expect("receive side");
        if response.indicates_finished() {
            return (rounds, network_bytes);
        }
        last_response = Some(response);
    }
}

/// A chain r -> a -> b -> c into an empty receiver completes within two
/// rounds with all four blocks written and both sides holding the same
/// set.
#[test]
fn test_cold_chain_transfer() {
    let mut client = MemoryBlockStore::new();
    let c = client.put_block(b"c".to_vec(), CODEC_RAW);
    let b = client.put_block(link_block(&[&c]), CODEC_DAG_CBOR);
    let a = client.put_block(link_block(&[&b]), CODEC_DAG_CBOR);
    let r = client.put_block(link_block(&[&a]), CODEC_DAG_CBOR);

    let mut server = MemoryBlockStore::new();
    let config = Config::default();
    let (rounds, _) = simulate_push(&r, &config, &client, &mut server);
    assert!(rounds <= 2);
    let client_cids = reachable_cids(&r, &client);
    let server_cids = reachable_cids(&r, &server);
    assert_eq!(client_cids.len(), 4);
    assert_eq!(client_cids, server_cids);
}

/// With full overlap nothing needs transferring: the receiver's first
/// pull request already reports nothing missing.
#[test]
fn test_full_overlap_pull_finishes_immediately() {
    let mut store = MemoryBlockStore::new();
    let leaf = store.put_block(b"leaf".to_vec(), CODEC_RAW);
    let root = store.put_block(link_block(&[&leaf]), CODEC_DAG_CBOR);

    let config = Config::default();
    let request = pull::request(root, None, &config, &mut store, &mut NoCache)
        .expect("local state");
    assert!(request.indicates_finished());
    assert!(request.bloom_bytes.is_empty());
    assert_eq!(request.bloom_hash_count, 3);
}

/// Partial overlap over pull: the receiver already holds half of the
/// DAG and leads with a sketch of it, so the sender skips most of the
/// overlap and far less than the whole DAG crosses the wire.
#[test]
fn test_partial_overlap_deduplicates() {
    let mut server = MemoryBlockStore::new();
    let mut client = MemoryBlockStore::new();

    // sixty leaf blocks under one root on the serving side; the pulling
    // side already has half of the leaves
    let mut leaves = Vec::new();
    let mut leaf_blocks = Vec::new();
    for i in 0..60u32 {
        let mut bytes = vec![0u8; 1024];
        bytes[0..4].copy_from_slice(&i.to_le_bytes());
        let cid = server.put_block(bytes.clone(), CODEC_RAW);
        if i % 2 == 0 {
            client.put_block(bytes.clone(), CODEC_RAW);
        }
        leaves.push(cid);
        leaf_blocks.push(bytes);
    }
    let refs: Vec<&Cid> = leaves.iter().collect();
    let root_bytes = link_block(&refs);
    let root = server.put_block(root_bytes.clone(), CODEC_DAG_CBOR);
    // the client also needs the root so its opening sketch covers its
    // half of the leaves
    client.put_block(root_bytes, CODEC_DAG_CBOR);

    let config = Config::default();
    let mut network_bytes = 0;
    let mut last_car: Option<CarFile> = None;
    let mut rounds = 0;
    loop {
        let request = pull::request(root.clone(), last_car, &config, &mut client, &mut NoCache)
            .expect("pull side");
        if request.indicates_finished() {
            break;
        }
        rounds += 1;
        assert!(rounds <= 1000, "the protocol must halt");
        let car = pull::response(root.clone(), request, &config, &server, &mut NoCache)
            .expect("serve side");
        network_bytes += car.bytes.len();
        last_car = Some(car);
    }

    let total_bytes: usize = 60 * 1024;
    // far less than the whole DAG crossed the wire: the overlap stayed home
    assert!(network_bytes < total_bytes);
    assert_eq!(reachable_cids(&root, &client), reachable_cids(&root, &server));
}

/// An oversized block is rejected and nothing of it is stored.
#[test]
fn test_oversize_block_rejected() {
    let mut client = MemoryBlockStore::new();
    let root = client.put_block(b"This one is very very very big".to_vec(), CODEC_RAW);
    let config = Config { max_block_size: 20, ..Config::default() };

    let car = block_send(root.clone(), None, &config, &client, &mut NoCache).expect("send");
    let mut server = MemoryBlockStore::new();
    let result = block_receive(root.clone(), Some(car), &config, &mut server, &mut NoCache);
    match result {
        Err(Error::BlockSizeExceeded { block_bytes, max_block_size, .. }) => {
            assert_eq!(block_bytes, 30);
            assert_eq!(max_block_size, 20);
        }
        other => panic!("expected a block size rejection, got {other:?}"),
    }
    assert!(server.get_block(&root).is_none());
}

/// A block whose bytes do not hash to its CID is refused, and the
/// receiver's holdings stay unchanged for that CID.
#[test]
fn test_digest_mismatch_rejected() {
    let mut honest = MemoryBlockStore::new();
    let root = honest.put_block(b"honest bytes".to_vec(), CODEC_RAW);

    // an adversarial CAR: right CID, wrong bytes
    let mut car_bytes = Vec::new();
    car_mirror::car::write_header(&root, &mut car_bytes);
    car_mirror::car::write_frame(&root, b"evil bytes!!", &mut car_bytes);

    let config = Config::default();
    let mut server = MemoryBlockStore::new();
    let result = block_receive(
        root.clone(),
        Some(CarFile { bytes: car_bytes }),
        &config,
        &mut server,
        &mut NoCache,
    );
    match result {
        Err(Error::IncrementalVerificationError(
            IncrementalVerificationError::DigestMismatch { cid, .. },
        )) => assert!(cid.eq(&root)),
        other => panic!("expected a digest mismatch, got {other:?}"),
    }
    assert!(server.get_block(&root).is_none());
}

/// Requested roots unrelated to the DAG are dropped without an error:
/// only the reachable subset is served.
#[test]
fn test_unrelated_roots_filtered() {
    let mut client = MemoryBlockStore::new();
    let leaf = client.put_block(b"leaf".to_vec(), CODEC_RAW);
    let root = client.put_block(link_block(&[&leaf]), CODEC_DAG_CBOR);
    let unrelated = {
        let mut other = MemoryBlockStore::new();
        other.put_block(b"unrelated".to_vec(), CODEC_RAW)
    };

    let state = ReceiverState {
        missing_subgraph_roots: vec![root.clone(), unrelated.clone()],
        have_cids_bloom: None,
    };
    let config = Config::default();
    let car = block_send(root.clone(), Some(state), &config, &client, &mut NoCache)
        .expect("no error for unrelated roots");
    let (_, blocks) = car_mirror::car::parse_car(car.bytes.as_slice()).expect("parses");
    for (cid, _) in &blocks {
        assert!(!cid.eq(&unrelated));
    }
    assert!(blocks.iter().any(|(cid, _)| cid.eq(&root)));
    assert!(blocks.iter().any(|(cid, _)| cid.eq(&leaf)));
}

/// A deterministically generated random-looking DAG transfers completely.
#[test]
fn test_transfer() {
    let mut seed: u64 = 0x2545f4914f6cdd1d;
    let mut next = move || {
        seed ^= seed << 13;
        seed ^= seed >> 7;
        seed ^= seed << 17;
        seed
    };

    let mut client = MemoryBlockStore::new();
    let mut cids: Vec<Cid> = Vec::new();
    for i in 0..40usize {
        // even nodes are padded leaves; odd nodes link to up to three
        // earlier nodes
        let cid = if i % 2 == 0 {
            let mut padding = vec![0u8; 256];
            padding[0..8].copy_from_slice(&(i as u64).to_le_bytes());
            client.put_block(padding, CODEC_RAW)
        } else {
            let mut links: Vec<&Cid> = Vec::new();
            for _ in 0..3 {
                let pick = (next() as usize) % cids.len();
                links.push(&cids[pick]);
            }
            client.put_block(link_block(&links), CODEC_DAG_CBOR)
        };
        cids.push(cid);
    }
    let refs: Vec<&Cid> = cids.iter().rev().take(5).collect();
    let root = client.put_block(link_block(&refs), CODEC_DAG_CBOR);

    let mut server = MemoryBlockStore::new();
    let config = Config::default();
    simulate_push(&root, &config, &client, &mut server);
    assert_eq!(reachable_cids(&root, &client), reachable_cids(&root, &server));
}

/// Framing an empty block list produces no bytes at all.
#[test]
fn test_write_blocks_into_car_empty() {
    let car = car_mirror::common::write_blocks_into_car(&Vec::new(), None);
    assert!(car.is_empty());
}

/// Framing a block list yields a header frame followed by one frame per
/// block; no blocks, no frames.
#[test]
fn test_stream_car_frame_empty() {
    let frames = car_mirror::common::stream_car_frames(&Vec::new());
    assert!(frames.is_empty());

    let mut store = MemoryBlockStore::new();
    let a = store.put_block(b"a".to_vec(), CODEC_RAW);
    let bytes = store.get_block(&a).unwrap();
    let frames = car_mirror::common::stream_car_frames(&vec![(a.clone(), bytes)]);
    assert_eq!(frames.len(), 2);
    let joined: Vec<u8> = frames.concat();
    let (root, blocks) = car_mirror::car::parse_car(joined.as_slice()).expect("parses");
    assert!(root.eq(&a));
    assert_eq!(blocks.len(), 1);
}

/// A round larger than the configured receive maximum is refused whole.
#[test]
fn test_too_many_bytes_rejected() {
    let mut client = MemoryBlockStore::new();
    let root = client.put_block(vec![9u8; 4096], CODEC_RAW);
    let config = Config::default();
    let car = block_send(root.clone(), None, &config, &client, &mut NoCache).expect("send");

    let tight = Config { receive_maximum: 100, ..Config::default() };
    let mut server = MemoryBlockStore::new();
    match block_receive(root, Some(car), &tight, &mut server, &mut NoCache) {
        Err(Error::TooManyBytes { receive_maximum, bytes_read }) => {
            assert_eq!(receive_maximum, 100);
            assert!(bytes_read > 100);
        }
        other => panic!("expected a size rejection, got {other:?}"),
    }
}

/// Bytes that are no CAR file at all are refused as such.
#[test]
fn test_car_file_error() {
    let mut server = MemoryBlockStore::new();
    let mut honest = MemoryBlockStore::new();
    let root = honest.put_block(b"x".to_vec(), CODEC_RAW);
    let config = Config::default();
    let garbage = CarFile { bytes: vec![0xde, 0xad, 0xbe, 0xef] };
    match block_receive(root, Some(garbage), &config, &mut server, &mut NoCache) {
        Err(Error::CarFileError) => {}
        other => panic!("expected a CAR parse failure, got {other:?}"),
    }
}

/// A CID naming an unknown codec cannot have its references extracted.
#[test]
fn test_unsupported_codec() {
    let mut store = MemoryBlockStore::new();
    let base = store.put_block(b"x".to_vec(), CODEC_RAW);
    let odd = Cid {
        version: 1,
        codec: 0x99,
        multihash_code: base.multihash_code,
        digest: base.digest.clone(),
    };
    match car_mirror::references::references(&odd, b"x") {
        Err(Error::UnsupportedCodec { cid }) => assert!(cid.eq(&odd)),
        other => panic!("expected an unsupported codec, got {other:?}"),
    }
}

/// A DAG-CBOR block that does not parse reports a parsing failure.
#[test]
fn test_parsing_error() {
    let mut store = MemoryBlockStore::new();
    let base = store.put_block(b"x".to_vec(), CODEC_RAW);
    let as_cbor = Cid {
        version: 1,
        codec: CODEC_DAG_CBOR,
        multihash_code: base.multihash_code,
        digest: base.digest.clone(),
    };
    match car_mirror::references::references(&as_cbor, &[0xff, 0x00, 0x01]) {
        Err(Error::ParsingError) => {}
        other => panic!("expected a parsing failure, got {other:?}"),
    }
}

/// A CID naming an unknown hash algorithm cannot be verified.
#[test]
fn test_unsupported_hash_code() {
    let odd = Cid { version: 1, codec: CODEC_RAW, multihash_code: 0x99, digest: vec![1u8; 32] };
    let mut car_bytes = Vec::new();
    car_mirror::car::write_header(&odd, &mut car_bytes);
    car_mirror::car::write_frame(&odd, b"whatever", &mut car_bytes);

    let config = Config::default();
    let mut server = MemoryBlockStore::new();
    let result = block_receive(
        odd.clone(),
        Some(CarFile { bytes: car_bytes }),
        &config,
        &mut server,
        &mut NoCache,
    );
    match result {
        Err(Error::UnsupportedHashCode { cid }) => assert!(cid.eq(&odd)),
        other => panic!("expected an unsupported hash code, got {other:?}"),
    }
}

/// An incomplete sender cannot serve the DAG: the missing block is named.
#[test]
fn test_sender_missing_block() {
    let mut full = MemoryBlockStore::new();
    let leaf = full.put_block(b"leaf".to_vec(), CODEC_RAW);
    let root_bytes = link_block(&[&leaf]);
    let mut partial = MemoryBlockStore::new();
    let root = partial.put_block(root_bytes, CODEC_DAG_CBOR);

    let config = Config::default();
    match block_send(root, None, &config, &partial, &mut NoCache) {
        Err(Error::BlockStoreError(car_mirror::error::BlockStoreError::CIDNotFound(c))) => {
            assert!(c.eq(&leaf))
        }
        other => panic!("expected a missing block, got {other:?}"),
    }
}

/// A single-block DAG transfers in one round over pull.
#[test]
fn test_pull_single_block() {
    let mut server = MemoryBlockStore::new();
    let root = server.put_block(b"only".to_vec(), CODEC_RAW);
    let mut client = MemoryBlockStore::new();

    let config = Config::default();
    let mut last_car: Option<CarFile> = None;
    let mut rounds = 0;
    loop {
        let request = pull::request(root.clone(), last_car, &config, &mut client, &mut NoCache)
            .expect("pull side");
        if request.indicates_finished() {
            break;
        }
        rounds += 1;
        assert!(rounds <= 10, "the protocol must halt");
        let car = pull::response(root.clone(), request, &config, &server, &mut NoCache)
            .expect("serve side");
        last_car = Some(car);
    }
    assert_eq!(rounds, 1);
    assert_eq!(client.get_block(&root).unwrap(), b"only".to_vec());
}

/// The same final set of blocks, arriving in different legal orders,
/// leaves the receiver reporting the same state.
#[test]
fn test_arrival_order_does_not_matter() {
    let mut sender = MemoryBlockStore::new();
    let a = sender.put_block(b"left".to_vec(), CODEC_RAW);
    let b = sender.put_block(b"right".to_vec(), CODEC_RAW);
    let root = sender.put_block(link_block(&[&a, &b]), CODEC_DAG_CBOR);

    let order_ab = [&root, &a, &b];
    let order_ba = [&root, &b, &a];
    let config = Config::default();
    let mut results = Vec::new();
    for order in [order_ab, order_ba] {
        let mut car = Vec::new();
        car_mirror::car::write_header(&root, &mut car);
        for cid in order {
            car_mirror::car::write_frame(cid, &sender.get_block(cid).unwrap(), &mut car);
        }
        let mut receiver = MemoryBlockStore::new();
        let state = block_receive(
            root.clone(),
            Some(CarFile { bytes: car }),
            &config,
            &mut receiver,
            &mut NoCache,
        )
        .expect("receives");
        assert!(state.missing_subgraph_roots.is_empty());
        results.push(reachable_cids(&root, &receiver));
    }
    assert_eq!(results[0], results[1]);
}

/// The canonical skip rule: a block the sketch claims is skipped unless
/// it is a requested subgraph root, which is always sent.
#[test]
fn test_bloom_claimed_block_is_skipped() {
    let mut sender = MemoryBlockStore::new();
    let leaf = sender.put_block(b"claimed".to_vec(), CODEC_RAW);
    let other = sender.put_block(b"wanted".to_vec(), CODEC_RAW);
    let root = sender.put_block(link_block(&[&leaf, &other]), CODEC_DAG_CBOR);

    // a sketch claiming the first leaf (and, spuriously, the root — but
    // roots are always sent)
    let mut bloom = car_mirror::bloom::Bloom { hash_count: 3, bytes: vec![0u8; 64] };
    bloom.insert(leaf.to_bytes().as_slice());
    bloom.insert(root.to_bytes().as_slice());

    let state = ReceiverState {
        missing_subgraph_roots: vec![root.clone()],
        have_cids_bloom: Some(bloom),
    };
    let config = Config::default();
    let car = block_send(root.clone(), Some(state), &config, &sender, &mut NoCache)
        .expect("sends");
    let (_, blocks) = car_mirror::car::parse_car(car.bytes.as_slice()).expect("parses");
    assert!(blocks.iter().any(|(c, _)| c.eq(&root)), "requested roots are always sent");
    assert!(blocks.iter().any(|(c, _)| c.eq(&other)), "unclaimed blocks are sent");
    assert!(!blocks.iter().any(|(c, _)| c.eq(&leaf)), "claimed blocks are skipped");
}

/// A block named by a SHA2-512 multihash verifies and is stored.
#[test]
fn test_sha512_block_verifies() {
    let bytes = b"hashed the long way".to_vec();
    let digest = sha2::Sha512::digest(&bytes).to_vec();
    let root = Cid { version: 1, codec: CODEC_RAW, multihash_code: 0x13, digest };

    let mut car_bytes = Vec::new();
    car_mirror::car::write_header(&root, &mut car_bytes);
    car_mirror::car::write_frame(&root, &bytes, &mut car_bytes);

    let config = Config::default();
    let mut server = MemoryBlockStore::new();
    let state = block_receive(
        root.clone(),
        Some(CarFile { bytes: car_bytes }),
        &config,
        &mut server,
        &mut NoCache,
    )
    .expect("verifies");
    assert!(state.missing_subgraph_roots.is_empty());
    assert_eq!(server.get_block(&root).unwrap(), bytes);
}

/// A frame whose block is already held ends the round there: later
/// frames are not stored, and the answer reports them still missing.
#[test]
fn test_receive_stops_at_already_held_frame() {
    let mut source = MemoryBlockStore::new();
    let leaf = source.put_block(b"the leaf".to_vec(), CODEC_RAW);
    let leaf_bytes = source.get_block(&leaf).unwrap();
    let root = source.put_block(link_block(&[&leaf]), CODEC_DAG_CBOR);
    let root_bytes = source.get_block(&root).unwrap();

    // the receiver already holds the root, but not the leaf
    let mut client = MemoryBlockStore::new();
    client.put_block_keyed(root.clone(), root_bytes.clone());

    // a round replaying the root before the leaf stops at the root frame
    let car_bytes = car_mirror::common::write_blocks_into_car(
        &vec![(root.clone(), root_bytes), (leaf.clone(), leaf_bytes)],
        None,
    );
    let config = Config::default();
    let state = block_receive(
        root.clone(),
        Some(CarFile { bytes: car_bytes }),
        &config,
        &mut client,
        &mut NoCache,
    )
    .expect("the round ends benignly");

    assert!(!client.has_block(&leaf));
    assert_eq!(state.missing_subgraph_roots.len(), 1);
    assert!(state.missing_subgraph_roots[0].eq(&leaf));
}
