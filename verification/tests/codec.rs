//! Byte-level codec behavior: CIDs, CAR framing, and cross-checks against
//! an independent CAR implementation.

use car_mirror::car::{parse_car, parse_frame, parse_header, write_frame, write_header};
use car_mirror::cid::{Cid, cid_decode, CODEC_DAG_CBOR, CODEC_RAW, HASH_SHA2_256};
use car_mirror::store::MemoryBlockStore;

fn demo_cid(seed: u8) -> Cid {
    let mut store = MemoryBlockStore::new();
    store.put_block(vec![seed, seed, seed], CODEC_RAW)
}

#[test]
fn test_cid_encode_decode_round_trip() {
    let cid = demo_cid(7);
    let bytes = cid.to_bytes();
    let (parsed, end) = cid_decode(bytes.as_slice(), 0).expect("decodes");
    assert_eq!(end, bytes.len());
    assert!(parsed.eq(&cid));
    assert_eq!(parsed.version, 1);
    assert_eq!(parsed.codec, CODEC_RAW);
    assert_eq!(parsed.multihash_code, HASH_SHA2_256);
    assert_eq!(parsed.digest.len(), 32);
}

#[test]
fn test_cid_decode_rejects_garbage() {
    assert!(cid_decode(&[0xff, 0xff, 0xff], 0).is_none());
    assert!(cid_decode(&[], 0).is_none());
}

#[test]
fn test_car_write_parse_round_trip() {
    let a = demo_cid(1);
    let b = demo_cid(2);
    let mut bytes = Vec::new();
    write_header(&a, &mut bytes);
    write_frame(&a, &[1, 1, 1], &mut bytes);
    write_frame(&b, &[2, 2, 2], &mut bytes);
    let (root, blocks) = parse_car(bytes.as_slice()).expect("parses");
    assert!(root.eq(&a));
    assert_eq!(blocks.len(), 2);
    assert!(blocks[0].0.eq(&a));
    assert_eq!(blocks[0].1, vec![1, 1, 1]);
    assert!(blocks[1].0.eq(&b));
    assert_eq!(blocks[1].1, vec![2, 2, 2]);
}

#[test]
fn test_parse_header_rejects_truncation() {
    let a = demo_cid(3);
    let mut bytes = Vec::new();
    write_header(&a, &mut bytes);
    for cut in 0..bytes.len() {
        assert!(parse_header(&bytes[..cut], 0).is_none());
    }
    assert!(parse_header(bytes.as_slice(), 0).is_some());
}

#[test]
fn test_parse_frame_offsets() {
    let a = demo_cid(4);
    let mut bytes = Vec::new();
    write_frame(&a, b"hello", &mut bytes);
    let ((cid, block), end) = parse_frame(bytes.as_slice(), 0).expect("parses");
    assert!(cid.eq(&a));
    assert_eq!(block, b"hello".to_vec());
    assert_eq!(end, bytes.len());
}

/// Our CAR bytes must be readable by an independent implementation, and
/// theirs by ours.
#[test]
fn test_car_cross_check_with_independent_reader() {
    let a = demo_cid(5);
    let mut ours = Vec::new();
    write_header(&a, &mut ours);
    write_frame(&a, &[5, 5, 5], &mut ours);

    let ext_cid = ipld_core::cid::Cid::try_from(a.to_bytes().as_slice()).unwrap();
    futures::executor::block_on(async {
        let reader = iroh_car::CarReader::new(ours.as_slice()).await.expect("header");
        assert_eq!(reader.header().roots(), &[ext_cid]);
        let mut found = Vec::new();
        let mut r = reader;
        while let Some((cid, data)) = r.next_block().await.expect("frame") {
            found.push((cid, data));
        }
        assert_eq!(found.len(), 1);
        assert_eq!(found[0].0, ext_cid);
        assert_eq!(found[0].1, vec![5, 5, 5]);

        // and the reverse direction: their writer, our parser
        let header = iroh_car::CarHeader::new_v1(vec![ext_cid]);
        let mut writer = iroh_car::CarWriter::new(header, Vec::new());
        writer.write(ext_cid, vec![5, 5, 5]).await.expect("write");
        let theirs = writer.finish().await.expect("finish");
        let (root, blocks) = parse_car(theirs.as_slice()).expect("our parser reads theirs");
        assert!(root.eq(&a));
        assert_eq!(blocks.len(), 1);
        assert!(blocks[0].0.eq(&a));
        assert_eq!(blocks[0].1, vec![5, 5, 5]);
    });
}

#[test]
fn test_bloom_insert_then_contains() {
    let mut bloom = car_mirror::bloom::Bloom { hash_count: 3, bytes: vec![0u8; 32] };
    let item = demo_cid(6).to_bytes();
    assert!(!bloom.contains(item.as_slice()));
    bloom.insert(item.as_slice());
    assert!(bloom.contains(item.as_slice()));
    let other = demo_cid(7).to_bytes();
    assert!(!bloom.contains(other.as_slice()));
}

/// The legacy 34-byte form decodes to a version 0 CID and re-encodes to
/// the same bytes.
#[test]
fn test_cid_version_zero_round_trip() {
    let mut bytes = vec![0x12u8, 0x20];
    bytes.extend_from_slice(&[0xabu8; 32]);
    let (cid, end) = cid_decode(bytes.as_slice(), 0).expect("decodes");
    assert_eq!(end, 34);
    assert_eq!(cid.version, 0);
    assert_eq!(cid.multihash_code, HASH_SHA2_256);
    assert_eq!(cid.to_bytes(), bytes);
}

/// The default configuration carries the documented limits.
#[test]
fn test_default_config() {
    let config = car_mirror::common::Config::default();
    assert_eq!(config.receive_maximum, 2_000_000);
    assert_eq!(config.max_block_size, 1_000_000);
    assert_eq!(config.max_roots_per_round, 1000);
    assert_eq!(config.bloom_fpr_base, 1000);
    assert_eq!(config.bloom_fpr_factor, 10);
}

/// A round-trip through the header parser of a DAG-CBOR root.
#[test]
fn test_header_round_trip_dag_cbor_root() {
    let mut store = MemoryBlockStore::new();
    let root = store.put_block(vec![0xa0], CODEC_DAG_CBOR);
    let mut bytes = Vec::new();
    write_header(&root, &mut bytes);
    let (parsed, end) = parse_header(bytes.as_slice(), 0).expect("parses");
    assert!(parsed.eq(&root));
    assert_eq!(end, bytes.len());
}

/// The store names blocks by the SHA2-256 of their bytes: check against
/// the well-known digest of `"abc"`.
#[test]
fn test_store_cid_digest_is_sha256() {
    let mut store = MemoryBlockStore::new();
    let cid = store.put_block(b"abc".to_vec(), CODEC_RAW);
    let expected = [
        0xbau8, 0x78, 0x16, 0xbf, 0x8f, 0x01, 0xcf, 0xea, 0x41, 0x41, 0x40, 0xde, 0x5d, 0xae,
        0x22, 0x23, 0xb0, 0x03, 0x61, 0xa3, 0x96, 0x17, 0x7a, 0x9c, 0xb4, 0x10, 0xff, 0x61,
        0xf2, 0x00, 0x15, 0xad,
    ];
    assert_eq!(cid.digest, expected.to_vec());

    let other = store.put_block(b"abd".to_vec(), CODEC_RAW);
    assert!(!other.eq(&cid));
    let again = store.put_block(b"abc".to_vec(), CODEC_RAW);
    assert!(again.eq(&cid));
}
