//! The protocol core, shared by the push and pull sides: sending blocks
//! below a root that the other end misses, and receiving blocks under
//! incremental verification.

use vstd::prelude::*;
use crate::bloom::Bloom;
use crate::cache::{Cache, cache_valid};
use crate::car::{car_file, car_frame, car_header, blocks_view, write_header, write_frame,
    parse_header, parse_frame, lemma_cid_bytes_len};
use crate::cid::{Cid, CidData, cid_wf, cid_bytes};
use crate::dag::{reachable_from, store_complete, store_parseable, lemma_reachable_trans};
use crate::error::{BlockStoreError, Error};
use crate::incremental_verification::{BlockState, IncrementalDagVerification, fpr_denominator};
use crate::messages::ReceiverState;
use crate::references::{cids_view, cids_wf};
use crate::store::MemoryBlockStore;
use crate::varint::is_at;

verus! {

/// Configuration values, such as byte limits, for a protocol run.
#[derive(Debug, Clone)]
pub struct Config {
    /// The maximum number of bytes per request that a recipient accepts.
    pub receive_maximum: usize,
    /// The maximum number of bytes per block.
    pub max_block_size: usize,
    /// The maximum number of missing roots a recipient requests per round.
    pub max_roots_per_round: usize,
    /// Base of the target inverse false-positive rate of the bloom
    /// sketch: the target rate for `n` elements is one in
    /// `max(bloom_fpr_base, bloom_fpr_factor * n)`.
    pub bloom_fpr_base: u64,
    /// Per-element factor of the target inverse false-positive rate.
    pub bloom_fpr_factor: u64,
}

impl Config {
    /// Limits are usable: nothing is capped to nothing.
    pub open spec fn wf(&self) -> bool {
        &&& self.receive_maximum >= 1
        &&& self.max_block_size >= 1
        &&& crate::store::block_len_ok(self.max_block_size as int)
        &&& self.max_roots_per_round >= 1
    }
}

impl Default for Config {
    /// The default limits: 2 MB per round, 1 MB per block, a thousand
    /// roots per round, and a false-positive target of one in
    /// `max(1000, 10 * n)`.
    fn default() -> (r: Config)
        ensures
            r.receive_maximum == 2_000_000,
            r.max_block_size == 1_000_000,
            r.max_roots_per_round == 1000,
            r.bloom_fpr_base == 1000,
            r.bloom_fpr_factor == 10,
            r.wf(),
    {
        Config {
            receive_maximum: 2_000_000,
            max_block_size: 1_000_000,
            max_roots_per_round: 1000,
            bloom_fpr_base: 1000,
            bloom_fpr_factor: 10,
        }
    }
}

/// Bytes that are supposed to be a CAR file.
#[derive(Debug)]
pub struct CarFile {
    /// The file contents.
    pub bytes: Vec<u8>,
}

/// Whether `v` holds a CID with the value of `c`.
pub fn cids_contain(v: &Vec<Cid>, c: &Cid) -> (r: bool)
    ensures
        r <==> cids_view(v@).contains(c@),
{
    let mut i: usize = 0;
    while i < v.len()
        invariant
            0 <= i <= v@.len(),
            forall|j: int| 0 <= j < i ==> cids_view(v@)[j] != c@,
        decreases v@.len() - i,
    {
        if v[i].eq(c) {
            assert(cids_view(v@)[i as int] == c@);
            return true;
        }
        proof {
            assert(cids_view(v@)[i as int] == v@[i as int]@);
        }
        i += 1;
    }
    assert(forall|j: int| 0 <= j < cids_view(v@).len() ==> cids_view(v@)[j] != c@);
    false
}

/// The sender's skip rule: a block is skipped exactly when the receiver's
/// sketch claims to have it and it is not one of the requested subgraph
/// roots.
pub open spec fn should_skip(bloom: Bloom, roots: Seq<CidData>, c: CidData) -> bool {
    bloom.spec_has(cid_bytes(c)) && !roots.contains(c)
}

/// Whether the sender skips this block: the sketch claims it and it is
/// not a requested subgraph root.
pub fn should_block_be_skipped(cid: &Cid, bloom: &Bloom, subgraph_roots: &Vec<Cid>) -> (r: bool)
    requires
        bloom.wf(),
    ensures
        r == should_skip(*bloom, cids_view(subgraph_roots@), cid@),
{
    let enc = cid.to_bytes();
    bloom.contains(enc.as_slice()) && !cids_contain(subgraph_roots, cid)
}

/// Keep the requested subgraph roots that are part of the DAG below
/// `root`: walk breadth-first from `root` and collect, in visit order,
/// every CID that the request names. Requested roots unrelated to the
/// DAG are dropped; the sender never serves data unrelated to the root.
///
/// Fails with the missing CID when the sender's own DAG is incomplete,
/// and with a parse failure when a block of the DAG cannot be read for
/// links.
pub fn verify_missing_subgraph_roots<C: Cache>(
    root: &Cid,
    missing_subgraph_roots: &Vec<Cid>,
    store: &MemoryBlockStore,
    cache: &mut C,
) -> (r: Result<Vec<Cid>, Error>)
    requires
        root.wf(),
        store.wf(),
        old(cache).wf(),
        cache_valid(old(cache), store@),
    ensures
        final(cache).wf(),
        cache_valid(final(cache), store@),
        match r {
            Ok(v) => {
                &&& cids_wf(cids_view(v@))
                &&& cids_view(v@).no_duplicates()
                &&& forall|c: CidData|
                    #[trigger] cids_view(v@).contains(c) <==> reachable_from(
                        store@,
                        Set::empty().insert(root@),
                        c,
                    ) && cids_view(missing_subgraph_roots@).contains(c)
                &&& store_complete(store@, Set::empty().insert(root@))
                &&& store_parseable(store@, Set::empty().insert(root@))
                &&& cids_view(missing_subgraph_roots@).contains(root@) && v@.len() > 0
                    ==> cids_view(v@)[0] == root@
            },
            Err(e) => match e {
                Error::BlockStoreError(BlockStoreError::CIDNotFound(c)) => reachable_from(
                    store@,
                    Set::empty().insert(root@),
                    c@,
                ) && !store@.dom().contains(c@),
                Error::UnsupportedCodec { .. } | Error::ParsingError => !store_parseable(
                    store@,
                    Set::empty().insert(root@),
                ),
                _ => false,
            },
        },
{
    let ghost m = store@;
    let ghost rset = Set::empty().insert(root@);
    let mut roots_vec: Vec<Cid> = Vec::new();
    roots_vec.push(root.clone());
    proof {
        assert(cids_view(roots_vec@) =~= seq![root@]);
        assert(cids_view(roots_vec@).to_set() =~= rset) by {
            assert forall|x: CidData| cids_view(roots_vec@).to_set().contains(x) implies rset.contains(
                x,
            ) by {
                let i = choose|i: int|
                    0 <= i < cids_view(roots_vec@).len() && cids_view(roots_vec@)[i] == x;
            }
            assert(cids_view(roots_vec@)[0] == root@);
            assert(cids_view(roots_vec@).contains(root@));
        }
    }
    let ghost rvseq = cids_view(roots_vec@);
    let visited = match crate::dag_walk::collect_reachable(roots_vec, store, cache) {
        Ok(v) => v,
        Err(e) => {
            proof {
                match e {
                    Error::UnsupportedCodec { .. } | Error::ParsingError => {
                        let c = choose|c: CidData|
                            reachable_from(m, rvseq.to_set(), c) && #[trigger] m.dom().contains(c)
                                && crate::references::block_refs(c, m[c]) is None;
                        assert(!store_parseable(m, rset));
                    },
                    _ => {},
                }
            }
            return Err(e);
        },
    };
    let ghost vis = cids_view(visited@);
    proof {
        assert forall|c: CidData| reachable_from(m, rset, c) implies #[trigger] m.dom().contains(c)
            && crate::references::block_refs(c, m[c]) is Some by {
            assert(vis.contains(c));
        }
    }
    let mut collected: Vec<Cid> = Vec::new();
    let mut i: usize = 0;
    while i < visited.len()
        invariant
            0 <= i <= visited@.len(),
            vis == cids_view(visited@),
            cids_wf(vis),
            vis.no_duplicates(),
            cids_wf(cids_view(collected@)),
            cids_view(collected@).no_duplicates(),
            forall|c: CidData|
                #[trigger] cids_view(collected@).contains(c) <==> vis.subrange(
                    0,
                    i as int,
                ).contains(c) && cids_view(missing_subgraph_roots@).contains(c),
            collected@.len() > 0 && vis.len() > 0 && cids_view(missing_subgraph_roots@).contains(
                vis[0],
            ) ==> cids_view(collected@)[0] == vis[0],
            collected@.len() == 0 && vis.len() > 0 && i > 0 ==> !cids_view(
                missing_subgraph_roots@,
            ).contains(vis[0]),
        decreases visited@.len() - i,
    {
        let cid = &visited[i];
        proof {
            assert(vis[i as int] == visited@[i as int]@);
            assert(vis.subrange(0, i + 1).drop_last() =~= vis.subrange(0, i as int));
            assert(vis.subrange(0, i + 1).last() == vis[i as int]);
        }
        let ghost pre = cids_view(collected@);
        if cids_contain(missing_subgraph_roots, cid) {
            collected.push(cid.clone());
            proof {
                assert(cids_view(collected@) =~= pre.push(vis[i as int]));
                assert forall|c: CidData| #[trigger] cids_view(collected@).contains(c) implies
                    vis.subrange(0, i + 1).contains(c) && cids_view(
                    missing_subgraph_roots@,
                ).contains(c) by {
                    let j = choose|j: int|
                        0 <= j < cids_view(collected@).len() && cids_view(collected@)[j] == c;
                    if j < pre.len() {
                        assert(pre[j] == c);
                        assert(pre.contains(c));
                        let k = choose|k: int|
                            0 <= k < vis.subrange(0, i as int).len() && #[trigger] vis.subrange(
                                0,
                                i as int,
                            )[k] == c;
                        assert(vis.subrange(0, i + 1)[k] == c);
                    } else {
                        assert(cids_view(collected@)[j] == vis[i as int]);
                        assert(vis.subrange(0, i + 1)[i as int] == vis[i as int]);
                    }
                }
                assert forall|c: CidData|
                    vis.subrange(0, i + 1).contains(c) && cids_view(
                        missing_subgraph_roots@,
                    ).contains(c) implies #[trigger] cids_view(collected@).contains(c) by {
                    let k = choose|k: int|
                        0 <= k < vis.subrange(0, i + 1).len() && #[trigger] vis.subrange(0, i + 1)[k] == c;
                    if k < i {
                        assert(vis.subrange(0, i as int)[k] == c);
                        assert(pre.contains(c));
                        let j = choose|j: int| 0 <= j < pre.len() && pre[j] == c;
                        assert(cids_view(collected@)[j] == c);
                    } else {
                        assert(c == vis[i as int]);
                        assert(cids_view(collected@)[pre.len() as int] == c);
                    }
                }
                assert(!pre.contains(vis[i as int])) by {
                    if pre.contains(vis[i as int]) {
                        let k = choose|k: int|
                            0 <= k < vis.subrange(0, i as int).len() && #[trigger] vis.subrange(
                                0,
                                i as int,
                            )[k] == vis[i as int];
                        assert(vis[k] == vis[i as int]);
                    }
                }
                assert(cids_view(collected@).no_duplicates());
                if pre.len() == 0 {
                    assert(cids_view(collected@)[0] == vis[i as int]);
                    if i > 0 && vis.len() > 0 {
                        assert(!cids_view(missing_subgraph_roots@).contains(vis[0]));
                    }
                }
            }
        } else {
            proof {
                assert forall|c: CidData|
                    vis.subrange(0, i + 1).contains(c) && cids_view(
                        missing_subgraph_roots@,
                    ).contains(c) implies #[trigger] cids_view(collected@).contains(c) by {
                    let k = choose|k: int|
                        0 <= k < vis.subrange(0, i + 1).len() && #[trigger] vis.subrange(0, i + 1)[k] == c;
                    if k < i {
                        assert(vis.subrange(0, i as int)[k] == c);
                    } else {
                        assert(c == vis[i as int]);
                    }
                }
                assert forall|c: CidData| #[trigger] cids_view(collected@).contains(c) implies
                    vis.subrange(0, i + 1).contains(c) && cids_view(
                    missing_subgraph_roots@,
                ).contains(c) by {
                    assert(vis.subrange(0, i as int).contains(c));
                    let k = choose|k: int|
                        0 <= k < vis.subrange(0, i as int).len() && #[trigger] vis.subrange(0, i as int)[k]
                            == c;
                    assert(vis.subrange(0, i + 1)[k] == c);
                }
            }
        }
        i += 1;
    }
    proof {
        assert(vis.subrange(0, vis.len() as int) =~= vis);
        assert forall|c: CidData| #[trigger] cids_view(collected@).contains(c) implies
            reachable_from(m, rset, c) && cids_view(missing_subgraph_roots@).contains(c) by {
            assert(vis.contains(c));
        }
        assert forall|c: CidData|
            reachable_from(m, rset, c) && cids_view(missing_subgraph_roots@).contains(c) implies
            #[trigger] cids_view(collected@).contains(c) by {
            assert(vis.contains(c));
        }
        if cids_view(missing_subgraph_roots@).contains(root@) && collected@.len() > 0 {
            assert(rvseq.len() > 0);
            assert(vis.len() > 0 && vis[0] == rvseq[0]);
            assert(cids_view(collected@)[0] == root@);
        }
    }
    Ok(collected)
}

/// A requested subgraph root that the sender validated: reachable from
/// the root and actually requested.
pub open spec fn validated(
    m: Map<CidData, Seq<u8>>,
    root: CidData,
    missing: Seq<CidData>,
    c: CidData,
) -> bool {
    reachable_from(m, Set::empty().insert(root), c) && missing.contains(c)
}

/// The set of validated subgraph roots.
pub open spec fn validated_set(
    m: Map<CidData, Seq<u8>>,
    root: CidData,
    missing: Seq<CidData>,
) -> Set<CidData> {
    Set::new(|c: CidData| validated(m, root, missing, c))
}

/// The CID values of a ghost block list, in order.
pub open spec fn data_block_cids(bs: Seq<(CidData, Seq<u8>)>) -> Seq<CidData> {
    bs.map_values(|p: (CidData, Seq<u8>)| p.0)
}

/// What a successful send-stream run yields, relative to the store, the
/// root, the requested missing roots, and the sketch the request carried:
/// a duplicate-free block list holding exactly the blocks reachable from
/// the validated roots that the skip rule keeps, each with its stored
/// bytes, led by a validated root whenever one exists.
pub open spec fn send_stream_ok(
    m: Map<CidData, Seq<u8>>,
    root: CidData,
    missing: Seq<CidData>,
    prior_bloom: Option<Bloom>,
    bloom: Bloom,
    bs: Seq<(CidData, Seq<u8>)>,
) -> bool {
    &&& bloom.wf()
    &&& match prior_bloom {
        Some(b) => bloom == b,
        None => forall|x: Seq<u8>| !bloom.spec_has(x),
    }
    &&& crate::car::blocks_wf(bs)
    &&& data_block_cids(bs).no_duplicates()
    &&& forall|i: int|
        0 <= i < bs.len() ==> m.dom().contains((#[trigger] bs[i]).0) && bs[i].1 == m[bs[i].0]
    &&& forall|c: CidData|
        #[trigger] data_block_cids(bs).contains(c) <==> reachable_from(
            m,
            validated_set(m, root, missing),
            c,
        ) && !sender_skips(bloom, m, root, missing, c)
    &&& (exists|c: CidData| #[trigger] validated(m, root, missing, c)) ==> bs.len() > 0
        && validated(m, root, missing, bs[0].0)
    &&& (missing.contains(root) && bs.len() > 0 ==> bs[0].0 == root)
    // breadth first, the validated subgraph roots are served before any
    // deeper block
    &&& forall|i: int, j: int|
        0 <= i < j < bs.len() && validated(m, root, missing, (#[trigger] bs[j]).0) ==> validated(
            m,
            root,
            missing,
            (#[trigger] bs[i]).0,
        )
}

/// The CID values of a block list, in order.
pub open spec fn block_cids(v: Seq<(Cid, Vec<u8>)>) -> Seq<CidData> {
    v.map_values(|p: (Cid, Vec<u8>)| p.0@)
}

/// The sender's skip rule over the request: skipped iff the sketch
/// claims the CID and it is not a validated subgraph root.
pub open spec fn sender_skips(
    bloom: Bloom,
    m: Map<CidData, Seq<u8>>,
    root: CidData,
    missing: Seq<CidData>,
    c: CidData,
) -> bool {
    bloom.spec_has(cid_bytes(c)) && !validated(m, root, missing, c)
}

/// Produce the blocks a sender emits for one round, unframed: walk
/// breadth-first from the validated subgraph roots and emit every
/// traversed block the skip rule does not drop, with its bytes from the
/// store.
pub fn block_send_block_stream<C: Cache>(
    root: Cid,
    last_state: Option<ReceiverState>,
    store: &MemoryBlockStore,
    cache: &mut C,
) -> (r: Result<Vec<(Cid, Vec<u8>)>, Error>)
    requires
        root.wf(),
        store.wf(),
        old(cache).wf(),
        cache_valid(old(cache), store@),
        last_state matches Some(s) ==> s.wf(),
    ensures
        final(cache).wf(),
        cache_valid(final(cache), store@),
        ({
            let missing = match last_state {
                Some(s) => cids_view(s.missing_subgraph_roots@),
                None => seq![root@],
            };
            match r {
                Ok(bs) => exists|bloom: Bloom|
                    #![trigger bloom.wf()]
                    send_stream_ok(
                        store@,
                        root@,
                        missing,
                        match last_state {
                            Some(s) => s.have_cids_bloom,
                            None => None,
                        },
                        bloom,
                        blocks_view(bs@),
                    ),
                Err(e) => match e {
                    Error::BlockStoreError(BlockStoreError::CIDNotFound(c)) => reachable_from(
                        store@,
                        Set::empty().insert(root@),
                        c@,
                    ) && !store@.dom().contains(c@) && !store_complete(
                        store@,
                        Set::empty().insert(root@),
                    ),
                    Error::UnsupportedCodec { .. } | Error::ParsingError => !store_parseable(
                        store@,
                        Set::empty().insert(root@),
                    ),
                    _ => false,
                },
            }
        }),
{
    let ghost m = store@;
    let (missing_vec, bloom_opt) = match last_state {
        Some(s) => (s.missing_subgraph_roots, s.have_cids_bloom),
        None => {
            let mut v: Vec<Cid> = Vec::new();
            v.push(root.clone());
            proof {
                assert(cids_view(v@) =~= seq![root@]);
            }
            (v, None)
        },
    };
    let ghost missing = cids_view(missing_vec@);
    let ghost prior = bloom_opt;
    let subgraph_roots = match verify_missing_subgraph_roots(&root, &missing_vec, store, cache) {
        Ok(v) => v,
        Err(e) => {
            proof {
                match &e {
                    Error::BlockStoreError(BlockStoreError::CIDNotFound(c)) => {
                        assert(reachable_from(m, Set::empty().insert(root@), c@));
                        assert(!m.dom().contains(c@));
                        assert(!store_complete(m, Set::empty().insert(root@)));
                    },
                    _ => {},
                }
            }
            return Err(e);
        },
    };
    let ghost sub = cids_view(subgraph_roots@);
    let bloom = handle_missing_bloom(bloom_opt);
    proof {
        assert forall|c: CidData| #[trigger] sub.contains(c) implies validated(
            m,
            root@,
            missing,
            c,
        ) by {}
        assert forall|c: CidData| validated(m, root@, missing, c) implies #[trigger] sub.contains(
            c,
        ) by {}
        assert(sub.to_set() =~= validated_set(m, root@, missing)) by {
            assert forall|c: CidData| sub.to_set().contains(c) implies validated_set(
                m,
                root@,
                missing,
            ).contains(c) by {
                let i = choose|i: int| 0 <= i < sub.len() && sub[i] == c;
                assert(sub.contains(c));
            }
        }
    }
    let roots_copy = crate::references::clone_cids(&subgraph_roots);
    proof {
        assert(cids_view(roots_copy@) == sub);
    }
    let visited = match crate::dag_walk::collect_reachable(roots_copy, store, cache) {
        Ok(v) => v,
        Err(e) => {
            proof {
                match &e {
                    Error::BlockStoreError(BlockStoreError::CIDNotFound(c)) => {
                        assert(reachable_from(m, sub.to_set(), c@));
                        assert forall|x: CidData| sub.to_set().contains(x) implies reachable_from(
                            m,
                            Set::empty().insert(root@),
                            x,
                        ) by {
                            assert(sub.contains(x));
                        }
                        lemma_reachable_trans(m, Set::empty().insert(root@), sub.to_set(), c@);
                        assert(!store_complete(m, Set::empty().insert(root@)));
                    },
                    Error::UnsupportedCodec { .. } | Error::ParsingError => {
                        let c = choose|c: CidData|
                            reachable_from(m, sub.to_set(), c) && #[trigger] m.dom().contains(c)
                                && crate::references::block_refs(c, m[c]) is None;
                        assert forall|x: CidData| sub.to_set().contains(x) implies reachable_from(
                            m,
                            Set::empty().insert(root@),
                            x,
                        ) by {
                            assert(sub.contains(x));
                        }
                        lemma_reachable_trans(m, Set::empty().insert(root@), sub.to_set(), c);
                        assert(!store_parseable(m, Set::empty().insert(root@)));
                    },
                    _ => {},
                }
            }
            return Err(e);
        },
    };
    let ghost vis = cids_view(visited@);
    proof {
        store.lemma_blocks_bounded();
        if vis.len() > 0 {
            assert(vis.contains(vis[0]));
            assert(reachable_from(m, sub.to_set(), vis[0]));
            let p = choose|p: Seq<CidData>|
                #[trigger] crate::dag::is_path(m, p) && p.len() > 0 && sub.to_set().contains(p[0])
                    && p.last() == vis[0];
            assert(sub.to_set().contains(p[0]));
            assert(sub.contains(p[0]));
            assert(sub.len() > 0);
            assert(vis[0] == sub[0]);
            assert(sub.contains(sub[0]));
        }
    }
    let mut out: Vec<(Cid, Vec<u8>)> = Vec::new();
    let mut i: usize = 0;
    while i < visited.len()
        invariant
            store.wf(),
            m == store@,
            bloom.wf(),
            0 <= i <= visited@.len(),
            vis == cids_view(visited@),
            cids_wf(vis),
            vis.no_duplicates(),
            sub == cids_view(subgraph_roots@),
            forall|c: CidData|
                #[trigger] vis.contains(c) ==> m.dom().contains(c),
            forall|k: CidData|
                m.dom().contains(k) ==> crate::store::block_len_ok((#[trigger] m[k]).len() as int),
            crate::car::blocks_wf(blocks_view(out@)),
            cids_wf(block_cids(out@)),
            block_cids(out@).no_duplicates(),
            forall|j: int|
                0 <= j < out@.len() ==> m.dom().contains((#[trigger] blocks_view(out@)[j]).0)
                    && blocks_view(out@)[j].1 == m[blocks_view(out@)[j].0],
            forall|c: CidData|
                #[trigger] block_cids(out@).contains(c) <==>
                    vis.subrange(0, i as int).contains(c) && !(bloom.spec_has(cid_bytes(c))
                    && !sub.contains(c)),
            vis.len() > 0 ==> vis[0] == sub[0] && sub.contains(sub[0]),
            i > 0 && vis.len() > 0 ==> out@.len() > 0 && block_cids(out@)[0] == vis[0],
            sub.no_duplicates(),
            sub.len() <= vis.len(),
            vis.take(sub.len() as int) == sub,
            i <= sub.len() ==> (forall|p: int|
                0 <= p < block_cids(out@).len() ==> sub.contains(#[trigger] block_cids(out@)[p])),
            forall|p: int, q: int|
                0 <= p < q < block_cids(out@).len() && sub.contains(
                    #[trigger] block_cids(out@)[q],
                ) ==> sub.contains(#[trigger] block_cids(out@)[p]),
        decreases visited@.len() - i,
    {
        let cid = &visited[i];
        proof {
            assert(vis[i as int] == visited@[i as int]@);
            assert(vis.contains(vis[i as int]));
            assert(vis.subrange(0, i + 1).drop_last() =~= vis.subrange(0, i as int));
            assert(vis.subrange(0, i + 1).last() == vis[i as int]);
        }
        let ghost pre = block_cids(out@);
        let ghost bpre = blocks_view(out@);
        if !should_block_be_skipped(cid, &bloom, &subgraph_roots) {
            let bytes = match store.get_block(cid) {
                Some(b) => b,
                None => {
                    proof {
                        assert(false);
                    }
                    Vec::new()
                },
            };
            out.push((cid.clone(), bytes));
            proof {
                let now = block_cids(out@);
                assert(now =~= pre.push(vis[i as int]));
                assert(blocks_view(out@) =~= bpre.push((vis[i as int], m[vis[i as int]])));
                assert(!pre.contains(vis[i as int])) by {
                    if pre.contains(vis[i as int]) {
                        assert(vis.subrange(0, i as int).contains(vis[i as int]));
                        let k = choose|k: int|
                            0 <= k < i && #[trigger] vis.subrange(0, i as int)[k] == vis[i as int];
                        assert(vis[k] == vis[i as int]);
                    }
                }
                assert forall|c: CidData| #[trigger] now.contains(c) implies vis.subrange(
                    0,
                    i + 1,
                ).contains(c) && !(bloom.spec_has(cid_bytes(c)) && !sub.contains(c)) by {
                    let j = choose|j: int| 0 <= j < now.len() && now[j] == c;
                    if j < pre.len() {
                        assert(pre[j] == c);
                        assert(pre.contains(c));
                        let k = choose|k: int|
                            0 <= k < i && #[trigger] vis.subrange(0, i as int)[k] == c;
                        assert(vis.subrange(0, i + 1)[k] == c);
                    } else {
                        assert(now[j] == vis[i as int]);
                        assert(vis.subrange(0, i + 1)[i as int] == vis[i as int]);
                    }
                }
                assert forall|c: CidData|
                    vis.subrange(0, i + 1).contains(c) && !(bloom.spec_has(cid_bytes(c))
                        && !sub.contains(c)) implies #[trigger] now.contains(c) by {
                    let k = choose|k: int|
                        0 <= k < i + 1 && #[trigger] vis.subrange(0, i + 1)[k] == c;
                    if k < i {
                        assert(vis.subrange(0, i as int)[k] == c);
                        assert(pre.contains(c));
                        let j = choose|j: int| 0 <= j < pre.len() && pre[j] == c;
                        assert(now[j] == c);
                    } else {
                        assert(c == vis[i as int]);
                        assert(now[pre.len() as int] == c);
                    }
                }
                assert(now[0] == pre.push(vis[i as int])[0]);
                assert(now.no_duplicates()) by {
                    assert forall|p: int, q: int| 0 <= p < q < now.len() implies now[p] != now[q] by {
                        if q < pre.len() {
                            assert(now[p] == pre[p] && now[q] == pre[q]);
                        } else {
                            assert(now[p] == pre[p] && now[q] == vis[i as int]);
                            assert(pre.contains(pre[p]));
                        }
                    }
                }
                assert(crate::car::blocks_wf(blocks_view(out@))) by {
                    assert forall|j: int| 0 <= j < blocks_view(out@).len() implies cid_wf(
                        (#[trigger] blocks_view(out@)[j]).0,
                    ) && crate::store::block_len_ok(blocks_view(out@)[j].1.len() as int) by {
                        if j < bpre.len() {
                            assert(blocks_view(out@)[j] == bpre[j]);
                        } else {
                            assert(blocks_view(out@)[j] == (vis[i as int], m[vis[i as int]]));
                            assert(cids_wf(vis));
                            assert(crate::store::block_len_ok(m[vis[i as int]].len() as int));
                        }
                    }
                }
                assert(cids_wf(now)) by {
                    assert forall|j: int| 0 <= j < now.len() implies cid_wf(#[trigger] now[j]) by {
                        if j < pre.len() {
                            assert(now[j] == pre[j]);
                        } else {
                            assert(now[j] == vis[i as int]);
                        }
                    }
                }
                if i == 0 {
                    if pre.len() > 0 {
                        assert(pre.contains(pre[0]));
                    }
                    assert(pre.len() == 0);
                    assert(now[0] == vis[0]);
                } else if vis.len() > 0 {
                    assert(now[0] == pre[0]);
                }
            }
        } else {
            proof {
                let now = block_cids(out@);
                assert forall|c: CidData| #[trigger] now.contains(c) implies vis.subrange(
                    0,
                    i + 1,
                ).contains(c) && !(bloom.spec_has(cid_bytes(c)) && !sub.contains(c)) by {
                    assert(vis.subrange(0, i as int).contains(c));
                    let k = choose|k: int|
                        0 <= k < i && #[trigger] vis.subrange(0, i as int)[k] == c;
                    assert(vis.subrange(0, i + 1)[k] == c);
                }
                assert forall|c: CidData|
                    vis.subrange(0, i + 1).contains(c) && !(bloom.spec_has(cid_bytes(c))
                        && !sub.contains(c)) implies #[trigger] now.contains(c) by {
                    let k = choose|k: int|
                        0 <= k < i + 1 && #[trigger] vis.subrange(0, i + 1)[k] == c;
                    if k < i {
                        assert(vis.subrange(0, i as int)[k] == c);
                    } else {
                        assert(c == vis[i as int]);
                    }
                }
                if i == 0 && vis.len() > 0 {
                    // the first visited CID is a validated root and cannot be
                    // skipped
                    assert(!(bloom.spec_has(cid_bytes(vis[0])) && !sub.contains(vis[0])));
                    assert(false);
                }
            }
        }
        i += 1;
    }
    proof {
        assert(vis.subrange(0, vis.len() as int) =~= vis);
        let outcids = block_cids(out@);
        let vset = validated_set(m, root@, missing);
        assert forall|c: CidData| #[trigger] outcids.contains(c) implies reachable_from(
            m,
            vset,
            c,
        ) && !sender_skips(bloom, m, root@, missing, c) by {
            assert(vis.contains(c));
            assert(reachable_from(m, sub.to_set(), c));
        }
        assert forall|c: CidData|
            reachable_from(m, vset, c) && !sender_skips(bloom, m, root@, missing, c) implies
            #[trigger] outcids.contains(c) by {
            assert(vis.contains(c));
            if bloom.spec_has(cid_bytes(c)) {
                assert(validated(m, root@, missing, c));
                assert(sub.contains(c));
            }
        }
        if exists|c: CidData| #[trigger] validated(m, root@, missing, c) {
            let c = choose|c: CidData| #[trigger] validated(m, root@, missing, c);
            assert(sub.contains(c));
            assert(sub.len() > 0);
            assert(vis.len() > 0 && vis[0] == sub[0]);
            assert(sub.contains(sub[0]));
            assert(validated(m, root@, missing, vis[0]));
            assert(!(bloom.spec_has(cid_bytes(vis[0])) && !sub.contains(vis[0])));
            assert(outcids.contains(vis[0]));
            assert(out@.len() > 0);
            assert(outcids[0] == vis[0]);
            assert(blocks_view(out@)[0].0 == outcids[0]);
        }
        if missing.contains(root@) && out@.len() > 0 {
            assert(cids_view(subgraph_roots@).contains(root@)) by {
                crate::dag::lemma_reachable_root(m, Set::empty().insert(root@), root@);
            }
            assert(sub[0] == root@);
            assert(validated(m, root@, missing, root@));
            assert(vis[0] == sub[0]);
            assert(blocks_view(out@)[0].0 == root@);
        }
        let bsv = blocks_view(out@);
        assert(data_block_cids(bsv) =~= block_cids(out@));
        assert(data_block_cids(bsv).no_duplicates());
        assert forall|j: int|
            0 <= j < bsv.len() implies m.dom().contains((#[trigger] bsv[j]).0) && bsv[j].1
            == m[bsv[j].0] by {}
        assert forall|p: int, q: int|
            0 <= p < q < bsv.len() && validated(m, root@, missing, (#[trigger] bsv[q]).0) implies
            validated(m, root@, missing, (#[trigger] bsv[p]).0) by {
            assert(bsv[q].0 == block_cids(out@)[q]);
            assert(bsv[p].0 == block_cids(out@)[p]);
            assert(sub.contains(block_cids(out@)[q]));
            assert(sub.contains(block_cids(out@)[p]));
        }
        assert(send_stream_ok(m, root@, missing, prior, bloom, bsv));
    }
    Ok(out)
}

/// How many blocks after the first fit the budget: blocks are taken in
/// order while the bytes written so far, plus a conservative reserve of
/// 64 CID bytes and 4 varint bytes, leave the next block within the
/// limit.
pub open spec fn spec_budget_cut(bs: Seq<(CidData, Seq<u8>)>, limit: int, acc: int) -> int
    decreases bs.len(),
{
    if bs.len() == 0 {
        0
    } else if acc + 68 + bs[0].1.len() > limit {
        0
    } else {
        1 + spec_budget_cut(
            bs.drop_first(),
            limit,
            acc + car_frame(bs[0].0, bs[0].1).len(),
        )
    }
}

/// The bytes a sender frames for a block list under an optional byte
/// budget: nothing for no blocks; otherwise a CAR file rooted at the
/// first block's CID, holding the first block always and every further
/// block the budget admits.
pub open spec fn spec_write_car(bs: Seq<(CidData, Seq<u8>)>, limit: Option<int>) -> Seq<u8> {
    if bs.len() == 0 {
        Seq::empty()
    } else {
        let first_len = car_header(bs[0].0).len() + car_frame(bs[0].0, bs[0].1).len();
        let k: int = match limit {
            None => bs.len() as int - 1,
            Some(l) => spec_budget_cut(bs.skip(1), l, first_len as int),
        };
        car_file(bs[0].0, bs.subrange(0, 1 + k))
    }
}

/// Frame a block list into CAR bytes under an optional byte budget.
///
/// The header names the first block's CID, so the header's root always
/// appears in the payload; the first block is always written.
pub fn write_blocks_into_car(blocks: &Vec<(Cid, Vec<u8>)>, size_limit: Option<usize>) -> (r: Vec<
    u8,
>)
    requires
        crate::car::blocks_wf(blocks_view(blocks@)),
    ensures
        r@ == spec_write_car(
            blocks_view(blocks@),
            match size_limit {
                Some(l) => Some(l as int),
                None => None,
            },
        ),
{
    let ghost bs = blocks_view(blocks@);
    let mut out: Vec<u8> = Vec::new();
    if blocks.len() == 0 {
        proof {
            assert(out@ =~= spec_write_car(bs, match size_limit {
                Some(l) => Some(l as int),
                None => None,
            }));
        }
        return out;
    }
    let first = &blocks[0];
    proof {
        assert(bs[0] == (first.0@, first.1@));
        assert(cid_wf(bs[0].0));
    }
    write_header(&first.0, &mut out);
    write_frame(&first.0, first.1.as_slice(), &mut out);
    proof {
        assert(out@ =~= car_header(bs[0].0) + car_frame(bs[0].0, bs[0].1));
        assert(bs.subrange(0, 1) =~= seq![bs[0]]);
        assert(crate::car::car_frames(seq![bs[0]]) =~= car_frame(bs[0].0, bs[0].1)) by {
            assert(seq![bs[0]][0] == bs[0]);
            assert(seq![bs[0]].drop_first() =~= Seq::<(CidData, Seq<u8>)>::empty());
            assert(crate::car::car_frames(seq![bs[0]].drop_first()) =~= Seq::<u8>::empty());
        }
        assert(out@ =~= car_file(bs[0].0, bs.subrange(0, 1)));
    }
    let mut i: usize = 1;
    while i < blocks.len()
        invariant
            crate::car::blocks_wf(bs),
            bs == blocks_view(blocks@),
            1 <= i <= blocks@.len(),
            bs.len() == blocks@.len(),
            out@ == car_file(bs[0].0, bs.subrange(0, i as int)),
            out@.len() >= 1,
            match size_limit {
                Some(l) => spec_budget_cut(bs.skip(1), l as int, (car_header(bs[0].0).len()
                    + car_frame(bs[0].0, bs[0].1).len()) as int) == (i - 1) + spec_budget_cut(
                    bs.skip(i as int),
                    l as int,
                    out@.len() as int,
                ),
                None => true,
            },
        decreases blocks@.len() - i,
    {
        let block = &blocks[i];
        proof {
            assert(bs[i as int] == (block.0@, block.1@));
            assert(cid_wf(bs[i as int].0));
            assert(bs[i as int].1.len() < 0x1000000000000);
            assert(bs.skip(i as int)[0] == bs[i as int]);
            assert(bs.skip(i as int).drop_first() =~= bs.skip(i + 1));
        }
        if let Some(limit) = size_limit {
            let must_fit: u128 = (out.len() as u128) + 68 + (block.1.len() as u128);
            if must_fit > limit as u128 {
                proof {
                    assert(spec_budget_cut(bs.skip(i as int), limit as int, out@.len() as int)
                        == 0);
                    assert(bs.subrange(0, i as int) =~= bs.subrange(0, 1 + ((i - 1) as int)));
                }
                return out;
            }
        }
        let ghost pre_out = out@;
        write_frame(&block.0, block.1.as_slice(), &mut out);
        proof {
            assert(out@ =~= pre_out + car_frame(bs[i as int].0, bs[i as int].1));
            crate::car::lemma_car_frames_push(
                bs.subrange(0, i as int),
                bs[i as int].0,
                bs[i as int].1,
            );
            assert(bs.subrange(0, i as int).push(bs[i as int]) =~= bs.subrange(0, i + 1));
            assert(out@ =~= car_file(bs[0].0, bs.subrange(0, i + 1)));
            if size_limit is Some {
                let l = size_limit.unwrap() as int;
                assert(spec_budget_cut(bs.skip(i as int), l, pre_out.len() as int) == 1
                    + spec_budget_cut(bs.skip(i + 1), l, out@.len() as int));
            }
        }
        i += 1;
    }
    proof {
        assert(bs.subrange(0, bs.len() as int) =~= bs);
        if size_limit is Some {
            let l = size_limit.unwrap() as int;
            assert(bs.skip(bs.len() as int) =~= Seq::<(CidData, Seq<u8>)>::empty());
            assert(spec_budget_cut(bs.skip(bs.len() as int), l, out@.len() as int) == 0);
            assert(bs.subrange(0, bs.len() as int) =~= bs.subrange(
                0,
                1 + (bs.len() - 1),
            ));
        }
    }
    out
}

/// The block-sending side of the protocol: produce a CAR file of blocks
/// below `root` thought missing on the receiving end, bounded by the
/// configured receive maximum.
pub fn block_send<C: Cache>(
    root: Cid,
    last_state: Option<ReceiverState>,
    config: &Config,
    store: &MemoryBlockStore,
    cache: &mut C,
) -> (r: Result<CarFile, Error>)
    requires
        root.wf(),
        store.wf(),
        old(cache).wf(),
        cache_valid(old(cache), store@),
        last_state matches Some(s) ==> s.wf(),
    ensures
        final(cache).wf(),
        cache_valid(final(cache), store@),
        ({
            let missing = match last_state {
                Some(s) => cids_view(s.missing_subgraph_roots@),
                None => seq![root@],
            };
            match r {
                Ok(f) => exists|bloom: Bloom, bs: Seq<(CidData, Seq<u8>)>|
                    #![trigger bloom.wf(), crate::car::blocks_wf(bs)]
                    send_stream_ok(
                        store@,
                        root@,
                        missing,
                        match last_state {
                            Some(s) => s.have_cids_bloom,
                            None => None,
                        },
                        bloom,
                        bs,
                    ) && f.bytes@ == spec_write_car(bs, Some(config.receive_maximum as int)),
                Err(e) => match e {
                    Error::BlockStoreError(BlockStoreError::CIDNotFound(c)) => reachable_from(
                        store@,
                        Set::empty().insert(root@),
                        c@,
                    ) && !store@.dom().contains(c@) && !store_complete(
                        store@,
                        Set::empty().insert(root@),
                    ),
                    Error::UnsupportedCodec { .. } | Error::ParsingError => !store_parseable(
                        store@,
                        Set::empty().insert(root@),
                    ),
                    _ => false,
                },
            }
        }),
{
    let blocks = block_send_block_stream(root, last_state, store, cache)?;
    let bytes = write_blocks_into_car(&blocks, Some(config.receive_maximum));
    Ok(CarFile { bytes })
}

/// What the receiver guarantees of its store after a round, whatever the
/// outcome: the store only grew, and every new block's bytes hash to the
/// digest its CID carries and were wanted, that is reachable from the
/// root at the time of acceptance.
pub open spec fn receive_store_ok(
    m0: Map<CidData, Seq<u8>>,
    m: Map<CidData, Seq<u8>>,
    root: CidData,
) -> bool {
    &&& crate::dag::map_extends(m, m0)
    &&& forall|k: CidData|
        #[trigger] m.dom().contains(k) ==> m0.dom().contains(k) || (cid_wf(k) && crate::hashing::digest_of(
            k.multihash_code,
            m[k],
        ) == Some(k.digest) && reachable_from(m, Set::empty().insert(root), k))
}

/// What the receiver state a receiver answers with says of the final
/// store: the missing roots are reachable-but-absent, they are empty
/// exactly when everything reachable is present, and a sketch, when
/// present, covers every reachable present CID.
pub open spec fn receiver_state_ok(
    rs: ReceiverState,
    m: Map<CidData, Seq<u8>>,
    root: CidData,
    max_roots: int,
) -> bool {
    &&& rs.wf()
    &&& cids_view(rs.missing_subgraph_roots@).no_duplicates()
    &&& rs.missing_subgraph_roots@.len() <= max_roots
    &&& forall|c: CidData|
        #[trigger] cids_view(rs.missing_subgraph_roots@).contains(c) ==> reachable_from(
            m,
            Set::empty().insert(root),
            c,
        ) && !m.dom().contains(c)
    &&& (rs.missing_subgraph_roots@.len() == 0 <==> store_complete(m, Set::empty().insert(root)))
    // maximal up to the cap: either every reachable-but-absent CID is
    // reported, or the list is full
    &&& (forall|c: CidData|
        reachable_from(m, Set::empty().insert(root), c) && !m.dom().contains(c)
            ==> #[trigger] cids_view(rs.missing_subgraph_roots@).contains(c))
        || rs.missing_subgraph_roots@.len() == max_roots
    &&& match rs.have_cids_bloom {
        Some(b) => forall|c: CidData|
            reachable_from(m, Set::empty().insert(root), c) && #[trigger] m.dom().contains(c)
                ==> b.spec_has(cid_bytes(c)),
        None => true,
    }
    // a finished answer carries no sketch: with nothing missing there is
    // nothing left to tell the sender to skip
    &&& (rs.missing_subgraph_roots@.len() == 0 ==> rs.have_cids_bloom is None)
}

/// Turn a finished verification into the answer for the sender, keeping
/// at most the configured number of missing roots.
fn state_to_answer(
    dv: &IncrementalDagVerification,
    config: &Config,
    Ghost(m): Ghost<Map<CidData, Seq<u8>>>,
    Ghost(root): Ghost<CidData>,
) -> (r: ReceiverState)
    requires
        config.wf(),
        dv.valid(m),
        dv.roots@ == Set::empty().insert(root),
    ensures
        receiver_state_ok(r, m, root, config.max_roots_per_round as int),
{
    let mut rs = dv.into_receiver_state(config.bloom_fpr_base, config.bloom_fpr_factor);
    let ghost full = cids_view(rs.missing_subgraph_roots@);
    rs.missing_subgraph_roots.truncate(config.max_roots_per_round);
    proof {
        let now = cids_view(rs.missing_subgraph_roots@);
        let keep = if full.len() <= config.max_roots_per_round as int {
            full.len() as int
        } else {
            config.max_roots_per_round as int
        };
        assert(now =~= full.subrange(0, keep));
        assert(cids_wf(now)) by {
            assert forall|i: int| 0 <= i < now.len() implies cid_wf(#[trigger] now[i]) by {
                assert(now[i] == full[i]);
            }
        }
        assert(now.no_duplicates()) by {
            assert forall|p: int, q: int| 0 <= p < q < now.len() implies now[p] != now[q] by {
                assert(now[p] == full[p] && now[q] == full[q]);
            }
        }
        assert forall|c: CidData| #[trigger] now.contains(c) implies reachable_from(
            m,
            Set::empty().insert(root),
            c,
        ) && !m.dom().contains(c) by {
            let i = choose|i: int| 0 <= i < now.len() && now[i] == c;
            assert(full[i] == c);
            assert(full.contains(c));
            assert(dv.want_cids@.contains(c));
        }
        assert((forall|c: CidData|
            reachable_from(m, Set::empty().insert(root), c) && !m.dom().contains(c)
                ==> #[trigger] now.contains(c)) || rs.missing_subgraph_roots@.len()
            == config.max_roots_per_round) by {
            if full.len() <= config.max_roots_per_round as int {
                assert(now =~= full);
                assert forall|c: CidData|
                    reachable_from(m, Set::empty().insert(root), c) && !m.dom().contains(c)
                    implies #[trigger] now.contains(c) by {
                    assert(dv.want_cids@.contains(c));
                    assert(dv.want_cids.seq().contains(c));
                }
            }
        }
        assert(rs.missing_subgraph_roots@.len() == 0 <==> store_complete(
            m,
            Set::empty().insert(root),
        )) by {
            if now.len() == 0 {
                assert(full.len() == 0);
                assert forall|c: CidData|
                    reachable_from(m, Set::empty().insert(root), c) implies #[trigger] m.dom().contains(
                    c,
                ) by {
                    if !m.dom().contains(c) {
                        assert(dv.want_cids@.contains(c));
                        assert(dv.want_cids.seq().contains(c));
                    }
                }
            } else {
                assert(full.contains(full[0]));
                assert(dv.want_cids@.contains(full[0]));
            }
        }
        match &rs.have_cids_bloom {
            Some(b) => {
                assert forall|c: CidData|
                    reachable_from(m, Set::empty().insert(root), c) && #[trigger] m.dom().contains(
                        c,
                    ) implies b.spec_has(cid_bytes(c)) by {
                    assert(dv.have_cids@.contains(c));
                }
            },
            None => {},
        }
        if rs.missing_subgraph_roots@.len() == 0 {
            // truncation to a positive cap empties nothing nonempty, so
            // the untruncated want list was empty and no sketch was built
            assert(full.len() == 0);
            assert(dv.want_cids.seq().len() == 0);
            assert(rs.have_cids_bloom is None);
        }
    }
    rs
}

/// The round's bytes owe their first block to the receiver: they are a
/// well-formed CAR whose first block is within the block size limit,
/// reachable from the root but absent, and hashes to its CID's digest —
/// and the receiver's own store parses cleanly.
pub open spec fn car_first_owed(
    bytes: Seq<u8>,
    m0: Map<CidData, Seq<u8>>,
    root: CidData,
    max_block: int,
    root0: CidData,
    frames: Seq<(CidData, Seq<u8>)>,
) -> bool {
    &&& cid_wf(root0)
    &&& crate::car::blocks_wf(frames)
    &&& bytes == car_file(root0, frames)
    &&& frames.len() > 0
    &&& frames[0].1.len() <= max_block
    &&& reachable_from(m0, Set::empty().insert(root), frames[0].0)
    &&& !m0.dom().contains(frames[0].0)
    &&& crate::hashing::digest_of(frames[0].0.multihash_code, frames[0].1) == Some(
        frames[0].0.digest,
    )
    &&& store_parseable(m0, Set::empty().insert(root))
}

/// The round's bytes open with an oversized block: a well-formed CAR
/// whose first block exceeds the block size limit — while the receiver's
/// own store parses cleanly, so the round gets as far as that block.
pub open spec fn car_first_oversize(
    bytes: Seq<u8>,
    m0: Map<CidData, Seq<u8>>,
    root: CidData,
    max_block: int,
    root0: CidData,
    frames: Seq<(CidData, Seq<u8>)>,
) -> bool {
    &&& cid_wf(root0)
    &&& crate::car::blocks_wf(frames)
    &&& bytes == car_file(root0, frames)
    &&& frames.len() > 0
    &&& frames[0].1.len() > max_block
    &&& store_parseable(m0, Set::empty().insert(root))
}

/// Every reading of `bytes` as a full CAR file names a frame whose CID
/// is `c` and whose payload holds `len` bytes.
pub open spec fn car_names_block(bytes: Seq<u8>, c: CidData, len: int) -> bool {
    forall|root0: CidData, frames: Seq<(CidData, Seq<u8>)>|
        cid_wf(root0) && crate::car::blocks_wf(frames) && bytes == #[trigger] car_file(
            root0,
            frames,
        ) ==> exists|j: int|
            0 <= j < frames.len() && (#[trigger] frames[j]).0 == c && frames[j].1.len() == len
}

/// Every reading of `bytes` as a full CAR file names a frame whose CID
/// is `c`.
pub open spec fn car_names_cid(bytes: Seq<u8>, c: CidData) -> bool {
    forall|root0: CidData, frames: Seq<(CidData, Seq<u8>)>|
        cid_wf(root0) && crate::car::blocks_wf(frames) && bytes == #[trigger] car_file(
            root0,
            frames,
        ) ==> exists|j: int| 0 <= j < frames.len() && (#[trigger] frames[j]).0 == c
}

/// Every reading of `bytes` as a full CAR file names a frame whose CID
/// is `c` and whose payload is exactly `b`.
pub open spec fn car_names_entry(bytes: Seq<u8>, c: CidData, b: Seq<u8>) -> bool {
    forall|root0: CidData, frames: Seq<(CidData, Seq<u8>)>|
        cid_wf(root0) && crate::car::blocks_wf(frames) && bytes == #[trigger] car_file(
            root0,
            frames,
        ) ==> exists|j: int| 0 <= j < frames.len() && (#[trigger] frames[j]).0 == c && frames[j].1 == b
}

/// Every reading of `bytes` as a full CAR file names a frame whose CID
/// is `c` and whose payload hashes, under `c`'s algorithm, to `d`.
pub open spec fn car_names_digest(bytes: Seq<u8>, c: CidData, d: Seq<u8>) -> bool {
    forall|root0: CidData, frames: Seq<(CidData, Seq<u8>)>|
        cid_wf(root0) && crate::car::blocks_wf(frames) && bytes == #[trigger] car_file(
            root0,
            frames,
        ) ==> exists|j: int|
            0 <= j < frames.len() && (#[trigger] frames[j]).0 == c
                && crate::hashing::digest_of(c.multihash_code, frames[j].1) == Some(d)
}

/// One frame against the receiver's store: the store afterwards, and an
/// outcome code — 0 when the frame was wanted, honest and parse-clean
/// and was stored; 1 when the frame is already held or not yet known to
/// be connected, which ends the round benignly with the frame unstored;
/// 2 when the frame is oversized or dishonest (nothing stored), or
/// reveals a block that does not parse (the frame stored, then the
/// round fails).
pub open spec fn receive_step(
    m: Map<CidData, Seq<u8>>,
    root: CidData,
    f: (CidData, Seq<u8>),
    max_block: int,
) -> (Map<CidData, Seq<u8>>, int) {
    let c = f.0;
    let b = f.1;
    if b.len() > max_block {
        (m, 2)
    } else if !(reachable_from(m, Set::empty().insert(root), c) && !m.dom().contains(c)) {
        (m, 1)
    } else if crate::hashing::digest_of(c.multihash_code, b) != Some(c.digest) {
        (m, 2)
    } else if !store_parseable(m.insert(c, b), Set::empty().insert(root)) {
        (m.insert(c, b), 2)
    } else {
        (m.insert(c, b), 0)
    }
}

/// The frame-by-frame semantics of a receiving round: frames are
/// consumed strictly in order, each by [`receive_step`], until the
/// frames run out (code 0), a frame ends the round benignly (code 1),
/// or a frame fails it (code 2).
pub open spec fn receive_frames(
    m: Map<CidData, Seq<u8>>,
    root: CidData,
    frames: Seq<(CidData, Seq<u8>)>,
    max_block: int,
) -> (Map<CidData, Seq<u8>>, int)
    decreases frames.len(),
{
    if frames.len() == 0 {
        (m, 0)
    } else {
        let s = receive_step(m, root, frames[0], max_block);
        if s.1 == 0 {
            receive_frames(s.0, root, frames.drop_first(), max_block)
        } else {
            s
        }
    }
}

/// Consuming one more frame after a prefix that ran clean is one step
/// against the prefix's store.
proof fn lemma_receive_frames_push(
    m: Map<CidData, Seq<u8>>,
    root: CidData,
    p: Seq<(CidData, Seq<u8>)>,
    f: (CidData, Seq<u8>),
    max_block: int,
)
    requires
        receive_frames(m, root, p, max_block).1 == 0,
    ensures
        receive_frames(m, root, p.push(f), max_block).0 == receive_step(
            receive_frames(m, root, p, max_block).0,
            root,
            f,
            max_block,
        ).0,
        receive_frames(m, root, p.push(f), max_block).1 == receive_step(
            receive_frames(m, root, p, max_block).0,
            root,
            f,
            max_block,
        ).1,
    decreases p.len(),
{
    if p.len() == 0 {
        assert(p.push(f)[0] == f);
        assert(p.push(f).drop_first() =~= Seq::<(CidData, Seq<u8>)>::empty());
        let s = receive_step(m, root, f, max_block);
        if s.1 == 0 {
            assert(receive_frames(s.0, root, p.push(f).drop_first(), max_block).0 == s.0);
            assert(receive_frames(s.0, root, p.push(f).drop_first(), max_block).1 == 0);
        }
    } else {
        let s = receive_step(m, root, p[0], max_block);
        assert(s.1 == 0);
        assert(p.push(f)[0] == p[0]);
        assert(p.push(f).drop_first() =~= p.drop_first().push(f));
        lemma_receive_frames_push(s.0, root, p.drop_first(), f, max_block);
    }
}

/// A round that has ended ignores whatever frames follow.
proof fn lemma_receive_frames_absorb(
    m: Map<CidData, Seq<u8>>,
    root: CidData,
    p: Seq<(CidData, Seq<u8>)>,
    rest: Seq<(CidData, Seq<u8>)>,
    max_block: int,
)
    requires
        receive_frames(m, root, p, max_block).1 != 0,
    ensures
        receive_frames(m, root, p + rest, max_block).0 == receive_frames(
            m,
            root,
            p,
            max_block,
        ).0,
        receive_frames(m, root, p + rest, max_block).1 == receive_frames(
            m,
            root,
            p,
            max_block,
        ).1,
    decreases p.len(),
{
    assert(p.len() > 0);
    let s = receive_step(m, root, p[0], max_block);
    assert((p + rest)[0] == p[0]);
    assert((p + rest).len() > 0);
    assert((p + rest).drop_first() =~= p.drop_first() + rest);
    if s.1 == 0 {
        lemma_receive_frames_absorb(s.0, root, p.drop_first(), rest, max_block);
    }
}

/// Every failure of a receiving round names its witness, over the
/// round's bytes, the store as the round left it, and the root: bytes
/// that are no CAR file, an oversized frame, a frame under an unknown
/// hash algorithm, a frame whose bytes hash to the wrong digest, or a
/// stored reachable block whose references do not parse. Errors that a
/// receiving round never raises are ruled out outright, so on a round
/// whose bytes are a clean, honest CAR over a parseable store no error
/// is admitted at all.
pub open spec fn receive_err_witnessed(
    e: Error,
    bytes: Seq<u8>,
    m: Map<CidData, Seq<u8>>,
    root: CidData,
    max_block: int,
) -> bool {
    match e {
        Error::CarFileError => forall|root0: CidData, frames: Seq<(CidData, Seq<u8>)>|
            cid_wf(root0) && crate::car::blocks_wf(frames) ==> bytes != #[trigger] car_file(
                root0,
                frames,
            ),
        Error::BlockSizeExceeded { cid, block_bytes, max_block_size } => block_bytes as int
            > max_block && max_block_size as int == max_block && car_names_block(
            bytes,
            cid@,
            block_bytes as int,
        ),
        Error::UnsupportedHashCode { cid } => !crate::hashing::hash_code_supported(
            cid@.multihash_code,
        ) && car_names_cid(bytes, cid@),
        Error::IncrementalVerificationError(ie) => match ie {
            crate::error::IncrementalVerificationError::DigestMismatch { cid, actual_cid } =>
                actual_cid@.digest != cid@.digest && car_names_digest(
                bytes,
                cid@,
                actual_cid@.digest,
            ),
            crate::error::IncrementalVerificationError::ExpectedWantedBlock { .. } => false,
        },
        Error::UnsupportedCodec { .. } | Error::ParsingError => !store_parseable(
            m,
            Set::empty().insert(root),
        ),
        Error::TooManyBytes { .. } | Error::BlockStoreError(..) => false,
    }
}

/// The header and the first frame of a CAR file, located.
proof fn lemma_car_first_parts(bytes: Seq<u8>, root0: CidData, frames: Seq<(CidData, Seq<u8>)>)
    requires
        cid_wf(root0),
        frames.len() > 0,
        bytes == car_file(root0, frames),
    ensures
        is_at(bytes, 0, car_header(root0)),
        is_at(bytes, car_header(root0).len() as int, crate::car::car_frames(frames)),
        is_at(
            bytes,
            car_header(root0).len() as int,
            car_frame(frames[0].0, frames[0].1),
        ),
        car_header(root0).len() + car_frame(frames[0].0, frames[0].1).len() <= bytes.len(),
{
    assert(is_at(bytes, 0, car_file(root0, frames))) by {
        assert(bytes.subrange(0, car_file(root0, frames).len() as int) =~= bytes);
    }
    crate::varint::lemma_is_at_concat(bytes, 0, car_header(root0), crate::car::car_frames(frames));
    assert(crate::car::car_frames(frames) =~= car_frame(frames[0].0, frames[0].1)
        + crate::car::car_frames(frames.drop_first()));
    crate::varint::lemma_is_at_concat(
        bytes,
        car_header(root0).len() as int,
        car_frame(frames[0].0, frames[0].1),
        crate::car::car_frames(frames.drop_first()),
    );
}

/// At a frame boundary `j` of a full CAR file, the next frame sits at
/// `off`.
proof fn lemma_boundary_step(
    bytes: Seq<u8>,
    off: int,
    frames: Seq<(CidData, Seq<u8>)>,
    j: int,
)
    requires
        0 <= j < frames.len(),
        is_at(bytes, off, crate::car::car_frames(frames.skip(j))),
    ensures
        is_at(bytes, off, car_frame(frames[j].0, frames[j].1)),
        is_at(
            bytes,
            off + car_frame(frames[j].0, frames[j].1).len(),
            crate::car::car_frames(frames.skip(j + 1)),
        ),
{
    assert(crate::car::car_frames(frames.skip(j)) =~= car_frame(frames[j].0, frames[j].1)
        + crate::car::car_frames(frames.skip(j + 1))) by {
        assert(frames.skip(j)[0] == frames[j]);
        assert(frames.skip(j).drop_first() =~= frames.skip(j + 1));
    }
    crate::varint::lemma_is_at_concat(
        bytes,
        off,
        car_frame(frames[j].0, frames[j].1),
        crate::car::car_frames(frames.skip(j + 1)),
    );
}

/// A boundary with nothing consumed is the first boundary.
proof fn lemma_boundary_zero(frames: Seq<(CidData, Seq<u8>)>, j: int)
    requires
        crate::car::blocks_wf(frames),
        frames.len() > 0,
        0 <= j <= frames.len(),
        crate::car::car_frames(frames.take(j)).len() == 0,
    ensures
        j == 0,
{
    if j > 0 {
        let t = frames.take(j);
        assert(t[0] == frames[0]);
        assert(crate::car::car_frames(t) =~= car_frame(t[0].0, t[0].1) + crate::car::car_frames(
            t.drop_first(),
        ));
        crate::car::lemma_frame_min_len(frames[0].0, frames[0].1);
    }
}

/// The block-receiving side, consuming a parsed byte buffer: parse the
/// CAR header, then verify and store each frame in order. An arriving
/// block that is already held or not yet known to be connected stops the
/// round early; the answer then carries fresh missing roots and a fresh
/// sketch of everything held.
#[verifier::rlimit(100)]
pub fn block_receive_car_stream<C: Cache>(
    root: Cid,
    bytes: &[u8],
    config: &Config,
    store: &mut MemoryBlockStore,
    cache: &mut C,
) -> (r: Result<ReceiverState, Error>)
    requires
        root.wf(),
        config.wf(),
        old(store).wf(),
        old(cache).wf(),
        cache_valid(old(cache), old(store)@),
    ensures
        final(store).wf(),
        final(cache).wf(),
        cache_valid(final(cache), final(store)@),
        receive_store_ok(old(store)@, final(store)@, root@),
        match r {
            Ok(rs) => receiver_state_ok(
                rs,
                final(store)@,
                root@,
                config.max_roots_per_round as int,
            ),
            // every failure names its witness, so a clean, honest round
            // over a parseable store is owed a success
            Err(e) => receive_err_witnessed(
                e,
                bytes@,
                final(store)@,
                root@,
                config.max_block_size as int,
            ),
        },
        // Progress: when the bytes are a well-formed CAR whose first block
        // is wanted, acceptable, and honest, that block ends up stored.
        forall|root0: CidData, frames: Seq<(CidData, Seq<u8>)>|
            #[trigger] car_first_owed(
                bytes@,
                old(store)@,
                root@,
                config.max_block_size as int,
                root0,
                frames,
            ) ==> final(store)@.dom().contains(frames[0].0),
        // An oversized first block is rejected as such, before anything
        // is written.
        forall|root0: CidData, frames: Seq<(CidData, Seq<u8>)>|
            #[trigger] car_first_oversize(
                bytes@,
                old(store)@,
                root@,
                config.max_block_size as int,
                root0,
                frames,
            ) ==> (r matches Err(e) && (e matches Error::BlockSizeExceeded {
                cid,
                block_bytes,
                ..
            } && cid@ == frames[0].0 && block_bytes == frames[0].1.len())) && final(store)@
                == old(store)@,
        // Nothing oversized is ever written.
        forall|k: CidData|
            #[trigger] final(store)@.dom().contains(k) && !old(store)@.dom().contains(k)
                ==> final(store)@[k].len() <= config.max_block_size as int,
        // The store gains only blocks the round's frames carried.
        forall|k: CidData|
            #[trigger] final(store)@.dom().contains(k) && !old(store)@.dom().contains(k)
                ==> car_names_entry(bytes@, k, final(store)@[k]),
        // On bytes that read as a full CAR file over a store that parses
        // cleanly, the round follows the frame-by-frame rule exactly:
        // which frames are stored, where the round stops, and whether it
        // succeeds are those of [`receive_frames`].
        forall|root0: CidData, frames: Seq<(CidData, Seq<u8>)>|
            cid_wf(root0) && crate::car::blocks_wf(frames) && bytes@ == #[trigger] car_file(
                root0,
                frames,
            ) && store_parseable(old(store)@, Set::empty().insert(root@)) ==> final(store)@
                == receive_frames(old(store)@, root@, frames, config.max_block_size as int).0
                && (r is Ok <==> receive_frames(
                old(store)@,
                root@,
                frames,
                config.max_block_size as int,
            ).1 != 2),
{
    let ghost m0 = store@;
    let ghost maxb = config.max_block_size as int;
    let hd = parse_header(bytes, 0);
    proof {
        if hd is None {
            assert forall|root0: CidData, frames: Seq<(CidData, Seq<u8>)>|
                #[trigger] car_first_owed(bytes@, m0, root@, maxb, root0, frames) implies false by {
                lemma_car_first_parts(bytes@, root0, frames);
            }
            assert forall|root0: CidData, frames: Seq<(CidData, Seq<u8>)>|
                #[trigger] car_first_oversize(bytes@, m0, root@, maxb, root0, frames) implies false by {
                lemma_car_first_parts(bytes@, root0, frames);
            }
            assert forall|root0: CidData, frames: Seq<(CidData, Seq<u8>)>|
                cid_wf(root0) && crate::car::blocks_wf(frames) implies bytes@ != #[trigger] car_file(
                root0,
                frames,
            ) by {
                if bytes@ == car_file(root0, frames) {
                    assert(is_at(bytes@, 0, car_file(root0, frames))) by {
                        assert(bytes@.subrange(0, car_file(root0, frames).len() as int) =~= bytes@);
                    }
                    crate::varint::lemma_is_at_concat(
                        bytes@,
                        0,
                        car_header(root0),
                        crate::car::car_frames(frames),
                    );
                }
            }
        }
    }
    let mut off = match hd {
        Some((_, end)) => end,
        None => {
            return Err(Error::CarFileError);
        },
    };
    let ghost hstart = off as int;
    proof {
        assert forall|root0: CidData, frames: Seq<(CidData, Seq<u8>)>|
            #[trigger] car_first_owed(bytes@, m0, root@, maxb, root0, frames) implies hstart
            == car_header(root0).len() && is_at(
            bytes@,
            hstart,
            crate::car::car_frames(frames),
        ) by {
            lemma_car_first_parts(bytes@, root0, frames);
        }
        assert forall|root0: CidData, frames: Seq<(CidData, Seq<u8>)>|
            cid_wf(root0) && crate::car::blocks_wf(frames) && bytes@ == #[trigger] car_file(
                root0,
                frames,
            ) implies hstart == car_header(root0).len() && bytes@.len() == hstart
            + crate::car::car_frames(frames).len() && (exists|j: int|
            #![trigger frames.skip(j)]
            0 <= j <= frames.len() && off == hstart + crate::car::car_frames(
                frames.take(j),
            ).len() && is_at(bytes@, off as int, crate::car::car_frames(frames.skip(j)))
                && receive_frames(m0, root@, frames.take(j), maxb).0 == store@
                && receive_frames(m0, root@, frames.take(j), maxb).1 == 0) by {
            assert(is_at(bytes@, 0, car_file(root0, frames))) by {
                assert(bytes@.subrange(0, car_file(root0, frames).len() as int) =~= bytes@);
            }
            crate::varint::lemma_is_at_concat(
                bytes@,
                0,
                car_header(root0),
                crate::car::car_frames(frames),
            );
            assert(frames.take(0) =~= Seq::<(CidData, Seq<u8>)>::empty());
            assert(crate::car::car_frames(frames.take(0)) =~= Seq::<u8>::empty());
            assert(frames.skip(0) =~= frames);
            assert(receive_frames(m0, root@, frames.take(0), maxb).0 == m0);
            assert(receive_frames(m0, root@, frames.take(0), maxb).1 == 0);
            assert(0 <= 0 <= frames.len() && off == hstart + crate::car::car_frames(
                frames.take(0),
            ).len() && is_at(bytes@, off as int, crate::car::car_frames(frames.skip(0)))
                && receive_frames(m0, root@, frames.take(0), maxb).0 == store@
                && receive_frames(m0, root@, frames.take(0), maxb).1 == 0);
        }
    }
    let mut roots_vec: Vec<Cid> = Vec::new();
    roots_vec.push(root.clone());
    proof {
        assert(cids_view(roots_vec@) =~= seq![root@]);
        assert(cids_view(roots_vec@).to_set() =~= Set::empty().insert(root@)) by {
            assert forall|x: CidData| cids_view(roots_vec@).to_set().contains(x) implies Set::empty().insert(
                root@,
            ).contains(x) by {
                let i = choose|i: int|
                    0 <= i < cids_view(roots_vec@).len() && cids_view(roots_vec@)[i] == x;
            }
            assert(cids_view(roots_vec@)[0] == root@);
            assert(cids_view(roots_vec@).contains(root@));
        }
        assert(cids_wf(cids_view(roots_vec@))) by {
            assert forall|i: int| 0 <= i < cids_view(roots_vec@).len() implies cid_wf(
                #[trigger] cids_view(roots_vec@)[i],
            ) by {
                assert(cids_view(roots_vec@)[i] == root@);
            }
        }
    }
    let dvr = IncrementalDagVerification::new(roots_vec, store, cache);
    proof {
        if dvr is Err {
            assert forall|root0: CidData, frames: Seq<(CidData, Seq<u8>)>|
                #[trigger] car_first_owed(bytes@, m0, root@, maxb, root0, frames) implies false by {
                let c = choose|c: CidData|
                    reachable_from(store@, Set::empty().insert(root@), c)
                        && #[trigger] store@.dom().contains(c)
                        && crate::references::block_refs(c, store@[c]) is None;
            }
            assert forall|root0: CidData, frames: Seq<(CidData, Seq<u8>)>|
                #[trigger] car_first_oversize(bytes@, m0, root@, maxb, root0, frames) implies false by {
                let c = choose|c: CidData|
                    reachable_from(store@, Set::empty().insert(root@), c)
                        && #[trigger] store@.dom().contains(c)
                        && crate::references::block_refs(c, store@[c]) is None;
            }
        }
    }
    let mut dv = match dvr {
        Ok(v) => v,
        Err(e) => {
            proof {
                let c = choose|c: CidData|
                    reachable_from(store@, cids_view(roots_vec@).to_set(), c)
                        && #[trigger] store@.dom().contains(c)
                        && crate::references::block_refs(c, store@[c]) is None;
                assert(reachable_from(store@, Set::empty().insert(root@), c));
                assert(!store_parseable(store@, Set::empty().insert(root@)));
            }
            return Err(e);
        },
    };
    proof {
        assert(store_parseable(store@, Set::empty().insert(root@))) by {
            assert forall|c: CidData|
                reachable_from(store@, Set::empty().insert(root@), c)
                    && #[trigger] store@.dom().contains(c) implies crate::references::block_refs(
                c,
                store@[c],
            ) is Some by {}
        }
    }
    loop
        invariant
            root.wf(),
            config.wf(),
            store.wf(),
            cache.wf(),
            cache_valid(cache, store@),
            dv.valid(store@),
            dv.roots@ == Set::empty().insert(root@),
            m0 == old(store)@,
            maxb == config.max_block_size as int,
            receive_store_ok(m0, store@, root@),
            hstart <= off <= bytes@.len(),
            forall|root0: CidData, frames: Seq<(CidData, Seq<u8>)>|
                #[trigger] car_first_owed(bytes@, m0, root@, maxb, root0, frames) ==> hstart
                    == car_header(root0).len() && is_at(
                    bytes@,
                    hstart,
                    crate::car::car_frames(frames),
                ),
            forall|root0: CidData, frames: Seq<(CidData, Seq<u8>)>|
                #[trigger] car_first_owed(bytes@, m0, root@, maxb, root0, frames)
                    ==> store@.dom().contains(frames[0].0) || (off == hstart && store@ == m0),
            forall|root0: CidData, frames: Seq<(CidData, Seq<u8>)>|
                cid_wf(root0) && crate::car::blocks_wf(frames) && bytes@ == #[trigger] car_file(
                    root0,
                    frames,
                ) ==> hstart == car_header(root0).len() && bytes@.len() == hstart
                    + crate::car::car_frames(frames).len() && (exists|j: int|
                    #![trigger frames.skip(j)]
                    0 <= j <= frames.len() && off == hstart + crate::car::car_frames(
                        frames.take(j),
                    ).len() && is_at(bytes@, off as int, crate::car::car_frames(frames.skip(j)))
                        && receive_frames(m0, root@, frames.take(j), maxb).0 == store@
                        && receive_frames(m0, root@, frames.take(j), maxb).1 == 0),
            forall|root0: CidData, frames: Seq<(CidData, Seq<u8>)>|
                #[trigger] car_first_oversize(bytes@, m0, root@, maxb, root0, frames) ==> off
                    == hstart && store@ == m0,
            forall|k: CidData|
                #[trigger] store@.dom().contains(k) && !m0.dom().contains(k) ==> store@[k].len()
                    <= maxb,
            forall|k: CidData|
                #[trigger] store@.dom().contains(k) && !m0.dom().contains(k) ==> car_names_entry(
                    bytes@,
                    k,
                    store@[k],
                ),
            store_parseable(m0, Set::empty().insert(root@)),
            store_parseable(store@, Set::empty().insert(root@)),
        ensures
            store.wf(),
            cache.wf(),
            cache_valid(cache, store@),
            dv.valid(store@),
            dv.roots@ == Set::empty().insert(root@),
            m0 == old(store)@,
            receive_store_ok(m0, store@, root@),
            forall|root0: CidData, frames: Seq<(CidData, Seq<u8>)>|
                #[trigger] car_first_owed(bytes@, m0, root@, maxb, root0, frames)
                    ==> store@.dom().contains(frames[0].0),
            forall|root0: CidData, frames: Seq<(CidData, Seq<u8>)>|
                !car_first_oversize(bytes@, m0, root@, maxb, root0, frames),
            forall|k: CidData|
                #[trigger] store@.dom().contains(k) && !m0.dom().contains(k) ==> store@[k].len()
                    <= maxb,
            forall|k: CidData|
                #[trigger] store@.dom().contains(k) && !m0.dom().contains(k) ==> car_names_entry(
                    bytes@,
                    k,
                    store@[k],
                ),
            forall|root0: CidData, frames: Seq<(CidData, Seq<u8>)>|
                cid_wf(root0) && crate::car::blocks_wf(frames) && bytes@ == #[trigger] car_file(
                    root0,
                    frames,
                ) ==> receive_frames(m0, root@, frames, maxb).0 == store@ && receive_frames(
                    m0,
                    root@,
                    frames,
                    maxb,
                ).1 != 2,
        decreases bytes@.len() - off,
    {
        if off >= bytes.len() {
            proof {
                assert forall|root0: CidData, frames: Seq<(CidData, Seq<u8>)>|
                    #[trigger] car_first_owed(bytes@, m0, root@, maxb, root0, frames) implies store@.dom().contains(
                    frames[0].0,
                ) by {
                    if !store@.dom().contains(frames[0].0) {
                        assert(crate::car::car_frames(frames) =~= car_frame(
                            frames[0].0,
                            frames[0].1,
                        ) + crate::car::car_frames(frames.drop_first()));
                        crate::car::lemma_frame_min_len(frames[0].0, frames[0].1);
                    }
                }
                assert forall|root0: CidData, frames: Seq<(CidData, Seq<u8>)>|
                    !car_first_oversize(bytes@, m0, root@, maxb, root0, frames) by {
                    if car_first_oversize(bytes@, m0, root@, maxb, root0, frames) {
                        assert(off == hstart);
                        assert(crate::car::car_frames(frames) =~= car_frame(
                            frames[0].0,
                            frames[0].1,
                        ) + crate::car::car_frames(frames.drop_first()));
                        crate::car::lemma_frame_min_len(frames[0].0, frames[0].1);
                        assert(bytes@.len() >= hstart + 2);
                    }
                }
                // all frames of any full reading were consumed cleanly
                assert forall|root0: CidData, frames: Seq<(CidData, Seq<u8>)>|
                    cid_wf(root0) && crate::car::blocks_wf(frames) && bytes@ == #[trigger] car_file(
                        root0,
                        frames,
                    ) implies receive_frames(m0, root@, frames, maxb).0 == store@
                    && receive_frames(m0, root@, frames, maxb).1 != 2 by {
                    let j = choose|j: int|
                        #![trigger frames.skip(j)]
                        0 <= j <= frames.len() && off == hstart + crate::car::car_frames(
                            frames.take(j),
                        ).len() && is_at(bytes@, off as int, crate::car::car_frames(frames.skip(j)))
                            && receive_frames(m0, root@, frames.take(j), maxb).0 == store@
                            && receive_frames(m0, root@, frames.take(j), maxb).1 == 0;
                    assert(off == bytes@.len());
                    assert(crate::car::car_frames(frames.skip(j)).len() == 0);
                    assert(j == frames.len()) by {
                        if j < frames.len() {
                            assert(crate::car::car_frames(frames.skip(j)) =~= car_frame(
                                frames[j].0,
                                frames[j].1,
                            ) + crate::car::car_frames(frames.skip(j + 1))) by {
                                assert(frames.skip(j)[0] == frames[j]);
                                assert(frames.skip(j).drop_first() =~= frames.skip(j + 1));
                            }
                            crate::car::lemma_frame_min_len(frames[j].0, frames[j].1);
                        }
                    }
                    assert(frames.take(j) =~= frames);
                }
            }
            break;
        }
        let fr = parse_frame(bytes, off);
        proof {
            assert forall|root0: CidData, frames: Seq<(CidData, Seq<u8>)>|
                #[trigger] car_first_owed(bytes@, m0, root@, maxb, root0, frames) implies store@.dom().contains(
                frames[0].0,
            ) || (off == hstart && store@ == m0 && (fr matches Some(p) && p.0.0@ == frames[0].0
                && p.0.1@ == frames[0].1)) by {
                if !store@.dom().contains(frames[0].0) {
                    assert(crate::car::car_frames(frames) =~= car_frame(frames[0].0, frames[0].1)
                        + crate::car::car_frames(frames.drop_first()));
                    crate::varint::lemma_is_at_concat(
                        bytes@,
                        hstart,
                        car_frame(frames[0].0, frames[0].1),
                        crate::car::car_frames(frames.drop_first()),
                    );
                    assert(is_at(bytes@, off as int, car_frame(frames[0].0, frames[0].1)));
                }
            }
        }
        let ((cid, block), end) = match fr {
            Some(p) => p,
            None => {
                proof {
                    assert forall|root0: CidData, frames: Seq<(CidData, Seq<u8>)>|
                        #[trigger] car_first_owed(bytes@, m0, root@, maxb, root0, frames) implies store@.dom().contains(
                        frames[0].0,
                    ) by {}
                    assert forall|root0: CidData, frames: Seq<(CidData, Seq<u8>)>|
                        cid_wf(root0) && crate::car::blocks_wf(frames) implies bytes@
                        != #[trigger] car_file(root0, frames) by {
                        if bytes@ == car_file(root0, frames) {
                            let j = choose|j: int|
                                #![trigger frames.skip(j)]
                                0 <= j <= frames.len() && off == hstart + crate::car::car_frames(
                                    frames.take(j),
                                ).len() && is_at(
                                    bytes@,
                                    off as int,
                                    crate::car::car_frames(frames.skip(j)),
                                );
                            if j == frames.len() {
                                assert(frames.skip(j) =~= Seq::<(CidData, Seq<u8>)>::empty());
                                assert(frames.take(j) =~= frames);
                                assert(off == bytes@.len());
                            } else {
                                lemma_boundary_step(bytes@, off as int, frames, j);
                            }
                        }
                    }
                    assert forall|root0: CidData, frames: Seq<(CidData, Seq<u8>)>|
                        #[trigger] car_first_oversize(bytes@, m0, root@, maxb, root0, frames)
                        implies false by {
                        assert(bytes@ != car_file(root0, frames));
                    }
                }
                return Err(Error::CarFileError);
            },
        };
        let ghost gcid = cid@;
        let ghost gblock = block@;
        proof {
            // whatever full-file reading the bytes admit, the frame just
            // parsed is one of its frames
            assert forall|root0: CidData, frames: Seq<(CidData, Seq<u8>)>|
                cid_wf(root0) && crate::car::blocks_wf(frames) && bytes@ == #[trigger] car_file(
                    root0,
                    frames,
                ) implies exists|j: int|
                0 <= j < frames.len() && (#[trigger] frames[j]).0 == gcid && frames[j].1
                    == gblock by {
                let j = choose|j: int|
                    #![trigger frames.skip(j)]
                    0 <= j <= frames.len() && off == hstart + crate::car::car_frames(
                        frames.take(j),
                    ).len() && is_at(bytes@, off as int, crate::car::car_frames(frames.skip(j)));
                if j == frames.len() {
                    assert(frames.take(j) =~= frames);
                    assert(off == bytes@.len());
                }
                lemma_boundary_step(bytes@, off as int, frames, j);
                assert(gcid == frames[j].0 && gblock == frames[j].1);
            }
        }
        let block_bytes = block.len();
        if block_bytes > config.max_block_size {
            proof {
                assert forall|root0: CidData, frames: Seq<(CidData, Seq<u8>)>|
                    #[trigger] car_first_owed(bytes@, m0, root@, maxb, root0, frames) implies store@.dom().contains(
                    frames[0].0,
                ) by {
                    if !store@.dom().contains(frames[0].0) {
                        assert(block@ == frames[0].1);
                        assert(frames[0].1.len() <= maxb);
                    }
                }
                assert forall|root0: CidData, frames: Seq<(CidData, Seq<u8>)>|
                    #[trigger] car_first_oversize(bytes@, m0, root@, maxb, root0, frames) implies
                    cid@ == frames[0].0 && block_bytes == frames[0].1.len() && store@ == m0 by {
                    assert(off == hstart && store@ == m0);
                    let j = choose|j: int|
                        #![trigger frames.skip(j)]
                        0 <= j <= frames.len() && off == hstart + crate::car::car_frames(
                            frames.take(j),
                        ).len() && is_at(
                            bytes@,
                            off as int,
                            crate::car::car_frames(frames.skip(j)),
                        );
                    if j == frames.len() {
                        assert(frames.take(j) =~= frames);
                        assert(off == bytes@.len());
                        assert(crate::car::car_frames(frames.take(j)).len() == 0);
                    }
                    lemma_boundary_zero(frames, j);
                    lemma_boundary_step(bytes@, off as int, frames, 0);
                }
                assert(car_names_block(bytes@, gcid, block_bytes as int)) by {
                    assert forall|root0: CidData, frames: Seq<(CidData, Seq<u8>)>|
                        cid_wf(root0) && crate::car::blocks_wf(frames) && bytes@
                            == #[trigger] car_file(root0, frames) implies exists|j: int|
                        0 <= j < frames.len() && (#[trigger] frames[j]).0 == gcid
                            && frames[j].1.len() == block_bytes by {
                        let j = choose|j: int|
                            0 <= j < frames.len() && (#[trigger] frames[j]).0 == gcid
                                && frames[j].1 == gblock;
                        assert(frames[j].1.len() == block_bytes);
                    }
                }
                // the oversized frame fails the round by the frame rule
                assert forall|root0: CidData, frames: Seq<(CidData, Seq<u8>)>|
                    cid_wf(root0) && crate::car::blocks_wf(frames) && bytes@ == #[trigger] car_file(
                        root0,
                        frames,
                    ) implies receive_frames(m0, root@, frames, maxb).0 == store@
                    && receive_frames(m0, root@, frames, maxb).1 == 2 by {
                    let j = choose|j: int|
                        #![trigger frames.skip(j)]
                        0 <= j <= frames.len() && off == hstart + crate::car::car_frames(
                            frames.take(j),
                        ).len() && is_at(bytes@, off as int, crate::car::car_frames(frames.skip(j)))
                            && receive_frames(m0, root@, frames.take(j), maxb).0 == store@
                            && receive_frames(m0, root@, frames.take(j), maxb).1 == 0;
                    if j == frames.len() {
                        assert(frames.take(j) =~= frames);
                        assert(off == bytes@.len());
                    }
                    lemma_boundary_step(bytes@, off as int, frames, j);
                    assert(gcid == frames[j].0 && gblock == frames[j].1);
                    assert(receive_step(store@, root@, frames[j], maxb).0 == store@);
                    assert(receive_step(store@, root@, frames[j], maxb).1 == 2) by {
                        assert(frames[j].1.len() > maxb);
                    }
                    lemma_receive_frames_push(m0, root@, frames.take(j), frames[j], maxb);
                    assert(frames.take(j).push(frames[j]) =~= frames.take(j + 1));
                    assert(receive_frames(m0, root@, frames.take(j + 1), maxb).0 == store@);
                    assert(receive_frames(m0, root@, frames.take(j + 1), maxb).1 == 2);
                    lemma_receive_frames_absorb(
                        m0,
                        root@,
                        frames.take(j + 1),
                        frames.skip(j + 1),
                        maxb,
                    );
                    assert(frames.take(j + 1) + frames.skip(j + 1) =~= frames);
                }
            }
            return Err(
                Error::BlockSizeExceeded {
                    cid,
                    block_bytes,
                    max_block_size: config.max_block_size,
                },
            );
        }
        let state = dv.block_state(&cid);
        proof {
            assert forall|root0: CidData, frames: Seq<(CidData, Seq<u8>)>|
                #[trigger] car_first_owed(bytes@, m0, root@, maxb, root0, frames) implies store@.dom().contains(
                frames[0].0,
            ) || (off == hstart && store@ == m0 && cid@ == frames[0].0 && block@ == frames[0].1
                && state == BlockState::Want) by {
                if !store@.dom().contains(frames[0].0) {
                    assert(cid@ == frames[0].0 && block@ == frames[0].1);
                    assert(dv.want_cids@.contains(frames[0].0));
                }
            }
        }
        match state {
            BlockState::Have => {
                // a block already held: the sender's sketch is stale;
                // answer with fresh state
                proof {
                    assert forall|root0: CidData, frames: Seq<(CidData, Seq<u8>)>|
                        #[trigger] car_first_owed(bytes@, m0, root@, maxb, root0, frames) implies store@.dom().contains(
                        frames[0].0,
                    ) by {}
assert forall|root0: CidData, frames: Seq<(CidData, Seq<u8>)>|
                        !car_first_oversize(bytes@, m0, root@, maxb, root0, frames) by {
                        if car_first_oversize(bytes@, m0, root@, maxb, root0, frames) {
                            assert(off == hstart);
                            let j = choose|j: int|
                                #![trigger frames.skip(j)]
                                0 <= j <= frames.len() && off == hstart + crate::car::car_frames(
                                    frames.take(j),
                                ).len() && is_at(
                                    bytes@,
                                    off as int,
                                    crate::car::car_frames(frames.skip(j)),
                                );
                            if j == frames.len() {
                                assert(frames.take(j) =~= frames);
                                assert(off == bytes@.len());
                                assert(crate::car::car_frames(frames.take(j)).len() == 0);
                            }
                            lemma_boundary_zero(frames, j);
                            lemma_boundary_step(bytes@, off as int, frames, 0);
                            assert(block@ == frames[0].1);
                        }
                    }

                    // the frame ends the round benignly: already held or
                    // not yet known to be connected, and left unstored
                    assert forall|root0: CidData, frames: Seq<(CidData, Seq<u8>)>|
                        cid_wf(root0) && crate::car::blocks_wf(frames) && bytes@
                            == #[trigger] car_file(root0, frames) implies receive_frames(
                        m0,
                        root@,
                        frames,
                        maxb,
                    ).0 == store@ && receive_frames(m0, root@, frames, maxb).1 != 2 by {
                        let j = choose|j: int|
                            #![trigger frames.skip(j)]
                            0 <= j <= frames.len() && off == hstart + crate::car::car_frames(
                                frames.take(j),
                            ).len() && is_at(
                                bytes@,
                                off as int,
                                crate::car::car_frames(frames.skip(j)),
                            ) && receive_frames(m0, root@, frames.take(j), maxb).0 == store@
                                && receive_frames(m0, root@, frames.take(j), maxb).1 == 0;
                        if j == frames.len() {
                            assert(frames.take(j) =~= frames);
                            assert(off == bytes@.len());
                        }
                        lemma_boundary_step(bytes@, off as int, frames, j);
                        assert(gcid == frames[j].0 && gblock == frames[j].1);
                        assert(receive_step(store@, root@, frames[j], maxb).0 == store@);
                        assert(receive_step(store@, root@, frames[j], maxb).1 == 1) by {
                            assert(frames[j].1.len() <= maxb);
                            assert(!(reachable_from(store@, Set::empty().insert(root@), gcid)
                                && !store@.dom().contains(gcid)));
                        }
                        lemma_receive_frames_push(m0, root@, frames.take(j), frames[j], maxb);
                        assert(frames.take(j).push(frames[j]) =~= frames.take(j + 1));
                        assert(receive_frames(m0, root@, frames.take(j + 1), maxb).0 == store@);
                        assert(receive_frames(m0, root@, frames.take(j + 1), maxb).1 == 1);
                        lemma_receive_frames_absorb(
                            m0,
                            root@,
                            frames.take(j + 1),
                            frames.skip(j + 1),
                            maxb,
                        );
                        assert(frames.take(j + 1) + frames.skip(j + 1) =~= frames);
                    }
                }
                break;
            },
            BlockState::Unexpected => {
                // possibly a sketch false positive skipped a connecting
                // block; answer with fresh state to re-synchronize
                proof {
                    assert forall|root0: CidData, frames: Seq<(CidData, Seq<u8>)>|
                        #[trigger] car_first_owed(bytes@, m0, root@, maxb, root0, frames) implies store@.dom().contains(
                        frames[0].0,
                    ) by {}
assert forall|root0: CidData, frames: Seq<(CidData, Seq<u8>)>|
                        !car_first_oversize(bytes@, m0, root@, maxb, root0, frames) by {
                        if car_first_oversize(bytes@, m0, root@, maxb, root0, frames) {
                            assert(off == hstart);
                            let j = choose|j: int|
                                #![trigger frames.skip(j)]
                                0 <= j <= frames.len() && off == hstart + crate::car::car_frames(
                                    frames.take(j),
                                ).len() && is_at(
                                    bytes@,
                                    off as int,
                                    crate::car::car_frames(frames.skip(j)),
                                );
                            if j == frames.len() {
                                assert(frames.take(j) =~= frames);
                                assert(off == bytes@.len());
                                assert(crate::car::car_frames(frames.take(j)).len() == 0);
                            }
                            lemma_boundary_zero(frames, j);
                            lemma_boundary_step(bytes@, off as int, frames, 0);
                            assert(block@ == frames[0].1);
                        }
                    }

                    // the frame ends the round benignly: already held or
                    // not yet known to be connected, and left unstored
                    assert forall|root0: CidData, frames: Seq<(CidData, Seq<u8>)>|
                        cid_wf(root0) && crate::car::blocks_wf(frames) && bytes@
                            == #[trigger] car_file(root0, frames) implies receive_frames(
                        m0,
                        root@,
                        frames,
                        maxb,
                    ).0 == store@ && receive_frames(m0, root@, frames, maxb).1 != 2 by {
                        let j = choose|j: int|
                            #![trigger frames.skip(j)]
                            0 <= j <= frames.len() && off == hstart + crate::car::car_frames(
                                frames.take(j),
                            ).len() && is_at(
                                bytes@,
                                off as int,
                                crate::car::car_frames(frames.skip(j)),
                            ) && receive_frames(m0, root@, frames.take(j), maxb).0 == store@
                                && receive_frames(m0, root@, frames.take(j), maxb).1 == 0;
                        if j == frames.len() {
                            assert(frames.take(j) =~= frames);
                            assert(off == bytes@.len());
                        }
                        lemma_boundary_step(bytes@, off as int, frames, j);
                        assert(gcid == frames[j].0 && gblock == frames[j].1);
                        assert(receive_step(store@, root@, frames[j], maxb).0 == store@);
                        assert(receive_step(store@, root@, frames[j], maxb).1 == 1) by {
                            assert(frames[j].1.len() <= maxb);
                            assert(!(reachable_from(store@, Set::empty().insert(root@), gcid)
                                && !store@.dom().contains(gcid)));
                        }
                        lemma_receive_frames_push(m0, root@, frames.take(j), frames[j], maxb);
                        assert(frames.take(j).push(frames[j]) =~= frames.take(j + 1));
                        assert(receive_frames(m0, root@, frames.take(j + 1), maxb).0 == store@);
                        assert(receive_frames(m0, root@, frames.take(j + 1), maxb).1 == 1);
                        lemma_receive_frames_absorb(
                            m0,
                            root@,
                            frames.take(j + 1),
                            frames.skip(j + 1),
                            maxb,
                        );
                        assert(frames.take(j + 1) + frames.skip(j + 1) =~= frames);
                    }
                }
                break;
            },
            BlockState::Want => {
                let ghost m_pre = store@;
                let ghost kcid = cid@;
                let ghost kbytes = block@;
                let ghost wpre = dv.want_cids@;
                proof {
                    assert(dv.want_cids@.contains(kcid));
                    assert(reachable_from(m_pre, Set::empty().insert(root@), kcid));
                }
                match dv.verify_and_store_block(cid, block, store, cache) {
                    Ok(()) => {
                        proof {
                            assert(store@ == m_pre.insert(kcid, kbytes));
                            assert(car_names_entry(bytes@, kcid, kbytes)) by {
                                assert forall|root0: CidData, frames: Seq<(CidData, Seq<u8>)>|
                                    cid_wf(root0) && crate::car::blocks_wf(frames) && bytes@
                                        == #[trigger] car_file(root0, frames) implies exists|
                                    j: int,
                                |
                                    0 <= j < frames.len() && (#[trigger] frames[j]).0 == kcid
                                        && frames[j].1 == kbytes by {
                                    let j = choose|j: int|
                                        0 <= j < frames.len() && (#[trigger] frames[j]).0 == kcid
                                            && frames[j].1 == kbytes;
                                }
                            }
                            assert forall|k: CidData| #[trigger] store@.dom().contains(k)
                                && !m0.dom().contains(k) implies car_names_entry(
                                bytes@,
                                k,
                                store@[k],
                            ) by {
                                if k != kcid {
                                    assert(m_pre.dom().contains(k) && store@[k] == m_pre[k]);
                                } else {
                                    assert(store@[k] == kbytes);
                                }
                            }
                            assert forall|root0: CidData, frames: Seq<(CidData, Seq<u8>)>|
                                #[trigger] car_first_owed(bytes@, m0, root@, maxb, root0, frames)
                                implies store@.dom().contains(frames[0].0) by {
                                if !m_pre.dom().contains(frames[0].0) {
                                    assert(kcid == frames[0].0);
                                }
                            }
                            assert(receive_store_ok(m0, store@, root@)) by {
                                assert forall|k: CidData| #[trigger] store@.dom().contains(k)
                                    implies m0.dom().contains(k) || (cid_wf(k)
                                    && crate::hashing::digest_of(k.multihash_code, store@[k])
                                    == Some(k.digest) && reachable_from(
                                    store@,
                                    Set::empty().insert(root@),
                                    k,
                                )) by {
                                    if !m_pre.dom().contains(k) {
                                        assert(k == kcid);
                                        crate::dag::lemma_reachable_monotone(
                                            m_pre,
                                            store@,
                                            Set::empty().insert(root@),
                                            k,
                                        );
                                    } else {
                                        assert(m_pre.dom().contains(k) && store@[k] == m_pre[k]);
                                        if !m0.dom().contains(k) {
                                            crate::dag::lemma_reachable_monotone(
                                                m_pre,
                                                store@,
                                                Set::empty().insert(root@),
                                                k,
                                            );
                                        }
                                    }
                                }
                            }
                            // the grown store still parses: what was
                            // reachable before is untouched, and what the
                            // stored block reveals was walked and parsed
                            assert(store_parseable(store@, Set::empty().insert(root@))) by {
                                assert forall|c: CidData|
                                    reachable_from(store@, Set::empty().insert(root@), c)
                                        && #[trigger] store@.dom().contains(c) implies
                                    crate::references::block_refs(c, store@[c]) is Some by {
                                    crate::dag::lemma_reachable_insert_split(
                                        m_pre,
                                        Set::empty().insert(root@),
                                        kcid,
                                        kbytes,
                                        c,
                                    );
                                    if reachable_from(m_pre, Set::empty().insert(root@), c) {
                                        if m_pre.dom().contains(c) {
                                            assert(c != kcid);
                                            assert(store@[c] == m_pre[c]);
                                        } else {
                                            assert(c == kcid);
                                            assert(reachable_from(store@, wpre, c)) by {
                                                crate::dag::lemma_reachable_root(
                                                    store@,
                                                    wpre,
                                                    kcid,
                                                );
                                            }
                                        }
                                    } else {
                                        assert(reachable_from(
                                            store@,
                                            Set::empty().insert(kcid),
                                            c,
                                        ));
                                        assert forall|y: CidData|
                                            Set::empty().insert(kcid).contains(y) implies
                                            reachable_from(store@, wpre, y) by {
                                            crate::dag::lemma_reachable_root(store@, wpre, kcid);
                                        }
                                        lemma_reachable_trans(
                                            store@,
                                            wpre,
                                            Set::empty().insert(kcid),
                                            c,
                                        );
                                    }
                                }
                            }
                            // the frame rule advances one boundary: a
                            // wanted, honest, parse-clean frame was stored
                            assert forall|root0: CidData, frames: Seq<(CidData, Seq<u8>)>|
                                cid_wf(root0) && crate::car::blocks_wf(frames) && bytes@
                                    == #[trigger] car_file(root0, frames) implies (exists|j: int|
                                #![trigger frames.skip(j)]
                                0 <= j <= frames.len() && end == hstart + crate::car::car_frames(
                                    frames.take(j),
                                ).len() && is_at(
                                    bytes@,
                                    end as int,
                                    crate::car::car_frames(frames.skip(j)),
                                ) && receive_frames(m0, root@, frames.take(j), maxb).0 == store@
                                    && receive_frames(m0, root@, frames.take(j), maxb).1
                                    == 0) by {
                                let j = choose|j: int|
                                    #![trigger frames.skip(j)]
                                    0 <= j <= frames.len() && off == hstart
                                        + crate::car::car_frames(frames.take(j)).len() && is_at(
                                        bytes@,
                                        off as int,
                                        crate::car::car_frames(frames.skip(j)),
                                    ) && receive_frames(m0, root@, frames.take(j), maxb).0
                                        == m_pre && receive_frames(
                                        m0,
                                        root@,
                                        frames.take(j),
                                        maxb,
                                    ).1 == 0;
                                if j == frames.len() {
                                    assert(frames.take(j) =~= frames);
                                    assert(off == bytes@.len());
                                }
                                lemma_boundary_step(bytes@, off as int, frames, j);
                                assert(kcid == frames[j].0 && kbytes == frames[j].1);
                                assert(end == off + car_frame(frames[j].0, frames[j].1).len());
                                crate::car::lemma_car_frames_push(
                                    frames.take(j),
                                    frames[j].0,
                                    frames[j].1,
                                );
                                assert(frames.take(j).push(frames[j]) =~= frames.take(j + 1));
                                assert(receive_step(m_pre, root@, frames[j], maxb).0 == store@);
                                assert(receive_step(m_pre, root@, frames[j], maxb).1 == 0) by {
                                    assert(frames[j].1.len() <= maxb);
                                    assert(reachable_from(m_pre, Set::empty().insert(root@), kcid)
                                        && !m_pre.dom().contains(kcid));
                                }
                                lemma_receive_frames_push(
                                    m0,
                                    root@,
                                    frames.take(j),
                                    frames[j],
                                    maxb,
                                );
                                assert(receive_frames(m0, root@, frames.take(j + 1), maxb).0
                                    == store@);
                                assert(receive_frames(m0, root@, frames.take(j + 1), maxb).1
                                    == 0);
                                assert(0 <= j + 1 <= frames.len() && end == hstart
                                    + crate::car::car_frames(frames.take(j + 1)).len() && is_at(
                                    bytes@,
                                    end as int,
                                    crate::car::car_frames(frames.skip(j + 1)),
                                ) && receive_frames(m0, root@, frames.take(j + 1), maxb).0
                                    == store@ && receive_frames(
                                    m0,
                                    root@,
                                    frames.take(j + 1),
                                    maxb,
                                ).1 == 0);
                            }
                        }
                    },
                    Err(e) => {
                        proof {
                            assert forall|root0: CidData, frames: Seq<(CidData, Seq<u8>)>|
                                !car_first_oversize(bytes@, m0, root@, maxb, root0, frames) by {
                                if car_first_oversize(bytes@, m0, root@, maxb, root0, frames) {
                                    assert(m_pre == m0 && off == hstart);
                                    let j = choose|j: int|
                                        #![trigger frames.skip(j)]
                                        0 <= j <= frames.len() && off == hstart
                                            + crate::car::car_frames(frames.take(j)).len()
                                            && is_at(
                                            bytes@,
                                            off as int,
                                            crate::car::car_frames(frames.skip(j)),
                                        );
                                    if j == frames.len() {
                                        assert(frames.take(j) =~= frames);
                                        assert(crate::car::car_frames(frames.take(j)).len() == 0);
                                    }
                                    lemma_boundary_zero(frames, j);
                                    lemma_boundary_step(bytes@, off as int, frames, 0);
                                    assert(kbytes == frames[0].1);
                                }
                            }
                            assert forall|root0: CidData, frames: Seq<(CidData, Seq<u8>)>|
                                #[trigger] car_first_owed(bytes@, m0, root@, maxb, root0, frames)
                                implies store@.dom().contains(frames[0].0) by {
                                if !m_pre.dom().contains(frames[0].0) {
                                    assert(kcid == frames[0].0 && kbytes == frames[0].1);
                                    match &e {
                                        Error::IncrementalVerificationError(ie) => {
                                            match ie {
                                                crate::error::IncrementalVerificationError::ExpectedWantedBlock {
                                                    ..
                                                } => {
                                                    assert(dv.want_cids@.contains(kcid));
                                                },
                                                crate::error::IncrementalVerificationError::DigestMismatch {
                                                    ..
                                                } => {},
                                            }
                                        },
                                        _ => {},
                                    }
                                }
                            }
                            assert(receive_store_ok(m0, store@, root@)) by {
                                assert forall|k: CidData| #[trigger] store@.dom().contains(k)
                                    implies m0.dom().contains(k) || (cid_wf(k)
                                    && crate::hashing::digest_of(k.multihash_code, store@[k])
                                    == Some(k.digest) && reachable_from(
                                    store@,
                                    Set::empty().insert(root@),
                                    k,
                                )) by {
                                    if store@ == m_pre {
                                    } else {
                                        if !m_pre.dom().contains(k) {
                                            assert(k == kcid);
                                            crate::dag::lemma_reachable_monotone(
                                                m_pre,
                                                store@,
                                                Set::empty().insert(root@),
                                                k,
                                            );
                                        } else {
                                            assert(store@[k] == m_pre[k]);
                                            if !m0.dom().contains(k) {
                                                crate::dag::lemma_reachable_monotone(
                                                    m_pre,
                                                    store@,
                                                    Set::empty().insert(root@),
                                                    k,
                                                );
                                            }
                                        }
                                    }
                                }
                            }
                            // the failure names its witness
                            match &e {
                                Error::UnsupportedHashCode { cid: c } => {
                                    assert(c@ == kcid);
                                    assert(crate::hashing::digest_of(kcid.multihash_code, kbytes)
                                        is None);
                                    assert(receive_step(m_pre, root@, (kcid, kbytes), maxb).0
                                        == store@);
                                    assert(receive_step(m_pre, root@, (kcid, kbytes), maxb).1
                                        == 2);
                                    assert(car_names_cid(bytes@, kcid)) by {
                                        assert forall|
                                            root0: CidData,
                                            frames: Seq<(CidData, Seq<u8>)>,
                                        |
                                            cid_wf(root0) && crate::car::blocks_wf(frames)
                                                && bytes@ == #[trigger] car_file(
                                                root0,
                                                frames,
                                            ) implies exists|j: int|
                                            0 <= j < frames.len() && (#[trigger] frames[j]).0
                                                == kcid by {
                                            let j = choose|j: int|
                                                0 <= j < frames.len() && (#[trigger] frames[j]).0
                                                    == kcid && frames[j].1 == kbytes;
                                        }
                                    }
                                },
                                Error::IncrementalVerificationError(ie) => match ie {
                                    crate::error::IncrementalVerificationError::DigestMismatch {
                                        cid: c,
                                        actual_cid,
                                    } => {
                                        assert(c@ == kcid);
                                        assert(receive_step(m_pre, root@, (kcid, kbytes), maxb).0
                                            == store@);
                                        assert(receive_step(m_pre, root@, (kcid, kbytes), maxb).1
                                            == 2);
                                        assert(car_names_digest(
                                            bytes@,
                                            kcid,
                                            actual_cid@.digest,
                                        )) by {
                                            assert forall|
                                                root0: CidData,
                                                frames: Seq<(CidData, Seq<u8>)>,
                                            |
                                                cid_wf(root0) && crate::car::blocks_wf(frames)
                                                    && bytes@ == #[trigger] car_file(
                                                    root0,
                                                    frames,
                                                ) implies exists|j: int|
                                                0 <= j < frames.len() && (#[trigger] frames[j]).0
                                                    == kcid && crate::hashing::digest_of(
                                                    kcid.multihash_code,
                                                    frames[j].1,
                                                ) == Some(actual_cid@.digest) by {
                                                let j = choose|j: int|
                                                    0 <= j < frames.len() && (
                                                    #[trigger] frames[j]).0 == kcid && frames[j].1
                                                        == kbytes;
                                                assert(crate::hashing::digest_of(
                                                    kcid.multihash_code,
                                                    frames[j].1,
                                                ) == Some(actual_cid@.digest));
                                            }
                                        }
                                    },
                                    crate::error::IncrementalVerificationError::ExpectedWantedBlock {
                                        ..
                                    } => {
                                        assert(false);
                                    },
                                },
                                Error::UnsupportedCodec { .. } | Error::ParsingError => {
                                    assert(car_names_entry(bytes@, kcid, kbytes)) by {
                                        assert forall|
                                            root0: CidData,
                                            frames: Seq<(CidData, Seq<u8>)>,
                                        |
                                            cid_wf(root0) && crate::car::blocks_wf(frames)
                                                && bytes@ == #[trigger] car_file(
                                                root0,
                                                frames,
                                            ) implies exists|j: int|
                                            0 <= j < frames.len() && (#[trigger] frames[j]).0
                                                == kcid && frames[j].1 == kbytes by {
                                            let j = choose|j: int|
                                                0 <= j < frames.len() && (#[trigger] frames[j]).0
                                                    == kcid && frames[j].1 == kbytes;
                                        }
                                    }
                                    assert forall|k: CidData| #[trigger] store@.dom().contains(k)
                                        && !m0.dom().contains(k) implies car_names_entry(
                                        bytes@,
                                        k,
                                        store@[k],
                                    ) by {
                                        if k != kcid {
                                            assert(m_pre.dom().contains(k) && store@[k]
                                                == m_pre[k]);
                                        } else {
                                            assert(store@[k] == kbytes);
                                        }
                                    }
                                    let c = choose|c: CidData|
                                        reachable_from(store@, wpre, c)
                                            && #[trigger] store@.dom().contains(c)
                                            && crate::references::block_refs(c, store@[c])
                                            is None;
                                    assert(crate::dag::map_extends(store@, m_pre)) by {
                                        assert forall|k: CidData| m_pre.dom().contains(k) implies
                                            #[trigger] store@.dom().contains(k) && store@[k]
                                            == m_pre[k] by {
                                            assert(k != kcid);
                                        }
                                    }
                                    assert forall|x: CidData| wpre.contains(x) implies
                                        reachable_from(
                                        store@,
                                        Set::empty().insert(root@),
                                        x,
                                    ) by {
                                        assert(reachable_from(
                                            m_pre,
                                            Set::empty().insert(root@),
                                            x,
                                        ));
                                        crate::dag::lemma_reachable_monotone(
                                            m_pre,
                                            store@,
                                            Set::empty().insert(root@),
                                            x,
                                        );
                                    }
                                    lemma_reachable_trans(
                                        store@,
                                        Set::empty().insert(root@),
                                        wpre,
                                        c,
                                    );
                                    assert(!store_parseable(
                                        store@,
                                        Set::empty().insert(root@),
                                    ));
                                    assert(receive_step(m_pre, root@, (kcid, kbytes), maxb).0
                                        == store@);
                                    assert(receive_step(m_pre, root@, (kcid, kbytes), maxb).1
                                        == 2);
                                },
                                _ => {
                                    assert(false);
                                },
                            }
                            // whichever failure it was, the frame fails
                            // the round by the frame rule
                            assert forall|root0: CidData, frames: Seq<(CidData, Seq<u8>)>|
                                cid_wf(root0) && crate::car::blocks_wf(frames) && bytes@
                                    == #[trigger] car_file(root0, frames) implies receive_frames(
                                m0,
                                root@,
                                frames,
                                maxb,
                            ).0 == store@ && receive_frames(m0, root@, frames, maxb).1 == 2 by {
                                let j = choose|j: int|
                                    #![trigger frames.skip(j)]
                                    0 <= j <= frames.len() && off == hstart
                                        + crate::car::car_frames(frames.take(j)).len() && is_at(
                                        bytes@,
                                        off as int,
                                        crate::car::car_frames(frames.skip(j)),
                                    ) && receive_frames(m0, root@, frames.take(j), maxb).0
                                        == m_pre && receive_frames(
                                        m0,
                                        root@,
                                        frames.take(j),
                                        maxb,
                                    ).1 == 0;
                                if j == frames.len() {
                                    assert(frames.take(j) =~= frames);
                                    assert(off == bytes@.len());
                                }
                                lemma_boundary_step(bytes@, off as int, frames, j);
                                assert(kcid == frames[j].0 && kbytes == frames[j].1);
                                assert(receive_step(m_pre, root@, frames[j], maxb).0 == store@);
                                assert(receive_step(m_pre, root@, frames[j], maxb).1 == 2);
                                lemma_receive_frames_push(
                                    m0,
                                    root@,
                                    frames.take(j),
                                    frames[j],
                                    maxb,
                                );
                                assert(frames.take(j).push(frames[j]) =~= frames.take(j + 1));
                                assert(receive_frames(m0, root@, frames.take(j + 1), maxb).0
                                    == store@);
                                assert(receive_frames(m0, root@, frames.take(j + 1), maxb).1
                                    == 2);
                                lemma_receive_frames_absorb(
                                    m0,
                                    root@,
                                    frames.take(j + 1),
                                    frames.skip(j + 1),
                                    maxb,
                                );
                                assert(frames.take(j + 1) + frames.skip(j + 1) =~= frames);
                            }
                        }
                        return Err(e);
                    },
                }
            },
        }
        proof {
            // an oversized first block cannot have got this far
            assert forall|root0: CidData, frames: Seq<(CidData, Seq<u8>)>|
                !car_first_oversize(bytes@, m0, root@, maxb, root0, frames) by {
                if car_first_oversize(bytes@, m0, root@, maxb, root0, frames) {
                    assert(off == hstart);
                    let j = choose|j: int|
                        #![trigger frames.skip(j)]
                        0 <= j <= frames.len() && off == hstart + crate::car::car_frames(
                            frames.take(j),
                        ).len() && is_at(
                            bytes@,
                            off as int,
                            crate::car::car_frames(frames.skip(j)),
                        );
                    if j == frames.len() {
                        assert(frames.take(j) =~= frames);
                        assert(crate::car::car_frames(frames.take(j)).len() == 0);
                    }
                    lemma_boundary_zero(frames, j);
                    lemma_boundary_step(bytes@, off as int, frames, 0);
                    assert(block@ == frames[0].1);
                }
            }
        }
        off = end;
    }
    Ok(state_to_answer(&dv, config, Ghost(store@), Ghost(root@)))
}

/// The block-receiving side of the protocol: verify the blocks of a CAR
/// file against the root and store them, then answer with what remains
/// missing and a sketch of what is held.
///
/// With no CAR file yet — the pull side's opening round — the answer is
/// computed from the local store alone.
pub fn block_receive<C: Cache>(
    root: Cid,
    last_car: Option<CarFile>,
    config: &Config,
    store: &mut MemoryBlockStore,
    cache: &mut C,
) -> (r: Result<ReceiverState, Error>)
    requires
        root.wf(),
        config.wf(),
        old(store).wf(),
        old(cache).wf(),
        cache_valid(old(cache), old(store)@),
    ensures
        final(store).wf(),
        final(cache).wf(),
        cache_valid(final(cache), final(store)@),
        receive_store_ok(old(store)@, final(store)@, root@),
        match r {
            Ok(rs) => receiver_state_ok(
                rs,
                final(store)@,
                root@,
                config.max_roots_per_round as int,
            ),
            // every failure names its witness: an oversized round, or —
            // within the byte budget — one of the frame-receiving loop's
            // causes; with no CAR at all, only an unparseable local store
            Err(e) => {
                &&& (e matches Error::TooManyBytes { receive_maximum, bytes_read } ==> receive_maximum
                    == config.receive_maximum && (last_car matches Some(f) && bytes_read
                    == f.bytes@.len() && f.bytes@.len() > config.receive_maximum))
                &&& (!(e matches Error::TooManyBytes { .. }) ==> (match last_car {
                    Some(f) => f.bytes@.len() <= config.receive_maximum
                        && receive_err_witnessed(
                        e,
                        f.bytes@,
                        final(store)@,
                        root@,
                        config.max_block_size as int,
                    ),
                    None => (e matches Error::UnsupportedCodec { .. } || e
                        matches Error::ParsingError) && !store_parseable(
                        final(store)@,
                        Set::empty().insert(root@),
                    ),
                }))
            },
        },
        // An oversized round is always refused as such.
        (last_car matches Some(f) && f.bytes@.len() > config.receive_maximum) ==> (r matches Err(
            e,
        ) && e matches Error::TooManyBytes { .. }) && final(store)@ == old(store)@,
        // With no CAR the local state is only read, never written.
        last_car is None ==> final(store)@ == old(store)@,
        // Progress: an acceptable round whose first block is owed gets it
        // stored, and one opening with an oversized block is rejected as
        // such before anything is written.
        match last_car {
            Some(f) => f.bytes@.len() <= config.receive_maximum ==> (forall|
                root0: CidData,
                frames: Seq<(CidData, Seq<u8>)>,
            |
                #[trigger] car_first_owed(
                    f.bytes@,
                    old(store)@,
                    root@,
                    config.max_block_size as int,
                    root0,
                    frames,
                ) ==> final(store)@.dom().contains(frames[0].0)) && (forall|
                root0: CidData,
                frames: Seq<(CidData, Seq<u8>)>,
            |
                #[trigger] car_first_oversize(
                    f.bytes@,
                    old(store)@,
                    root@,
                    config.max_block_size as int,
                    root0,
                    frames,
                ) ==> (r matches Err(e) && (e matches Error::BlockSizeExceeded {
                    cid,
                    block_bytes,
                    ..
                } && cid@ == frames[0].0 && block_bytes == frames[0].1.len()))
                    && final(store)@ == old(store)@),
            None => true,
        },
        // Nothing oversized is ever written.
        forall|k: CidData|
            #[trigger] final(store)@.dom().contains(k) && !old(store)@.dom().contains(k)
                ==> final(store)@[k].len() <= config.max_block_size as int,
        // The store gains only blocks the round's frames carried.
        match last_car {
            Some(f) => forall|k: CidData|
                #[trigger] final(store)@.dom().contains(k) && !old(store)@.dom().contains(k)
                    ==> car_names_entry(f.bytes@, k, final(store)@[k]),
            None => true,
        },
        // On a round within the byte budget whose bytes read as a full
        // CAR file over a store that parses cleanly, the stored frames
        // and the outcome follow the frame-by-frame rule exactly.
        match last_car {
            Some(f) => f.bytes@.len() <= config.receive_maximum ==> (forall|
                root0: CidData,
                frames: Seq<(CidData, Seq<u8>)>,
            |
                cid_wf(root0) && crate::car::blocks_wf(frames) && f.bytes@ == #[trigger] car_file(
                    root0,
                    frames,
                ) && store_parseable(old(store)@, Set::empty().insert(root@)) ==> final(store)@
                    == receive_frames(old(store)@, root@, frames, config.max_block_size as int).0
                    && (r is Ok <==> receive_frames(
                    old(store)@,
                    root@,
                    frames,
                    config.max_block_size as int,
                ).1 != 2)),
            None => true,
        },
{
    match last_car {
        Some(car) => {
            if car.bytes.len() > config.receive_maximum {
                return Err(
                    Error::TooManyBytes {
                        receive_maximum: config.receive_maximum,
                        bytes_read: car.bytes.len(),
                    },
                );
            }
            block_receive_car_stream(root, car.bytes.as_slice(), config, store, cache)
        },
        None => {
            let mut roots_vec: Vec<Cid> = Vec::new();
            roots_vec.push(root.clone());
            proof {
                assert(cids_view(roots_vec@) =~= seq![root@]);
                assert(cids_view(roots_vec@).to_set() =~= Set::empty().insert(root@)) by {
                    assert forall|x: CidData| cids_view(roots_vec@).to_set().contains(x) implies Set::empty().insert(
                        root@,
                    ).contains(x) by {
                        let i = choose|i: int|
                            0 <= i < cids_view(roots_vec@).len() && cids_view(roots_vec@)[i] == x;
                    }
                    assert(cids_view(roots_vec@)[0] == root@);
                    assert(cids_view(roots_vec@).contains(root@));
                }
                assert(cids_wf(cids_view(roots_vec@))) by {
                    assert forall|i: int| 0 <= i < cids_view(roots_vec@).len() implies cid_wf(
                        #[trigger] cids_view(roots_vec@)[i],
                    ) by {
                        assert(cids_view(roots_vec@)[i] == root@);
                    }
                }
            }
            let dv = match IncrementalDagVerification::new(roots_vec, store, cache) {
                Ok(v) => v,
                Err(e) => {
                    proof {
                        let c = choose|c: CidData|
                            reachable_from(store@, cids_view(roots_vec@).to_set(), c)
                                && #[trigger] store@.dom().contains(c)
                                && crate::references::block_refs(c, store@[c]) is None;
                        assert(reachable_from(store@, Set::empty().insert(root@), c));
                        assert(!store_parseable(store@, Set::empty().insert(root@)));
                    }
                    return Err(e);
                },
            };
            Ok(state_to_answer(&dv, config, Ghost(store@), Ghost(root@)))
        },
    }
}

/// Frame a block list as separate CAR frames: the header frame naming
/// the first block's CID, then one frame per block. Concatenated, the
/// frames form the file [`write_blocks_into_car`] would emit without a
/// budget; an empty block list yields no frames at all.
pub fn stream_car_frames(blocks: &Vec<(Cid, Vec<u8>)>) -> (r: Vec<Vec<u8>>)
    requires
        crate::car::blocks_wf(blocks_view(blocks@)),
    ensures
        blocks@.len() == 0 ==> r@.len() == 0,
        blocks@.len() > 0 ==> r@.len() == blocks@.len() + 1 && r@[0]@ == car_header(
            blocks_view(blocks@)[0].0,
        ) && (forall|i: int|
            0 <= i < blocks@.len() ==> (#[trigger] r@[i + 1])@ == car_frame(
                blocks_view(blocks@)[i].0,
                blocks_view(blocks@)[i].1,
            )),
{
    let ghost bs = blocks_view(blocks@);
    let mut out: Vec<Vec<u8>> = Vec::new();
    if blocks.len() == 0 {
        return out;
    }
    let mut header: Vec<u8> = Vec::new();
    proof {
        assert(bs[0] == (blocks@[0].0@, blocks@[0].1@));
        assert(cid_wf(bs[0].0));
    }
    write_header(&blocks[0].0, &mut header);
    proof {
        assert(header@ =~= car_header(bs[0].0));
    }
    out.push(header);
    let mut i: usize = 0;
    while i < blocks.len()
        invariant
            crate::car::blocks_wf(bs),
            bs == blocks_view(blocks@),
            bs.len() == blocks@.len(),
            0 <= i <= blocks@.len(),
            out@.len() == i + 1,
            out@[0]@ == car_header(bs[0].0),
            forall|j: int|
                0 <= j < i ==> (#[trigger] out@[j + 1])@ == car_frame(bs[j].0, bs[j].1),
        decreases blocks@.len() - i,
    {
        proof {
            assert(bs[i as int] == (blocks@[i as int].0@, blocks@[i as int].1@));
            assert(cid_wf(bs[i as int].0));
        }
        let mut frame: Vec<u8> = Vec::new();
        write_frame(&blocks[i].0, blocks[i].1.as_slice(), &mut frame);
        proof {
            assert(frame@ =~= car_frame(bs[i as int].0, bs[i as int].1));
        }
        out.push(frame);
        i += 1;
    }
    out
}

/// The streaming shape of the sending side: produce the whole round's
/// CAR bytes under an optional byte budget, leaving the framing visible
/// to the caller.
pub fn block_send_car_stream<C: Cache>(
    root: Cid,
    last_state: Option<ReceiverState>,
    send_limit: Option<usize>,
    store: &MemoryBlockStore,
    cache: &mut C,
) -> (r: Result<Vec<u8>, Error>)
    requires
        root.wf(),
        store.wf(),
        old(cache).wf(),
        cache_valid(old(cache), store@),
        last_state matches Some(s) ==> s.wf(),
    ensures
        final(cache).wf(),
        cache_valid(final(cache), store@),
        r matches Ok(bytes) ==> exists|bloom: Bloom, bs: Seq<(CidData, Seq<u8>)>|
            #![trigger bloom.wf(), crate::car::blocks_wf(bs)]
            send_stream_ok(
                store@,
                root@,
                match last_state {
                    Some(s) => cids_view(s.missing_subgraph_roots@),
                    None => seq![root@],
                },
                match last_state {
                    Some(s) => s.have_cids_bloom,
                    None => None,
                },
                bloom,
                bs,
            ) && bytes@ == spec_write_car(
                bs,
                match send_limit {
                    Some(l) => Some(l as int),
                    None => None,
                },
            ),
        r matches Err(e) ==> match e {
            Error::BlockStoreError(BlockStoreError::CIDNotFound(c)) => reachable_from(
                store@,
                Set::empty().insert(root@),
                c@,
            ) && !store@.dom().contains(c@) && !store_complete(store@, Set::empty().insert(root@)),
            Error::UnsupportedCodec { .. } | Error::ParsingError => !store_parseable(
                store@,
                Set::empty().insert(root@),
            ),
            _ => false,
        },
{
    let blocks = block_send_block_stream(root, last_state, store, cache)?;
    Ok(write_blocks_into_car(&blocks, send_limit))
}

/// Use the received sketch, or an all-zero one-byte sketch that claims
/// nothing when none was received.
pub fn handle_missing_bloom(have_cids_bloom: Option<Bloom>) -> (r: Bloom)
    requires
        have_cids_bloom matches Some(b) ==> b.wf(),
    ensures
        r.wf(),
        match have_cids_bloom {
            Some(b) => r == b,
            None => forall|item: Seq<u8>| !r.spec_has(item),
        },
{
    match have_cids_bloom {
        Some(bloom) => bloom,
        None => Bloom::new_zero(1, 1),
    }
}

} // verus!
