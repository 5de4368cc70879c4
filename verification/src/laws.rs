//! The protocol's global guarantees, stated and proved over the
//! contracts of the engine's functions.

use vstd::prelude::*;
use crate::bloom::Bloom;
use crate::cid::CidData;
use crate::common::{car_first_owed, send_stream_ok, spec_write_car, validated, receiver_state_ok};
use crate::dag::{reachable_from, linked, is_path, store_complete, lemma_subset_len,
    lemma_reachable_root};
use crate::incremental_verification::IncrementalDagVerification;
use crate::messages::ReceiverState;
use crate::references::cids_view;
use crate::car::car_file;

verus! {

/// The outcome of verification does not depend on the order blocks
/// arrived: two verification states over the same store and the same
/// roots hold the same wants and the same haves, however they were
/// produced.
pub proof fn lemma_verification_unaffected_by_order(
    a: IncrementalDagVerification,
    b: IncrementalDagVerification,
    m: Map<CidData, Seq<u8>>,
)
    requires
        a.valid(m),
        b.valid(m),
        a.roots@ == b.roots@,
    ensures
        a.want_cids@ =~= b.want_cids@,
        a.have_cids@ =~= b.have_cids@,
{
}

/// Two stores agree where they overlap: a shared CID names the same
/// bytes in both.
pub open spec fn stores_agree(ms: Map<CidData, Seq<u8>>, mr: Map<CidData, Seq<u8>>) -> bool {
    forall|k: CidData|
        ms.dom().contains(k) && #[trigger] mr.dom().contains(k) ==> ms[k] == mr[k]
}

/// A chain through the receiver's store is a chain through a complete,
/// agreeing sender store: the sender can serve anything the receiver
/// found reachable.
proof fn lemma_path_transfer(
    ms: Map<CidData, Seq<u8>>,
    mr: Map<CidData, Seq<u8>>,
    root: CidData,
    p: Seq<CidData>,
)
    requires
        stores_agree(ms, mr),
        store_complete(ms, Set::empty().insert(root)),
        is_path(mr, p),
        p.len() > 0,
        p[0] == root,
    ensures
        is_path(ms, p),
        reachable_from(ms, Set::empty().insert(root), p.last()),
    decreases p.len(),
{
    let rset = Set::empty().insert(root);
    if p.len() == 1 {
        lemma_reachable_root(ms, rset, root);
    } else {
        let q = p.subrange(0, p.len() - 1);
        assert(is_path(mr, q)) by {
            assert forall|i: int| 0 <= i < q.len() - 1 implies linked(mr, #[trigger] q[i], q[i + 1]) by {
                assert(q[i] == p[i] && q[i + 1] == p[i + 1]);
            }
        }
        lemma_path_transfer(ms, mr, root, q);
        assert(linked(mr, p[p.len() - 2], p.last())) by {
            assert(q.last() == p[p.len() - 2]);
        }
        assert(ms.dom().contains(p[p.len() - 2])) by {
            assert(reachable_from(ms, rset, q.last()));
        }
        assert(linked(ms, p[p.len() - 2], p.last())) by {
            assert(mr.dom().contains(p[p.len() - 2]));
            assert(ms[p[p.len() - 2]] == mr[p[p.len() - 2]]);
        }
        assert forall|i: int| 0 <= i < p.len() - 1 implies linked(ms, #[trigger] p[i], p[i + 1]) by {
            if i < p.len() - 2 {
                assert(linked(ms, q[i], q[i + 1]));
            }
        }
        crate::dag::lemma_reachable_step(ms, rset, p[p.len() - 2], p.last());
    }
}

/// Every round makes progress: when the receiver still reports missing
/// roots, an honest and complete sender answers with a CAR whose first
/// block the receiver is bound to verify and store — so the receiver's
/// holdings of sender-reachable blocks strictly grow, or the protocol
/// has finished. Together with the finiteness of the DAG this bounds
/// the number of rounds, so the protocol halts.
pub proof fn lemma_round_progress(
    ms: Map<CidData, Seq<u8>>,
    mr: Map<CidData, Seq<u8>>,
    root: CidData,
    rs: ReceiverState,
    bloom: Bloom,
    bs: Seq<(CidData, Seq<u8>)>,
    f_bytes: Seq<u8>,
    limit: int,
    max_block: int,
    max_roots: int,
)
    requires
        // the sender's answer to the receiver's reported state
        send_stream_ok(
            ms,
            root,
            cids_view(rs.missing_subgraph_roots@),
            rs.have_cids_bloom,
            bloom,
            bs,
        ),
        f_bytes == spec_write_car(bs, Some(limit)),
        // what the receiver reported of its own store
        receiver_state_ok(rs, mr, root, max_roots),
        rs.missing_subgraph_roots@.len() > 0,
        // the sender holds the whole DAG, honestly, in acceptable sizes
        store_complete(ms, Set::empty().insert(root)),
        stores_agree(ms, mr),
        forall|k: CidData|
            #[trigger] ms.dom().contains(k) ==> crate::hashing::digest_of(k.multihash_code, ms[k])
                == Some(k.digest) && ms[k].len() <= max_block,
        crate::dag::store_parseable(mr, Set::empty().insert(root)),
    ensures
        exists|root0: CidData, frames: Seq<(CidData, Seq<u8>)>|
            #[trigger] car_first_owed(f_bytes, mr, root, max_block, root0, frames)
                && !mr.dom().contains(frames[0].0) && reachable_from(
                ms,
                Set::empty().insert(root),
                frames[0].0,
            ),
{
    let rset = Set::empty().insert(root);
    let missing = cids_view(rs.missing_subgraph_roots@);
    // the first reported missing root is validated by the sender
    let c0 = missing[0];
    assert(missing.contains(c0));
    assert(reachable_from(mr, rset, c0) && !mr.dom().contains(c0));
    let p = choose|p: Seq<CidData>|
        #[trigger] is_path(mr, p) && p.len() > 0 && rset.contains(p[0]) && p.last() == c0;
    lemma_path_transfer(ms, mr, root, p);
    assert(validated(ms, root, missing, c0));
    // so the sender emitted at least one block, led by a validated root
    assert(bs.len() > 0 && validated(ms, root, missing, bs[0].0));
    let b0 = bs[0];
    assert(ms.dom().contains(b0.0) && b0.1 == ms[b0.0]) by {
        assert(crate::common::data_block_cids(bs)[0] == b0.0);
        assert(crate::common::data_block_cids(bs).contains(b0.0));
    }
    // the receiver wants it: it was reported missing, so it is absent
    assert(missing.contains(b0.0));
    assert(!mr.dom().contains(b0.0));
    assert(reachable_from(mr, rset, b0.0));
    // the framed bytes form a CAR led by that block
    let first_len = crate::car::car_header(bs[0].0).len() + crate::car::car_frame(
        bs[0].0,
        bs[0].1,
    ).len();
    let k = crate::common::spec_budget_cut(bs.skip(1), limit, first_len as int);
    let frames = bs.subrange(0, 1 + k);
    assert(0 <= k <= bs.skip(1).len()) by {
        lemma_budget_cut_bound(bs.skip(1), limit, first_len as int);
    }
    assert(frames.len() > 0 && frames[0] == b0);
    assert(f_bytes == car_file(bs[0].0, frames));
    assert(crate::car::blocks_wf(frames)) by {
        assert forall|i: int| 0 <= i < frames.len() implies crate::cid::cid_wf(
            (#[trigger] frames[i]).0,
        ) && crate::store::block_len_ok(frames[i].1.len() as int) by {
            assert(frames[i] == bs[i]);
        }
    }
    assert(car_first_owed(f_bytes, mr, root, max_block, bs[0].0, frames));
}

/// The budget cut never exceeds the blocks available.
proof fn lemma_budget_cut_bound(bs: Seq<(CidData, Seq<u8>)>, limit: int, acc: int)
    ensures
        0 <= crate::common::spec_budget_cut(bs, limit, acc) <= bs.len(),
    decreases bs.len(),
{
    if bs.len() > 0 && !(acc + 68 + bs[0].1.len() > limit) {
        lemma_budget_cut_bound(
            bs.drop_first(),
            limit,
            acc + crate::car::car_frame(bs[0].0, bs[0].1).len(),
        );
    }
}

/// The rounds are bounded: each round removes at least one CID from the
/// finite set of sender-reachable CIDs the receiver still lacks, so after
/// at most as many rounds as that set has members, nothing is missing.
pub proof fn lemma_round_measure_decreases(
    reach: Set<CidData>,
    dom_before: Set<CidData>,
    dom_after: Set<CidData>,
    k: CidData,
)
    requires
        reach.finite(),
        reach.contains(k),
        !dom_before.contains(k),
        dom_after.contains(k),
        dom_before.subset_of(dom_after),
    ensures
        reach.difference(dom_after).len() < reach.difference(dom_before).len(),
{
    let da = reach.difference(dom_after);
    let db = reach.difference(dom_before);
    assert(da.subset_of(db));
    assert(db.contains(k) && !da.contains(k));
    lemma_subset_len(db, reach);
    assert(da.subset_of(db.remove(k)));
    lemma_subset_len(da, db.remove(k));
    assert(db.remove(k).len() == db.len() - 1) by {
        lemma_subset_len(db.remove(k), db);
    }
}

} // verus!
