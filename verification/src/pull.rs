//! The pull side of the protocol: the client receives, the server sends.

use vstd::prelude::*;
use crate::bloom::Bloom;
use crate::cache::{Cache, cache_valid};
use crate::cid::{Cid, CidData};
use crate::common::{Config, CarFile, block_send, block_receive, car_first_owed,
    car_first_oversize, receive_err_witnessed, receive_store_ok, receiver_state_ok,
    send_stream_ok, spec_write_car};
use crate::dag::{reachable_from, store_complete, store_parseable};
use crate::error::{BlockStoreError, Error};
use crate::messages::{PullRequest, ReceiverState};
use crate::references::{cids_view, cids_wf};
use crate::store::MemoryBlockStore;

verus! {

/// Create a pull request, handling the CAR file of the previous response
/// when there is one. When the returned request reports nothing missing,
/// the protocol is finished and the request need not be sent.
///
/// With no previous response the local state is only read, never
/// written. An oversized response is refused whole; an acceptable one
/// whose first block is owed gets that block stored; and whatever
/// happens, the store only ever gains verified, root-connected blocks.
pub fn request<C: Cache>(
    root: Cid,
    last_response: Option<CarFile>,
    config: &Config,
    store: &mut MemoryBlockStore,
    cache: &mut C,
) -> (r: Result<PullRequest, Error>)
    requires
        root.wf(),
        config.wf(),
        old(store).wf(),
        old(cache).wf(),
        cache_valid(old(cache), old(store)@),
    ensures
        final(store).wf(),
        final(cache).wf(),
        cache_valid(final(cache), final(store)@),
        receive_store_ok(old(store)@, final(store)@, root@),
        r matches Ok(p) ==> exists|rs: ReceiverState|
            #[trigger] receiver_state_ok(rs, final(store)@, root@, config.max_roots_per_round as int)
                && cids_view(p.resources@) == cids_view(rs.missing_subgraph_roots@) && (
            p.bloom_hash_count as int,
            p.bloom_bytes@,
            ) == ReceiverState::spec_bloom_serialize(rs.have_cids_bloom),
        // every failure names its witness: an oversized response, one of
        // the frame-receiving loop's causes, or — with no response yet —
        // an unparseable local store
        r matches Err(e) ==> ({
            &&& (e matches Error::TooManyBytes { .. } ==> (last_response matches Some(f)
                && f.bytes@.len() > config.receive_maximum))
            &&& (!(e matches Error::TooManyBytes { .. }) ==> (match last_response {
                Some(f) => f.bytes@.len() <= config.receive_maximum && receive_err_witnessed(
                    e,
                    f.bytes@,
                    final(store)@,
                    root@,
                    config.max_block_size as int,
                ),
                None => (e matches Error::UnsupportedCodec { .. } || e
                    matches Error::ParsingError) && !store_parseable(
                    final(store)@,
                    Set::empty().insert(root@),
                ),
            }))
        }),
        last_response is None ==> final(store)@ == old(store)@,
        match last_response {
            Some(f) => {
                &&& f.bytes@.len() > config.receive_maximum ==> (r matches Err(e) && e
                    matches Error::TooManyBytes { .. }) && final(store)@ == old(store)@
                &&& f.bytes@.len() <= config.receive_maximum ==> (forall|
                    root0: CidData,
                    frames: Seq<(CidData, Seq<u8>)>,
                |
                    #[trigger] car_first_owed(
                        f.bytes@,
                        old(store)@,
                        root@,
                        config.max_block_size as int,
                        root0,
                        frames,
                    ) ==> final(store)@.dom().contains(frames[0].0)) && (forall|
                    root0: CidData,
                    frames: Seq<(CidData, Seq<u8>)>,
                |
                    #[trigger] car_first_oversize(
                        f.bytes@,
                        old(store)@,
                        root@,
                        config.max_block_size as int,
                        root0,
                        frames,
                    ) ==> (r matches Err(e) && (e matches Error::BlockSizeExceeded {
                        cid,
                        block_bytes,
                        ..
                    } && cid@ == frames[0].0 && block_bytes == frames[0].1.len()))
                        && final(store)@ == old(store)@)
            },
            None => true,
        },
        forall|k: CidData|
            #[trigger] final(store)@.dom().contains(k) && !old(store)@.dom().contains(k)
                ==> final(store)@[k].len() <= config.max_block_size as int,
        // the store gains only blocks the response's frames carried
        match last_response {
            Some(f) => forall|k: CidData|
                #[trigger] final(store)@.dom().contains(k) && !old(store)@.dom().contains(k)
                    ==> crate::common::car_names_entry(f.bytes@, k, final(store)@[k]),
            None => true,
        },
        // on a response within the byte budget that reads as a full CAR
        // file over a store that parses cleanly, the stored frames and
        // the outcome follow the frame-by-frame rule exactly
        match last_response {
            Some(f) => f.bytes@.len() <= config.receive_maximum ==> (forall|
                root0: CidData,
                frames: Seq<(CidData, Seq<u8>)>,
            |
                crate::cid::cid_wf(root0) && crate::car::blocks_wf(frames) && f.bytes@
                    == #[trigger] crate::car::car_file(root0, frames) && store_parseable(
                    old(store)@,
                    Set::empty().insert(root@),
                ) ==> final(store)@ == crate::common::receive_frames(
                    old(store)@,
                    root@,
                    frames,
                    config.max_block_size as int,
                ).0 && (r is Ok <==> crate::common::receive_frames(
                    old(store)@,
                    root@,
                    frames,
                    config.max_block_size as int,
                ).1 != 2)),
            None => true,
        },
{
    match block_receive(root, last_response, config, store, cache) {
        Ok(rs) => {
            let ghost rsg = rs;
            let req = rs.into_pull_request();
            proof {
                assert(receiver_state_ok(
                    rsg,
                    store@,
                    root@,
                    config.max_roots_per_round as int,
                ));
            }
            Ok(req)
        },
        Err(e) => Err(e),
    }
}

/// Answer a pull request: a CAR file of the requested blocks below
/// `root` that the requester does not claim to have.
///
/// The returned file frames, under the configured byte budget, exactly
/// the blocks below `root` that the request's roots and sketch select,
/// per the sender's skip rule.
pub fn response<C: Cache>(
    root: Cid,
    request: PullRequest,
    config: &Config,
    store: &MemoryBlockStore,
    cache: &mut C,
) -> (r: Result<CarFile, Error>)
    requires
        root.wf(),
        store.wf(),
        old(cache).wf(),
        cache_valid(old(cache), store@),
        cids_wf(cids_view(request.resources@)),
    ensures
        final(cache).wf(),
        cache_valid(final(cache), store@),
        ({
            let missing = cids_view(request.resources@);
            let prior = if request.bloom_bytes@.len() == 0 {
                None
            } else {
                Some(
                    Bloom {
                        hash_count: request.bloom_hash_count as usize,
                        bytes: request.bloom_bytes,
                    },
                )
            };
            match r {
                Ok(f) => exists|bloom: Bloom, bs: Seq<(CidData, Seq<u8>)>|
                    #![trigger bloom.wf(), crate::car::blocks_wf(bs)]
                    send_stream_ok(store@, root@, missing, prior, bloom, bs) && f.bytes@
                        == spec_write_car(bs, Some(config.receive_maximum as int)),
                Err(e) => match e {
                    Error::BlockStoreError(BlockStoreError::CIDNotFound(c)) => reachable_from(
                        store@,
                        Set::empty().insert(root@),
                        c@,
                    ) && !store@.dom().contains(c@) && !store_complete(
                        store@,
                        Set::empty().insert(root@),
                    ),
                    Error::UnsupportedCodec { .. } | Error::ParsingError => !store_parseable(
                        store@,
                        Set::empty().insert(root@),
                    ),
                    _ => false,
                },
            }
        }),
{
    let receiver_state = Some(ReceiverState::from_pull_request(request));
    block_send(root, receiver_state, config, store, cache)
}

} // verus!
