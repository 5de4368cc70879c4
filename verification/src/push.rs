//! The push side of the protocol: the client sends, the server receives.

use vstd::prelude::*;
use crate::bloom::Bloom;
use crate::cache::{Cache, cache_valid};
use crate::cid::{Cid, CidData};
use crate::common::{Config, CarFile, block_send, block_receive, car_first_owed,
    car_first_oversize, receive_err_witnessed, receive_store_ok, receiver_state_ok,
    send_stream_ok, spec_write_car};
use crate::dag::{reachable_from, store_complete, store_parseable};
use crate::error::{BlockStoreError, Error};
use crate::messages::{PushResponse, ReceiverState};
use crate::references::{cids_view, cids_wf};
use crate::store::MemoryBlockStore;

verus! {

/// Create a push request: a CAR file of blocks below `root` the server
/// is thought to be missing. On the first request pass no response; on
/// later ones, pass the last successful response.
///
/// The returned file frames, under the configured byte budget, exactly
/// the blocks below `root` that the response's missing roots and sketch
/// select, per the sender's skip rule.
pub fn request<C: Cache>(
    root: Cid,
    last_response: Option<PushResponse>,
    config: &Config,
    store: &MemoryBlockStore,
    cache: &mut C,
) -> (r: Result<CarFile, Error>)
    requires
        root.wf(),
        store.wf(),
        old(cache).wf(),
        cache_valid(old(cache), store@),
        last_response matches Some(p) ==> cids_wf(cids_view(p.subgraph_roots@)),
    ensures
        final(cache).wf(),
        cache_valid(final(cache), store@),
        ({
            let missing = match last_response {
                Some(p) => cids_view(p.subgraph_roots@),
                None => seq![root@],
            };
            let prior = match last_response {
                Some(p) => if p.bloom_bytes@.len() == 0 {
                    None
                } else {
                    Some(Bloom { hash_count: p.bloom_hash_count as usize, bytes: p.bloom_bytes })
                },
                None => None,
            };
            match r {
                Ok(f) => exists|bloom: Bloom, bs: Seq<(CidData, Seq<u8>)>|
                    #![trigger bloom.wf(), crate::car::blocks_wf(bs)]
                    send_stream_ok(store@, root@, missing, prior, bloom, bs) && f.bytes@
                        == spec_write_car(bs, Some(config.receive_maximum as int)),
                Err(e) => match e {
                    Error::BlockStoreError(BlockStoreError::CIDNotFound(c)) => reachable_from(
                        store@,
                        Set::empty().insert(root@),
                        c@,
                    ) && !store@.dom().contains(c@) && !store_complete(
                        store@,
                        Set::empty().insert(root@),
                    ),
                    Error::UnsupportedCodec { .. } | Error::ParsingError => !store_parseable(
                        store@,
                        Set::empty().insert(root@),
                    ),
                    _ => false,
                },
            }
        }),
{
    let receiver_state = match last_response {
        Some(response) => Some(ReceiverState::from_push_response(response)),
        None => None,
    };
    block_send(root, receiver_state, config, store, cache)
}

/// Answer a push request: verify and store the blocks of the request's
/// CAR file, and report what remains missing together with a sketch of
/// what is held.
///
/// An oversized request is refused whole; an acceptable request whose
/// first block is owed gets that block stored; a request opening with an
/// oversized block is rejected as such; and whatever happens, the store
/// only ever gains verified, root-connected blocks.
pub fn response<C: Cache>(
    root: Cid,
    request: CarFile,
    config: &Config,
    store: &mut MemoryBlockStore,
    cache: &mut C,
) -> (r: Result<PushResponse, Error>)
    requires
        root.wf(),
        config.wf(),
        old(store).wf(),
        old(cache).wf(),
        cache_valid(old(cache), old(store)@),
    ensures
        final(store).wf(),
        final(cache).wf(),
        cache_valid(final(cache), final(store)@),
        receive_store_ok(old(store)@, final(store)@, root@),
        r matches Ok(p) ==> exists|rs: ReceiverState|
            #[trigger] receiver_state_ok(rs, final(store)@, root@, config.max_roots_per_round as int)
                && cids_view(p.subgraph_roots@) == cids_view(rs.missing_subgraph_roots@) && (
            p.bloom_hash_count as int,
            p.bloom_bytes@,
            ) == ReceiverState::spec_bloom_serialize(rs.have_cids_bloom),
        // every failure names its witness: an oversized request, or one
        // of the frame-receiving loop's causes
        r matches Err(e) ==> ({
            &&& (e matches Error::TooManyBytes { .. } ==> request.bytes@.len()
                > config.receive_maximum)
            &&& (!(e matches Error::TooManyBytes { .. }) ==> request.bytes@.len()
                <= config.receive_maximum && receive_err_witnessed(
                e,
                request.bytes@,
                final(store)@,
                root@,
                config.max_block_size as int,
            ))
        }),
        request.bytes@.len() > config.receive_maximum ==> (r matches Err(e) && e
            matches Error::TooManyBytes { .. }) && final(store)@ == old(store)@,
        request.bytes@.len() <= config.receive_maximum ==> (forall|
            root0: CidData,
            frames: Seq<(CidData, Seq<u8>)>,
        |
            #[trigger] car_first_owed(
                request.bytes@,
                old(store)@,
                root@,
                config.max_block_size as int,
                root0,
                frames,
            ) ==> final(store)@.dom().contains(frames[0].0)) && (forall|
            root0: CidData,
            frames: Seq<(CidData, Seq<u8>)>,
        |
            #[trigger] car_first_oversize(
                request.bytes@,
                old(store)@,
                root@,
                config.max_block_size as int,
                root0,
                frames,
            ) ==> (r matches Err(e) && (e matches Error::BlockSizeExceeded {
                cid,
                block_bytes,
                ..
            } && cid@ == frames[0].0 && block_bytes == frames[0].1.len()))
                && final(store)@ == old(store)@),
        forall|k: CidData|
            #[trigger] final(store)@.dom().contains(k) && !old(store)@.dom().contains(k)
                ==> final(store)@[k].len() <= config.max_block_size as int,
        // the store gains only blocks the request's frames carried
        forall|k: CidData|
            #[trigger] final(store)@.dom().contains(k) && !old(store)@.dom().contains(k)
                ==> crate::common::car_names_entry(request.bytes@, k, final(store)@[k]),
        // on a request within the byte budget that reads as a full CAR
        // file over a store that parses cleanly, the stored frames and
        // the outcome follow the frame-by-frame rule exactly
        request.bytes@.len() <= config.receive_maximum ==> (forall|
            root0: CidData,
            frames: Seq<(CidData, Seq<u8>)>,
        |
            crate::cid::cid_wf(root0) && crate::car::blocks_wf(frames) && request.bytes@
                == #[trigger] crate::car::car_file(root0, frames) && store_parseable(
                old(store)@,
                Set::empty().insert(root@),
            ) ==> final(store)@ == crate::common::receive_frames(
                old(store)@,
                root@,
                frames,
                config.max_block_size as int,
            ).0 && (r is Ok <==> crate::common::receive_frames(
                old(store)@,
                root@,
                frames,
                config.max_block_size as int,
            ).1 != 2)),
{
    match block_receive(root, Some(request), config, store, cache) {
        Ok(rs) => {
            let ghost rsg = rs;
            let resp = rs.into_push_response();
            proof {
                assert(receiver_state_ok(
                    rsg,
                    store@,
                    root@,
                    config.max_roots_per_round as int,
                ));
            }
            Ok(resp)
        },
        Err(e) => Err(e),
    }
}

} // verus!
