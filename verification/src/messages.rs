//! The over-the-wire payloads and their relation to receiver state.
//!
//! `PullRequest` and `PushResponse` are wire-isomorphic: both carry a CID
//! list, a bloom hash count, and the bloom bit bytes. Conversion to and
//! from [`ReceiverState`] is total; an empty bloom byte string stands for
//! "no sketch".

use vstd::prelude::*;
use crate::bloom::Bloom;
use crate::cid::Cid;
use crate::references::{cids_view, cids_wf, clone_cids};

verus! {

/// What the block-receiving end tells the block-sending end: the subgraph
/// roots it still misses, and a sketch of the CIDs it already has.
#[derive(Debug)]
pub struct ReceiverState {
    /// At least some of the subgraph roots missing on the receiving end.
    pub missing_subgraph_roots: Vec<Cid>,
    /// An optional bloom sketch of the CIDs the receiving end has.
    pub have_cids_bloom: Option<Bloom>,
}

/// Initial and follow-up payload of a pull request.
#[derive(Debug)]
pub struct PullRequest {
    /// Requested CID roots.
    pub resources: Vec<Cid>,
    /// Bloom filter hash count.
    pub bloom_hash_count: u32,
    /// Bloom filter bit bytes; empty for "no sketch".
    pub bloom_bytes: Vec<u8>,
}

/// The payload answering a push request.
#[derive(Debug)]
pub struct PushResponse {
    /// Subgraph roots still missing.
    pub subgraph_roots: Vec<Cid>,
    /// Bloom filter hash count.
    pub bloom_hash_count: u32,
    /// Bloom filter bit bytes; empty for "no sketch".
    pub bloom_bytes: Vec<u8>,
}

impl ReceiverState {
    /// Roots are well-formed; a sketch, when present, is usable and its
    /// hash count fits the wire.
    pub open spec fn wf(&self) -> bool {
        &&& cids_wf(cids_view(self.missing_subgraph_roots@))
        &&& match self.have_cids_bloom {
            Some(b) => b.wf() && b.hash_count <= u32::MAX,
            None => true,
        }
    }

    /// The wire form of the sketch: hash count and bit bytes; an absent
    /// sketch turns into an empty byte string.
    pub open spec fn spec_bloom_serialize(bloom: Option<Bloom>) -> (int, Seq<u8>) {
        match bloom {
            Some(b) => (b.hash_count as int, b.bytes@),
            None => (3, Seq::empty()),
        }
    }

    /// The sketch a wire form denotes: empty bytes mean no sketch.
    pub open spec fn spec_bloom_deserialize(k: int, bytes: Seq<u8>) -> Option<(int, Seq<u8>)> {
        if bytes.len() == 0 {
            None
        } else {
            Some((k, bytes))
        }
    }

    fn bloom_serialize(bloom: Option<Bloom>) -> (r: (u32, Vec<u8>))
        requires
            bloom matches Some(b) ==> b.hash_count <= u32::MAX,
        ensures
            (r.0 as int, r.1@) == Self::spec_bloom_serialize(bloom),
    {
        match bloom {
            Some(b) => ((b.hash_count as u32), b.bytes),
            None => (3, Vec::new()),
        }
    }

    fn bloom_deserialize(hash_count: u32, bytes: Vec<u8>) -> (r: Option<Bloom>)
        ensures
            match r {
                Some(b) => Self::spec_bloom_deserialize(hash_count as int, bytes@) == Some(
                    (b.hash_count as int, b.bytes@),
                ) && b.wf() && b.hash_count <= u32::MAX,
                None => Self::spec_bloom_deserialize(hash_count as int, bytes@) is None,
            },
            r == (if bytes@.len() == 0 {
                None
            } else {
                Some(Bloom { hash_count: hash_count as usize, bytes: bytes })
            }),
    {
        if bytes.len() == 0 {
            None
        } else {
            Some(Bloom { hash_count: hash_count as usize, bytes })
        }
    }

    /// Read a receiver state out of a push response.
    pub fn from_push_response(push: PushResponse) -> (r: ReceiverState)
        requires
            cids_wf(cids_view(push.subgraph_roots@)),
        ensures
            r.wf(),
            cids_view(r.missing_subgraph_roots@) == cids_view(push.subgraph_roots@),
            Self::spec_bloom_serialize(r.have_cids_bloom).1 == (if push.bloom_bytes@.len() == 0 {
                Seq::<u8>::empty()
            } else {
                push.bloom_bytes@
            }),
            match Self::spec_bloom_deserialize(push.bloom_hash_count as int, push.bloom_bytes@) {
                Some(p) => r.have_cids_bloom matches Some(b) && b.hash_count as int == p.0
                    && b.bytes@ == p.1,
                None => r.have_cids_bloom is None,
            },
            r.missing_subgraph_roots == push.subgraph_roots,
            r.have_cids_bloom == (if push.bloom_bytes@.len() == 0 {
                None
            } else {
                Some(
                    Bloom {
                        hash_count: push.bloom_hash_count as usize,
                        bytes: push.bloom_bytes,
                    },
                )
            }),
    {
        ReceiverState {
            missing_subgraph_roots: push.subgraph_roots,
            have_cids_bloom: Self::bloom_deserialize(push.bloom_hash_count, push.bloom_bytes),
        }
    }

    /// Read a receiver state out of a pull request.
    pub fn from_pull_request(pull: PullRequest) -> (r: ReceiverState)
        requires
            cids_wf(cids_view(pull.resources@)),
        ensures
            r.wf(),
            cids_view(r.missing_subgraph_roots@) == cids_view(pull.resources@),
            match Self::spec_bloom_deserialize(pull.bloom_hash_count as int, pull.bloom_bytes@) {
                Some(p) => r.have_cids_bloom matches Some(b) && b.hash_count as int == p.0
                    && b.bytes@ == p.1,
                None => r.have_cids_bloom is None,
            },
            r.missing_subgraph_roots == pull.resources,
            r.have_cids_bloom == (if pull.bloom_bytes@.len() == 0 {
                None
            } else {
                Some(
                    Bloom {
                        hash_count: pull.bloom_hash_count as usize,
                        bytes: pull.bloom_bytes,
                    },
                )
            }),
    {
        ReceiverState {
            missing_subgraph_roots: pull.resources,
            have_cids_bloom: Self::bloom_deserialize(pull.bloom_hash_count, pull.bloom_bytes),
        }
    }

    /// Turn this receiver state into a push response.
    pub fn into_push_response(self) -> (r: PushResponse)
        requires
            self.wf(),
        ensures
            cids_view(r.subgraph_roots@) == cids_view(self.missing_subgraph_roots@),
            (r.bloom_hash_count as int, r.bloom_bytes@) == Self::spec_bloom_serialize(
                self.have_cids_bloom,
            ),
    {
        let (hash_count, bytes) = Self::bloom_serialize(self.have_cids_bloom);
        PushResponse {
            subgraph_roots: self.missing_subgraph_roots,
            bloom_hash_count: hash_count,
            bloom_bytes: bytes,
        }
    }

    /// Turn this receiver state into a pull request.
    pub fn into_pull_request(self) -> (r: PullRequest)
        requires
            self.wf(),
        ensures
            cids_view(r.resources@) == cids_view(self.missing_subgraph_roots@),
            (r.bloom_hash_count as int, r.bloom_bytes@) == Self::spec_bloom_serialize(
                self.have_cids_bloom,
            ),
    {
        let (hash_count, bytes) = Self::bloom_serialize(self.have_cids_bloom);
        PullRequest {
            resources: self.missing_subgraph_roots,
            bloom_hash_count: hash_count,
            bloom_bytes: bytes,
        }
    }
}

/// The wire codec loses nothing: reading back a serialized sketch gives
/// the same hash count and the same bits, and "no sketch" stays "no
/// sketch". With the conversions above, a receiver state survives the
/// round trip through either payload unchanged.
pub proof fn lemma_bloom_wire_round_trip(bloom: Option<Bloom>)
    requires
        bloom matches Some(b) ==> b.wf(),
    ensures
        match bloom {
            Some(b) => ReceiverState::spec_bloom_deserialize(
                ReceiverState::spec_bloom_serialize(bloom).0,
                ReceiverState::spec_bloom_serialize(bloom).1,
            ) == Some((b.hash_count as int, b.bytes@)),
            None => ReceiverState::spec_bloom_deserialize(
                ReceiverState::spec_bloom_serialize(bloom).0,
                ReceiverState::spec_bloom_serialize(bloom).1,
            ) is None,
        },
{
}

/// Relies on std's `format!` machinery: renders three counts into a
/// short fixed-shape description, at most 120 characters since each
/// count prints in at most 20 digits.
#[verifier::external_body]
fn render_counts(missing: usize, bloom: Option<(usize, usize)>) -> (r: String)
    ensures
        r@.len() <= 120,
{
    match bloom {
        Some((k, n)) => format!(
            "ReceiverState(missing: {missing}, bloom: {k} hashes over {n} bytes)"
        ),
        None => format!("ReceiverState(missing: {missing}, bloom: none)"),
    }
}

impl ReceiverState {
    /// A concise, bounded description of this state: the count of missing
    /// roots and the sketch's dimensions, never the full contents.
    pub fn debug_string(&self) -> (r: String)
        ensures
            r@.len() <= 120,
    {
        let bloom = match &self.have_cids_bloom {
            Some(b) => Some((b.hash_count, b.bytes.len())),
            None => None,
        };
        render_counts(self.missing_subgraph_roots.len(), bloom)
    }
}

impl PushResponse {
    /// Whether this response says the protocol is finished.
    pub fn indicates_finished(&self) -> (r: bool)
        ensures
            r <==> self.subgraph_roots@.len() == 0,
    {
        self.subgraph_roots.len() == 0
    }
}

impl PullRequest {
    /// Whether the request need not be sent at all: the requester misses
    /// nothing.
    pub fn indicates_finished(&self) -> (r: bool)
        ensures
            r <==> self.resources@.len() == 0,
    {
        self.resources.len() == 0
    }
}

} // verus!
