//! Block reference extraction: the outgoing CID links of a block.
//!
//! The decoder is chosen by the CID's codec tag: raw blocks have no links;
//! DAG-CBOR and DAG-PB blocks are parsed by their codec crates behind
//! trusted wrappers, whose outcome is a function of the block bytes alone.

use vstd::prelude::*;
use crate::cid::{Cid, CidData, cid_wf, CODEC_RAW, CODEC_DAG_CBOR, CODEC_DAG_PB};
use crate::error::Error;

verus! {

/// The CID links of a DAG-CBOR document in document order, or `None` when
/// the bytes are not a well-formed document: a function of the bytes alone.
pub uninterp spec fn dag_cbor_links(bytes: Seq<u8>) -> Option<Seq<CidData>>;

/// The links of a DAG-PB node in declaration order, or `None` when the
/// bytes are not a well-formed node: a function of the bytes alone.
pub uninterp spec fn dag_pb_links(bytes: Seq<u8>) -> Option<Seq<CidData>>;

/// The view sequence of a CID vector.
pub open spec fn cids_view(v: Seq<Cid>) -> Seq<CidData> {
    v.map_values(|c: Cid| c@)
}

/// All CIDs in a view sequence are well-formed.
pub open spec fn cids_wf(s: Seq<CidData>) -> bool {
    forall|i: int| 0 <= i < s.len() ==> cid_wf(#[trigger] s[i])
}

/// Relies on `serde_ipld_dagcbor::from_slice` decoding a generic IPLD
/// document and on ipld-core's `Ipld::references` enumerating its CID
/// links in document order; both depend on the block bytes alone, and
/// every link the cid crate yields is well-formed with a digest of at
/// most 64 bytes.
#[verifier::external_body]
fn extract_dag_cbor_links(bytes: &[u8]) -> (r: Option<Vec<Cid>>)
    ensures
        match r {
            Some(v) => dag_cbor_links(bytes@) == Some(cids_view(v@)) && cids_wf(cids_view(v@)),
            None => dag_cbor_links(bytes@) is None,
        },
{
    let ipld: ipld_core::ipld::Ipld = match serde_ipld_dagcbor::from_slice(bytes) {
        Ok(v) => v,
        Err(_) => return None,
    };
    let mut links: Vec<ipld_core::cid::Cid> = Vec::new();
    ipld.references(&mut links);
    Some(links.iter().map(|c| Cid {
        version: u64::from(c.version()),
        codec: c.codec(),
        multihash_code: c.hash().code(),
        digest: c.hash().digest().to_vec(),
    }).collect())
}

/// Relies on `ipld_dagpb::links` parsing a DAG-PB node and yielding its
/// links in declaration order; the outcome depends on the block bytes
/// alone, and every link the cid crate yields is well-formed with a
/// digest of at most 64 bytes.
#[verifier::external_body]
fn extract_dag_pb_links(bytes: &[u8]) -> (r: Option<Vec<Cid>>)
    ensures
        match r {
            Some(v) => dag_pb_links(bytes@) == Some(cids_view(v@)) && cids_wf(cids_view(v@)),
            None => dag_pb_links(bytes@) is None,
        },
{
    let mut links: Vec<ipld_core::cid::Cid> = Vec::new();
    match ipld_dagpb::links(bytes, &mut links) {
        Ok(()) => Some(links.iter().map(|c| Cid {
            version: u64::from(c.version()),
            codec: c.codec(),
            multihash_code: c.hash().code(),
            digest: c.hash().digest().to_vec(),
        }).collect()),
        Err(_) => None,
    }
}

/// Whether the reference extractor knows this codec.
pub open spec fn supported_codec(codec: int) -> bool {
    codec == CODEC_RAW || codec == CODEC_DAG_CBOR || codec == CODEC_DAG_PB
}

/// The outgoing links of the block `bytes` named by `c`: empty for raw
/// blocks, the codec's link list otherwise; `None` when the codec is
/// unsupported or the block cannot be parsed.
pub open spec fn block_refs(c: CidData, bytes: Seq<u8>) -> Option<Seq<CidData>> {
    if c.codec == CODEC_RAW {
        Some(Seq::empty())
    } else if c.codec == CODEC_DAG_CBOR {
        dag_cbor_links(bytes)
    } else if c.codec == CODEC_DAG_PB {
        dag_pb_links(bytes)
    } else {
        None
    }
}

/// Find all CIDs that the block `bytes`, named by `cid`, references.
///
/// Fails with `UnsupportedCodec` when the codec is unknown, and with
/// `ParsingError` when the block cannot be parsed.
pub fn references(cid: &Cid, bytes: &[u8]) -> (r: Result<Vec<Cid>, Error>)
    ensures
        match r {
            Ok(v) => block_refs(cid@, bytes@) == Some(cids_view(v@)) && cids_wf(cids_view(v@)),
            Err(e) => match e {
                Error::UnsupportedCodec { cid: c } => c@ == cid@ && !supported_codec(cid@.codec),
                Error::ParsingError => supported_codec(cid@.codec) && block_refs(cid@, bytes@) is None,
                _ => false,
            },
        },
{
    if cid.codec == CODEC_RAW {
        let v: Vec<Cid> = Vec::new();
        assert(cids_view(v@) =~= Seq::<CidData>::empty());
        Ok(v)
    } else if cid.codec == CODEC_DAG_CBOR {
        match extract_dag_cbor_links(bytes) {
            Some(v) => Ok(v),
            None => Err(Error::ParsingError),
        }
    } else if cid.codec == CODEC_DAG_PB {
        match extract_dag_pb_links(bytes) {
            Some(v) => Ok(v),
            None => Err(Error::ParsingError),
        }
    } else {
        Err(Error::UnsupportedCodec { cid: cid.clone() })
    }
}

/// Clone a vector of CIDs, preserving the view.
pub fn clone_cids(v: &Vec<Cid>) -> (r: Vec<Cid>)
    ensures
        cids_view(r@) =~= cids_view(v@),
        r@.len() == v@.len(),
{
    let mut out: Vec<Cid> = Vec::new();
    let mut i: usize = 0;
    while i < v.len()
        invariant
            0 <= i <= v@.len(),
            out@.len() == i,
            forall|j: int| 0 <= j < i ==> (#[trigger] out@[j])@ == v@[j]@,
        decreases v@.len() - i,
    {
        out.push(v[i].clone());
        i += 1;
    }
    assert(cids_view(out@) =~= cids_view(v@));
    out
}

} // verus!
