//! Content identifiers: self-describing hash-based names for blocks.
//!
//! A CID carries a codec tag and a multihash (hash algorithm code plus
//! digest). Equality is byte-equality on the encoded form, which the
//! binary encoding here realises.

use vstd::prelude::*;
use vstd::slice::{slice_subrange, slice_to_vec};
use crate::varint::{varint, varint_encode, varint_decode, is_at, lemma_varint_unambiguous,
    lemma_is_at_concat, lemma_is_at_concat_join};

verus! {

/// Codec tag for raw (leaf) blocks.
pub const CODEC_RAW: u64 = 0x55;

/// Codec tag for DAG-CBOR blocks.
pub const CODEC_DAG_CBOR: u64 = 0x71;

/// Codec tag for DAG-PB blocks.
pub const CODEC_DAG_PB: u64 = 0x70;

/// Multihash code of SHA2-256.
pub const HASH_SHA2_256: u64 = 0x12;

/// Multihash code of SHA2-512.
pub const HASH_SHA2_512: u64 = 0x13;

/// A content identifier: version, codec tag, and multihash.
#[derive(Debug)]
pub struct Cid {
    /// CID version, `0` or `1`.
    pub version: u64,
    /// Content codec tag of the identified block.
    pub codec: u64,
    /// Multihash algorithm code.
    pub multihash_code: u64,
    /// Multihash digest bytes.
    pub digest: Vec<u8>,
}

/// The mathematical value of a [`Cid`].
pub ghost struct CidData {
    /// CID version.
    pub version: int,
    /// Content codec tag.
    pub codec: int,
    /// Multihash algorithm code.
    pub multihash_code: int,
    /// Multihash digest bytes.
    pub digest: Seq<u8>,
}

impl Clone for Cid {
    /// Clones preserve the mathematical value.
    fn clone(&self) -> (r: Self)
        ensures
            r@ == self@,
    {
        Cid {
            version: self.version,
            codec: self.codec,
            multihash_code: self.multihash_code,
            digest: self.digest.clone(),
        }
    }
}

impl View for Cid {
    type V = CidData;

    open spec fn view(&self) -> CidData {
        CidData {
            version: self.version as int,
            codec: self.codec as int,
            multihash_code: self.multihash_code as int,
            digest: self.digest@,
        }
    }
}

/// Well-formed CID values: version 1, or the legacy version 0 form, which
/// is always a DAG-PB block named by a SHA2-256 hash. Digests are at most
/// 64 bytes, as the surrounding ecosystem enforces.
pub open spec fn cid_wf(c: CidData) -> bool {
    &&& c.digest.len() <= 64
    &&& 0 <= c.codec <= u64::MAX
    &&& 0 <= c.multihash_code <= u64::MAX
    &&& (c.version == 1 || (c.version == 0 && c.codec == CODEC_DAG_PB && c.multihash_code == HASH_SHA2_256
        && c.digest.len() == 32))
}

/// The binary multihash: algorithm code, digest length, digest.
pub open spec fn multihash_bytes(c: CidData) -> Seq<u8> {
    varint(c.multihash_code) + varint(c.digest.len() as int) + c.digest
}

/// The canonical binary encoding of a CID. Version 0 is the bare
/// multihash; version 1 prefixes version and codec.
pub open spec fn cid_bytes(c: CidData) -> Seq<u8> {
    if c.version == 0 {
        multihash_bytes(c)
    } else {
        varint(c.version) + varint(c.codec) + multihash_bytes(c)
    }
}

impl Cid {
    /// Whether this value is well-formed.
    pub open spec fn wf(&self) -> bool {
        cid_wf(self@)
    }

    /// Construct a version 1 CID from its parts.
    pub fn new_v1(codec: u64, multihash_code: u64, digest: Vec<u8>) -> (r: Cid)
        requires
            digest@.len() <= 64,
        ensures
            r@ == (CidData {
                version: 1,
                codec: codec as int,
                multihash_code: multihash_code as int,
                digest: digest@,
            }),
            r.wf(),
    {
        Cid { version: 1, codec, multihash_code, digest }
    }

    /// Equality on the mathematical value, which coincides with equality
    /// of the encoded bytes.
    pub fn eq(&self, other: &Cid) -> (r: bool)
        ensures
            r <==> self@ == other@,
    {
        if self.version != other.version || self.codec != other.codec
            || self.multihash_code != other.multihash_code
            || self.digest.len() != other.digest.len() {
            return false;
        }
        let n = self.digest.len();
        let mut i: usize = 0;
        while i < n
            invariant
                n == self.digest@.len() == other.digest@.len(),
                0 <= i <= n,
                forall|j: int| 0 <= j < i ==> self.digest@[j] == other.digest@[j],
            decreases n - i,
        {
            if self.digest[i] != other.digest[i] {
                assert(self@.digest[i as int] != other@.digest[i as int]);
                return false;
            }
            i += 1;
        }
        assert(self.digest@ =~= other.digest@);
        true
    }

    /// Append the binary encoding of this CID to `out`.
    pub fn encode(&self, out: &mut Vec<u8>)
        ensures
            final(out)@ == old(out)@ + cid_bytes(self@),
    {
        if self.version != 0 {
            varint_encode(self.version, out);
            varint_encode(self.codec, out);
        }
        varint_encode(self.multihash_code, out);
        varint_encode(self.digest.len() as u64, out);
        let mut i: usize = 0;
        let ghost mid = out@;
        while i < self.digest.len()
            invariant
                0 <= i <= self.digest@.len(),
                out@ == mid + self.digest@.subrange(0, i as int),
            decreases self.digest@.len() - i,
        {
            out.push(self.digest[i]);
            assert(out@ =~= mid + self.digest@.subrange(0, i + 1));
            i += 1;
        }
        assert(out@ =~= mid + self.digest@);
        assert(final(out)@ =~= old(out)@ + cid_bytes(self@));
    }

    /// The binary encoding of this CID as a fresh vector.
    pub fn to_bytes(&self) -> (r: Vec<u8>)
        ensures
            r@ == cid_bytes(self@),
    {
        let mut out = Vec::new();
        self.encode(&mut out);
        assert(out@ =~= cid_bytes(self@));
        out
    }
}

/// The parts of a version 1 encoding, read in place.
proof fn lemma_cid_v1_parts(s: Seq<u8>, off: int, c: CidData)
    requires
        cid_wf(c),
        c.version == 1,
        is_at(s, off, cid_bytes(c)),
    ensures
        is_at(s, off, varint(1)),
        is_at(s, off + 1, varint(c.codec)),
        is_at(s, off + 1 + varint(c.codec).len(), varint(c.multihash_code)),
        is_at(
            s,
            off + 1 + varint(c.codec).len() + varint(c.multihash_code).len(),
            varint(c.digest.len() as int),
        ),
        is_at(
            s,
            off + 1 + varint(c.codec).len() + varint(c.multihash_code).len() + varint(
                c.digest.len() as int,
            ).len(),
            c.digest,
        ),
{
    let v = varint(1);
    let co = varint(c.codec);
    let mh = varint(c.multihash_code);
    let dl = varint(c.digest.len() as int);
    assert(v.len() == 1);
    assert(cid_bytes(c) =~= (v + co) + (mh + dl + c.digest));
    lemma_is_at_concat(s, off, v + co, mh + dl + c.digest);
    lemma_is_at_concat(s, off, v, co);
    let off2 = off + 1 + co.len();
    assert(mh + dl + c.digest =~= (mh + dl) + c.digest);
    lemma_is_at_concat(s, off2, mh + dl, c.digest);
    lemma_is_at_concat(s, off2, mh, dl);
}

/// The parts of a version 0 encoding, read in place.
proof fn lemma_cid_v0_parts(s: Seq<u8>, off: int, c: CidData)
    requires
        cid_wf(c),
        c.version == 0,
        is_at(s, off, cid_bytes(c)),
    ensures
        off + 34 <= s.len(),
        s[off] == 0x12,
        s[off + 1] == 0x20,
        c.digest =~= s.subrange(off + 2, off + 34),
{
    let mh = varint(c.multihash_code);
    let dl = varint(c.digest.len() as int);
    assert(mh =~= seq![0x12u8]);
    assert(dl =~= seq![0x20u8]);
    assert(cid_bytes(c) =~= (mh + dl) + c.digest);
    lemma_is_at_concat(s, off, mh + dl, c.digest);
    lemma_is_at_concat(s, off, mh, dl);
    assert(s[off] == s.subrange(off, off + 1)[0]);
    assert(s[off + 1] == s.subrange(off + 1, off + 2)[0]);
    assert(c.digest.len() == 32);
    assert(c.digest =~= s.subrange(off + 2, off + 34));
}

/// Decode a CID at offset `off` of `s`.
///
/// Accepts the canonical binary form: either the 34-byte version 0 form
/// (a bare SHA2-256 multihash) or the version 1 form. Returns the CID and
/// the offset just past its encoding. A parse is complete and unambiguous:
/// whenever the encoding of a well-formed CID starts at `off`, exactly that
/// CID is returned.
pub fn cid_decode(s: &[u8], off: usize) -> (r: Option<(Cid, usize)>)
    requires
        off <= s@.len(),
    ensures
        r matches Some(p) ==> off < p.1 <= s@.len() && p.0.wf() && is_at(
            s@,
            off as int,
            cid_bytes(p.0@),
        ) && p.1 == off + cid_bytes(p.0@).len(),
        forall|c: CidData|
            cid_wf(c) && is_at(s@, off as int, #[trigger] cid_bytes(c)) ==> (r matches Some(p)
                && p.0@ == c && p.1 == off + cid_bytes(c).len()),
{
    let n = s.len();
    if n - off >= 2 && s[off] == 0x12 && s[off + 1] == 0x20 {
        // Version 0: a bare SHA2-256 multihash of exactly 32 digest bytes.
        if n - off < 34 {
            proof {
                assert forall|c: CidData|
                    cid_wf(c) && is_at(s@, off as int, #[trigger] cid_bytes(c)) implies false by {
                    if c.version == 0 {
                        lemma_cid_v0_parts(s@, off as int, c);
                    } else {
                        lemma_cid_v1_parts(s@, off as int, c);
                        crate::varint::lemma_is_at_small(s@, off as int, 1);
                    }
                }
            }
            return None;
        }
        let digest = slice_to_vec(slice_subrange(s, off + 2, off + 34));
        let c = Cid { version: 0, codec: CODEC_DAG_PB, multihash_code: HASH_SHA2_256, digest };
        proof {
            let mh = varint(0x12);
            let dl = varint(32);
            assert(mh =~= seq![0x12u8]);
            assert(dl =~= seq![0x20u8]);
            assert(s@.subrange(off as int, off + 1) =~= mh);
            assert(s@.subrange(off + 1, off + 2) =~= dl);
            lemma_is_at_concat_join(s@, off as int, mh, dl);
            lemma_is_at_concat_join(s@, off as int, mh + dl, c@.digest);
            assert(cid_bytes(c@) =~= (mh + dl) + c@.digest);
            assert(is_at(s@, off as int, cid_bytes(c@)));
            assert forall|d: CidData|
                cid_wf(d) && is_at(s@, off as int, #[trigger] cid_bytes(d)) implies d == c@
                && off + 34 == off + cid_bytes(d).len() by {
                if d.version == 0 {
                    lemma_cid_v0_parts(s@, off as int, d);
                    assert(d =~= c@);
                } else {
                    lemma_cid_v1_parts(s@, off as int, d);
                    crate::varint::lemma_is_at_small(s@, off as int, 1);
                }
            }
        }
        return Some((c, off + 34));
    }
    // Version 1: varint version, codec, multihash code, digest length, digest.
    // A well-formed version 0 encoding cannot start here, or the branch
    // above would have taken it.
    let r1 = varint_decode(s, off);
    match r1 {
        None => {
            proof {
                assert forall|c: CidData|
                    cid_wf(c) && is_at(s@, off as int, #[trigger] cid_bytes(c)) implies false by {
                    if c.version == 0 {
                        lemma_cid_v0_parts(s@, off as int, c);
                    } else {
                        lemma_cid_v1_parts(s@, off as int, c);
                    }
                }
            }
            None
        },
        Some((ver, o1)) => {
            if ver != 1 {
                proof {
                    assert forall|c: CidData|
                        cid_wf(c) && is_at(s@, off as int, #[trigger] cid_bytes(c)) implies false by {
                        if c.version == 0 {
                            lemma_cid_v0_parts(s@, off as int, c);
                        } else {
                            lemma_cid_v1_parts(s@, off as int, c);
                            lemma_varint_unambiguous(s@, off as int, 1, ver as int);
                        }
                    }
                }
                return None;
            }
            let r2 = varint_decode(s, o1);
            proof {
                assert(varint(1).len() == 1);
                assert(o1 == off + 1);
            }
            match r2 {
                None => {
                    proof {
                        assert forall|c: CidData|
                            cid_wf(c) && is_at(s@, off as int, #[trigger] cid_bytes(c)) implies false by {
                            if c.version == 0 {
                                lemma_cid_v0_parts(s@, off as int, c);
                            } else {
                                lemma_cid_v1_parts(s@, off as int, c);
                                let t: u64 = (c.codec as u64);
                                assert(is_at(s@, off + 1, varint(t as int)));
                            }
                        }
                    }
                    None
                },
                Some((codec, o2)) => {
                    let r3 = varint_decode(s, o2);
                    match r3 {
                        None => {
                            proof {
                                assert forall|c: CidData|
                                    cid_wf(c) && is_at(s@, off as int, #[trigger] cid_bytes(c)) implies false by {
                                    if c.version == 0 {
                                        lemma_cid_v0_parts(s@, off as int, c);
                                    } else {
                                        lemma_cid_v1_parts(s@, off as int, c);
                                        lemma_varint_unambiguous(s@, off + 1, c.codec, codec as int);
                                        let t: u64 = (c.multihash_code as u64);
                                        assert(is_at(s@, o2 as int, varint(t as int)));
                                    }
                                }
                            }
                            None
                        },
                        Some((mh, o3)) => {
                            let r4 = varint_decode(s, o3);
                            match r4 {
                                None => {
                                    proof {
                                        assert forall|c: CidData|
                                            cid_wf(c) && is_at(s@, off as int, #[trigger] cid_bytes(c)) implies false by {
                                            if c.version == 0 {
                                                lemma_cid_v0_parts(s@, off as int, c);
                                            } else {
                                                lemma_cid_v1_parts(s@, off as int, c);
                                                lemma_varint_unambiguous(s@, off + 1, c.codec, codec as int);
                                                lemma_varint_unambiguous(s@, o2 as int, c.multihash_code, mh as int);
                                                let t: u64 = (c.digest.len() as u64);
                                                assert(is_at(s@, o3 as int, varint(t as int)));
                                            }
                                        }
                                    }
                                    None
                                },
                                Some((dl, o4)) => {
                                    if dl > 64 || (dl as usize) > n - o4 {
                                        proof {
                                            assert forall|c: CidData|
                                                cid_wf(c) && is_at(s@, off as int, #[trigger] cid_bytes(c)) implies false by {
                                                if c.version == 0 {
                                                    lemma_cid_v0_parts(s@, off as int, c);
                                                } else {
                                                    lemma_cid_v1_parts(s@, off as int, c);
                                                    lemma_varint_unambiguous(s@, off + 1, c.codec, codec as int);
                                                    lemma_varint_unambiguous(s@, o2 as int, c.multihash_code, mh as int);
                                                    lemma_varint_unambiguous(s@, o3 as int, c.digest.len() as int, dl as int);
                                                }
                                            }
                                        }
                                        return None;
                                    }
                                    let end = o4 + (dl as usize);
                                    let digest = slice_to_vec(slice_subrange(s, o4, end));
                                    let c = Cid { version: 1, codec, multihash_code: mh, digest };
                                    proof {
                                        let v = varint(1);
                                        let co = varint(codec as int);
                                        let m = varint(mh as int);
                                        let d = varint(dl as int);
                                        lemma_is_at_concat_join(s@, off as int, v, co);
                                        lemma_is_at_concat_join(s@, o2 as int, m, d);
                                        lemma_is_at_concat_join(s@, o2 as int, m + d, c@.digest);
                                        lemma_is_at_concat_join(s@, off as int, v + co, (m + d) + c@.digest);
                                        assert(cid_bytes(c@) =~= (v + co) + ((m + d) + c@.digest));
                                        assert(is_at(s@, off as int, cid_bytes(c@)));
                                        assert(end == off + cid_bytes(c@).len());
                                        assert forall|e: CidData|
                                            cid_wf(e) && is_at(s@, off as int, #[trigger] cid_bytes(e)) implies e == c@
                                            && end == off + cid_bytes(e).len() by {
                                            if e.version == 0 {
                                                lemma_cid_v0_parts(s@, off as int, e);
                                            }
                                            lemma_cid_v1_parts(s@, off as int, e);
                                            lemma_varint_unambiguous(s@, off + 1, e.codec, codec as int);
                                            lemma_varint_unambiguous(s@, o2 as int, e.multihash_code, mh as int);
                                            lemma_varint_unambiguous(s@, o3 as int, e.digest.len() as int, dl as int);
                                            assert(e.digest =~= s@.subrange(o4 as int, end as int));
                                            assert(e =~= c@);
                                        }
                                    }
                                    Some((c, end))
                                },
                            }
                        },
                    }
                },
            }
        },
    }
}

} // verus!
