//! CAR framing: the container format that carries blocks.
//!
//! A CAR file is a varint-length-prefixed header — a DAG-CBOR map with a
//! non-empty `roots` list and `version` 1 — followed by frames, each a
//! varint-length-prefixed CID and block-bytes pair. The engine writes
//! headers with exactly one root, the first block of the payload, and
//! reads that canonical form back.

use vstd::prelude::*;
use crate::cid::{Cid, CidData, cid_wf, cid_bytes, cid_decode};
use vstd::slice::{slice_subrange, slice_to_vec};
use crate::varint::{varint, varint_encode, varint_decode, is_at, lemma_varint_unambiguous,
    lemma_varint_len, lemma_is_at_concat, lemma_is_at_concat_join, lemma_is_at_small};

verus! {

/// The CBOR header of a byte string of length `l`, in canonical form.
/// Lengths of the byte strings here are always below 256.
pub open spec fn cbor_bytes_header(l: int) -> Seq<u8> {
    if l < 24 {
        seq![(0x40 + l) as u8]
    } else {
        seq![0x58u8, l as u8]
    }
}

/// A CBOR CID link: tag 42 around the binary CID prefixed with the
/// multibase identity byte.
pub open spec fn cbor_link(c: CidData) -> Seq<u8> {
    seq![0xd8u8, 0x2au8] + cbor_bytes_header(cid_bytes(c).len() as int + 1) + seq![0x00u8] + cid_bytes(c)
}

/// The DAG-CBOR body of a CAR header with the single root `c`:
/// `{"roots": [c], "version": 1}` in canonical key order.
pub open spec fn car_header_body(c: CidData) -> Seq<u8> {
    seq![0xa2u8, 0x65u8, 0x72u8, 0x6fu8, 0x6fu8, 0x74u8, 0x73u8, 0x81u8] + cbor_link(c) + seq![
        0x67u8,
        0x76u8,
        0x65u8,
        0x72u8,
        0x73u8,
        0x69u8,
        0x6fu8,
        0x6eu8,
        0x01u8,
    ]
}

/// The full CAR header: the varint-prefixed body.
pub open spec fn car_header(c: CidData) -> Seq<u8> {
    varint(car_header_body(c).len() as int) + car_header_body(c)
}

/// One CAR frame: varint of the joint length, the binary CID, the block
/// bytes.
pub open spec fn car_frame(c: CidData, b: Seq<u8>) -> Seq<u8> {
    varint((cid_bytes(c).len() + b.len()) as int) + cid_bytes(c) + b
}

/// The view of a block list.
pub open spec fn blocks_view(v: Seq<(Cid, Vec<u8>)>) -> Seq<(CidData, Seq<u8>)> {
    v.map_values(|p: (Cid, Vec<u8>)| (p.0@, p.1@))
}

/// Well-formed block lists: every CID is well-formed and every block is
/// small enough to frame.
pub open spec fn blocks_wf(bs: Seq<(CidData, Seq<u8>)>) -> bool {
    forall|i: int|
        0 <= i < bs.len() ==> cid_wf((#[trigger] bs[i]).0) && crate::store::block_len_ok(
            bs[i].1.len() as int,
        )
}

/// The frames of a block list, concatenated.
pub open spec fn car_frames(bs: Seq<(CidData, Seq<u8>)>) -> Seq<u8>
    decreases bs.len(),
{
    if bs.len() == 0 {
        Seq::empty()
    } else {
        car_frame(bs[0].0, bs[0].1) + car_frames(bs.drop_first())
    }
}

/// A complete CAR file: header with the root, then the frames.
pub open spec fn car_file(root: CidData, bs: Seq<(CidData, Seq<u8>)>) -> Seq<u8> {
    car_header(root) + car_frames(bs)
}

/// Appending a block appends its frame.
pub proof fn lemma_car_frames_push(bs: Seq<(CidData, Seq<u8>)>, c: CidData, b: Seq<u8>)
    ensures
        car_frames(bs.push((c, b))) =~= car_frames(bs) + car_frame(c, b),
    decreases bs.len(),
{
    let t = bs.push((c, b));
    if bs.len() == 0 {
        assert(t[0] == (c, b));
        assert(t.drop_first() =~= Seq::<(CidData, Seq<u8>)>::empty());
        assert(car_frames(t.drop_first()) =~= Seq::<u8>::empty());
        assert(car_frames(t) =~= car_frame(c, b));
    } else {
        assert(t.drop_first() =~= bs.drop_first().push((c, b)));
        lemma_car_frames_push(bs.drop_first(), c, b);
        assert(t[0] == bs[0]);
        assert(car_frames(t) =~= car_frame(bs[0].0, bs[0].1) + (car_frames(bs.drop_first())
            + car_frame(c, b)));
        assert(car_frame(bs[0].0, bs[0].1) + (car_frames(bs.drop_first()) + car_frame(c, b)) =~= (
        car_frame(bs[0].0, bs[0].1) + car_frames(bs.drop_first())) + car_frame(c, b));
    }
}

/// The binary encoding of a well-formed CID is under 97 bytes.
pub proof fn lemma_cid_bytes_len(c: CidData)
    requires
        cid_wf(c),
    ensures
        1 <= cid_bytes(c).len() <= 96,
{
    lemma_varint_len(c.multihash_code);
    lemma_varint_len(c.digest.len() as int);
    assert(varint(c.digest.len() as int).len() == 1) by {
        assert(c.digest.len() < 0x80);
    }
    if c.version != 0 {
        assert(varint(c.version).len() == 1);
        lemma_varint_len(c.codec);
    }
}

/// Append the header that names `root` to `out`.
#[verifier::rlimit(50)]
pub fn write_header(root: &Cid, out: &mut Vec<u8>)
    requires
        root.wf(),
    ensures
        final(out)@ == old(out)@ + car_header(root@),
{
    let mut body: Vec<u8> = Vec::new();
    body.push(0xa2);
    body.push(0x65);
    body.push(0x72);
    body.push(0x6f);
    body.push(0x6f);
    body.push(0x74);
    body.push(0x73);
    body.push(0x81);
    body.push(0xd8);
    body.push(0x2a);
    let cid_enc = root.to_bytes();
    proof {
        lemma_cid_bytes_len(root@);
    }
    let l = cid_enc.len() + 1;
    if l < 24 {
        body.push((0x40 + l) as u8);
    } else {
        body.push(0x58);
        body.push(l as u8);
    }
    body.push(0x00);
    let ghost before_cid = body@;
    let mut i: usize = 0;
    while i < cid_enc.len()
        invariant
            0 <= i <= cid_enc@.len(),
            body@ == before_cid + cid_enc@.subrange(0, i as int),
        decreases cid_enc@.len() - i,
    {
        body.push(cid_enc[i]);
        assert(body@ =~= before_cid + cid_enc@.subrange(0, i + 1));
        i += 1;
    }
    proof {
        assert(body@ =~= before_cid + cid_enc@);
    }
    body.push(0x67);
    body.push(0x76);
    body.push(0x65);
    body.push(0x72);
    body.push(0x73);
    body.push(0x69);
    body.push(0x6f);
    body.push(0x6e);
    body.push(0x01);
    proof {
        assert(body@ =~= car_header_body(root@));
    }
    varint_encode(body.len() as u64, out);
    let ghost mid = out@;
    let mut j: usize = 0;
    while j < body.len()
        invariant
            0 <= j <= body@.len(),
            out@ == mid + body@.subrange(0, j as int),
        decreases body@.len() - j,
    {
        out.push(body[j]);
        assert(out@ =~= mid + body@.subrange(0, j + 1));
        j += 1;
    }
    proof {
        assert(out@ =~= mid + body@);
        assert(final(out)@ =~= old(out)@ + car_header(root@));
    }
}

/// Append the frame of one block to `out`. Returns how many bytes were
/// appended.
pub fn write_frame(cid: &Cid, bytes: &[u8], out: &mut Vec<u8>) -> (n: usize)
    requires
        cid.wf(),
        crate::store::block_len_ok(bytes@.len() as int),
    ensures
        final(out)@ == old(out)@ + car_frame(cid@, bytes@),
        n == car_frame(cid@, bytes@).len(),
{
    let cid_enc = cid.to_bytes();
    proof {
        lemma_cid_bytes_len(cid@);
    }
    let flen = cid_enc.len() + bytes.len();
    let start = out.len();
    varint_encode(flen as u64, out);
    let ghost mid = out@;
    let mut i: usize = 0;
    while i < cid_enc.len()
        invariant
            0 <= i <= cid_enc@.len(),
            out@ == mid + cid_enc@.subrange(0, i as int),
        decreases cid_enc@.len() - i,
    {
        out.push(cid_enc[i]);
        assert(out@ =~= mid + cid_enc@.subrange(0, i + 1));
        i += 1;
    }
    proof {
        assert(out@ =~= mid + cid_enc@);
    }
    let ghost mid2 = out@;
    let mut j: usize = 0;
    while j < bytes.len()
        invariant
            0 <= j <= bytes@.len(),
            out@ == mid2 + bytes@.subrange(0, j as int),
        decreases bytes@.len() - j,
    {
        out.push(bytes[j]);
        assert(out@ =~= mid2 + bytes@.subrange(0, j + 1));
        j += 1;
    }
    proof {
        assert(out@ =~= mid2 + bytes@);
        assert(final(out)@ =~= old(out)@ + car_frame(cid@, bytes@));
        assert(out@.len() - old(out)@.len() == car_frame(cid@, bytes@).len());
    }
    out.len() - start
}

/// Whether `pat` occurs in `s` at `off`.
fn match_at(s: &[u8], off: usize, pat: &[u8]) -> (r: bool)
    ensures
        r <==> is_at(s@, off as int, pat@),
{
    if off > s.len() || pat.len() > s.len() - off {
        return false;
    }
    let slen = s.len();
    let mut i: usize = 0;
    while i < pat.len()
        invariant
            0 <= i <= pat@.len(),
            off + pat@.len() <= s@.len(),
            s@.len() == slen,
            forall|j: int| 0 <= j < i ==> s@[off + j] == pat@[j],
        decreases pat@.len() - i,
    {
        if s[off + i] != pat[i] {
            assert(!is_at(s@, off as int, pat@)) by {
                if is_at(s@, off as int, pat@) {
                    assert(s@.subrange(off as int, off + pat@.len())[i as int] == pat@[i as int]);
                }
            }
            return false;
        }
        i += 1;
    }
    assert(s@.subrange(off as int, off + pat@.len()) =~= pat@);
    true
}

/// The parts of a header in place: the length prefix and the body layout.
proof fn lemma_header_parts(s: Seq<u8>, off: int, c: CidData)
    requires
        cid_wf(c),
        is_at(s, off, car_header(c)),
    ensures
        is_at(s, off, varint(car_header_body(c).len() as int)),
        is_at(
            s,
            off + varint(car_header_body(c).len() as int).len(),
            car_header_body(c),
        ),
{
    lemma_is_at_concat(s, off, varint(car_header_body(c).len() as int), car_header_body(c));
}

/// The parts of a header body in place.
proof fn lemma_header_body_parts(s: Seq<u8>, off: int, c: CidData)
    requires
        cid_wf(c),
        is_at(s, off, car_header_body(c)),
    ensures
        is_at(s, off, seq![0xa2u8, 0x65u8, 0x72u8, 0x6fu8, 0x6fu8, 0x74u8, 0x73u8, 0x81u8]),
        is_at(s, off + 8, seq![0xd8u8, 0x2au8]),
        is_at(s, off + 10, cbor_bytes_header(cid_bytes(c).len() as int + 1)),
        is_at(
            s,
            off + 10 + cbor_bytes_header(cid_bytes(c).len() as int + 1).len(),
            seq![0x00u8],
        ),
        is_at(
            s,
            off + 11 + cbor_bytes_header(cid_bytes(c).len() as int + 1).len(),
            cid_bytes(c),
        ),
        is_at(
            s,
            off + 11 + cbor_bytes_header(cid_bytes(c).len() as int + 1).len() + cid_bytes(c).len(),
            seq![0x67u8, 0x76u8, 0x65u8, 0x72u8, 0x73u8, 0x69u8, 0x6fu8, 0x6eu8, 0x01u8],
        ),
{
    let pre = seq![0xa2u8, 0x65u8, 0x72u8, 0x6fu8, 0x6fu8, 0x74u8, 0x73u8, 0x81u8];
    let tag = seq![0xd8u8, 0x2au8];
    let hdr = cbor_bytes_header(cid_bytes(c).len() as int + 1);
    let idb = seq![0x00u8];
    let cb = cid_bytes(c);
    let suf = seq![0x67u8, 0x76u8, 0x65u8, 0x72u8, 0x73u8, 0x69u8, 0x6fu8, 0x6eu8, 0x01u8];
    assert(car_header_body(c) =~= pre + ((((tag + hdr) + idb) + cb) + suf));
    lemma_is_at_concat(s, off, pre, (((tag + hdr) + idb) + cb) + suf);
    lemma_is_at_concat(s, off + 8, ((tag + hdr) + idb) + cb, suf);
    lemma_is_at_concat(s, off + 8, (tag + hdr) + idb, cb);
    lemma_is_at_concat(s, off + 8, tag + hdr, idb);
    lemma_is_at_concat(s, off + 8, tag, hdr);
}

/// The full layout of a header in place, located after its length
/// prefix.
proof fn lemma_header_layout(s: Seq<u8>, off: int, hlen: int, c: CidData)
    requires
        cid_wf(c),
        is_at(s, off, car_header(c)),
        is_at(s, off, varint(hlen)),
        0 <= hlen,
    ensures
        hlen == car_header_body(c).len(),
        17 + cbor_link(c).len() == hlen,
        ({
            let o1 = off + varint(hlen).len();
            let hdr = cbor_bytes_header(cid_bytes(c).len() as int + 1);
            &&& o1 + hlen <= s.len()
            &&& is_at(s, o1, seq![0xa2u8, 0x65u8, 0x72u8, 0x6fu8, 0x6fu8, 0x74u8, 0x73u8, 0x81u8])
            &&& is_at(s, o1 + 8, seq![0xd8u8, 0x2au8])
            &&& is_at(s, o1 + 10, hdr)
            &&& s[o1 + 10] == hdr[0]
            &&& (cid_bytes(c).len() + 1 >= 24 ==> s[o1 + 11] == hdr[1])
            &&& is_at(s, o1 + 10 + hdr.len(), seq![0x00u8])
            &&& s[o1 + 10 + hdr.len()] == 0x00u8
            &&& is_at(s, o1 + 11 + hdr.len(), cid_bytes(c))
            &&& is_at(
                s,
                o1 + 11 + hdr.len() + cid_bytes(c).len(),
                seq![0x67u8, 0x76u8, 0x65u8, 0x72u8, 0x73u8, 0x69u8, 0x6fu8, 0x6eu8, 0x01u8],
            )
            &&& o1 + 11 + hdr.len() + cid_bytes(c).len() + 9 == o1 + hlen
        }),
{
    lemma_header_parts(s, off, c);
    lemma_varint_unambiguous(s, off, car_header_body(c).len() as int, hlen);
    let o1 = off + varint(hlen).len();
    lemma_header_body_parts(s, o1, c);
    lemma_cid_bytes_len(c);
    let hdr = cbor_bytes_header(cid_bytes(c).len() as int + 1);
    assert(s[o1 + 10] == s.subrange(o1 + 10, o1 + 10 + hdr.len())[0]);
    if cid_bytes(c).len() + 1 >= 24 {
        assert(s[o1 + 11] == s.subrange(o1 + 10, o1 + 10 + hdr.len())[1]);
    }
    assert(s[o1 + 10 + hdr.len()] == s.subrange(
        o1 + 10 + hdr.len(),
        o1 + 11 + hdr.len(),
    )[0]);
}

/// Parse a CAR header at `off`: the canonical single-root form that
/// [`write_header`] emits. A parse is complete and unambiguous.
#[verifier::rlimit(100)]
pub fn parse_header(s: &[u8], off: usize) -> (r: Option<(Cid, usize)>)
    requires
        off <= s@.len(),
    ensures
        r matches Some(p) ==> off < p.1 <= s@.len() && p.0.wf() && is_at(
            s@,
            off as int,
            car_header(p.0@),
        ) && p.1 == off + car_header(p.0@).len(),
        forall|c: CidData|
            cid_wf(c) && is_at(s@, off as int, #[trigger] car_header(c)) ==> (r matches Some(p)
                && p.0@ == c && p.1 == off + car_header(c).len()),
{
    let pre: [u8; 8] = [0xa2, 0x65, 0x72, 0x6f, 0x6f, 0x74, 0x73, 0x81];
    let tag: [u8; 2] = [0xd8, 0x2a];
    let suf: [u8; 9] = [0x67, 0x76, 0x65, 0x72, 0x73, 0x69, 0x6f, 0x6e, 0x01];
    proof {
        assert(pre@ =~= seq![0xa2u8, 0x65u8, 0x72u8, 0x6fu8, 0x6fu8, 0x74u8, 0x73u8, 0x81u8]);
        assert(tag@ =~= seq![0xd8u8, 0x2au8]);
        assert(suf@ =~= seq![0x67u8, 0x76u8, 0x65u8, 0x72u8, 0x73u8, 0x69u8, 0x6fu8, 0x6eu8, 0x01u8]);
    }
    let slen = s.len();
    let hl = varint_decode(s, off);
    proof {
        if hl is None {
            assert forall|c: CidData|
                cid_wf(c) && is_at(s@, off as int, #[trigger] car_header(c)) implies false by {
                lemma_header_parts(s@, off as int, c);
                lemma_cid_bytes_len(c);
                let bl: u64 = car_header_body(c).len() as u64;
                assert(is_at(s@, off as int, varint(bl as int)));
            }
        }
    }
    let (hlen, o1) = match hl {
        Some(p) => p,
        None => {
            return None;
        },
    };
    if !match_at(s, o1, pre.as_slice()) {
        proof {
            assert forall|c: CidData|
                cid_wf(c) && is_at(s@, off as int, #[trigger] car_header(c)) implies false by {
                lemma_header_layout(s@, off as int, hlen as int, c);
            }
        }
        return None;
    }
    proof {
        assert(pre@.len() == 8);
        assert(o1 + 8 <= s@.len());
    }
    if !match_at(s, o1 + 8, tag.as_slice()) {
        proof {
            assert forall|c: CidData|
                cid_wf(c) && is_at(s@, off as int, #[trigger] car_header(c)) implies false by {
                lemma_header_layout(s@, off as int, hlen as int, c);
            }
        }
        return None;
    }
    proof {
        assert(tag@.len() == 2);
        assert(o1 + 10 <= s@.len());
    }
    let o2 = o1 + 10;
    if o2 >= s.len() {
        proof {
            assert forall|c: CidData|
                cid_wf(c) && is_at(s@, off as int, #[trigger] car_header(c)) implies false by {
                lemma_header_layout(s@, off as int, hlen as int, c);
            }
        }
        return None;
    }
    let b = s[o2];
    let hdr_two = b == 0x58;
    let (l, o3): (usize, usize) = if 0x41 <= b && b < 0x40 + 24 {
        ((b - 0x40) as usize, o2 + 1)
    } else if b == 0x58 && o2 + 1 < s.len() && s[o2 + 1] >= 24 {
        (s[o2 + 1] as usize, o2 + 2)
    } else {
        proof {
            assert forall|c: CidData|
                cid_wf(c) && is_at(s@, off as int, #[trigger] car_header(c)) implies false by {
                lemma_header_layout(s@, off as int, hlen as int, c);
                lemma_cid_bytes_len(c);
                let ln = cid_bytes(c).len() as int + 1;
                let hdr = cbor_bytes_header(ln);
                if ln < 24 {
                    assert(hdr[0] == (0x40 + ln) as u8);
                    assert(0x41 <= s@[o2 as int] < 0x58);
                } else {
                    assert(hdr[0] == 0x58);
                    assert(cbor_link(c).len() >= 5);
                    assert(17 + cbor_link(c).len() == hlen as int);
                    assert(o2 + 1 < o1 + hlen as int);
                    assert(s@[o2 + 1] == ln as u8);
                }
            }
        }
        return None;
    };
    proof {
        assert forall|c: CidData|
            cid_wf(c) && is_at(s@, off as int, #[trigger] car_header(c)) implies l as int
            == cid_bytes(c).len() + 1 && o3 == o2 + cbor_bytes_header(l as int).len() by {
            lemma_header_layout(s@, off as int, hlen as int, c);
            lemma_cid_bytes_len(c);
            let ln = cid_bytes(c).len() as int + 1;
            let hdr = cbor_bytes_header(ln);
            if ln < 24 {
                assert(hdr[0] == (0x40 + ln) as u8);
                assert(0x41 <= s@[o2 as int] < 0x58);
            } else {
                assert(hdr[0] == 0x58);
                assert(s@[o2 + 1] == ln as u8);
            }
        }
    }
    if o3 >= s.len() || s[o3] != 0x00 {
        proof {
            assert forall|c: CidData|
                cid_wf(c) && is_at(s@, off as int, #[trigger] car_header(c)) implies false by {
                lemma_header_layout(s@, off as int, hlen as int, c);
            }
        }
        return None;
    }
    let rd = cid_decode(s, o3 + 1);
    proof {
        assert forall|c: CidData|
            cid_wf(c) && is_at(s@, off as int, #[trigger] car_header(c)) implies (rd
                matches Some(p) && p.0@ == c && p.1 == o3 + 1 + cid_bytes(c).len()) by {
            lemma_header_layout(s@, off as int, hlen as int, c);
            assert(is_at(s@, o3 + 1, cid_bytes(c)));
        }
    }
    let (root, cend) = match rd {
        Some(p) => p,
        None => {
            return None;
        },
    };
    // the CID must fill the byte string, and the fixed tail must follow,
    // and the length prefix must match the body
    let all_ok = if cend - o3 - 1 == l - 1 {
        if match_at(s, cend, suf.as_slice()) {
            hlen <= usize::MAX as u64 && cend + 9 - o1 == hlen as usize
        } else {
            false
        }
    } else {
        false
    };
    proof {
        assert forall|c: CidData|
            cid_wf(c) && is_at(s@, off as int, #[trigger] car_header(c)) implies all_ok by {
            lemma_header_layout(s@, off as int, hlen as int, c);
            assert(is_at(s@, o3 + 1, cid_bytes(c)));
            assert(root@ == c && cend == o3 + 1 + cid_bytes(c).len());
        }
    }
    if !all_ok {
        return None;
    }
    let end = cend + 9;
    proof {
        lemma_cid_bytes_len(root@);
        assert(l == cid_bytes(root@).len() + 1);
        assert(hlen as int == 17 + cbor_link(root@).len()) by {
            assert(cbor_link(root@).len() == 2 + cbor_bytes_header(l as int).len() + 1 + cid_bytes(
                root@,
            ).len());
            assert(cend + 9 - o1 == hlen as int);
        }
        lemma_header_sound(s@, off as int, o1 as int, l as int, o3 as int, cend as int, root@);
        assert(end == off + car_header(root@).len());
    }
    Some((root, end))
}

/// Reassemble a parsed header: the located pieces form the encoding of
/// the parsed root.
proof fn lemma_header_sound(
    s: Seq<u8>,
    off: int,
    o1: int,
    l: int,
    o3: int,
    cend: int,
    c: CidData,
)
    requires
        cid_wf(c),
        0 <= off,
        is_at(s, off, varint((17 + cbor_link(c).len()) as int)),
        o1 == off + varint((17 + cbor_link(c).len()) as int).len(),
        is_at(s, o1, seq![0xa2u8, 0x65u8, 0x72u8, 0x6fu8, 0x6fu8, 0x74u8, 0x73u8, 0x81u8]),
        is_at(s, o1 + 8, seq![0xd8u8, 0x2au8]),
        l == cid_bytes(c).len() + 1,
        o3 == o1 + 10 + cbor_bytes_header(l).len(),
        o3 < s.len(),
        2 <= l <= 97,
        l < 24 ==> s[o1 + 10] == 0x40 + l,
        l >= 24 ==> s[o1 + 10] == 0x58 && s[o1 + 11] == l,
        s[o3] == 0x00,
        is_at(s, o3 + 1, cid_bytes(c)),
        cend == o3 + 1 + cid_bytes(c).len(),
        is_at(s, cend, seq![0x67u8, 0x76u8, 0x65u8, 0x72u8, 0x73u8, 0x69u8, 0x6fu8, 0x6eu8, 0x01u8]),
    ensures
        is_at(s, off, car_header(c)),
        cend + 9 == off + car_header(c).len(),
{
    let pre = seq![0xa2u8, 0x65u8, 0x72u8, 0x6fu8, 0x6fu8, 0x74u8, 0x73u8, 0x81u8];
    let tag = seq![0xd8u8, 0x2au8];
    let suf = seq![0x67u8, 0x76u8, 0x65u8, 0x72u8, 0x73u8, 0x69u8, 0x6fu8, 0x6eu8, 0x01u8];
    let hdr = cbor_bytes_header(l);
    let o2 = o1 + 10;
    assert(hdr =~= s.subrange(o2, o3)) by {
        if l < 24 {
            assert(hdr =~= seq![s[o2]]);
            assert(s.subrange(o2, o3) =~= seq![s[o2]]);
        } else {
            assert(hdr =~= seq![0x58u8, l as u8]);
            assert(s.subrange(o2, o3) =~= seq![s[o2], s[o2 + 1]]);
        }
    }
    assert(is_at(s, o2, hdr));
    assert(is_at(s, o3, seq![0x00u8])) by {
        assert(s.subrange(o3, o3 + 1) =~= seq![s[o3]]);
    }
    lemma_is_at_concat_join(s, o1 + 8, tag, hdr);
    lemma_is_at_concat_join(s, o1 + 8, tag + hdr, seq![0x00u8]);
    lemma_is_at_concat_join(s, o1 + 8, (tag + hdr) + seq![0x00u8], cid_bytes(c));
    lemma_is_at_concat_join(s, o1 + 8, ((tag + hdr) + seq![0x00u8]) + cid_bytes(c), suf);
    lemma_is_at_concat_join(s, o1, pre, (((tag + hdr) + seq![0x00u8]) + cid_bytes(c)) + suf);
    assert(car_header_body(c) =~= pre + ((((tag + hdr) + seq![0x00u8]) + cid_bytes(c)) + suf));
    assert(is_at(s, o1, car_header_body(c)));
    assert(car_header_body(c).len() == 17 + cbor_link(c).len());
    lemma_is_at_concat_join(
        s,
        off,
        varint((17 + cbor_link(c).len()) as int),
        car_header_body(c),
    );
    assert(is_at(s, off, car_header(c)));
}

/// The parts of a frame in place.
proof fn lemma_frame_parts(s: Seq<u8>, off: int, c: CidData, b: Seq<u8>)
    requires
        is_at(s, off, car_frame(c, b)),
    ensures
        is_at(s, off, varint((cid_bytes(c).len() + b.len()) as int)),
        is_at(s, off + varint((cid_bytes(c).len() + b.len()) as int).len(), cid_bytes(c)),
        is_at(
            s,
            off + varint((cid_bytes(c).len() + b.len()) as int).len() + cid_bytes(c).len(),
            b,
        ),
{
    let v = varint((cid_bytes(c).len() + b.len()) as int);
    assert(car_frame(c, b) =~= v + (cid_bytes(c) + b));
    lemma_is_at_concat(s, off, v, cid_bytes(c) + b);
    lemma_is_at_concat(s, off + v.len(), cid_bytes(c), b);
}

/// A frame takes at least two bytes.
pub proof fn lemma_frame_min_len(c: CidData, b: Seq<u8>)
    requires
        cid_wf(c),
    ensures
        car_frame(c, b).len() >= 2,
{
    lemma_cid_bytes_len(c);
    assert(varint((cid_bytes(c).len() + b.len()) as int).len() >= 1);
}

/// Parse one CAR frame at `off`. A parse is complete and unambiguous.
pub fn parse_frame(s: &[u8], off: usize) -> (r: Option<((Cid, Vec<u8>), usize)>)
    requires
        off <= s@.len(),
    ensures
        r matches Some(p) ==> off < p.1 <= s@.len() && p.0.0.wf() && is_at(
            s@,
            off as int,
            car_frame(p.0.0@, p.0.1@),
        ) && p.1 == off + car_frame(p.0.0@, p.0.1@).len(),
        forall|c: CidData, b: Seq<u8>|
            cid_wf(c) && b.len() < 0x1000000000000 && is_at(s@, off as int, #[trigger] car_frame(c, b))
                ==> (r matches Some(p) && p.0.0@ == c && p.0.1@ == b && p.1 == off + car_frame(
                c,
                b,
            ).len()),
{
    let slen = s.len();
    let fl = varint_decode(s, off);
    proof {
        if fl is None {
            assert forall|c: CidData, b: Seq<u8>|
                cid_wf(c) && b.len() < 0x1000000000000 && is_at(
                    s@,
                    off as int,
                    #[trigger] car_frame(c, b),
                ) implies false by {
                lemma_cid_bytes_len(c);
                let v: u64 = (cid_bytes(c).len() + b.len()) as u64;
                lemma_frame_parts(s@, off as int, c, b);
                assert(is_at(s@, off as int, varint(v as int)));
            }
        }
    }
    let (flen, o1) = match fl {
        Some(p) => p,
        None => {
            return None;
        },
    };
    if flen > (slen - o1) as u64 {
        proof {
            assert forall|c: CidData, b: Seq<u8>|
                cid_wf(c) && b.len() < 0x1000000000000 && is_at(
                    s@,
                    off as int,
                    #[trigger] car_frame(c, b),
                ) implies false by {
                lemma_cid_bytes_len(c);
                let v: u64 = (cid_bytes(c).len() + b.len()) as u64;
                lemma_frame_parts(s@, off as int, c, b);
                lemma_varint_unambiguous(s@, off as int, v as int, flen as int);
            }
        }
        return None;
    }
    let rd = cid_decode(s, o1);
    proof {
        assert forall|c: CidData, b: Seq<u8>|
            cid_wf(c) && b.len() < 0x1000000000000 && is_at(
                s@,
                off as int,
                #[trigger] car_frame(c, b),
            ) implies (rd matches Some(p) && p.0@ == c && p.1 == o1 + cid_bytes(c).len()) by {
            lemma_cid_bytes_len(c);
            let v: u64 = (cid_bytes(c).len() + b.len()) as u64;
            lemma_frame_parts(s@, off as int, c, b);
            lemma_varint_unambiguous(s@, off as int, v as int, flen as int);
        }
    }
    let (cid, cend) = match rd {
        Some(p) => p,
        None => {
            return None;
        },
    };
    let clen = cend - o1;
    if (clen as u64) > flen {
        proof {
            assert forall|c: CidData, b: Seq<u8>|
                cid_wf(c) && b.len() < 0x1000000000000 && is_at(
                    s@,
                    off as int,
                    #[trigger] car_frame(c, b),
                ) implies false by {
                lemma_cid_bytes_len(c);
                let v: u64 = (cid_bytes(c).len() + b.len()) as u64;
                lemma_frame_parts(s@, off as int, c, b);
                lemma_varint_unambiguous(s@, off as int, v as int, flen as int);
            }
        }
        return None;
    }
    let blen = (flen as usize) - clen;
    let end = cend + blen;
    let bytes = slice_to_vec(slice_subrange(s, cend, end));
    proof {
        let c = cid@;
        assert(is_at(s@, cend as int, bytes@)) by {
            assert(s@.subrange(cend as int, end as int) =~= bytes@);
        }
        lemma_is_at_concat_join(s@, o1 as int, cid_bytes(c), bytes@);
        assert(flen as int == cid_bytes(c).len() + bytes@.len());
        lemma_is_at_concat_join(s@, off as int, varint(flen as int), cid_bytes(c) + bytes@);
        assert(car_frame(c, bytes@) =~= varint(flen as int) + (cid_bytes(c) + bytes@));
        assert(is_at(s@, off as int, car_frame(c, bytes@)));
        assert(end == off + car_frame(c, bytes@).len());
        assert forall|c2: CidData, b: Seq<u8>|
            cid_wf(c2) && b.len() < 0x1000000000000 && is_at(
                s@,
                off as int,
                #[trigger] car_frame(c2, b),
            ) implies c2 == c && b == bytes@ by {
            lemma_cid_bytes_len(c2);
            let v: u64 = (cid_bytes(c2).len() + b.len()) as u64;
            lemma_frame_parts(s@, off as int, c2, b);
            lemma_varint_unambiguous(s@, off as int, v as int, flen as int);
            assert(c2 == c);
            assert(b =~= s@.subrange(cend as int, end as int));
        }
    }
    Some(((cid, bytes), end))
}

/// A suffix of a block list, framed, starts with the frame of its first
/// block.
proof fn lemma_frames_unfold(bs: Seq<(CidData, Seq<u8>)>, n: int)
    requires
        0 <= n < bs.len(),
    ensures
        car_frames(bs.skip(n)) =~= car_frame(bs[n].0, bs[n].1) + car_frames(bs.skip(n + 1)),
{
    assert(bs.skip(n)[0] == bs[n]);
    assert(bs.skip(n).drop_first() =~= bs.skip(n + 1));
}

/// Parse a whole CAR file: the canonical single-root header, then frames
/// to the end of the bytes. A parse is complete and unambiguous: it
/// succeeds exactly on the files that [`write_header`] and
/// [`write_frame`] produce.
pub fn parse_car(s: &[u8]) -> (r: Option<(Cid, Vec<(Cid, Vec<u8>)>)>)
    ensures
        r matches Some(p) ==> p.0.wf() && s@ =~= car_file(p.0@, blocks_view(p.1@)) && (forall|
            i: int,
        |
            0 <= i < p.1@.len() ==> (#[trigger] p.1@[i]).0.wf()),
        forall|r2: CidData, bs: Seq<(CidData, Seq<u8>)>|
            cid_wf(r2) && blocks_wf(bs) && s@ == #[trigger] car_file(r2, bs) ==> (r matches Some(p)
                && p.0@ == r2 && blocks_view(p.1@) == bs),
{
    let slen = s.len();
    let hd = parse_header(s, 0);
    proof {
        if hd is None {
            assert forall|r2: CidData, bs: Seq<(CidData, Seq<u8>)>|
                cid_wf(r2) && blocks_wf(bs) && s@ == #[trigger] car_file(r2, bs) implies false by {
                assert(is_at(s@, 0, car_file(r2, bs))) by {
                    assert(s@.subrange(0, car_file(r2, bs).len() as int) =~= s@);
                }
                lemma_is_at_concat(s@, 0, car_header(r2), car_frames(bs));
            }
        }
    }
    let (root, mut off) = match hd {
        Some(p) => p,
        None => {
            return None;
        },
    };
    let ghost hend = off as int;
    let mut blocks: Vec<(Cid, Vec<u8>)> = Vec::new();
    proof {
        assert(blocks_view(blocks@) =~= Seq::<(CidData, Seq<u8>)>::empty());
        assert(car_frames(blocks_view(blocks@)) =~= Seq::<u8>::empty());
        assert(s@.subrange(0, off as int) =~= car_header(root@) + car_frames(
            blocks_view(blocks@),
        ));
        assert forall|r2: CidData, bs: Seq<(CidData, Seq<u8>)>|
            cid_wf(r2) && blocks_wf(bs) && s@ == #[trigger] car_file(r2, bs) implies r2 == root@
            && bs.len() >= blocks@.len() && bs.subrange(0, blocks@.len() as int) == blocks_view(
            blocks@,
        ) && is_at(s@, off as int, car_frames(bs.skip(blocks@.len() as int))) by {
            assert(is_at(s@, 0, car_file(r2, bs))) by {
                assert(s@.subrange(0, car_file(r2, bs).len() as int) =~= s@);
            }
            lemma_is_at_concat(s@, 0, car_header(r2), car_frames(bs));
            assert(r2 == root@ && hend == car_header(r2).len());
            assert(bs.subrange(0, 0) =~= blocks_view(blocks@));
            assert(bs.skip(0) =~= bs);
        }
    }
    while off < slen
        invariant
            slen == s@.len(),
            off <= slen,
            hend == car_header(root@).len(),
            root.wf(),
            off as int == hend + car_frames(blocks_view(blocks@)).len(),
            s@.subrange(0, off as int) =~= car_header(root@) + car_frames(blocks_view(blocks@)),
            is_at(s@, 0, car_header(root@)),
            forall|i: int| 0 <= i < blocks@.len() ==> (#[trigger] blocks@[i]).0.wf(),
            forall|r2: CidData, bs: Seq<(CidData, Seq<u8>)>|
                cid_wf(r2) && blocks_wf(bs) && s@ == #[trigger] car_file(r2, bs) ==> r2 == root@
                    && bs.len() >= blocks@.len() && bs.subrange(0, blocks@.len() as int)
                    == blocks_view(blocks@) && is_at(
                    s@,
                    off as int,
                    car_frames(bs.skip(blocks@.len() as int)),
                ),
        decreases slen - off,
    {
        let fr = parse_frame(s, off);
        proof {
            if fr is None {
                assert forall|r2: CidData, bs: Seq<(CidData, Seq<u8>)>|
                    cid_wf(r2) && blocks_wf(bs) && s@ == #[trigger] car_file(r2, bs) implies false by {
                    let n = blocks@.len() as int;
                    if bs.len() > n {
                        lemma_frames_unfold(bs, n);
                        lemma_is_at_concat(
                            s@,
                            off as int,
                            car_frame(bs[n].0, bs[n].1),
                            car_frames(bs.skip(n + 1)),
                        );
                    } else {
                        assert(bs =~= bs.subrange(0, n));
                        assert(car_frames(bs) == car_frames(blocks_view(blocks@)));
                        assert(s@.len() == hend + car_frames(bs).len());
                        assert(s@.len() == off as int);
                    }
                }
            }
        }
        let ((cid, bytes), end) = match fr {
            Some(p) => p,
            None => {
                return None;
            },
        };
        let ghost pre_blocks = blocks@;
        blocks.push((cid, bytes));
        proof {
            assert(blocks_view(blocks@) =~= blocks_view(pre_blocks).push(
                (blocks@[pre_blocks.len() as int].0@, blocks@[pre_blocks.len() as int].1@),
            ));
            lemma_car_frames_push(
                blocks_view(pre_blocks),
                blocks@[pre_blocks.len() as int].0@,
                blocks@[pre_blocks.len() as int].1@,
            );
            assert(s@.subrange(0, end as int) =~= car_header(root@) + car_frames(
                blocks_view(blocks@),
            )) by {
                assert(s@.subrange(0, end as int) =~= s@.subrange(0, off as int) + s@.subrange(
                    off as int,
                    end as int,
                ));
            }
            assert forall|r2: CidData, bs: Seq<(CidData, Seq<u8>)>|
                cid_wf(r2) && blocks_wf(bs) && s@ == #[trigger] car_file(r2, bs) implies r2
                == root@ && bs.len() >= blocks@.len() && bs.subrange(0, blocks@.len() as int)
                == blocks_view(blocks@) && is_at(
                s@,
                end as int,
                car_frames(bs.skip(blocks@.len() as int)),
            ) by {
                let n = pre_blocks.len() as int;
                if bs.len() > n {
                    lemma_frames_unfold(bs, n);
                    lemma_is_at_concat(
                        s@,
                        off as int,
                        car_frame(bs[n].0, bs[n].1),
                        car_frames(bs.skip(n + 1)),
                    );
                    assert(bs[n].0 == cid@ && bs[n].1 == bytes@);
                    assert(bs.subrange(0, n + 1) =~= bs.subrange(0, n).push(bs[n]));
                    assert(bs.subrange(0, n + 1) =~= blocks_view(blocks@));
                } else {
                    assert(bs =~= bs.subrange(0, n));
                    assert(car_frames(bs) == car_frames(blocks_view(pre_blocks)));
                    assert(s@.len() == hend + car_frames(bs).len());
                    assert(s@.len() == off as int);
                }
            }
        }
        off = end;
    }
    proof {
        assert(s@.subrange(0, off as int) =~= s@);
        assert(s@ =~= car_file(root@, blocks_view(blocks@)));
        assert forall|r2: CidData, bs: Seq<(CidData, Seq<u8>)>|
            cid_wf(r2) && blocks_wf(bs) && s@ == #[trigger] car_file(r2, bs) implies r2 == root@
            && blocks_view(blocks@) == bs by {
            let n = blocks@.len() as int;
            if bs.len() > n {
                lemma_frames_unfold(bs, n);
                lemma_frame_min_len(bs[n].0, bs[n].1);
                assert(is_at(s@, off as int, car_frames(bs.skip(n))));
            } else {
                assert(bs =~= bs.subrange(0, n));
            }
        }
    }
    Some((root, blocks))
}

} // verus!
