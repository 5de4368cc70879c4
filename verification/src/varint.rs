//! Unsigned LEB128 variable-length integers, the framing primitive of CAR
//! files and of binary content identifiers.

use vstd::prelude::*;

verus! {

/// The canonical unsigned-varint encoding of `n`: little-endian base-128
/// digits, each but the last carrying a continuation bit.
pub open spec fn varint(n: int) -> Seq<u8>
    decreases n,
{
    if n < 0x80 {
        seq![n as u8]
    } else {
        seq![(n % 0x80 + 0x80) as u8] + varint(n / 0x80)
    }
}

/// `sub` occurs in `s` starting at position `off`.
pub open spec fn is_at(s: Seq<u8>, off: int, sub: Seq<u8>) -> bool {
    0 <= off && off + sub.len() <= s.len() && s.subrange(off, off + sub.len()) == sub
}

/// `0x80^k`.
pub open spec fn pow128(k: nat) -> int
    decreases k,
{
    if k == 0 {
        1
    } else {
        0x80 * pow128((k - 1) as nat)
    }
}

/// A value below `0x80^k` takes at most `k` digits.
proof fn lemma_varint_len_bound(n: int, k: nat)
    requires
        0 <= n < pow128(k),
        1 <= k,
    ensures
        varint(n).len() <= k,
    decreases n,
{
    if n >= 0x80 {
        assert(pow128(k) == 0x80 * pow128((k - 1) as nat));
        if k == 1 {
            assert(pow128(1nat) == 0x80);
        }
        assert(n / 0x80 < pow128((k - 1) as nat)) by (nonlinear_arith)
            requires
                n < 0x80 * pow128((k - 1) as nat),
                n >= 0x80,
        ;
        lemma_varint_len_bound(n / 0x80, (k - 1) as nat);
    }
}

/// An encoding is at least one byte and at most ten bytes for a `u64`.
pub proof fn lemma_varint_len(n: int)
    requires
        0 <= n <= u64::MAX,
    ensures
        1 <= varint(n).len() <= 10,
{
    assert(pow128(10nat) > u64::MAX) by {
        reveal_with_fuel(pow128, 11);
    }
    lemma_varint_len_bound(n, 10nat);
    if n < 0x80 {
        assert(varint(n).len() == 1);
    } else {
        assert(varint(n).len() >= 1);
    }
}

/// Append the canonical varint encoding of `n` to `out`.
pub fn varint_encode(n: u64, out: &mut Vec<u8>)
    ensures
        final(out)@ == old(out)@ + varint(n as int),
    decreases n,
{
    if n < 0x80 {
        out.push(n as u8);
        assert(final(out)@ =~= old(out)@ + varint(n as int));
    } else {
        out.push((n % 0x80 + 0x80) as u8);
        varint_encode(n / 0x80, out);
        assert(final(out)@ =~= old(out)@ + varint(n as int));
    }
}

/// Splitting view of an encoding in place: the head byte and the tail
/// encoding, for `v >= 0x80`.
proof fn lemma_is_at_parts(s: Seq<u8>, off: int, v: int)
    requires
        v >= 0x80,
        is_at(s, off, varint(v)),
    ensures
        s[off] == v % 0x80 + 0x80,
        is_at(s, off + 1, varint(v / 0x80)),
{
    let w = varint(v);
    let tail = varint(v / 0x80);
    assert(w == seq![(v % 0x80 + 0x80) as u8] + tail);
    assert(s.subrange(off, off + w.len()) == w);
    assert(s[off] == s.subrange(off, off + w.len())[0]);
    assert(s.subrange(off + 1, off + 1 + tail.len()) =~= w.subrange(1, w.len() as int));
    assert(w.subrange(1, w.len() as int) =~= tail);
}

/// Joining view: a head byte with continuation bit followed by the tail
/// encoding is the encoding of the joined value.
proof fn lemma_is_at_join(s: Seq<u8>, off: int, v: int)
    requires
        v >= 0x80,
        0 <= off,
        off + 1 <= s.len(),
        s[off] == v % 0x80 + 0x80,
        is_at(s, off + 1, varint(v / 0x80)),
    ensures
        is_at(s, off, varint(v)),
{
    let w = varint(v);
    let tail = varint(v / 0x80);
    assert(w == seq![(v % 0x80 + 0x80) as u8] + tail);
    assert(s.subrange(off, off + w.len()) =~= seq![s[off]] + s.subrange(off + 1, off + 1 + tail.len()));
}

/// A single-byte encoding read in place.
pub proof fn lemma_is_at_small(s: Seq<u8>, off: int, v: int)
    requires
        0 <= v < 0x80,
        is_at(s, off, varint(v)),
    ensures
        s[off] == v,
{
    assert(varint(v) == seq![v as u8]);
    assert(s[off] == s.subrange(off, off + 1)[0]);
}

/// Two encodings starting at the same place encode the same value: varints
/// are prefix-free, so a parse is unambiguous.
pub proof fn lemma_varint_unambiguous(s: Seq<u8>, off: int, v: int, w: int)
    requires
        0 <= v,
        0 <= w,
        is_at(s, off, varint(v)),
        is_at(s, off, varint(w)),
    ensures
        v == w,
    decreases v,
{
    if v < 0x80 && w < 0x80 {
        lemma_is_at_small(s, off, v);
        lemma_is_at_small(s, off, w);
    } else if v >= 0x80 && w >= 0x80 {
        lemma_is_at_parts(s, off, v);
        lemma_is_at_parts(s, off, w);
        lemma_varint_unambiguous(s, off + 1, v / 0x80, w / 0x80);
        assert(v == 0x80 * (v / 0x80) + (v % 0x80));
        assert(w == 0x80 * (w / 0x80) + (w % 0x80));
    } else if v < 0x80 {
        lemma_is_at_small(s, off, v);
        lemma_is_at_parts(s, off, w);
    } else {
        lemma_is_at_small(s, off, w);
        lemma_is_at_parts(s, off, v);
    }
}

/// A concatenation found at `off` splits into its two parts in place.
pub proof fn lemma_is_at_concat(s: Seq<u8>, off: int, a: Seq<u8>, b: Seq<u8>)
    requires
        is_at(s, off, a + b),
    ensures
        is_at(s, off, a),
        is_at(s, off + a.len(), b),
{
    assert(s.subrange(off, off + a.len()) =~= (a + b).subrange(0, a.len() as int));
    assert((a + b).subrange(0, a.len() as int) =~= a);
    assert(s.subrange(off + a.len(), off + a.len() + b.len()) =~= (a + b).subrange(
        a.len() as int,
        (a + b).len() as int,
    ));
    assert((a + b).subrange(a.len() as int, (a + b).len() as int) =~= b);
}

/// Two parts found in place join into their concatenation.
pub proof fn lemma_is_at_concat_join(s: Seq<u8>, off: int, a: Seq<u8>, b: Seq<u8>)
    requires
        is_at(s, off, a),
        is_at(s, off + a.len(), b),
    ensures
        is_at(s, off, a + b),
{
    assert(s.subrange(off, off + a.len() + b.len()) =~= s.subrange(off, off + a.len()) + s.subrange(
        off + a.len(),
        off + a.len() + b.len(),
    ));
}

/// Decode a canonical varint at offset `off` of `s`.
///
/// Returns the value and the offset just past its encoding; returns `None`
/// when no canonical encoding of any `u64` starts at `off`.
pub fn varint_decode(s: &[u8], off: usize) -> (r: Option<(u64, usize)>)
    requires
        off <= s@.len(),
    ensures
        match r {
            Some(p) => off < p.1 <= s@.len() && is_at(s@, off as int, varint(p.0 as int))
                && p.1 == off + varint(p.0 as int).len(),
            None => forall|v: u64| !is_at(s@, off as int, #[trigger] varint(v as int)),
        },
    decreases s@.len() - off,
{
    if off >= s.len() {
        assert forall|v: u64| !is_at(s@, off as int, #[trigger] varint(v as int)) by {
            assert(varint(v as int).len() >= 1);
        }
        return None;
    }
    let b = s[off];
    if b < 0x80 {
        assert(is_at(s@, off as int, varint(b as int))) by {
            assert(s@.subrange(off as int, off + 1) =~= seq![b]);
            assert(varint(b as int) == seq![b]);
        }
        Some((b as u64, off + 1))
    } else {
        let lo = (b - 0x80) as u64;
        match varint_decode(s, off + 1) {
            Some((hi, end)) => {
                proof {
                    assert(is_at(s@, off + 1, varint(hi as int)));
                }
                if hi == 0 {
                    // A zero continuation would make the encoding non-canonical.
                    assert forall|v: u64| !is_at(s@, off as int, #[trigger] varint(v as int)) by {
                        if is_at(s@, off as int, varint(v as int)) {
                            if v < 0x80 {
                                lemma_is_at_small(s@, off as int, v as int);
                            } else {
                                lemma_is_at_parts(s@, off as int, v as int);
                                lemma_varint_unambiguous(s@, off + 1, v as int / 0x80, hi as int);
                                assert(v as int / 0x80 >= 1);
                            }
                        }
                    }
                    None
                } else if hi > (u64::MAX - 0x7f) / 0x80 {
                    // No u64 has this many significant digits.
                    assert forall|v: u64| !is_at(s@, off as int, #[trigger] varint(v as int)) by {
                        if is_at(s@, off as int, varint(v as int)) {
                            if v < 0x80 {
                                lemma_is_at_small(s@, off as int, v as int);
                            } else {
                                lemma_is_at_parts(s@, off as int, v as int);
                                lemma_varint_unambiguous(s@, off + 1, v as int / 0x80, hi as int);
                                assert(v as int == 0x80 * (v as int / 0x80) + (v as int % 0x80));
                            }
                        }
                    }
                    None
                } else {
                    let v = lo + 0x80 * hi;
                    assert(is_at(s@, off as int, varint(v as int))) by {
                        assert(v as int % 0x80 == lo as int && v as int / 0x80 == hi as int) by (nonlinear_arith)
                            requires
                                v as int == lo as int + 0x80 * (hi as int),
                                0 <= lo < 0x80,
                                hi as int > 0,
                        ;
                        assert(s@[off as int] == v as int % 0x80 + 0x80);
                        lemma_is_at_join(s@, off as int, v as int);
                    }
                    Some((v, end))
                }
            },
            None => {
                assert forall|v: u64| !is_at(s@, off as int, #[trigger] varint(v as int)) by {
                    if is_at(s@, off as int, varint(v as int)) {
                        if v < 0x80 {
                            lemma_is_at_small(s@, off as int, v as int);
                        } else {
                            lemma_is_at_parts(s@, off as int, v as int);
                            let t: u64 = v / 0x80;
                            assert(t as int == v as int / 0x80);
                            assert(is_at(s@, off + 1, varint(t as int)));
                        }
                    }
                }
                None
            },
        }
    }
}

} // verus!
