//! Reachability in a content-addressed DAG.
//!
//! A store maps CIDs to block bytes; a block links to the CIDs its bytes
//! reference. A CID is reachable from a set of roots when a chain of such
//! links leads to it whose every link source is present in the store. The
//! endpoint itself need not be present: the missing endpoints are exactly
//! the frontier a receiver still wants.

use vstd::prelude::*;
use vstd::set_lib::lemma_len_subset;
use vstd::seq_lib::seq_to_set_is_finite;
use crate::cid::CidData;
use crate::references::block_refs;

verus! {

/// The block named `a` is present and links to `b`.
pub open spec fn linked(m: Map<CidData, Seq<u8>>, a: CidData, b: CidData) -> bool {
    &&& m.dom().contains(a)
    &&& match block_refs(a, m[a]) {
        Some(rs) => rs.contains(b),
        None => false,
    }
}

/// Every step of `p` is a link whose source is present.
pub open spec fn is_path(m: Map<CidData, Seq<u8>>, p: Seq<CidData>) -> bool {
    forall|i: int| 0 <= i < p.len() - 1 ==> linked(m, #[trigger] p[i], p[i + 1])
}

/// A chain of links through present blocks leads from some root to `c`.
pub open spec fn reachable_from(m: Map<CidData, Seq<u8>>, roots: Set<CidData>, c: CidData) -> bool {
    exists|p: Seq<CidData>|
        #[trigger] is_path(m, p) && p.len() > 0 && roots.contains(p[0]) && p.last() == c
}

/// Every root is reachable, by the one-element chain.
pub proof fn lemma_reachable_root(m: Map<CidData, Seq<u8>>, roots: Set<CidData>, c: CidData)
    requires
        roots.contains(c),
    ensures
        reachable_from(m, roots, c),
{
    let p = seq![c];
    assert(is_path(m, p) && p.len() > 0 && roots.contains(p[0]) && p.last() == c);
}

/// A link extends reachability by one step.
pub proof fn lemma_reachable_step(
    m: Map<CidData, Seq<u8>>,
    roots: Set<CidData>,
    a: CidData,
    b: CidData,
)
    requires
        reachable_from(m, roots, a),
        linked(m, a, b),
    ensures
        reachable_from(m, roots, b),
{
    let p = choose|p: Seq<CidData>|
        #[trigger] is_path(m, p) && p.len() > 0 && roots.contains(p[0]) && p.last() == a;
    let q = p.push(b);
    assert forall|i: int| 0 <= i < q.len() - 1 implies linked(m, #[trigger] q[i], q[i + 1]) by {
        if i < p.len() - 1 {
            assert(q[i] == p[i] && q[i + 1] == p[i + 1]);
        } else {
            assert(q[i] == p.last() && q[i + 1] == b);
        }
    }
    assert(is_path(m, q) && q.len() > 0 && roots.contains(q[0]) && q.last() == b);
}

/// A set that holds a chain's head and follows links holds its end.
proof fn lemma_path_members(
    m: Map<CidData, Seq<u8>>,
    v: Set<CidData>,
    p: Seq<CidData>,
)
    requires
        is_path(m, p),
        p.len() > 0,
        v.contains(p[0]),
        forall|a: CidData, b: CidData| v.contains(a) && #[trigger] linked(m, a, b) ==> v.contains(b),
    ensures
        v.contains(p.last()),
    decreases p.len(),
{
    if p.len() > 1 {
        assert(linked(m, p[0], p[1]));
        let q = p.subrange(1, p.len() as int);
        assert(is_path(m, q)) by {
            assert forall|i: int| 0 <= i < q.len() - 1 implies linked(m, #[trigger] q[i], q[i + 1]) by {
                assert(q[i] == p[i + 1] && q[i + 1] == p[i + 2]);
            }
        }
        assert(q.last() == p.last());
        lemma_path_members(m, v, q);
    }
}

/// A set that holds every root and follows links holds everything
/// reachable: reachability is the least such set.
pub proof fn lemma_reachable_closed(
    m: Map<CidData, Seq<u8>>,
    roots: Set<CidData>,
    v: Set<CidData>,
    c: CidData,
)
    requires
        roots.subset_of(v),
        forall|a: CidData, b: CidData| v.contains(a) && #[trigger] linked(m, a, b) ==> v.contains(b),
        reachable_from(m, roots, c),
    ensures
        v.contains(c),
{
    let p = choose|p: Seq<CidData>|
        #[trigger] is_path(m, p) && p.len() > 0 && roots.contains(p[0]) && p.last() == c;
    lemma_path_members(m, v, p);
}

/// Reachability from points that are themselves reachable.
pub proof fn lemma_reachable_trans(
    m: Map<CidData, Seq<u8>>,
    roots: Set<CidData>,
    mid: Set<CidData>,
    c: CidData,
)
    requires
        forall|x: CidData| mid.contains(x) ==> reachable_from(m, roots, x),
        reachable_from(m, mid, c),
    ensures
        reachable_from(m, roots, c),
{
    let q = choose|q: Seq<CidData>|
        #[trigger] is_path(m, q) && q.len() > 0 && mid.contains(q[0]) && q.last() == c;
    assert(reachable_from(m, roots, q[0]));
    let p = choose|p: Seq<CidData>|
        #[trigger] is_path(m, p) && p.len() > 0 && roots.contains(p[0]) && p.last() == q[0];
    let w = p + q.subrange(1, q.len() as int);
    assert(w.len() == p.len() + q.len() - 1);
    assert forall|i: int| 0 <= i < w.len() - 1 implies linked(m, #[trigger] w[i], w[i + 1]) by {
        if i < p.len() - 1 {
            assert(w[i] == p[i] && w[i + 1] == p[i + 1]);
        } else if i == p.len() - 1 {
            assert(w[i] == p.last() && p.last() == q[0]);
            if q.len() > 1 {
                assert(w[i + 1] == q[1]);
                assert(linked(m, q[0], q[1]));
            }
        } else {
            let j = i - p.len();
            assert(w[i] == q[j + 1] && w[i + 1] == q[j + 2]);
            assert(linked(m, q[j + 1], q[j + 2]));
        }
    }
    assert(w[0] == p[0]);
    assert(w.last() == if q.len() > 1 {
        q.last()
    } else {
        p.last()
    });
    assert(is_path(m, w) && w.len() > 0 && roots.contains(w[0]) && w.last() == c);
}

/// One map extends another: every key of `m` is in `m2` with the same
/// bytes.
pub open spec fn map_extends(m2: Map<CidData, Seq<u8>>, m: Map<CidData, Seq<u8>>) -> bool {
    forall|k: CidData|
        m.dom().contains(k) ==> #[trigger] m2.dom().contains(k) && m2[k] == m[k]
}

/// Growing the store preserves reachability.
pub proof fn lemma_reachable_monotone(
    m: Map<CidData, Seq<u8>>,
    m2: Map<CidData, Seq<u8>>,
    roots: Set<CidData>,
    c: CidData,
)
    requires
        map_extends(m2, m),
        reachable_from(m, roots, c),
    ensures
        reachable_from(m2, roots, c),
{
    let p = choose|p: Seq<CidData>|
        #[trigger] is_path(m, p) && p.len() > 0 && roots.contains(p[0]) && p.last() == c;
    assert forall|i: int| 0 <= i < p.len() - 1 implies linked(m2, #[trigger] p[i], p[i + 1]) by {
        assert(linked(m, p[i], p[i + 1]));
        assert(m.dom().contains(p[i]));
        assert(m2.dom().contains(p[i]) && m2[p[i]] == m[p[i]]);
    }
    assert(is_path(m2, p) && p.len() > 0 && roots.contains(p[0]) && p.last() == c);
}

/// A chain in a store grown by one new block either lies in the old store
/// or passes through the new block: then a prefix reaches the new block in
/// the old store, and the rest is a chain from it in the grown store.
proof fn lemma_path_insert_split(
    m: Map<CidData, Seq<u8>>,
    k: CidData,
    v: Seq<u8>,
    p: Seq<CidData>,
)
    requires
        !m.dom().contains(k),
        is_path(m.insert(k, v), p),
        p.len() > 0,
    ensures
        is_path(m, p) || (exists|i: int|
            0 <= i < p.len() && p[i] == k && #[trigger] is_path(m, p.subrange(0, i + 1)) && is_path(
                m.insert(k, v),
                p.subrange(i, p.len() as int),
            )),
    decreases p.len(),
{
    let m2 = m.insert(k, v);
    if p[0] == k && p.len() > 1 {
        assert(is_path(m, p.subrange(0, 1)));
        assert(p.subrange(0, p.len() as int) == p);
        assert(0 <= 0 < p.len() && p[0] == k && is_path(m, p.subrange(0, 0int + 1)) && is_path(
            m2,
            p.subrange(0, p.len() as int),
        ));
    } else if p.len() > 1 {
        let q = p.subrange(1, p.len() as int);
        assert(is_path(m2, q)) by {
            assert forall|i: int| 0 <= i < q.len() - 1 implies linked(m2, #[trigger] q[i], q[i + 1]) by {
                assert(q[i] == p[i + 1] && q[i + 1] == p[i + 2]);
            }
        }
        lemma_path_insert_split(m, k, v, q);
        assert(linked(m2, p[0], p[1]));
        assert(linked(m, p[0], p[1])) by {
            assert(p[0] != k);
            assert(m2[p[0]] == m[p[0]]);
        }
        if is_path(m, q) {
            assert forall|i: int| 0 <= i < p.len() - 1 implies linked(m, #[trigger] p[i], p[i + 1]) by {
                if i == 0 {
                } else {
                    assert(p[i] == q[i - 1] && p[i + 1] == q[i]);
                    assert(linked(m, q[i - 1], q[i]));
                }
            }
        } else {
            let j = choose|j: int|
                0 <= j < q.len() && q[j] == k && #[trigger] is_path(m, q.subrange(0, j + 1))
                    && is_path(m2, q.subrange(j, q.len() as int));
            let i = j + 1;
            assert(p[i] == q[j]);
            let pre = p.subrange(0, i + 1);
            assert(is_path(m, pre)) by {
                let qpre = q.subrange(0, j + 1);
                assert forall|t: int| 0 <= t < pre.len() - 1 implies linked(
                    m,
                    #[trigger] pre[t],
                    pre[t + 1],
                ) by {
                    if t == 0 {
                        assert(pre[0] == p[0] && pre[1] == p[1]);
                    } else {
                        assert(pre[t] == q[t - 1] && pre[t + 1] == q[t]);
                        assert(qpre[t - 1] == q[t - 1] && qpre[t] == q[t]);
                        assert(linked(m, qpre[t - 1], qpre[t]));
                    }
                }
            }
            assert(p.subrange(i, p.len() as int) =~= q.subrange(j, q.len() as int));
        }
    }
}

/// Reachability in a store grown by one new block: either the target was
/// already reachable, or the new block was reachable in the old store and
/// the target is reachable from the new block in the grown store.
pub proof fn lemma_reachable_insert_split(
    m: Map<CidData, Seq<u8>>,
    roots: Set<CidData>,
    k: CidData,
    v: Seq<u8>,
    c: CidData,
)
    requires
        !m.dom().contains(k),
        reachable_from(m.insert(k, v), roots, c),
    ensures
        reachable_from(m, roots, c) || (reachable_from(m, roots, k) && reachable_from(
            m.insert(k, v),
            Set::empty().insert(k),
            c,
        )),
{
    let m2 = m.insert(k, v);
    let p = choose|p: Seq<CidData>|
        #[trigger] is_path(m2, p) && p.len() > 0 && roots.contains(p[0]) && p.last() == c;
    lemma_path_insert_split(m, k, v, p);
    if is_path(m, p) {
        assert(reachable_from(m, roots, c));
    } else {
        let i = choose|i: int|
            0 <= i < p.len() && p[i] == k && #[trigger] is_path(m, p.subrange(0, i + 1)) && is_path(
                m2,
                p.subrange(i, p.len() as int),
            );
        let pre = p.subrange(0, i + 1);
        assert(pre[0] == p[0] && pre.last() == p[i]);
        assert(is_path(m, pre) && pre.len() > 0 && roots.contains(pre[0]) && pre.last() == k);
        let suf = p.subrange(i, p.len() as int);
        assert(suf[0] == k && suf.last() == p.last());
        assert(Set::empty().insert(k).contains(suf[0]));
        assert(is_path(m2, suf) && suf.len() > 0 && Set::empty().insert(k).contains(suf[0])
            && suf.last() == c);
    }
}

/// A finite set that holds every link target out of `d`.
proof fn lemma_link_targets_finite(m: Map<CidData, Seq<u8>>, d: Set<CidData>) -> (u: Set<CidData>)
    requires
        d.finite(),
    ensures
        u.finite(),
        forall|a: CidData, b: CidData| d.contains(a) && #[trigger] linked(m, a, b) ==> u.contains(b),
    decreases d.len(),
{
    if d.len() == 0 {
        assert(d =~= Set::empty());
        Set::empty()
    } else {
        let a = d.choose();
        assert(d.contains(a));
        let rest = d.remove(a);
        let u0 = lemma_link_targets_finite(m, rest);
        let ra: Set<CidData> = if m.dom().contains(a) && block_refs(a, m[a]) is Some {
            let rs = block_refs(a, m[a]).unwrap();
            seq_to_set_is_finite(rs);
            rs.to_set()
        } else {
            Set::empty()
        };
        let u = u0.union(ra);
        assert(u.finite());
        assert forall|x: CidData, b: CidData| d.contains(x) && #[trigger] linked(m, x, b) implies u.contains(
            b,
        ) by {
            if x == a {
                assert(ra.contains(b));
            } else {
                assert(rest.contains(x));
                assert(u0.contains(b));
            }
        }
        u
    }
}

/// A finite universe for a walk: it holds the roots, everything present,
/// every link target of a present block, and is closed under links.
pub proof fn lemma_walk_universe(m: Map<CidData, Seq<u8>>, roots: Set<CidData>) -> (u: Set<CidData>)
    requires
        m.dom().finite(),
        roots.finite(),
    ensures
        u.finite(),
        roots.subset_of(u),
        m.dom().subset_of(u),
        forall|a: CidData, b: CidData| #[trigger] linked(m, a, b) ==> u.contains(b),
{
    let t = lemma_link_targets_finite(m, m.dom());
    let u = roots.union(m.dom()).union(t);
    assert forall|a: CidData, b: CidData| #[trigger] linked(m, a, b) implies u.contains(b) by {
        assert(m.dom().contains(a));
        assert(t.contains(b));
    }
    u
}

/// Every CID reachable from the roots has its block present.
pub open spec fn store_complete(m: Map<CidData, Seq<u8>>, roots: Set<CidData>) -> bool {
    forall|c: CidData| reachable_from(m, roots, c) ==> #[trigger] m.dom().contains(c)
}

/// Every reachable present block parses for references.
pub open spec fn store_parseable(m: Map<CidData, Seq<u8>>, roots: Set<CidData>) -> bool {
    forall|c: CidData|
        reachable_from(m, roots, c) && #[trigger] m.dom().contains(c) ==> block_refs(c, m[c])
            is Some
}

/// Cardinality of a subset of a finite set.
pub proof fn lemma_subset_len(s1: Set<CidData>, s2: Set<CidData>)
    requires
        s2.finite(),
        s1.subset_of(s2),
    ensures
        s1.finite(),
        s1.len() <= s2.len(),
{
    lemma_len_subset(s1, s2);
}

} // verus!
