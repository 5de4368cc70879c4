//! A stepwise traversal of the DAG below a set of roots.
//!
//! The walk holds a frontier of CIDs to visit and a set of already
//! visited CIDs. Each step pops the first unvisited CID of the frontier;
//! when its block is present in the store, the block's links are pushed,
//! and the step yields `Have`; when absent, the frontier is not extended
//! and the step yields `Missing`. Every CID is yielded at most once.

use vstd::prelude::*;
use crate::cache::{Cache, cache_valid, cached_references};
use crate::cid::{Cid, CidData, cid_wf};
use crate::cid_set::CidSet;
use crate::error::{BlockStoreError, Error};
use crate::references::{block_refs, cids_view, cids_wf};
use crate::dag::{reachable_from, linked, lemma_reachable_root, lemma_reachable_step, lemma_reachable_closed};
use crate::store::MemoryBlockStore;

verus! {

/// The CIDs of `s` that are not in `v`, in order.
pub open spec fn seq_minus(s: Seq<CidData>, v: Set<CidData>) -> Seq<CidData>
    decreases s.len(),
{
    if s.len() == 0 {
        Seq::empty()
    } else {
        seq_minus(s.drop_last(), v) + (if v.contains(s.last()) {
            Seq::empty()
        } else {
            seq![s.last()]
        })
    }
}

/// Membership in [`seq_minus`]: kept iff in `s` and not in `v`.
pub proof fn lemma_seq_minus_members(s: Seq<CidData>, v: Set<CidData>, x: CidData)
    ensures
        seq_minus(s, v).contains(x) <==> s.contains(x) && !v.contains(x),
    decreases s.len(),
{
    if s.len() > 0 {
        lemma_seq_minus_members(s.drop_last(), v, x);
        assert(s.contains(x) <==> s.drop_last().contains(x) || s.last() == x) by {
            if s.contains(x) {
                let i = choose|i: int| 0 <= i < s.len() && s[i] == x;
                if i < s.len() - 1 {
                    assert(s.drop_last()[i] == x);
                }
            }
            if s.drop_last().contains(x) {
                let i = choose|i: int| 0 <= i < s.drop_last().len() && s.drop_last()[i] == x;
                assert(s[i] == x);
            }
        }
        let t = seq_minus(s, v);
        let t0 = seq_minus(s.drop_last(), v);
        if v.contains(s.last()) {
            assert(t =~= t0);
        } else {
            assert(t =~= t0.push(s.last()));
            assert(t.contains(x) <==> t0.contains(x) || s.last() == x) by {
                if t.contains(x) {
                    let i = choose|i: int| 0 <= i < t.len() && t[i] == x;
                    if i < t0.len() {
                        assert(t0[i] == x);
                    } else {
                        assert(t[i] == s.last());
                    }
                }
                if t0.contains(x) {
                    let i = choose|i: int| 0 <= i < t0.len() && t0[i] == x;
                    assert(t[i] == x);
                }
                if s.last() == x {
                    assert(t[t0.len() as int] == x);
                }
            }
        }
    }
}

/// The invariant a walk maintains relative to the store `m` and the
/// roots it started from: everything seen is reachable, links out of
/// visited blocks lead into the seen part, and every root is seen.
pub open spec fn walk_inv(
    m: Map<CidData, Seq<u8>>,
    roots: Set<CidData>,
    f: Seq<CidData>,
    v: Set<CidData>,
) -> bool {
    &&& forall|c: CidData| #[trigger] v.contains(c) ==> reachable_from(m, roots, c)
    &&& forall|i: int| 0 <= i < f.len() ==> reachable_from(m, roots, #[trigger] f[i])
    &&& forall|a: CidData, b: CidData|
        #[trigger] v.contains(a) && #[trigger] linked(m, a, b) ==> v.contains(b) || f.contains(b)
    &&& forall|c: CidData| #[trigger] roots.contains(c) ==> v.contains(c) || f.contains(c)
}

/// The walk invariant holds at the start, when the frontier is exactly
/// the roots.
pub proof fn lemma_walk_inv_init(m: Map<CidData, Seq<u8>>, roots: Seq<CidData>)
    ensures
        walk_inv(m, roots.to_set(), roots, Set::empty()),
{
    let rs = roots.to_set();
    assert forall|i: int| 0 <= i < roots.len() implies reachable_from(m, rs, #[trigger] roots[i]) by {
        assert(rs.contains(roots[i]));
        lemma_reachable_root(m, rs, roots[i]);
    }
    assert forall|c: CidData| #[trigger] rs.contains(c) implies Set::<CidData>::empty().contains(c)
        || roots.contains(c) by {
    }
}

/// One step of the walk preserves the invariant: the yielded CID is
/// reachable, and the updated frontier and visited set still satisfy it.
pub proof fn lemma_walk_step(
    m: Map<CidData, Seq<u8>>,
    roots: Set<CidData>,
    f0: Seq<CidData>,
    v0: Set<CidData>,
    f1: Seq<CidData>,
    v1: Set<CidData>,
    c: CidData,
    have: bool,
)
    requires
        walk_inv(m, roots, f0, v0),
        !v0.contains(c),
        v1 == v0.insert(c),
        have == m.dom().contains(c),
        exists|idx: int|
            {
                &&& 0 <= idx < f0.len()
                &&& f0[idx] == c
                &&& (forall|j: int| 0 <= j < idx ==> v0.contains(#[trigger] f0[j]))
                &&& if have {
                    block_refs(c, m[c]) matches Some(refs) && (f1 == #[trigger] f0.subrange(
                        idx + 1,
                        f0.len() as int,
                    ) + seq_minus(refs, v1) || f1 == seq_minus(refs, v1) + f0.subrange(
                        idx + 1,
                        f0.len() as int,
                    ))
                } else {
                    f1 == #[trigger] f0.subrange(idx + 1, f0.len() as int)
                }
            },
    ensures
        walk_inv(m, roots, f1, v1),
        reachable_from(m, roots, c),
{
    let idx = choose|idx: int|
        {
            &&& 0 <= idx < f0.len()
            &&& f0[idx] == c
            &&& (forall|j: int| 0 <= j < idx ==> v0.contains(#[trigger] f0[j]))
            &&& if have {
                block_refs(c, m[c]) matches Some(refs) && (f1 == #[trigger] f0.subrange(
                    idx + 1,
                    f0.len() as int,
                ) + seq_minus(refs, v1) || f1 == seq_minus(refs, v1) + f0.subrange(
                    idx + 1,
                    f0.len() as int,
                ))
            } else {
                f1 == #[trigger] f0.subrange(idx + 1, f0.len() as int)
            }
        };
    let rest = f0.subrange(idx + 1, f0.len() as int);
    assert(reachable_from(m, roots, c)) by {
        assert(reachable_from(m, roots, f0[idx]));
    }
    // Every old frontier element is now visited, yielded, or still there.
    assert forall|b: CidData| f0.contains(b) implies v1.contains(b) || rest.contains(b) by {
        let j = choose|j: int| 0 <= j < f0.len() && f0[j] == b;
        if j < idx {
            assert(v0.contains(f0[j]));
        } else if j == idx {
        } else {
            assert(rest[j - idx - 1] == b);
        }
    }
    // Everything in the new frontier is in the rest or among the links of c.
    if have {
        let refs = block_refs(c, m[c]).unwrap();
        let pushed = seq_minus(refs, v1);
        assert(f1 == rest + pushed || f1 == pushed + rest);
        assert forall|x: CidData| f1.contains(x) implies rest.contains(x) || pushed.contains(x) by {
            let i = choose|i: int| 0 <= i < f1.len() && f1[i] == x;
            if f1 == rest + pushed {
                if i < rest.len() {
                    assert(rest[i] == x);
                } else {
                    assert(pushed[i - rest.len()] == x);
                }
            } else {
                if i < pushed.len() {
                    assert(pushed[i] == x);
                } else {
                    assert(rest[i - pushed.len()] == x);
                }
            }
        }
        assert forall|x: CidData| rest.contains(x) || pushed.contains(x) implies f1.contains(x) by {
            if rest.contains(x) {
                let i = choose|i: int| 0 <= i < rest.len() && rest[i] == x;
                if f1 == rest + pushed {
                    assert(f1[i] == x);
                } else {
                    assert(f1[pushed.len() + i] == x);
                }
            } else {
                let i = choose|i: int| 0 <= i < pushed.len() && pushed[i] == x;
                if f1 == rest + pushed {
                    assert(f1[rest.len() + i] == x);
                } else {
                    assert(f1[i] == x);
                }
            }
        }
        // New frontier elements are reachable.
        assert forall|i: int| 0 <= i < f1.len() implies reachable_from(m, roots, #[trigger] f1[i]) by {
            let x = f1[i];
            assert(f1.contains(x));
            if rest.contains(x) {
                let j = choose|j: int| 0 <= j < rest.len() && rest[j] == x;
                assert(rest[j] == f0[idx + 1 + j]);
                assert(reachable_from(m, roots, f0[idx + 1 + j]));
            } else {
                lemma_seq_minus_members(refs, v1, x);
                assert(refs.contains(x));
                assert(linked(m, c, x));
                lemma_reachable_step(m, roots, c, x);
            }
        }
        // Closure: links out of visited blocks stay inside.
        assert forall|a: CidData, b: CidData|
            #[trigger] v1.contains(a) && #[trigger] linked(m, a, b) implies v1.contains(b)
            || f1.contains(b) by {
            if a == c {
                assert(refs.contains(b));
                if !v1.contains(b) {
                    lemma_seq_minus_members(refs, v1, b);
                    assert(pushed.contains(b));
                    assert(f1.contains(b));
                }
            } else {
                assert(v0.contains(a));
                if !v1.contains(b) {
                    assert(f0.contains(b));
                    assert(rest.contains(b));
                    assert(f1.contains(b));
                }
            }
        }
        // Roots stay covered.
        assert forall|x: CidData| #[trigger] roots.contains(x) implies v1.contains(x)
            || f1.contains(x) by {
            if !v1.contains(x) {
                assert(f0.contains(x));
                assert(rest.contains(x));
            }
        }
    } else {
        assert(f1 == rest);
        assert forall|i: int| 0 <= i < f1.len() implies reachable_from(m, roots, #[trigger] f1[i]) by {
            assert(f1[i] == f0[idx + 1 + i]);
        }
        assert forall|a: CidData, b: CidData|
            #[trigger] v1.contains(a) && #[trigger] linked(m, a, b) implies v1.contains(b)
            || f1.contains(b) by {
            if a == c {
                assert(m.dom().contains(a));
            } else {
                assert(v0.contains(a));
                if !v1.contains(b) {
                    assert(f0.contains(b));
                }
            }
        }
        assert forall|x: CidData| #[trigger] roots.contains(x) implies v1.contains(x)
            || f1.contains(x) by {
            if !v1.contains(x) {
                assert(f0.contains(x));
            }
        }
    }
}

/// When the walk finishes, the visited set is exactly what is reachable
/// from the roots.
pub proof fn lemma_walk_finish(
    m: Map<CidData, Seq<u8>>,
    roots: Set<CidData>,
    f: Seq<CidData>,
    v: Set<CidData>,
)
    requires
        walk_inv(m, roots, f, v),
        f.len() == 0,
    ensures
        forall|c: CidData| #[trigger] v.contains(c) <==> reachable_from(m, roots, c),
{
    assert forall|c: CidData| #[trigger] v.contains(c) <==> reachable_from(m, roots, c) by {
        if reachable_from(m, roots, c) {
            assert forall|x: CidData| roots.contains(x) implies v.contains(x) by {
                assert(!f.contains(x));
            }
            assert forall|a: CidData, b: CidData| v.contains(a) && #[trigger] linked(m, a, b) implies v.contains(
                b,
            ) by {
                assert(!f.contains(b));
            }
            lemma_reachable_closed(m, roots, v, c);
        }
    }
}

/// One item of a traversal.
#[derive(Debug)]
pub enum TraversedItem {
    /// The block is available locally; its links are followed.
    Have(Cid),
    /// The block is not available locally; its links cannot be followed.
    Missing(Cid),
}

impl TraversedItem {
    /// The CID value of this item.
    pub open spec fn spec_cid(&self) -> CidData {
        match self {
            TraversedItem::Have(c) => c@,
            TraversedItem::Missing(c) => c@,
        }
    }

    /// Whether the block was available.
    pub open spec fn is_have(&self) -> bool {
        self is Have
    }

    /// The CID of this item, or the missing-block error.
    pub fn to_cid(self) -> (r: Result<Cid, Error>)
        ensures
            match r {
                Ok(c) => self.is_have() && c@ == self.spec_cid(),
                Err(e) => !self.is_have() && (e matches Error::BlockStoreError(
                    BlockStoreError::CIDNotFound(c),
                ) && c@ == self.spec_cid()),
            },
    {
        match self {
            TraversedItem::Have(cid) => Ok(cid),
            TraversedItem::Missing(cid) => Err(
                Error::BlockStoreError(BlockStoreError::CIDNotFound(cid)),
            ),
        }
    }
}

/// An ongoing walk through the DAG.
#[derive(Debug)]
pub struct DagWalk {
    /// The CIDs to visit next, first first.
    pub frontier: Vec<Cid>,
    /// The already visited CIDs, never re-visited.
    pub visited: CidSet,
    /// Whether newly discovered links are appended to the frontier
    /// (breadth-first) or prepended (depth-first).
    pub breadth_first: bool,
}

impl DagWalk {
    /// The frontier as a sequence of CID values.
    pub open spec fn fseq(&self) -> Seq<CidData> {
        cids_view(self.frontier@)
    }

    /// The visited set.
    pub open spec fn vset(&self) -> Set<CidData> {
        self.visited@
    }

    /// The visited set is well-formed and the frontier holds well-formed
    /// CIDs.
    pub open spec fn wf(&self) -> bool {
        &&& self.visited.wf()
        &&& cids_wf(self.fseq())
    }

    /// Start a breadth-first traversal of the given roots: roots first,
    /// then each layer below.
    pub fn breadth_first(roots: Vec<Cid>) -> (r: DagWalk)
        requires
            cids_wf(cids_view(roots@)),
        ensures
            r.wf(),
            r.fseq() == cids_view(roots@),
            r.vset() =~= Set::<CidData>::empty(),
            r.breadth_first,
    {
        Self::new(roots, true)
    }

    /// Start a depth-first traversal of the given roots: links are
    /// followed immediately after discovery.
    pub fn depth_first(roots: Vec<Cid>) -> (r: DagWalk)
        requires
            cids_wf(cids_view(roots@)),
        ensures
            r.wf(),
            r.fseq() == cids_view(roots@),
            r.vset() =~= Set::<CidData>::empty(),
            !r.breadth_first,
    {
        Self::new(roots, false)
    }

    /// Start a traversal of the given roots.
    pub fn new(roots: Vec<Cid>, breadth_first: bool) -> (r: DagWalk)
        requires
            cids_wf(cids_view(roots@)),
        ensures
            r.wf(),
            r.fseq() == cids_view(roots@),
            r.vset() =~= Set::<CidData>::empty(),
            r.breadth_first == breadth_first,
    {
        DagWalk { frontier: roots, visited: CidSet::new(), breadth_first }
    }

    /// Whether the traversal is finished: the next step would yield
    /// nothing.
    pub fn is_finished(&self) -> (r: bool)
        requires
            self.wf(),
        ensures
            r <==> (forall|j: int|
                0 <= j < self.fseq().len() ==> self.vset().contains(#[trigger] self.fseq()[j])),
    {
        let mut i: usize = 0;
        while i < self.frontier.len()
            invariant
                self.wf(),
                0 <= i <= self.fseq().len(),
                forall|j: int| 0 <= j < i ==> self.vset().contains(#[trigger] self.fseq()[j]),
            decreases self.fseq().len() - i,
        {
            if !self.visited.contains(&self.frontier[i]) {
                assert(self.fseq()[i as int] == self.frontier@[i as int]@);
                assert(!self.vset().contains(self.fseq()[i as int]));
                return false;
            }
            i += 1;
        }
        true
    }

    /// The next node of the traversal, or `None` when no node is left.
    ///
    /// A yielded CID was the first unvisited CID of the frontier and has
    /// not been yielded before; it is now visited. On `Have`, the links of
    /// its block that are still unvisited are pushed onto the frontier:
    /// appended when breadth-first, prepended when depth-first.
    pub fn next<C: Cache>(&mut self, store: &MemoryBlockStore, cache: &mut C) -> (r: Result<
        Option<TraversedItem>,
        Error,
    >)
        requires
            old(self).wf(),
            store.wf(),
            old(cache).wf(),
            cache_valid(old(cache), store@),
        ensures
            final(self).wf(),
            final(cache).wf(),
            cache_valid(final(cache), store@),
            final(self).breadth_first == old(self).breadth_first,
            match r {
                Ok(opt) => match opt {
                    None => final(self).vset() == old(self).vset() && final(self).fseq().len() == 0
                        && (forall|j: int|
                        0 <= j < old(self).fseq().len() ==> old(self).vset().contains(
                            #[trigger] old(self).fseq()[j],
                        )),
                    Some(item) => {
                        &&& cid_wf(item.spec_cid())
                        &&& (item.is_have() <==> store@.dom().contains(item.spec_cid()))
                        &&& !old(self).vset().contains(item.spec_cid())
                        &&& final(self).vset() == old(self).vset().insert(item.spec_cid())
                        &&& exists|idx: int|
                            {
                                &&& 0 <= idx < old(self).fseq().len()
                                &&& old(self).fseq()[idx] == item.spec_cid()
                                &&& (forall|j: int|
                                    0 <= j < idx ==> old(self).vset().contains(
                                        #[trigger] old(self).fseq()[j],
                                    ))
                                &&& if item.is_have() {
                                    block_refs(item.spec_cid(), store@[item.spec_cid()]) matches Some(
                                        refs,
                                    ) && final(self).fseq() == (if old(self).breadth_first {
                                        #[trigger] old(self).fseq().subrange(
                                            idx + 1,
                                            old(self).fseq().len() as int,
                                        ) + seq_minus(refs, final(self).vset())
                                    } else {
                                        seq_minus(refs, final(self).vset()) + old(
                                            self,
                                        ).fseq().subrange(idx + 1, old(self).fseq().len() as int)
                                    })
                                } else {
                                    final(self).fseq() == #[trigger] old(self).fseq().subrange(
                                        idx + 1,
                                        old(self).fseq().len() as int,
                                    )
                                }
                            }
                    },
                },
                Err(e) => (match e {
                    Error::UnsupportedCodec { .. } => true,
                    Error::ParsingError => true,
                    _ => false,
                }) && (exists|c: CidData|
                    #[trigger] old(self).fseq().contains(c) && !old(self).vset().contains(c)
                        && store@.dom().contains(c) && block_refs(c, store@[c]) is None),
            },
    {
        let ghost f0 = self.fseq();
        let ghost v0 = self.vset();
        let mut popped: usize = 0;
        let flen = self.frontier.len();
        proof {
            assert(f0.subrange(0, f0.len() as int) =~= f0);
            assert(f0.len() == flen);
        }
        loop
            invariant
                self.wf(),
                store.wf(),
                cache.wf(),
                cache_valid(cache, store@),
                self.breadth_first == old(self).breadth_first,
                self.visited == old(self).visited,
                popped <= f0.len(),
                self.fseq() == f0.subrange(popped as int, f0.len() as int),
                forall|j: int| 0 <= j < popped ==> v0.contains(#[trigger] f0[j]),
                v0 == self.vset(),
                f0 == old(self).fseq(),
                cids_wf(f0),
                f0.len() <= usize::MAX,
            decreases f0.len() - popped,
        {
            if self.frontier.len() == 0 {
                proof {
                    assert(self.fseq().len() == 0);
                    assert(popped == f0.len());
                }
                return Ok(None);
            }
            let ghost fr_pre = self.frontier@;
            proof {
                assert(cids_view(fr_pre) == f0.subrange(popped as int, f0.len() as int));
                assert(cids_view(fr_pre).len() == fr_pre.len());
            }
            let c = self.frontier.remove(0);
            proof {
                assert(fr_pre.len() == f0.len() - popped);
                assert(c@ == fr_pre[0]@);
                assert(cids_view(fr_pre)[0] == fr_pre[0]@);
                assert(c@ == f0[popped as int]);
                assert(cids_view(self.frontier@) =~= f0.subrange(popped + 1, f0.len() as int)) by {
                    assert forall|j: int| 0 <= j < self.frontier@.len() implies (
                    #[trigger] self.frontier@[j])@ == f0[popped + 1 + j] by {
                        assert(self.frontier@[j] == fr_pre[j + 1]);
                        assert(cids_view(fr_pre)[j + 1] == fr_pre[j + 1]@);
                        assert(cids_view(fr_pre)[j + 1] == f0[popped + 1 + j]);
                    }
                    assert forall|j: int| 0 <= j < self.frontier@.len() implies #[trigger] cids_view(
                        self.frontier@,
                    )[j] == f0[popped + 1 + j] by {
                        assert(cids_view(self.frontier@)[j] == self.frontier@[j]@);
                    }
                }
            }
            if !self.visited.contains(&c) {
                let ghost idx = popped as int;
                assert(cid_wf(c@)) by {
                    assert(cids_wf(f0));
                }
                self.visited.insert(c.clone());
                let ghost v1 = self.vset();
                let ghost rest = f0.subrange(idx + 1, f0.len() as int);
                assert(self.fseq() == rest);
                if store.has_block(&c) {
                    let refs = match cached_references(cache, &c, store) {
                        Ok(v) => v,
                        Err(e) => {
                            proof {
                                assert(old(self).fseq().contains(f0[idx]));
                                assert(!old(self).vset().contains(f0[idx]));
                                assert(store@.dom().contains(c@));
                                assert(block_refs(c@, store@[c@]) is None);
                            }
                            return Err(match e {
                                Error::UnsupportedCodec { cid } => Error::UnsupportedCodec { cid },
                                _ => Error::ParsingError,
                            });
                        },
                    };
                    let ghost rv = cids_view(refs@);
                    let mut pushed: Vec<Cid> = Vec::new();
                    let mut i: usize = 0;
                    proof {
                        assert(seq_minus(rv.subrange(0, 0int), v1) =~= Seq::<CidData>::empty());
                        assert(cids_view(pushed@) =~= Seq::<CidData>::empty());
                    }
                    while i < refs.len()
                        invariant
                            self.visited.wf(),
                            self.vset() == v1,
                            cids_wf(rv),
                            rv == cids_view(refs@),
                            0 <= i <= refs@.len(),
                            cids_view(pushed@) == seq_minus(rv.subrange(0, i as int), v1),
                            forall|j: int|
                                0 <= j < pushed@.len() ==> cid_wf((#[trigger] pushed@[j])@),
                        decreases refs@.len() - i,
                    {
                        proof {
                            assert(rv.subrange(0, i + 1).drop_last() =~= rv.subrange(0, i as int));
                            assert(rv.subrange(0, i + 1).last() == rv[i as int]);
                            assert(rv[i as int] == refs@[i as int]@);
                        }
                        let ghost pv = cids_view(pushed@);
                        if !self.visited.contains(&refs[i]) {
                            pushed.push(refs[i].clone());
                            proof {
                                assert(cids_view(pushed@) =~= pv.push(refs@[i as int]@));
                                assert(seq_minus(rv.subrange(0, i + 1), v1) =~= pv.push(
                                    rv[i as int],
                                ));
                            }
                        } else {
                            proof {
                                assert(seq_minus(rv.subrange(0, i + 1), v1) =~= pv);
                            }
                        }
                        i += 1;
                    }
                    proof {
                        assert(rv.subrange(0, rv.len() as int) =~= rv);
                        assert(cids_view(pushed@) == seq_minus(rv, v1));
                    }
                    let ghost pv = cids_view(pushed@);
                    if self.breadth_first {
                        self.frontier.append(&mut pushed);
                        proof {
                            assert(self.fseq() =~= rest + pv) by {
                                assert forall|j: int| 0 <= j < self.frontier@.len() implies
                                    #[trigger] cids_view(self.frontier@)[j] == (rest + pv)[j] by {
                                    assert(cids_view(self.frontier@)[j] == self.frontier@[j]@);
                                }
                            }
                        }
                    } else {
                        // splice: the pushed links come before the rest
                        let mut nf = pushed;
                        let mut old_frontier = Vec::new();
                        core::mem::swap(&mut old_frontier, &mut self.frontier);
                        nf.append(&mut old_frontier);
                        self.frontier = nf;
                        proof {
                            assert(self.fseq() =~= pv + rest) by {
                                assert forall|j: int| 0 <= j < self.frontier@.len() implies
                                    #[trigger] cids_view(self.frontier@)[j] == (pv + rest)[j] by {
                                    assert(cids_view(self.frontier@)[j] == self.frontier@[j]@);
                                }
                            }
                        }
                    }
                    let item = TraversedItem::Have(c);
                    proof {
                        assert(item.spec_cid() == f0[idx]);
                        assert(cids_wf(self.fseq()));
                        assert(0 <= idx < old(self).fseq().len());
                        assert(old(self).fseq()[idx] == item.spec_cid());
                        assert(old(self).fseq().subrange(idx + 1, old(self).fseq().len() as int)
                            == rest);
                        assert(block_refs(item.spec_cid(), store@[item.spec_cid()]) == Some(rv));
                        if old(self).breadth_first {
                            assert(self.fseq() == old(self).fseq().subrange(
                                idx + 1,
                                old(self).fseq().len() as int,
                            ) + seq_minus(rv, self.vset()));
                        } else {
                            assert(self.fseq() == seq_minus(rv, self.vset()) + old(
                                self,
                            ).fseq().subrange(idx + 1, old(self).fseq().len() as int));
                        }
                    }
                    return Ok(Some(item));
                } else {
                    let item = TraversedItem::Missing(c);
                    proof {
                        assert(item.spec_cid() == f0[idx]);
                        assert(old(self).fseq().subrange(idx + 1, old(self).fseq().len() as int)
                            == rest);
                    }
                    return Ok(Some(item));
                }
            }
            proof {
                assert(v0.contains(f0[popped as int]));
            }
            popped += 1;
        }
    }
}

impl DagWalk {
    /// Skip a node: mark it visited without yielding it, and drop its
    /// links from the frontier so they are not followed on its account.
    /// A frontier entry survives exactly when it is not among the
    /// skipped block's links.
    pub fn skip_walking(&mut self, block: (Cid, Vec<u8>)) -> (r: Result<(), Error>)
        requires
            old(self).wf(),
            block.0.wf(),
        ensures
            final(self).wf(),
            final(self).breadth_first == old(self).breadth_first,
            r is Ok ==> final(self).vset() == old(self).vset().insert(block.0@) && (block_refs(
                block.0@,
                block.1@,
            ) matches Some(refs) && final(self).fseq() == seq_minus(
                old(self).fseq(),
                refs.to_set(),
            )),
            r is Err ==> *final(self) == *old(self),
    {
        let (cid, bytes) = block;
        let refs = match crate::references::references(&cid, bytes.as_slice()) {
            Ok(v) => v,
            Err(e) => {
                return Err(match e {
                    Error::UnsupportedCodec { cid } => Error::UnsupportedCodec { cid },
                    _ => Error::ParsingError,
                });
            },
        };
        self.visited.insert(cid);
        let ghost fr = cids_view(self.frontier@);
        let ghost dropped = cids_view(refs@).to_set();
        let mut kept: Vec<Cid> = Vec::new();
        let mut i: usize = 0;
        proof {
            assert(fr.take(0) =~= Seq::<CidData>::empty());
            assert(cids_view(kept@) =~= seq_minus(fr.take(0), dropped));
        }
        while i < self.frontier.len()
            invariant
                self.visited.wf(),
                cids_wf(cids_view(self.frontier@)),
                fr == cids_view(self.frontier@),
                dropped == cids_view(refs@).to_set(),
                0 <= i <= self.frontier@.len(),
                cids_view(kept@) == seq_minus(fr.take(i as int), dropped),
                forall|j: int| 0 <= j < kept@.len() ==> cid_wf((#[trigger] kept@[j])@),
            decreases self.frontier@.len() - i,
        {
            proof {
                assert(fr.take(i + 1).drop_last() =~= fr.take(i as int));
                assert(fr.take(i + 1).last() == fr[i as int]);
                assert(cids_view(self.frontier@)[i as int] == self.frontier@[i as int]@);
            }
            let ghost pre = cids_view(kept@);
            let keep = !crate::common::cids_contain(&refs, &self.frontier[i]);
            if keep {
                kept.push(self.frontier[i].clone());
                proof {
                    assert(!dropped.contains(fr[i as int]));
                    assert(cids_view(kept@) =~= pre.push(fr[i as int]));
                    assert(seq_minus(fr.take(i + 1), dropped) =~= pre.push(fr[i as int]));
                }
            } else {
                proof {
                    assert(dropped.contains(fr[i as int]));
                    assert(seq_minus(fr.take(i + 1), dropped) =~= pre);
                }
            }
            i += 1;
        }
        self.frontier = kept;
        proof {
            assert(fr.take(fr.len() as int) =~= fr);
            assert forall|j: int| 0 <= j < cids_view(self.frontier@).len() implies cid_wf(
                #[trigger] cids_view(self.frontier@)[j],
            ) by {
                assert(cids_view(self.frontier@)[j] == self.frontier@[j]@);
            }
        }
        Ok(())
    }
}

/// One step of a walk run by a collector: yield the next traversed CID,
/// requiring its block to be present and parseable, and maintain the
/// walk invariant relative to the finite universe `u`.
fn walk_step_collect<C: Cache>(
    walk: &mut DagWalk,
    store: &MemoryBlockStore,
    cache: &mut C,
    Ghost(rset): Ghost<Set<CidData>>,
    Ghost(u): Ghost<Set<CidData>>,
    Ghost(head): Ghost<Seq<CidData>>,
) -> (r: Result<Option<Cid>, Error>)
    requires
        old(walk).wf(),
        store.wf(),
        old(cache).wf(),
        cache_valid(old(cache), store@),
        walk_inv(store@, rset, old(walk).fseq(), old(walk).vset()),
        u.finite(),
        old(walk).vset().finite(),
        old(walk).vset().subset_of(u),
        forall|i: int|
            0 <= i < old(walk).fseq().len() ==> u.contains(#[trigger] old(walk).fseq()[i]),
        forall|a: CidData, b: CidData| #[trigger] linked(store@, a, b) ==> u.contains(b),
        forall|c: CidData| #[trigger] rset.contains(c) ==> u.contains(c),
        // an optional block of unvisited CIDs known to sit at the front
        // of a breadth-first frontier
        head.len() > 0 ==> old(walk).breadth_first && head.len() <= old(walk).fseq().len()
            && old(walk).fseq().take(head.len() as int) == head && (forall|j: int|
            0 <= j < head.len() ==> !old(walk).vset().contains(#[trigger] head[j])),
    ensures
        final(walk).wf(),
        final(cache).wf(),
        cache_valid(final(cache), store@),
        final(walk).breadth_first == old(walk).breadth_first,
        r is Ok ==> walk_inv(store@, rset, final(walk).fseq(), final(walk).vset())
            && final(walk).vset().finite() && final(walk).vset().subset_of(u) && (forall|i: int|
            0 <= i < final(walk).fseq().len() ==> u.contains(#[trigger] final(walk).fseq()[i])),
        match r {
            Ok(opt) => match opt {
                None => final(walk).vset() == old(walk).vset() && (forall|c: CidData|
                    #[trigger] final(walk).vset().contains(c) <==> reachable_from(
                        store@,
                        rset,
                        c,
                    )),
                Some(cid) => {
                    &&& cid.wf()
                    &&& !old(walk).vset().contains(cid@)
                    &&& final(walk).vset() == old(walk).vset().insert(cid@)
                    &&& final(walk).vset().len() == old(walk).vset().len() + 1
                    &&& store@.dom().contains(cid@)
                    &&& block_refs(cid@, store@[cid@]) is Some
                    &&& reachable_from(store@, rset, cid@)
                    &&& (old(walk).vset() == Set::<CidData>::empty() && old(walk).fseq().len() > 0
                        ==> cid@ == old(walk).fseq()[0])
                    // the first of the unvisited head block is yielded and,
                    // breadth first, the remainder stay at the front
                    &&& head.len() > 0 ==> cid@ == head[0]
                        && head.len() - 1 <= final(walk).fseq().len()
                        && final(walk).fseq().take(head.len() - 1) == head.skip(1)
                },
            },
            Err(e) => match e {
                Error::BlockStoreError(BlockStoreError::CIDNotFound(c)) => reachable_from(
                    store@,
                    rset,
                    c@,
                ) && !store@.dom().contains(c@),
                Error::UnsupportedCodec { .. } | Error::ParsingError => exists|c: CidData|
                    reachable_from(store@, rset, c) && #[trigger] store@.dom().contains(c)
                        && block_refs(c, store@[c]) is None,
                _ => false,
            },
        },
{
    let ghost m = store@;
    let ghost f_pre = walk.fseq();
    let ghost v_pre = walk.vset();
    match walk.next(store, cache) {
        Err(e) => {
            proof {
                let c = choose|c: CidData|
                    #[trigger] f_pre.contains(c) && m.dom().contains(c) && block_refs(
                        c,
                        m[c],
                    ) is None;
                let i = choose|i: int| 0 <= i < f_pre.len() && f_pre[i] == c;
                assert(reachable_from(m, rset, f_pre[i]));
            }
            Err(
                match e {
                    Error::UnsupportedCodec { cid } => Error::UnsupportedCodec { cid },
                    _ => Error::ParsingError,
                },
            )
        },
        Ok(None) => {
            proof {
                lemma_walk_finish(m, rset, walk.fseq(), walk.vset());
            }
            Ok(None)
        },
        Ok(Some(item)) => {
            let ghost c = item.spec_cid();
            proof {
                lemma_walk_step(m, rset, f_pre, v_pre, walk.fseq(), walk.vset(), c, item.is_have());
                assert(u.contains(c)) by {
                    let idx = choose|idx: int| 0 <= idx < f_pre.len() && f_pre[idx] == c;
                    assert(u.contains(f_pre[idx]));
                }
                crate::dag::lemma_subset_len(walk.vset(), u);
                assert forall|i: int| 0 <= i < walk.fseq().len() implies u.contains(
                    #[trigger] walk.fseq()[i],
                ) by {
                    let x = walk.fseq()[i];
                    assert(reachable_from(m, rset, x));
                    lemma_reachable_closed(m, rset, u, x);
                }
                let idx = choose|idx: int|
                    {
                        &&& 0 <= idx < f_pre.len()
                        &&& f_pre[idx] == c
                        &&& (forall|j: int|
                            0 <= j < idx ==> v_pre.contains(#[trigger] f_pre[j]))
                        &&& if item.is_have() {
                            block_refs(c, m[c]) matches Some(refs) && walk.fseq() == (
                            if walk.breadth_first {
                                #[trigger] f_pre.subrange(idx + 1, f_pre.len() as int)
                                    + seq_minus(refs, walk.vset())
                            } else {
                                seq_minus(refs, walk.vset()) + f_pre.subrange(
                                    idx + 1,
                                    f_pre.len() as int,
                                )
                            })
                        } else {
                            walk.fseq() == #[trigger] f_pre.subrange(
                                idx + 1,
                                f_pre.len() as int,
                            )
                        }
                    };
                if v_pre == Set::<CidData>::empty() && f_pre.len() > 0 {
                    if idx > 0 {
                        assert(v_pre.contains(f_pre[0]));
                    }
                    assert(idx == 0);
                    assert(c == f_pre[0]);
                }
                if head.len() > 0 {
                    let k = head.len() as int;
                    if idx > 0 {
                        assert(f_pre.take(k)[0] == f_pre[0]);
                        assert(head[0] == f_pre[0]);
                        assert(!v_pre.contains(f_pre[0]));
                        assert(v_pre.contains(f_pre[0]));
                    }
                    assert(idx == 0);
                    assert(f_pre.take(k)[0] == f_pre[0]);
                    assert(c == head[0]);
                    let rest = f_pre.subrange(1, f_pre.len() as int);
                    let tail = walk.fseq().take(k - 1);
                    if item.is_have() {
                        let refs = block_refs(c, m[c]).unwrap();
                        assert(walk.fseq() == rest + seq_minus(refs, walk.vset()));
                    } else {
                        assert(walk.fseq() == rest);
                    }
                    assert(tail =~= head.skip(1)) by {
                        assert forall|t: int| 0 <= t < k - 1 implies tail[t] == head.skip(1)[t] by {
                            assert(tail[t] == walk.fseq()[t]);
                            assert(walk.fseq()[t] == rest[t]);
                            assert(rest[t] == f_pre[1 + t]);
                            assert(f_pre.take(k)[1 + t] == f_pre[1 + t]);
                            assert(head[1 + t] == f_pre[1 + t]);
                        }
                    }
                }
            }
            match item.to_cid() {
                Ok(cid) => Ok(Some(cid)),
                Err(e) => Err(e),
            }
        },
    }
}

/// While duplicate-free roots remain to be collected, the block of
/// remaining roots at the front of the frontier is entirely unvisited.
proof fn lemma_roots_prefix_unvisited(
    rseq: Seq<CidData>,
    pre: Seq<CidData>,
    f_pre: Seq<CidData>,
    v_pre: Set<CidData>,
)
    requires
        rseq.no_duplicates(),
        pre.len() < rseq.len(),
        pre == rseq.take(pre.len() as int),
        rseq.len() - pre.len() <= f_pre.len(),
        f_pre.take(rseq.len() - pre.len()) == rseq.skip(pre.len() as int),
        forall|x: CidData| pre.contains(x) <==> v_pre.contains(x),
    ensures
        forall|j: int|
            0 <= j < rseq.skip(pre.len() as int).len() ==> !v_pre.contains(
                #[trigger] rseq.skip(pre.len() as int)[j],
            ),
{
    let cnt = pre.len() as int;
    assert forall|j: int| 0 <= j < rseq.skip(cnt).len() implies !v_pre.contains(
        #[trigger] rseq.skip(cnt)[j],
    ) by {
        assert(rseq.skip(cnt)[j] == rseq[cnt + j]);
        if v_pre.contains(rseq[cnt + j]) {
            assert(pre.contains(rseq[cnt + j]));
            let w = choose|w: int| 0 <= w < pre.len() && pre[w] == rseq[cnt + j];
            assert(rseq.take(cnt)[w] == rseq[cnt + j]);
            assert(rseq[w] == rseq[cnt + j]);
        }
    }
}

/// One collected step under a duplicate-free root prefix: the next
/// collected CID is the next root, and the remaining roots stay a
/// prefix of the frontier.
proof fn lemma_roots_prefix_step(
    rseq: Seq<CidData>,
    pre: Seq<CidData>,
    f_new: Seq<CidData>,
    c: CidData,
)
    requires
        rseq.no_duplicates(),
        pre.len() < rseq.len(),
        pre == rseq.take(pre.len() as int),
        c == rseq.skip(pre.len() as int)[0],
        rseq.skip(pre.len() as int).len() - 1 <= f_new.len(),
        f_new.take(rseq.skip(pre.len() as int).len() - 1) == rseq.skip(pre.len() as int).skip(1),
    ensures
        c == rseq[pre.len() as int],
        pre.push(c) == rseq.take(pre.len() as int + 1),
        pre.len() + 1 < rseq.len() ==> rseq.len() - (pre.len() + 1) <= f_new.len()
            && f_new.take(rseq.len() - (pre.len() + 1)) == rseq.skip(pre.len() as int + 1),
        pre.len() + 1 == rseq.len() ==> pre.push(c).take(rseq.len() as int) == rseq,
{
    let cnt = pre.len() as int;
    assert(c == rseq[cnt]);
    assert(pre.push(c) =~= rseq.take(cnt + 1)) by {
        assert forall|t: int| 0 <= t < cnt + 1 implies #[trigger] pre.push(c)[t] == rseq.take(
            cnt + 1,
        )[t] by {
            if t < cnt {
                assert(pre[t] == rseq.take(cnt)[t]);
            }
        }
    }
    assert(rseq.skip(cnt).skip(1) =~= rseq.skip(cnt + 1));
    if cnt + 1 < rseq.len() {
        assert(f_new.take(rseq.len() - (cnt + 1)) == rseq.skip(cnt + 1));
    } else {
        assert(pre.push(c).take(rseq.len() as int) =~= rseq);
    }
}

/// Pushing beyond the root prefix leaves the prefix alone.
proof fn lemma_roots_prefix_stable(rseq: Seq<CidData>, pre: Seq<CidData>, c: CidData)
    requires
        pre.len() >= rseq.len(),
        pre.take(rseq.len() as int) == rseq,
    ensures
        pre.push(c).take(rseq.len() as int) == rseq,
{
    assert(pre.push(c).take(rseq.len() as int) =~= rseq) by {
        assert forall|t: int| 0 <= t < rseq.len() implies #[trigger] pre.push(c).take(
            rseq.len() as int,
        )[t] == rseq[t] by {
            assert(pre.push(c)[t] == pre[t]);
            assert(pre.take(rseq.len() as int)[t] == pre[t]);
        }
    }
}

/// Run a breadth-first walk from `roots` to completion and collect every
/// traversed CID in visit order.
///
/// On success every reachable CID was traversed exactly once, its block
/// was present, and its block parsed for links; the first collected CID
/// is the first root. Fails with the missing CID when a reachable block
/// is absent, and with a parse failure when a reachable block cannot be
/// read for links.
#[verifier::rlimit(100)]
#[verifier::spinoff_prover]
pub fn collect_reachable<C: Cache>(
    roots: Vec<Cid>,
    store: &MemoryBlockStore,
    cache: &mut C,
) -> (r: Result<Vec<Cid>, Error>)
    requires
        cids_wf(cids_view(roots@)),
        store.wf(),
        old(cache).wf(),
        cache_valid(old(cache), store@),
    ensures
        final(cache).wf(),
        cache_valid(final(cache), store@),
        match r {
            Ok(v) => {
                &&& cids_wf(cids_view(v@))
                &&& cids_view(v@).no_duplicates()
                &&& forall|c: CidData|
                    #[trigger] cids_view(v@).contains(c) <==> reachable_from(
                        store@,
                        cids_view(roots@).to_set(),
                        c,
                    )
                &&& forall|c: CidData|
                    #[trigger] cids_view(v@).contains(c) ==> store@.dom().contains(c)
                        && block_refs(c, store@[c]) is Some
                &&& roots@.len() > 0 ==> v@.len() > 0 && cids_view(v@)[0] == cids_view(roots@)[0]
                &&& cids_view(roots@).no_duplicates() ==> v@.len() >= roots@.len() && cids_view(
                    v@,
                ).take(roots@.len() as int) == cids_view(roots@)
            },
            Err(e) => match e {
                Error::BlockStoreError(BlockStoreError::CIDNotFound(c)) => reachable_from(
                    store@,
                    cids_view(roots@).to_set(),
                    c@,
                ) && !store@.dom().contains(c@),
                Error::UnsupportedCodec { .. } | Error::ParsingError => exists|c: CidData|
                    reachable_from(store@, cids_view(roots@).to_set(), c)
                        && #[trigger] store@.dom().contains(c) && block_refs(c, store@[c]) is None,
                _ => false,
            },
        },
{
    let ghost m = store@;
    let ghost rseq = cids_view(roots@);
    let ghost rset = rseq.to_set();
    let mut walk = DagWalk::breadth_first(roots);
    let ghost u: Set<CidData>;
    proof {
        store.lemma_dom_finite();
        vstd::seq_lib::seq_to_set_is_finite::<CidData>(rseq);
        u = crate::dag::lemma_walk_universe(m, rset);
        lemma_walk_inv_init(m, walk.fseq());
        assert(walk.fseq().to_set() == rset);
        assert(walk.vset() == Set::<CidData>::empty());
        assert forall|i: int| 0 <= i < walk.fseq().len() implies u.contains(
            #[trigger] walk.fseq()[i],
        ) by {
            assert(rset.contains(walk.fseq()[i]));
        }
        crate::dag::lemma_subset_len(walk.vset(), u);
    }
    let mut collected: Vec<Cid> = Vec::new();
    proof {
        if rseq.no_duplicates() {
            assert(cids_view(collected@) =~= rseq.take(0));
            assert(rseq.skip(0) =~= rseq);
            assert(walk.fseq().take(rseq.len() as int) =~= rseq);
            if rseq.len() == 0 {
                assert(cids_view(collected@).take(0) =~= rseq);
            }
        }
    }
    loop
        invariant
            walk.wf(),
            store.wf(),
            cache.wf(),
            cache_valid(cache, store@),
            m == store@,
            rseq == cids_view(roots@),
            rset == rseq.to_set(),
            walk_inv(m, rset, walk.fseq(), walk.vset()),
            u.finite(),
            walk.vset().finite(),
            walk.vset().subset_of(u),
            forall|i: int| 0 <= i < walk.fseq().len() ==> u.contains(#[trigger] walk.fseq()[i]),
            forall|a: CidData, b: CidData| #[trigger] linked(m, a, b) ==> u.contains(b),
            forall|c: CidData| #[trigger] rset.contains(c) ==> u.contains(c),
            cids_wf(cids_view(collected@)),
            cids_view(collected@).no_duplicates(),
            forall|c: CidData|
                #[trigger] cids_view(collected@).contains(c) <==> walk.vset().contains(c),
            forall|c: CidData|
                #[trigger] walk.vset().contains(c) ==> m.dom().contains(c) && block_refs(
                    c,
                    m[c],
                ) is Some,
            walk.breadth_first,
            collected@.len() == 0 ==> walk.vset() == Set::<CidData>::empty() && walk.fseq() == rseq,
            collected@.len() > 0 && rseq.len() > 0 ==> cids_view(collected@)[0] == rseq[0],
            rseq.no_duplicates() && collected@.len() < rseq.len() ==> cids_view(collected@)
                == rseq.take(collected@.len() as int) && rseq.len() - collected@.len()
                <= walk.fseq().len() && walk.fseq().take(
                rseq.len() - collected@.len(),
            ) == rseq.skip(collected@.len() as int),
            rseq.no_duplicates() && collected@.len() >= rseq.len() ==> cids_view(collected@).take(
                rseq.len() as int,
            ) == rseq,
        decreases u.len() - walk.vset().len(),
    {
        let ghost v_pre = walk.vset();
        let ghost f_pre = walk.fseq();
        let ghost head: Seq<CidData> = if rseq.no_duplicates() && cids_view(collected@).len()
            < rseq.len() {
            rseq.skip(cids_view(collected@).len() as int)
        } else {
            Seq::empty()
        };
        proof {
            if head.len() > 0 {
                lemma_roots_prefix_unvisited(
                    rseq,
                    cids_view(collected@),
                    f_pre,
                    v_pre,
                );
            }
        }
        match walk_step_collect(&mut walk, store, cache, Ghost(rset), Ghost(u), Ghost(head)) {
            Err(e) => {
                return Err(e);
            },
            Ok(None) => {
                proof {
                    if rseq.len() > 0 {
                        assert(rset.contains(rseq[0]));
                        assert(walk.vset().contains(rseq[0])) by {
                            crate::dag::lemma_reachable_root(m, rset, rseq[0]);
                        }
                        assert(cids_view(collected@).contains(rseq[0]));
                        assert(collected@.len() > 0);
                    }
                    if rseq.no_duplicates() && collected@.len() < rseq.len() {
                        let cnt = collected@.len() as int;
                        assert(rseq.contains(rseq[cnt]));
                        assert(rset.contains(rseq[cnt]));
                        assert(walk.vset().contains(rseq[cnt])) by {
                            crate::dag::lemma_reachable_root(m, rset, rseq[cnt]);
                        }
                        assert(cids_view(collected@).contains(rseq[cnt]));
                        let w = choose|w: int|
                            0 <= w < cids_view(collected@).len() && cids_view(collected@)[w]
                                == rseq[cnt];
                        assert(rseq.take(cnt)[w] == rseq[cnt]);
                        assert(rseq[w] == rseq[cnt]);
                    }
                }
                return Ok(collected);
            },
            Ok(Some(cid)) => {
                let ghost c = cid@;
                let ghost pre = cids_view(collected@);
                let ghost f_walk = walk.fseq();
                proof {
                    if rseq.no_duplicates() {
                        if pre.len() < rseq.len() {
                            lemma_roots_prefix_step(rseq, pre, f_walk, c);
                        } else {
                            lemma_roots_prefix_stable(rseq, pre, c);
                        }
                    }
                }
                collected.push(cid);
                proof {
                    crate::dag::lemma_subset_len(walk.vset(), u);
                    assert(cids_view(collected@) =~= pre.push(c));
                    assert(!pre.contains(c)) by {
                        if pre.contains(c) {
                            assert(v_pre.contains(c));
                        }
                    }
                    assert forall|x: CidData| #[trigger] cids_view(collected@).contains(x) implies
                        walk.vset().contains(x) by {
                        let i = choose|i: int|
                            0 <= i < cids_view(collected@).len() && cids_view(collected@)[i] == x;
                        if i < pre.len() {
                            assert(pre[i] == x);
                            assert(pre.contains(x));
                            assert(v_pre.contains(x));
                        } else {
                            assert(cids_view(collected@)[i] == c);
                        }
                    }
                    assert forall|x: CidData| walk.vset().contains(x) implies #[trigger] cids_view(
                        collected@,
                    ).contains(x) by {
                        if x == c {
                            assert(cids_view(collected@)[pre.len() as int] == c);
                        } else {
                            assert(pre.contains(x));
                            let i = choose|i: int| 0 <= i < pre.len() && pre[i] == x;
                            assert(cids_view(collected@)[i] == x);
                        }
                    }
                    assert(cids_view(collected@)[0] == pre.push(c)[0]);
                }
            },
        }
    }
}

} // verus!