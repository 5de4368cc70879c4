//! Incremental verification of a DAG against its roots.
//!
//! The receiver partitions the CIDs it knows to be relevant into `want`
//! (needed, not yet local) and `have` (local). A block is stored only
//! when it is wanted and its bytes hash to the digest its CID carries;
//! each accepted block may reveal further wants. The two sets always
//! characterize reachability from the roots: `want` holds exactly the
//! reachable CIDs whose block is absent, `have` exactly the reachable
//! CIDs whose block is present.

use vstd::prelude::*;
use vstd::seq_lib::seq_to_set_is_finite;
use crate::cache::{Cache, cache_valid};
use crate::cid::{Cid, CidData, cid_wf};
use crate::cid_set::CidSet;
use crate::dag::{
    reachable_from, lemma_reachable_root, lemma_reachable_closed, lemma_reachable_trans,
    lemma_reachable_monotone, lemma_reachable_insert_split, lemma_walk_universe,
    lemma_subset_len, linked, map_extends,
};
use crate::dag_walk::{DagWalk, TraversedItem, walk_inv, lemma_walk_inv_init, lemma_walk_step,
    lemma_walk_finish};
use crate::error::{Error, IncrementalVerificationError};
use crate::hashing::{digest_of, compute_digest, bytes_eq};
use crate::references::{cids_view, cids_wf};
use crate::messages::ReceiverState;
use crate::store::MemoryBlockStore;

verus! {

/// The state of a CID during a protocol run.
#[derive(Clone, Debug, PartialEq, Eq)]
pub enum BlockState {
    /// The block is already stored.
    Have,
    /// The block is known to be needed.
    Want,
    /// It is not known whether the block is needed.
    Unexpected,
}

/// State of an incremental DAG verification run.
pub struct IncrementalDagVerification {
    /// The CIDs known to be needed and not yet stored.
    pub want_cids: CidSet,
    /// The CIDs known to be needed and already stored.
    pub have_cids: CidSet,
    /// The roots the verification started from.
    pub roots: Ghost<Set<CidData>>,
}

impl IncrementalDagVerification {
    /// Both sets are well-formed.
    pub open spec fn wf(&self) -> bool {
        &&& self.want_cids.wf()
        &&& self.have_cids.wf()
    }

    /// The two sets characterize the store `m` exactly: `want` holds the
    /// reachable-but-absent CIDs, `have` the reachable-and-present ones.
    /// They are disjoint by construction.
    pub open spec fn valid(&self, m: Map<CidData, Seq<u8>>) -> bool {
        &&& self.wf()
        &&& forall|c: CidData|
            #[trigger] self.want_cids@.contains(c) <==> reachable_from(m, self.roots@, c)
                && !m.dom().contains(c)
        &&& forall|c: CidData|
            #[trigger] self.have_cids@.contains(c) <==> reachable_from(m, self.roots@, c)
                && m.dom().contains(c)
    }

    /// Initiate incremental DAG verification of the given roots.
    ///
    /// This already runs a traversal to find missing subgraphs and CIDs
    /// that are present.
    pub fn new<C: Cache>(
        roots: Vec<Cid>,
        store: &MemoryBlockStore,
        cache: &mut C,
    ) -> (r: Result<IncrementalDagVerification, Error>)
        requires
            cids_wf(cids_view(roots@)),
            store.wf(),
            old(cache).wf(),
            cache_valid(old(cache), store@),
        ensures
            final(cache).wf(),
            cache_valid(final(cache), store@),
            match r {
                Ok(v) => v.valid(store@) && v.roots@ == cids_view(roots@).to_set() && (forall|
                    c: CidData,
                |
                    reachable_from(store@, cids_view(roots@).to_set(), c)
                        && #[trigger] store@.dom().contains(c)
                        ==> crate::references::block_refs(c, store@[c]) is Some),
                Err(e) => (e matches Error::UnsupportedCodec { .. } || e
                    matches Error::ParsingError) && (exists|c: CidData|
                    reachable_from(store@, cids_view(roots@).to_set(), c)
                        && #[trigger] store@.dom().contains(c)
                        && crate::references::block_refs(c, store@[c]) is None),
            },
    {
        let ghost rset = cids_view(roots@).to_set();
        let mut want = CidSet::new();
        let mut i: usize = 0;
        while i < roots.len()
            invariant
                cids_wf(cids_view(roots@)),
                0 <= i <= roots@.len(),
                want.wf(),
                want@ =~= cids_view(roots@).subrange(0, i as int).to_set(),
            decreases roots@.len() - i,
        {
            proof {
                assert(cids_view(roots@)[i as int] == roots@[i as int]@);
                assert(cids_view(roots@).subrange(0, i + 1).drop_last() =~= cids_view(
                    roots@,
                ).subrange(0, i as int));
                assert(cids_view(roots@).subrange(0, i + 1).last() == roots@[i as int]@);
                let s = cids_view(roots@).subrange(0, i + 1);
                assert(s.to_set() =~= s.drop_last().to_set().insert(s.last())) by {
                    assert forall|x: CidData| s.to_set().contains(x) implies s.drop_last().to_set().insert(
                        s.last(),
                    ).contains(x) by {
                        let j = choose|j: int| 0 <= j < s.len() && s[j] == x;
                        if j < s.len() - 1 {
                            assert(s.drop_last()[j] == x);
                        }
                    }
                    assert forall|x: CidData| s.drop_last().to_set().insert(s.last()).contains(x)
                        implies s.to_set().contains(x) by {
                        if s.drop_last().to_set().contains(x) {
                            let j = choose|j: int|
                                0 <= j < s.drop_last().len() && s.drop_last()[j] == x;
                            assert(s[j] == x);
                        } else {
                            assert(s[s.len() - 1] == x);
                        }
                    }
                }
            }
            let c = roots[i].clone();
            assert(cid_wf(c@));
            want.insert(c);
            i += 1;
        }
        proof {
            assert(cids_view(roots@).subrange(0, roots@.len() as int) =~= cids_view(roots@));
        }
        let mut this = IncrementalDagVerification {
            want_cids: want,
            have_cids: CidSet::new(),
            roots: Ghost(rset),
        };
        match this.update_have_cids(store, cache) {
            Ok(()) => {
                proof {
                    assert forall|c: CidData| #[trigger] this.want_cids@.contains(c) implies
                        reachable_from(store@, rset, c) && !store@.dom().contains(c) by {}
                    assert forall|c: CidData|
                        reachable_from(store@, rset, c) && !store@.dom().contains(c) implies
                        this.want_cids@.contains(c) by {}
                }
                Ok(this)
            },
            Err(e) => {
                proof {
                    let c = choose|c: CidData|
                        reachable_from(store@, rset, c) && #[trigger] store@.dom().contains(c)
                            && crate::references::block_refs(c, store@[c]) is None;
                }
                Err(e)
            },
        }
    }

    /// Update the state by walking from every wanted CID: wants found
    /// present move to `have`, and newly revealed missing links join
    /// `want`.
    ///
    /// On success, `want` holds exactly what is reachable from the old
    /// wants but absent, and `have` has grown by exactly what is
    /// reachable from the old wants and present.
    pub fn update_have_cids<C: Cache>(
        &mut self,
        store: &MemoryBlockStore,
        cache: &mut C,
    ) -> (r: Result<(), Error>)
        requires
            old(self).wf(),
            store.wf(),
            old(cache).wf(),
            cache_valid(old(cache), store@),
            forall|c: CidData| old(self).have_cids@.contains(c) ==> store@.dom().contains(c),
        ensures
            final(self).wf(),
            final(cache).wf(),
            cache_valid(final(cache), store@),
            final(self).roots == old(self).roots,
            match r {
                Ok(()) => {
                    &&& forall|c: CidData|
                        #[trigger] final(self).want_cids@.contains(c) <==> reachable_from(
                            store@,
                            old(self).want_cids@,
                            c,
                        ) && !store@.dom().contains(c)
                    &&& forall|c: CidData|
                        #[trigger] final(self).have_cids@.contains(c) <==> old(
                            self,
                        ).have_cids@.contains(c) || (reachable_from(store@, old(self).want_cids@, c)
                            && store@.dom().contains(c))
                    &&& forall|c: CidData|
                        reachable_from(store@, old(self).want_cids@, c)
                            && #[trigger] store@.dom().contains(c)
                            ==> crate::references::block_refs(c, store@[c]) is Some
                },
                Err(e) => (e matches Error::UnsupportedCodec { .. } || e
                    matches Error::ParsingError) && (exists|c: CidData|
                    reachable_from(store@, old(self).want_cids@, c)
                        && #[trigger] store@.dom().contains(c)
                        && crate::references::block_refs(c, store@[c]) is None),
            },
    {
        let ghost m = store@;
        let ghost w = old(self).want_cids@;
        let ghost h0 = old(self).have_cids@;
        let roots_vec = self.want_cids.to_vec();
        proof {
            assert(cids_view(roots_vec@) == self.want_cids.seq());
            assert(cids_view(roots_vec@).to_set() == w);
            assert(cids_wf(cids_view(roots_vec@))) by {
                assert forall|i: int| 0 <= i < cids_view(roots_vec@).len() implies cid_wf(
                    #[trigger] cids_view(roots_vec@)[i],
                ) by {
                    assert(self.want_cids.seq()[i] == cids_view(roots_vec@)[i]);
                }
            }
        }
        let mut walk = DagWalk::breadth_first(roots_vec);
        let ghost u: Set<CidData>;
        proof {
            store.lemma_dom_finite();
            seq_to_set_is_finite(cids_view(roots_vec@));
            u = lemma_walk_universe(m, w);
            lemma_walk_inv_init(m, walk.fseq());
            assert forall|i: int| 0 <= i < walk.fseq().len() implies u.contains(
                #[trigger] walk.fseq()[i],
            ) by {
                assert(w.contains(walk.fseq()[i]));
            }
            lemma_subset_len(walk.vset(), u);
        }
        loop
            invariant
                walk.wf(),
                store.wf(),
                cache.wf(),
                cache_valid(cache, store@),
                m == store@,
                w == old(self).want_cids@,
                h0 == old(self).have_cids@,
                self.wf(),
                self.roots == old(self).roots,
                walk_inv(m, w, walk.fseq(), walk.vset()),
                u.finite(),
                walk.vset().finite(),
                walk.vset().subset_of(u),
                forall|i: int|
                    0 <= i < walk.fseq().len() ==> u.contains(#[trigger] walk.fseq()[i]),
                forall|a: CidData, b: CidData| #[trigger] linked(m, a, b) ==> u.contains(b),
                forall|c: CidData| #[trigger] w.contains(c) ==> u.contains(c),
                forall|c: CidData|
                    #[trigger] self.have_cids@.contains(c) <==> h0.contains(c) || (
                    walk.vset().contains(c) && m.dom().contains(c)),
                forall|c: CidData|
                    #[trigger] self.want_cids@.contains(c) <==> ((w.contains(c) || (
                    walk.vset().contains(c) && !m.dom().contains(c))) && !(walk.vset().contains(c)
                        && m.dom().contains(c))),
                forall|c: CidData| h0.contains(c) ==> m.dom().contains(c),
                forall|c: CidData|
                    #[trigger] walk.vset().contains(c) && m.dom().contains(c)
                        ==> crate::references::block_refs(c, m[c]) is Some,
            decreases u.len() - walk.vset().len(),
        {
            let ghost f_pre = walk.fseq();
            let ghost v_pre = walk.vset();
            match walk.next(store, cache) {
                Err(e) => {
                    proof {
                        let c = choose|c: CidData|
                            #[trigger] f_pre.contains(c) && m.dom().contains(c)
                                && crate::references::block_refs(c, m[c]) is None;
                        let i = choose|i: int| 0 <= i < f_pre.len() && f_pre[i] == c;
                        assert(reachable_from(m, w, f_pre[i]));
                    }
                    return Err(e);
                },
                Ok(None) => {
                    proof {
                        lemma_walk_finish(m, w, walk.fseq(), walk.vset());
                        assert forall|c: CidData| #[trigger] self.want_cids@.contains(c) implies
                            reachable_from(m, w, c) && !m.dom().contains(c) by {
                            if w.contains(c) && !(walk.vset().contains(c) && m.dom().contains(c)) {
                                lemma_reachable_root(m, w, c);
                                if m.dom().contains(c) {
                                    assert(walk.vset().contains(c));
                                }
                            }
                        }
                        assert forall|c: CidData|
                            reachable_from(m, w, c) && !m.dom().contains(c) implies #[trigger] self.want_cids@.contains(
                            c,
                        ) by {
                            assert(walk.vset().contains(c));
                        }
                        assert forall|c: CidData| #[trigger] self.have_cids@.contains(c) implies
                            h0.contains(c) || (reachable_from(m, w, c) && m.dom().contains(c)) by {
                            if !h0.contains(c) {
                                assert(walk.vset().contains(c));
                            }
                        }
                        assert forall|c: CidData|
                            h0.contains(c) || (reachable_from(m, w, c) && m.dom().contains(c))
                            implies #[trigger] self.have_cids@.contains(c) by {
                            if !h0.contains(c) {
                                assert(walk.vset().contains(c));
                            }
                        }
                        assert forall|c: CidData|
                            reachable_from(m, w, c) && #[trigger] m.dom().contains(c) implies
                            crate::references::block_refs(c, m[c]) is Some by {
                            assert(walk.vset().contains(c));
                        }
                    }
                    return Ok(());
                },
                Ok(Some(item)) => {
                    let ghost c = item.spec_cid();
                    proof {
                        lemma_walk_step(
                            m,
                            w,
                            f_pre,
                            v_pre,
                            walk.fseq(),
                            walk.vset(),
                            c,
                            item.is_have(),
                        );
                        assert(u.contains(c)) by {
                            let idx = choose|idx: int|
                                0 <= idx < f_pre.len() && f_pre[idx] == c;
                            assert(u.contains(f_pre[idx]));
                        }
                        lemma_subset_len(walk.vset(), u);
                        assert(walk.vset().len() == v_pre.len() + 1);
                        assert forall|i: int| 0 <= i < walk.fseq().len() implies u.contains(
                            #[trigger] walk.fseq()[i],
                        ) by {
                            let x = walk.fseq()[i];
                            assert(reachable_from(m, w, x));
                            if walk.fseq().contains(x) {
                            }
                            // x is either an old frontier element or a link target
                            assert(u.contains(x)) by {
                                lemma_reachable_closed(m, w, u, x);
                            }
                        }
                    }
                    match item {
                        TraversedItem::Have(cid) => {
                            self.want_cids.remove(&cid);
                            self.have_cids.insert(cid);
                        },
                        TraversedItem::Missing(cid) => {
                            proof {
                                assert(!m.dom().contains(c));
                                assert(!self.have_cids@.contains(c));
                            }
                            self.want_cids.insert(cid);
                        },
                    }
                },
            }
        }
    }

    /// The state of a CID: wanted, had, or unexpected.
    pub fn block_state(&self, cid: &Cid) -> (r: BlockState)
        requires
            self.wf(),
        ensures
            r == BlockState::Want <==> self.want_cids@.contains(cid@),
            r == BlockState::Have <==> !self.want_cids@.contains(cid@)
                && self.have_cids@.contains(cid@),
            r == BlockState::Unexpected <==> !self.want_cids@.contains(cid@)
                && !self.have_cids@.contains(cid@),
    {
        if self.want_cids.contains(cid) {
            BlockState::Want
        } else if self.have_cids.contains(cid) {
            BlockState::Have
        } else {
            BlockState::Unexpected
        }
    }

    /// Verify a block against its CID and store it.
    ///
    /// The block must currently be wanted, its CID's hash algorithm must
    /// be known, and its bytes must hash to the digest the CID carries;
    /// then the block is written to the store and the state refreshed.
    /// The two sets again characterize the grown store afterwards, so the
    /// write happened under a CID that was reachable but absent.
    pub fn verify_and_store_block<C: Cache>(
        &mut self,
        cid: Cid,
        bytes: Vec<u8>,
        store: &mut MemoryBlockStore,
        cache: &mut C,
    ) -> (r: Result<(), Error>)
        requires
            cid.wf(),
            crate::store::block_len_ok(bytes@.len() as int),
            old(self).valid(old(store)@),
            old(store).wf(),
            old(cache).wf(),
            cache_valid(old(cache), old(store)@),
        ensures
            final(self).wf(),
            final(store).wf(),
            final(cache).wf(),
            final(self).roots == old(self).roots,
            // whatever the outcome, cached references still agree with
            // the store as the call left it
            cache_valid(final(cache), final(store)@),
            match r {
                Ok(()) => {
                    &&& digest_of(cid@.multihash_code, bytes@) == Some(cid@.digest)
                    &&& old(self).want_cids@.contains(cid@)
                    &&& !old(store)@.dom().contains(cid@)
                    &&& final(store)@ == old(store)@.insert(cid@, bytes@)
                    &&& final(self).valid(final(store)@)
                    // everything newly reachable through the stored block
                    // was walked and found to parse
                    &&& forall|c: CidData|
                        reachable_from(final(store)@, old(self).want_cids@, c)
                            && #[trigger] final(store)@.dom().contains(c)
                            ==> crate::references::block_refs(c, final(store)@[c]) is Some
                },
                Err(e) => {
                    &&& match e {
                        Error::IncrementalVerificationError(
                            IncrementalVerificationError::ExpectedWantedBlock {
                                cid: c,
                                block_state: bs,
                            },
                        ) => c@ == cid@ && !old(self).want_cids@.contains(cid@) && (bs
                            == BlockState::Have <==> old(self).have_cids@.contains(cid@)) && (bs
                            == BlockState::Unexpected <==> !old(self).have_cids@.contains(cid@)),
                        Error::UnsupportedHashCode { cid: c } => c@ == cid@ && old(
                            self,
                        ).want_cids@.contains(cid@) && digest_of(cid@.multihash_code, bytes@)
                            is None,
                        Error::IncrementalVerificationError(
                            IncrementalVerificationError::DigestMismatch { cid: c, actual_cid },
                        ) => c@ == cid@ && old(self).want_cids@.contains(cid@) && (digest_of(
                            cid@.multihash_code,
                            bytes@,
                        ) matches Some(d) && d != cid@.digest && actual_cid@.version == 1
                            && actual_cid@.codec == cid@.codec && actual_cid@.multihash_code
                            == cid@.multihash_code && actual_cid@.digest == d),
                        Error::UnsupportedCodec { .. } => true,
                        Error::ParsingError => true,
                        _ => false,
                    }
                    &&& match e {
                        Error::IncrementalVerificationError(..) | Error::UnsupportedHashCode {
                            ..
                        } => final(store)@ == old(store)@ && *final(self) == *old(self),
                        Error::UnsupportedCodec { .. } | Error::ParsingError => final(store)@
                            == old(store)@.insert(cid@, bytes@) && digest_of(
                            cid@.multihash_code,
                            bytes@,
                        ) == Some(cid@.digest) && old(self).want_cids@.contains(cid@)
                            && !old(store)@.dom().contains(cid@) && (exists|c: CidData|
                            reachable_from(final(store)@, old(self).want_cids@, c)
                                && #[trigger] final(store)@.dom().contains(c)
                                && crate::references::block_refs(c, final(store)@[c]) is None),
                        _ => true,
                    }
                },
            },
    {
        let state = self.block_state(&cid);
        match state {
            BlockState::Want => {},
            _ => {
                return Err(
                    Error::IncrementalVerificationError(
                        IncrementalVerificationError::ExpectedWantedBlock {
                            cid,
                            block_state: state,
                        },
                    ),
                );
            },
        }
        let digest = match compute_digest(cid.multihash_code, bytes.as_slice()) {
            Some(d) => d,
            None => {
                return Err(Error::UnsupportedHashCode { cid });
            },
        };
        if !bytes_eq(digest.as_slice(), cid.digest.as_slice()) {
            let actual_cid = Cid::new_v1(cid.codec, cid.multihash_code, digest);
            return Err(
                Error::IncrementalVerificationError(
                    IncrementalVerificationError::DigestMismatch { cid, actual_cid },
                ),
            );
        }
        let ghost m = old(store)@;
        let ghost m2 = m.insert(cid@, bytes@);
        let ghost r = self.roots@;
        let ghost w = self.want_cids@;
        let ghost k = cid@;
        proof {
            assert(self.want_cids@.contains(k));
            assert(!m.dom().contains(k));
        }
        store.put_block_keyed(cid.clone(), bytes);
        proof {
            assert(store@ =~= m2);
            assert(map_extends(m2, m)) by {
                assert forall|x: CidData| m.dom().contains(x) implies #[trigger] m2.dom().contains(
                    x,
                ) && m2[x] == m[x] by {
                    assert(x != k);
                }
            }
            // Cached entries still agree with the grown store.
            assert forall|x: CidData|
                match #[trigger] cache.spec_get(x) {
                    Some(rs) => m2.dom().contains(x) && crate::references::block_refs(x, m2[x])
                        == Some(rs),
                    None => true,
                } by {
                if cache.spec_get(x) is Some {
                    assert(m.dom().contains(x));
                    assert(x != k);
                }
            }
            // The haves stay present in the grown store.
            assert forall|x: CidData| self.have_cids@.contains(x) implies m2.dom().contains(x) by {
                assert(m.dom().contains(x));
            }
        }
        let res = self.update_have_cids(store, cache);
        match res {
            Err(e) => Err(e),
            Ok(()) => {
                proof {
                    let hv = self.have_cids@;
                    let wv = self.want_cids@;
                    // Reachability in the grown store splits into old
                    // reachability and reachability from the stored want.
                    assert forall|x: CidData| #[trigger] wv.contains(x) implies reachable_from(
                        m2,
                        r,
                        x,
                    ) && !m2.dom().contains(x) by {
                        assert(reachable_from(m2, w, x));
                        assert forall|y: CidData| w.contains(y) implies reachable_from(m2, r, y) by {
                            lemma_reachable_monotone(m, m2, r, y);
                        }
                        lemma_reachable_trans(m2, r, w, x);
                    }
                    assert forall|x: CidData|
                        reachable_from(m2, r, x) && !m2.dom().contains(x) implies #[trigger] wv.contains(
                        x,
                    ) by {
                        lemma_reachable_insert_split(m, r, k, bytes@, x);
                        if reachable_from(m, r, x) {
                            assert(!m.dom().contains(x));
                            assert(w.contains(x));
                            lemma_reachable_root(m2, w, x);
                        } else {
                            assert(reachable_from(m2, Set::empty().insert(k), x));
                            assert forall|y: CidData| Set::empty().insert(k).contains(y) implies
                                reachable_from(m2, w, y) by {
                                lemma_reachable_root(m2, w, k);
                            }
                            lemma_reachable_trans(m2, w, Set::empty().insert(k), x);
                        }
                    }
                    assert forall|x: CidData| #[trigger] hv.contains(x) implies reachable_from(
                        m2,
                        r,
                        x,
                    ) && m2.dom().contains(x) by {
                        if old(self).have_cids@.contains(x) {
                            lemma_reachable_monotone(m, m2, r, x);
                            assert(m.dom().contains(x));
                        } else {
                            assert(reachable_from(m2, w, x));
                            assert forall|y: CidData| w.contains(y) implies reachable_from(m2, r, y) by {
                                lemma_reachable_monotone(m, m2, r, y);
                            }
                            lemma_reachable_trans(m2, r, w, x);
                        }
                    }
                    assert forall|x: CidData|
                        reachable_from(m2, r, x) && m2.dom().contains(x) implies #[trigger] hv.contains(
                        x,
                    ) by {
                        lemma_reachable_insert_split(m, r, k, bytes@, x);
                        if reachable_from(m, r, x) {
                            if m.dom().contains(x) {
                                assert(old(self).have_cids@.contains(x));
                            } else {
                                assert(w.contains(x));
                                lemma_reachable_root(m2, w, x);
                            }
                        } else {
                            assert(reachable_from(m2, Set::empty().insert(k), x));
                            assert forall|y: CidData| Set::empty().insert(k).contains(y) implies
                                reachable_from(m2, w, y) by {
                                lemma_reachable_root(m2, w, k);
                            }
                            lemma_reachable_trans(m2, w, Set::empty().insert(k), x);
                        }
                    }
                }
                Ok(())
            },
        }
    }
}

/// The inverse false-positive rate for a sketch of capacity `n`: one in
/// `max(base, factor * n)`, at least one in two, capped at the largest
/// wire-representable denominator.
pub open spec fn fpr_denominator(base: int, factor: int, n: int) -> int {
    let d0 = if factor * n > base {
        factor * n
    } else {
        base
    };
    let d1 = if d0 < 2 {
        2
    } else {
        d0
    };
    if d1 > u64::MAX {
        u64::MAX as int
    } else {
        d1
    }
}

impl IncrementalDagVerification {
    /// The receiver state this verification state denotes: the wants as
    /// the missing subgraph roots, and a bloom sketch of the haves sized
    /// for their count, or no sketch when there is nothing to sketch or
    /// nothing left to want.
    pub fn into_receiver_state(&self, fpr_base: u64, fpr_factor: u64) -> (r: ReceiverState)
        requires
            self.wf(),
        ensures
            r.wf(),
            cids_view(r.missing_subgraph_roots@) == self.want_cids.seq(),
            if self.have_cids.seq().len() == 0 || self.want_cids.seq().len() == 0 {
                r.have_cids_bloom is None
            } else {
                r.have_cids_bloom matches Some(b) && b.wf() && b.bytes@.len()
                    == crate::bloom::bloom_byte_size(
                    self.have_cids.seq().len() as int,
                    fpr_denominator(
                        fpr_base as int,
                        fpr_factor as int,
                        self.have_cids.seq().len() as int,
                    ),
                ) && b.hash_count as int == crate::bloom::bloom_hash_count(
                    self.have_cids.seq().len() as int,
                    b.bytes@.len() as int,
                ) && (forall|c: CidData|
                    self.have_cids@.contains(c) ==> b.spec_has(crate::cid::cid_bytes(c)))
            },
    {
        let missing_subgraph_roots = self.want_cids.to_vec();
        proof {
            assert(cids_view(missing_subgraph_roots@) == self.want_cids.seq());
            assert(cids_wf(cids_view(missing_subgraph_roots@))) by {
                assert forall|i: int|
                    0 <= i < cids_view(missing_subgraph_roots@).len() implies cid_wf(
                    #[trigger] cids_view(missing_subgraph_roots@)[i],
                ) by {
                    assert(self.want_cids.seq()[i] == cids_view(missing_subgraph_roots@)[i]);
                }
            }
        }
        let n = self.have_cids.len();
        if n == 0 || missing_subgraph_roots.len() == 0 {
            return ReceiverState { missing_subgraph_roots, have_cids_bloom: None };
        }
        proof {
            assert((fpr_factor as int) * (n as int) < 0x100000000000000000000000000000000int)
                by (nonlinear_arith)
                requires
                    0 <= fpr_factor <= 0xffff_ffff_ffff_ffffu64,
                    0 <= n <= 0xffff_ffff_ffff_ffffu64 as int,
            ;
        }
        let d128: u128 = (fpr_factor as u128) * (n as u128);
        let d0: u128 = if d128 > fpr_base as u128 {
            d128
        } else {
            fpr_base as u128
        };
        let d1: u128 = if d0 < 2 {
            2
        } else {
            d0
        };
        let d: u64 = if d1 > u64::MAX as u128 {
            u64::MAX
        } else {
            d1 as u64
        };
        proof {
            assert(d as int == fpr_denominator(fpr_base as int, fpr_factor as int, n as int));
        }
        let (num_bytes, k) = crate::bloom::bloom_params(n, d);
        let mut bloom = crate::bloom::Bloom::new_zero(k, num_bytes);
        let mut i: usize = 0;
        while i < n
            invariant
                self.wf(),
                n == self.have_cids.seq().len(),
                0 <= i <= n,
                bloom.wf(),
                bloom.hash_count == k,
                bloom.bytes@.len() == num_bytes,
                forall|j: int|
                    0 <= j < i ==> bloom.spec_has(
                        crate::cid::cid_bytes(#[trigger] self.have_cids.seq()[j]),
                    ),
            decreases n - i,
        {
            let item = self.have_cids.get(i).to_bytes();
            bloom.insert(item.as_slice());
            i += 1;
        }
        proof {
            assert forall|c: CidData| self.have_cids@.contains(c) implies bloom.spec_has(
                crate::cid::cid_bytes(c),
            ) by {
                let j = choose|j: int|
                    0 <= j < self.have_cids.seq().len() && self.have_cids.seq()[j] == c;
            }
        }
        ReceiverState { missing_subgraph_roots, have_cids_bloom: Some(bloom) }
    }
}

} // verus!
