//! An in-memory block store: an associative map from CID to block bytes.
//!
//! The engine borrows a store on both sides of the protocol. `put_keyed`
//! trusts the caller to have verified the block, and is the only write
//! path the engine uses for received data.

use vstd::prelude::*;
use crate::cid::{Cid, CidData, cid_wf};
use crate::hashing::{sha256_of, compute_digest};
use crate::cid::HASH_SHA2_256;

verus! {

/// Block byte strings the store accepts: small enough to frame and to
/// leave room for framing overhead on any machine.
pub open spec fn block_len_ok(n: int) -> bool {
    n < 0x1000000000000 && n <= usize::MAX - 200
}

/// The map a sequence of entries denotes; later entries would win, though
/// a well-formed store holds each key at most once.
pub open spec fn store_entries(s: Seq<(Cid, Vec<u8>)>) -> Map<CidData, Seq<u8>>
    decreases s.len(),
{
    if s.len() == 0 {
        Map::empty()
    } else {
        store_entries(s.drop_last()).insert(s.last().0@, s.last().1@)
    }
}

/// Each key occurs at most once.
pub open spec fn keys_distinct(s: Seq<(Cid, Vec<u8>)>) -> bool {
    forall|i: int, j: int| 0 <= i < j < s.len() ==> (#[trigger] s[i]).0@ != (#[trigger] s[j]).0@
}

/// An entry witnesses its key in the map, with its value when keys are
/// distinct.
proof fn lemma_entries_at(s: Seq<(Cid, Vec<u8>)>, i: int)
    requires
        0 <= i < s.len(),
        keys_distinct(s),
    ensures
        store_entries(s).dom().contains(s[i].0@),
        store_entries(s)[s[i].0@] == s[i].1@,
    decreases s.len(),
{
    if i < s.len() - 1 {
        assert(s.drop_last()[i] == s[i]);
        assert(keys_distinct(s.drop_last())) by {
            assert(forall|p: int, q: int| 0 <= p < q < s.len() - 1 ==> (#[trigger] s.drop_last()[p]).0@
                != (#[trigger] s.drop_last()[q]).0@);
        }
        lemma_entries_at(s.drop_last(), i);
        assert(s[i].0@ != s.last().0@);
    }
}

/// A key under no entry is not in the map.
proof fn lemma_entries_absent(s: Seq<(Cid, Vec<u8>)>, k: CidData)
    requires
        forall|i: int| 0 <= i < s.len() ==> (#[trigger] s[i]).0@ != k,
    ensures
        !store_entries(s).dom().contains(k),
    decreases s.len(),
{
    if s.len() > 0 {
        assert(forall|i: int| 0 <= i < s.len() - 1 ==> (#[trigger] s.drop_last()[i]).0@ != k);
        lemma_entries_absent(s.drop_last(), k);
        assert(s.last().0@ != k);
    }
}

/// Removing the entry at `i` removes exactly its key, when keys are
/// distinct.
proof fn lemma_entries_remove(s: Seq<(Cid, Vec<u8>)>, i: int)
    requires
        0 <= i < s.len(),
        keys_distinct(s),
    ensures
        store_entries(s.remove(i)) =~= store_entries(s).remove(s[i].0@),
        keys_distinct(s.remove(i)),
    decreases s.len(),
{
    let t = s.remove(i);
    assert(keys_distinct(t)) by {
        assert forall|p: int, q: int| 0 <= p < q < t.len() implies (#[trigger] t[p]).0@ != (
        #[trigger] t[q]).0@ by {
            let p0 = if p < i { p } else { p + 1 };
            let q0 = if q < i { q } else { q + 1 };
            assert(t[p] == s[p0] && t[q] == s[q0]);
        }
    }
    if i == s.len() - 1 {
        assert(t =~= s.drop_last());
        assert(store_entries(s) == store_entries(s.drop_last()).insert(s.last().0@, s.last().1@));
        assert forall|k: CidData| store_entries(t).dom().contains(k) implies k != s[i].0@ by {
            if k == s[i].0@ {
                assert(forall|j: int| 0 <= j < t.len() ==> (#[trigger] t[j]).0@ != k);
                lemma_entries_absent(t, k);
            }
        }
        assert(store_entries(t) =~= store_entries(s).remove(s[i].0@));
    } else {
        assert(t.drop_last() =~= s.drop_last().remove(i));
        assert(s.drop_last()[i] == s[i]);
        assert(keys_distinct(s.drop_last())) by {
            assert(forall|p: int, q: int| 0 <= p < q < s.len() - 1 ==> (#[trigger] s.drop_last()[p]).0@
                != (#[trigger] s.drop_last()[q]).0@);
        }
        lemma_entries_remove(s.drop_last(), i);
        assert(t.last() == s.last());
        assert(store_entries(t) == store_entries(t.drop_last()).insert(s.last().0@, s.last().1@));
        assert(s[i].0@ != s.last().0@);
        assert(store_entries(t) =~= store_entries(s).remove(s[i].0@));
    }
}

/// The map of any entry sequence has a finite key set.
proof fn lemma_entries_dom_finite(s: Seq<(Cid, Vec<u8>)>)
    ensures
        store_entries(s).dom().finite(),
    decreases s.len(),
{
    if s.len() > 0 {
        lemma_entries_dom_finite(s.drop_last());
    }
}

/// An in-memory block store.
pub struct MemoryBlockStore {
    /// The stored blocks, each CID at most once.
    blocks: Vec<(Cid, Vec<u8>)>,
}

impl View for MemoryBlockStore {
    type V = Map<CidData, Seq<u8>>;

    closed spec fn view(&self) -> Map<CidData, Seq<u8>> {
        store_entries(self.blocks@)
    }
}

impl MemoryBlockStore {
    /// Keys are distinct and well-formed, and blocks are small enough to
    /// frame.
    pub closed spec fn wf(&self) -> bool {
        &&& keys_distinct(self.blocks@)
        &&& forall|i: int| 0 <= i < self.blocks@.len() ==> cid_wf((#[trigger] self.blocks@[i]).0@)
        &&& forall|i: int|
            0 <= i < self.blocks@.len() ==> block_len_ok((#[trigger] self.blocks@[i]).1@.len() as int)
    }

    /// Every stored block is small enough to frame.
    pub proof fn lemma_blocks_bounded(&self)
        requires
            self.wf(),
        ensures
            forall|k: CidData|
                self@.dom().contains(k) ==> block_len_ok((#[trigger] self@[k]).len() as int),
    {
        assert forall|k: CidData| self@.dom().contains(k) implies block_len_ok(
            (#[trigger] self@[k]).len() as int,
        ) by {
            if exists|j: int| 0 <= j < self.blocks@.len() && (#[trigger] self.blocks@[j]).0@ == k {
                let j = choose|j: int|
                    0 <= j < self.blocks@.len() && (#[trigger] self.blocks@[j]).0@ == k;
                lemma_entries_at(self.blocks@, j);
            } else {
                lemma_entries_absent(self.blocks@, k);
            }
        }
    }

    /// The key set of the store is finite.
    pub proof fn lemma_dom_finite(&self)
        ensures
            self@.dom().finite(),
    {
        lemma_entries_dom_finite(self.blocks@);
    }

    /// An empty store.
    pub fn new() -> (r: MemoryBlockStore)
        ensures
            r.wf(),
            r@ =~= Map::<CidData, Seq<u8>>::empty(),
    {
        MemoryBlockStore { blocks: Vec::new() }
    }

    /// Position of the entry for `cid`, when present.
    fn find(&self, cid: &Cid) -> (r: Option<usize>)
        requires
            self.wf(),
        ensures
            match r {
                Some(i) => i < self.blocks@.len() && self.blocks@[i as int].0@ == cid@
                    && self@.dom().contains(cid@) && self@[cid@] == self.blocks@[i as int].1@,
                None => !self@.dom().contains(cid@),
            },
    {
        let mut i: usize = 0;
        while i < self.blocks.len()
            invariant
                self.wf(),
                0 <= i <= self.blocks@.len(),
                forall|j: int| 0 <= j < i ==> (#[trigger] self.blocks@[j]).0@ != cid@,
            decreases self.blocks@.len() - i,
        {
            if self.blocks[i].0.eq(cid) {
                proof {
                    lemma_entries_at(self.blocks@, i as int);
                }
                return Some(i);
            }
            i += 1;
        }
        proof {
            lemma_entries_absent(self.blocks@, cid@);
        }
        None
    }

    /// Whether the store holds a block under `cid`.
    pub fn has_block(&self, cid: &Cid) -> (r: bool)
        requires
            self.wf(),
        ensures
            r == self@.dom().contains(cid@),
    {
        self.find(cid).is_some()
    }

    /// The block stored under `cid`, or `None`.
    pub fn get_block(&self, cid: &Cid) -> (r: Option<Vec<u8>>)
        requires
            self.wf(),
        ensures
            match r {
                Some(b) => self@.dom().contains(cid@) && b@ == self@[cid@],
                None => !self@.dom().contains(cid@),
            },
    {
        match self.find(cid) {
            Some(i) => {
                let b = self.blocks[i].1.clone();
                assert(b@ =~= self.blocks@[i as int].1@);
                Some(b)
            },
            None => None,
        }
    }

    /// Store `bytes` under `cid`, trusting the caller to have verified
    /// that the bytes hash to the CID's digest. Overwrites any previous
    /// block under the same CID.
    pub fn put_block_keyed(&mut self, cid: Cid, bytes: Vec<u8>)
        requires
            old(self).wf(),
            cid.wf(),
            block_len_ok(bytes@.len() as int),
        ensures
            final(self).wf(),
            final(self)@ =~= old(self)@.insert(cid@, bytes@),
    {
        let ghost k = cid@;
        match self.find(&cid) {
            Some(i) => {
                proof {
                    lemma_entries_remove(self.blocks@, i as int);
                }
                let ghost pre = self.blocks@;
                let ghost ii = i as int;
                self.blocks.remove(i);
                proof {
                    assert(store_entries(self.blocks@) =~= old(self)@.remove(k));
                    assert forall|p: int| 0 <= p < self.blocks@.len() implies cid_wf(
                        (#[trigger] self.blocks@[p]).0@,
                    ) by {
                        let p0 = if p < ii { p } else { p + 1 };
                        assert(self.blocks@[p] == pre[p0]);
                    }
                }
            },
            None => {},
        }
        let ghost mid = self.blocks@;
        proof {
            assert(!store_entries(mid).dom().contains(k));
            assert(keys_distinct(mid));
            assert(forall|p: int| 0 <= p < mid.len() ==> cid_wf((#[trigger] mid[p]).0@));
            assert(store_entries(mid) =~= if old(self)@.dom().contains(k) {
                old(self)@.remove(k)
            } else {
                old(self)@
            });
            assert forall|j: int| 0 <= j < mid.len() implies (#[trigger] mid[j]).0@ != k by {
                if mid[j].0@ == k {
                    lemma_entries_at(mid, j);
                }
            }
        }
        let ghost kwf = cid_wf(k);
        self.blocks.push((cid, bytes));
        proof {
            assert(self.blocks@.drop_last() =~= mid);
            assert(self@ =~= store_entries(mid).insert(k, bytes@));
            assert(self@ =~= old(self)@.insert(k, bytes@));
            assert forall|p: int, q: int| 0 <= p < q < self.blocks@.len() implies (
            #[trigger] self.blocks@[p]).0@ != (#[trigger] self.blocks@[q]).0@ by {
                if q < self.blocks@.len() - 1 {
                    assert(self.blocks@[p] == mid[p] && self.blocks@[q] == mid[q]);
                } else {
                    assert(self.blocks@[p] == mid[p]);
                    assert(mid[p].0@ != k);
                }
            }
            assert forall|p: int| 0 <= p < self.blocks@.len() implies cid_wf(
                (#[trigger] self.blocks@[p]).0@,
            ) by {
                if p < self.blocks@.len() - 1 {
                    assert(self.blocks@[p] == mid[p]);
                }
            }
        }
    }

    /// Store `bytes` under the CID the store computes for them: a version 1
    /// CID with the given codec and a SHA2-256 multihash.
    pub fn put_block(&mut self, bytes: Vec<u8>, codec: u64) -> (r: Cid)
        requires
            old(self).wf(),
            block_len_ok(bytes@.len() as int),
        ensures
            final(self).wf(),
            r.wf(),
            r@.version == 1,
            r@.codec == codec as int,
            r@.multihash_code == HASH_SHA2_256,
            r@.digest == sha256_of(bytes@),
            final(self)@ =~= old(self)@.insert(r@, bytes@),
    {
        let digest = match compute_digest(HASH_SHA2_256, bytes.as_slice()) {
            Some(d) => d,
            None => {
                proof {
                    assert(false);
                }
                Vec::new()
            },
        };
        let cid = Cid::new_v1(codec, HASH_SHA2_256, digest);
        self.put_block_keyed(cid.clone(), bytes);
        cid
    }
}

} // verus!
