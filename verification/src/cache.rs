//! Caches of block references, amortizing store lookups and parsing.
//!
//! A cache is a hint store: lookups may miss, and entries may be dropped
//! at any time, but an entry that is returned must be one that was put.
//! All correctness is derived from the block store; a cache that never
//! hits is valid.

use vstd::prelude::*;
use crate::cid::{Cid, CidData, CODEC_RAW};
use crate::error::Error;
use crate::cid_set::CidSet;
use crate::references::{block_refs, cids_view, cids_wf, references, clone_cids};
use crate::store::MemoryBlockStore;

verus! {

/// A memoization table for block references.
pub trait Cache: Sized {
    /// The entries the cache currently holds.
    spec fn spec_get(&self, c: CidData) -> Option<Seq<CidData>>;

    /// Every held entry is a well-formed link list.
    spec fn wf(&self) -> bool;

    /// Look up the cached references of `cid`; `None` on a miss.
    fn get_references_cache(&self, cid: &Cid) -> (r: Option<Vec<Cid>>)
        requires
            self.wf(),
        ensures
            match r {
                Some(v) => self.spec_get(cid@) == Some(cids_view(v@)) && cids_wf(cids_view(v@)),
                None => self.spec_get(cid@) is None,
            },
    ;

    /// Record the references of `cid`. The cache may keep old entries,
    /// drop any entry, or hold the new one, but never invents entries.
    fn put_references_cache(&mut self, cid: Cid, refs: Vec<Cid>)
        requires
            old(self).wf(),
            cids_wf(cids_view(refs@)),
        ensures
            final(self).wf(),
            forall|k: CidData|
                (#[trigger] final(self).spec_get(k)) is None || final(self).spec_get(k) == old(
                    self,
                ).spec_get(k) || (k == cid@ && final(self).spec_get(k) == Some(cids_view(refs@))),
    ;
}

/// Every entry the cache holds agrees with the store: the cached links of
/// `k` are the links of the block stored under `k`.
pub open spec fn cache_valid<C: Cache>(cache: &C, store: Map<CidData, Seq<u8>>) -> bool {
    forall|k: CidData|
        match #[trigger] cache.spec_get(k) {
            Some(refs) => store.dom().contains(k) && block_refs(k, store[k]) == Some(refs),
            None => true,
        }
}

/// Find the CIDs that the block stored under `cid` references, through the
/// cache: on a miss the block is fetched, parsed, and the result recorded.
pub fn cached_references<C: Cache>(
    cache: &mut C,
    cid: &Cid,
    store: &MemoryBlockStore,
) -> (r: Result<Vec<Cid>, Error>)
    requires
        old(cache).wf(),
        cache_valid(old(cache), store@),
        store.wf(),
        cid@.codec == CODEC_RAW || store@.dom().contains(cid@),
    ensures
        final(cache).wf(),
        cache_valid(final(cache), store@),
        match r {
            Ok(v) => block_refs(cid@, if store@.dom().contains(cid@) {
                store@[cid@]
            } else {
                Seq::empty()
            }) == Some(cids_view(v@)) && cids_wf(cids_view(v@)),
            Err(e) => store@.dom().contains(cid@) && match e {
                Error::UnsupportedCodec { cid: c } => c@ == cid@
                    && !crate::references::supported_codec(cid@.codec),
                Error::ParsingError => crate::references::supported_codec(cid@.codec)
                    && block_refs(cid@, store@[cid@]) is None,
                _ => false,
            },
        },
{
    if cid.codec == CODEC_RAW {
        let v: Vec<Cid> = Vec::new();
        assert(cids_view(v@) =~= Seq::<CidData>::empty());
        return Ok(v);
    }
    match cache.get_references_cache(cid) {
        Some(refs) => {
            proof {
                assert(cache.spec_get(cid@) == Some(cids_view(refs@)));
            }
            Ok(refs)
        },
        None => {
            let block = match store.get_block(cid) {
                Some(b) => b,
                None => {
                    proof {
                        assert(false);
                    }
                    Vec::new()
                },
            };
            let refs = references(cid, block.as_slice())?;
            let refs_copy = clone_cids(&refs);
            cache.put_references_cache(cid.clone(), refs_copy);
            proof {
                assert forall|k: CidData|
                    match #[trigger] cache.spec_get(k) {
                        Some(rs) => store@.dom().contains(k) && block_refs(k, store@[k])
                            == Some(rs),
                        None => true,
                    } by {
                    if cache.spec_get(k) is Some {
                        if k == cid@ {
                        } else {
                            assert(old(cache).spec_get(k) == cache.spec_get(k));
                        }
                    }
                }
            }
            Ok(refs)
        },
    }
}

/// A cache that holds nothing.
#[derive(Debug, Clone)]
pub struct NoCache;

impl Cache for NoCache {
    open spec fn spec_get(&self, c: CidData) -> Option<Seq<CidData>> {
        None
    }

    open spec fn wf(&self) -> bool {
        true
    }

    fn get_references_cache(&self, cid: &Cid) -> (r: Option<Vec<Cid>>) {
        None
    }

    fn put_references_cache(&mut self, cid: Cid, refs: Vec<Cid>) {
    }
}

/// An in-memory reference cache holding at most a fixed number of
/// entries: once full, further entries are not recorded, but held ones
/// are never dropped.
#[derive(Debug)]
pub struct InMemoryCache {
    entries: Vec<(Cid, Vec<Cid>)>,
    capacity: usize,
}

impl View for InMemoryCache {
    type V = Seq<(Cid, Vec<Cid>)>;

    closed spec fn view(&self) -> Seq<(Cid, Vec<Cid>)> {
        self.entries@
    }
}

impl InMemoryCache {
    /// An empty cache that will hold cached references for at most
    /// `approx_capacity` CIDs.
    pub fn new(approx_capacity: usize) -> (r: InMemoryCache)
        ensures
            r.wf(),
            r.spec_capacity() == approx_capacity,
            forall|k: CidData| (#[trigger] r.spec_get(k)) is None,
    {
        let r = InMemoryCache { entries: Vec::new(), capacity: approx_capacity };
        proof {
            assert forall|k: CidData| (#[trigger] r.spec_get(k)) is None by {
                if r.spec_get(k) is Some {
                    let i = choose|i: int|
                        0 <= i < r@.len() && (#[trigger] r@[i]).0@ == k;
                }
            }
        }
        r
    }

    /// The most entries this cache will hold.
    pub closed spec fn spec_capacity(&self) -> int {
        self.capacity as int
    }

    /// How many entries the cache currently holds.
    pub closed spec fn spec_len(&self) -> int {
        self@.len() as int
    }
}

impl Cache for InMemoryCache {
    closed spec fn spec_get(&self, c: CidData) -> Option<Seq<CidData>> {
        if exists|i: int| 0 <= i < self@.len() && (#[trigger] self@[i]).0@ == c {
            let i = choose|i: int| 0 <= i < self@.len() && (#[trigger] self@[i]).0@ == c;
            Some(cids_view(self@[i].1@))
        } else {
            None
        }
    }

    closed spec fn wf(&self) -> bool {
        &&& forall|i: int, j: int|
            0 <= i < j < self@.len() ==> (#[trigger] self@[i]).0@ != (#[trigger] self@[j]).0@
        &&& forall|i: int| 0 <= i < self@.len() ==> cids_wf(cids_view((#[trigger] self@[i]).1@))
    }

    fn get_references_cache(&self, cid: &Cid) -> (r: Option<Vec<Cid>>) {
        let mut i: usize = 0;
        while i < self.entries.len()
            invariant
                self.wf(),
                0 <= i <= self@.len(),
                forall|j: int| 0 <= j < i ==> (#[trigger] self@[j]).0@ != cid@,
            decreases self@.len() - i,
        {
            if self.entries[i].0.eq(&cid) {
                let v = clone_cids(&self.entries[i].1);
                proof {
                    let w = choose|w: int| 0 <= w < self@.len() && (#[trigger] self@[w]).0@ == cid@;
                    assert(w == i);
                }
                return Some(v);
            }
            i += 1;
        }
        proof {
            if self.spec_get(cid@) is Some {
                let w = choose|w: int| 0 <= w < self@.len() && (#[trigger] self@[w]).0@ == cid@;
            }
        }
        None
    }

    /// Record the references of `cid`. Beyond the hint contract, this
    /// cache never drops what it holds: an entry already present is
    /// kept unchanged, other entries are untouched, and a new entry is
    /// recorded whenever there is room.
    fn put_references_cache(&mut self, cid: Cid, refs: Vec<Cid>)
        ensures
            final(self).spec_capacity() == old(self).spec_capacity(),
            forall|k: CidData|
                k != cid@ ==> #[trigger] final(self).spec_get(k) == old(self).spec_get(k),
            old(self).spec_get(cid@) matches Some(v) ==> final(self).spec_get(cid@) == Some(v),
            old(self).spec_get(cid@) is None && old(self).spec_len() < old(self).spec_capacity()
                ==> final(self).spec_get(cid@) == Some(cids_view(refs@)),
    {
        if self.entries.len() >= self.capacity {
            return;
        }
        let ghost pre = self@;
        let mut i: usize = 0;
        while i < self.entries.len()
            invariant
                self.wf(),
                self@ == pre,
                old(self)@ == pre,
                old(self).wf(),
                self.capacity == old(self).capacity,
                0 <= i <= self@.len(),
                forall|j: int| 0 <= j < i ==> (#[trigger] self@[j]).0@ != cid@,
            decreases self@.len() - i,
        {
            if self.entries[i].0.eq(&cid) {
                // the entry already present was recorded from the same
                // block; keep it
                proof {
                    assert(self@[i as int].0@ == cid@);
                    if old(self).spec_get(cid@) is None {
                        assert(false);
                    }
                }
                return;
            }
            i += 1;
        }
        self.entries.push((cid, refs));
        proof {
            let n = pre.len() as int;
            assert(self@[n].0@ == cid@);
            assert forall|k: CidData|
                k != cid@ implies #[trigger] self.spec_get(k) == old(self).spec_get(k) by {
                if exists|w: int| 0 <= w < self@.len() && (#[trigger] self@[w]).0@ == k {
                    let w = choose|w: int| 0 <= w < self@.len() && (#[trigger] self@[w]).0@ == k;
                    assert(w < n);
                    assert(pre[w].0@ == k);
                    let w2 = choose|w2: int| 0 <= w2 < pre.len() && (#[trigger] pre[w2]).0@ == k;
                    assert(w2 == w);
                } else {
                    if exists|w: int| 0 <= w < pre.len() && (#[trigger] pre[w]).0@ == k {
                        let w = choose|w: int| 0 <= w < pre.len() && (#[trigger] pre[w]).0@ == k;
                        assert(self@[w].0@ == k);
                    }
                }
            }
            assert(self.spec_get(cid@) == Some(cids_view(refs@))) by {
                let w = choose|w: int| 0 <= w < self@.len() && (#[trigger] self@[w]).0@ == cid@;
                assert(w == n);
            }
            assert(old(self).spec_get(cid@) is None) by {
                if exists|w: int| 0 <= w < pre.len() && (#[trigger] pre[w]).0@ == cid@ {
                    let w = choose|w: int| 0 <= w < pre.len() && (#[trigger] pre[w]).0@ == cid@;
                }
            }
        }
    }
}


/// A wrapper around a block store that remembers which CIDs it has seen
/// present and which absent, so that repeated lookups of a missing block
/// are answered without touching the store. Writes go through the
/// wrapper and refresh the remembered answers, so the answers always
/// agree with the wrapped store.
pub struct CacheMissing {
    /// The wrapped store.
    pub inner: MemoryBlockStore,
    /// CIDs known to be present in the wrapped store.
    pub present: CidSet,
    /// CIDs known to be absent from the wrapped store.
    pub absent: CidSet,
}

impl CacheMissing {
    /// The remembered answers agree with the wrapped store.
    pub open spec fn wf(&self) -> bool {
        &&& self.inner.wf()
        &&& self.present.wf()
        &&& self.absent.wf()
        &&& forall|c: CidData|
            #[trigger] self.present@.contains(c) ==> self.inner@.dom().contains(c)
        &&& forall|c: CidData|
            #[trigger] self.absent@.contains(c) ==> !self.inner@.dom().contains(c)
    }

    /// Wrap an existing block store, with nothing remembered yet.
    pub fn new(inner: MemoryBlockStore) -> (r: CacheMissing)
        requires
            inner.wf(),
        ensures
            r.wf(),
            r.inner == inner,
    {
        CacheMissing { inner, present: CidSet::new(), absent: CidSet::new() }
    }

    /// Whether the wrapped store holds a block under `cid`; the answer
    /// is remembered for the next time.
    pub fn has_block(&mut self, cid: &Cid) -> (r: bool)
        requires
            old(self).wf(),
            cid.wf(),
        ensures
            final(self).wf(),
            final(self).inner == old(self).inner,
            r == old(self).inner@.dom().contains(cid@),
    {
        if self.present.contains(cid) {
            return true;
        }
        if self.absent.contains(cid) {
            return false;
        }
        let r = self.inner.has_block(cid);
        if r {
            self.present.insert(cid.clone());
        } else {
            self.absent.insert(cid.clone());
        }
        r
    }

    /// The block stored under `cid`, or `None`; a CID remembered absent
    /// is answered without touching the store.
    pub fn get_block(&mut self, cid: &Cid) -> (r: Option<Vec<u8>>)
        requires
            old(self).wf(),
            cid.wf(),
        ensures
            final(self).wf(),
            final(self).inner == old(self).inner,
            match r {
                Some(b) => old(self).inner@.dom().contains(cid@) && b@ == old(self).inner@[cid@],
                None => !old(self).inner@.dom().contains(cid@),
            },
    {
        if self.absent.contains(cid) {
            return None;
        }
        let r = self.inner.get_block(cid);
        match &r {
            Some(_) => self.present.insert(cid.clone()),
            None => self.absent.insert(cid.clone()),
        }
        r
    }

    /// Store `bytes` under `cid` in the wrapped store, and remember the
    /// block present.
    pub fn put_block_keyed(&mut self, cid: Cid, bytes: Vec<u8>)
        requires
            old(self).wf(),
            cid.wf(),
            crate::store::block_len_ok(bytes@.len() as int),
        ensures
            final(self).wf(),
            final(self).inner@ =~= old(self).inner@.insert(cid@, bytes@),
    {
        self.absent.remove(&cid);
        self.inner.put_block_keyed(cid.clone(), bytes);
        self.present.insert(cid);
    }
}

} // verus!
