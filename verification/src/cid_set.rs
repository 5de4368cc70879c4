//! A small set of CIDs backed by a duplicate-free vector.

use vstd::prelude::*;
use vstd::seq_lib::*;
use crate::cid::{Cid, CidData, cid_wf};

verus! {

/// A finite set of well-formed CIDs. The backing vector holds each member
/// exactly once, so its length is the set's cardinality.
#[derive(Debug)]
pub struct CidSet {
    /// The members, each exactly once.
    pub items: Vec<Cid>,
}

impl View for CidSet {
    type V = Set<CidData>;

    open spec fn view(&self) -> Set<CidData> {
        self.seq().to_set()
    }
}

impl CidSet {
    /// The members in insertion order.
    pub open spec fn seq(&self) -> Seq<CidData> {
        self.items@.map_values(|c: Cid| c@)
    }

    /// Each member occurs once and is well-formed.
    pub open spec fn wf(&self) -> bool {
        &&& self.seq().no_duplicates()
        &&& forall|i: int| 0 <= i < self.seq().len() ==> cid_wf(#[trigger] self.seq()[i])
    }

    /// The empty set.
    pub fn new() -> (r: CidSet)
        ensures
            r.wf(),
            r@ =~= Set::<CidData>::empty(),
            r.seq() =~= Seq::<CidData>::empty(),
    {
        let r = CidSet { items: Vec::new() };
        proof {
            assert(r.seq() =~= Seq::<CidData>::empty());
        }
        r
    }

    /// Number of members.
    pub fn len(&self) -> (r: usize)
        requires
            self.wf(),
        ensures
            r == self.seq().len(),
            r == self@.len(),
    {
        proof {
            self.seq().unique_seq_to_set();
        }
        self.items.len()
    }

    /// Membership test.
    pub fn contains(&self, cid: &Cid) -> (r: bool)
        ensures
            r <==> self@.contains(cid@),
    {
        let mut i: usize = 0;
        while i < self.items.len()
            invariant
                0 <= i <= self.items@.len(),
                forall|j: int| 0 <= j < i ==> self.seq()[j] != cid@,
            decreases self.items@.len() - i,
        {
            if self.items[i].eq(cid) {
                assert(self.seq()[i as int] == cid@);
                return true;
            }
            i += 1;
        }
        assert(forall|j: int| 0 <= j < self.seq().len() ==> self.seq()[j] != cid@);
        false
    }

    /// Insert a member; no effect when already present.
    pub fn insert(&mut self, cid: Cid)
        requires
            old(self).wf(),
            cid.wf(),
        ensures
            final(self).wf(),
            final(self)@ =~= old(self)@.insert(cid@),
            old(self)@.contains(cid@) ==> final(self).seq() == old(self).seq(),
            !old(self)@.contains(cid@) ==> final(self).seq() == old(self).seq().push(cid@),
    {
        if !self.contains(&cid) {
            let ghost pre = self.seq();
            let ghost c = cid@;
            self.items.push(cid);
            proof {
                assert(self.seq() =~= pre.push(c));
                assert forall|x: CidData| self.seq().to_set().contains(x) implies pre.to_set().insert(
                    c,
                ).contains(x) by {
                    let p = choose|p: int| 0 <= p < pre.push(c).len() && pre.push(c)[p] == x;
                    if p < pre.len() {
                        assert(pre[p] == x);
                    }
                }
                assert forall|x: CidData| pre.to_set().insert(c).contains(x) implies self.seq().to_set().contains(x) by {
                    if pre.to_set().contains(x) {
                        let p = choose|p: int| 0 <= p < pre.len() && pre[p] == x;
                        assert(pre.push(c)[p] == x);
                    } else {
                        assert(pre.push(c)[pre.len() as int] == c);
                    }
                }
                assert(self.seq().to_set() =~= pre.to_set().insert(c));
            }
        } else {
            proof {
                assert(self@ =~= self@.insert(cid@));
            }
        }
    }

    /// Remove a member; no effect when absent.
    pub fn remove(&mut self, cid: &Cid)
        requires
            old(self).wf(),
        ensures
            final(self).wf(),
            final(self)@ =~= old(self)@.remove(cid@),
    {
        let mut i: usize = 0;
        while i < self.items.len()
            invariant
                self.wf(),
                self.items == old(self).items,
                0 <= i <= self.items@.len(),
                forall|j: int| 0 <= j < i ==> self.seq()[j] != cid@,
            decreases self.items@.len() - i,
        {
            if self.items[i].eq(cid) {
                let ghost pre = self.seq();
                self.items.remove(i);
                proof {
                    assert(self.seq() =~= pre.remove(i as int));
                    lemma_remove_no_dup(pre, i as int);
                    lemma_remove_to_set(pre, i as int);
                    assert(self@ =~= old(self)@.remove(cid@));
                }
                return;
            }
            i += 1;
        }
        proof {
            assert(forall|j: int| 0 <= j < self.seq().len() ==> self.seq()[j] != cid@);
            assert(!self@.contains(cid@));
            assert(self@ =~= old(self)@.remove(cid@));
        }
    }

    /// The member at position `i` in insertion order.
    pub fn get(&self, i: usize) -> (r: &Cid)
        requires
            i < self.seq().len(),
        ensures
            r@ == self.seq()[i as int],
    {
        &self.items[i]
    }

    /// The members as a fresh vector, in insertion order.
    pub fn to_vec(&self) -> (r: Vec<Cid>)
        ensures
            r@.map_values(|c: Cid| c@) =~= self.seq(),
    {
        let mut out: Vec<Cid> = Vec::new();
        let mut i: usize = 0;
        while i < self.items.len()
            invariant
                0 <= i <= self.items@.len(),
                out@.len() == i,
                forall|j: int| 0 <= j < i ==> (#[trigger] out@[j])@ == self.seq()[j],
            decreases self.items@.len() - i,
        {
            out.push(self.items[i].clone());
            i += 1;
        }
        assert(out@.map_values(|c: Cid| c@) =~= self.seq());
        out
    }
}

/// Removing position `i` keeps a duplicate-free sequence duplicate-free.
proof fn lemma_remove_no_dup(s: Seq<CidData>, i: int)
    requires
        s.no_duplicates(),
        0 <= i < s.len(),
    ensures
        s.remove(i).no_duplicates(),
{
    let t = s.remove(i);
    assert forall|p: int, q: int| 0 <= p < q < t.len() implies t[p] != t[q] by {
        let p0 = if p < i { p } else { p + 1 };
        let q0 = if q < i { q } else { q + 1 };
        assert(t[p] == s[p0]);
        assert(t[q] == s[q0]);
    }
}

/// Removing position `i` of a duplicate-free sequence removes exactly its
/// member at `i` from the set of members.
proof fn lemma_remove_to_set(s: Seq<CidData>, i: int)
    requires
        s.no_duplicates(),
        0 <= i < s.len(),
    ensures
        s.remove(i).to_set() =~= s.to_set().remove(s[i]),
{
    let t = s.remove(i);
    assert forall|x: CidData| t.to_set().contains(x) implies s.to_set().remove(s[i]).contains(x) by {
        let p = choose|p: int| 0 <= p < t.len() && t[p] == x;
        let p0 = if p < i { p } else { p + 1 };
        assert(s[p0] == x);
        assert(p0 != i);
    }
    assert forall|x: CidData| s.to_set().remove(s[i]).contains(x) implies t.to_set().contains(x) by {
        let q = choose|q: int| 0 <= q < s.len() && s[q] == x;
        assert(q != i);
        let p = if q < i { q } else { q - 1 };
        assert(t[p] == s[q]);
    }
}

} // verus!
