//! Dependency sets: the transactions that another one must be ordered after.
use crate::timestamp::TxId;
use vstd::prelude::*;

verus! {

/// A finite set of transaction identifiers. Its view is the mathematical
/// set; two dependency sets are the same when their views are.
#[derive(Clone, Debug)]
pub struct DepSet {
    ids: Vec<TxId>,
}

impl View for DepSet {
    type V = Set<TxId>;

    closed spec fn view(&self) -> Set<TxId> {
        self.ids@.to_set()
    }
}

impl DepSet {
    /// The empty set.
    pub fn new() -> (r: DepSet)
        ensures
            r@ == Set::<TxId>::empty(),
    {
        let r = DepSet { ids: Vec::new() };
        assert(r.ids@.to_set() =~= Set::<TxId>::empty());
        r
    }

    /// The set of the identifiers listed in `ids`.
    pub fn from_vec(ids: Vec<TxId>) -> (r: DepSet)
        ensures
            r@ == ids@.to_set(),
    {
        DepSet { ids }
    }

    /// The members, each listed at least once.
    pub fn to_vec(&self) -> (r: Vec<TxId>)
        ensures
            r@.to_set() == self@,
    {
        let mut out: Vec<TxId> = Vec::new();
        let mut i: usize = 0;
        while i < self.ids.len()
            invariant
                i <= self.ids.len(),
                out@ == self.ids@.subrange(0, i as int),
            decreases self.ids.len() - i,
        {
            out.push(self.ids[i]);
            assert(out@ =~= self.ids@.subrange(0, i + 1));
            i += 1;
        }
        assert(out@ =~= self.ids@);
        out
    }

    /// A set with the same members.
    pub fn duplicate(&self) -> (r: DepSet)
        ensures
            r@ == self@,
    {
        DepSet { ids: self.to_vec() }
    }

    /// Whether the set has no member.
    pub fn is_empty(&self) -> (r: bool)
        ensures
            r == (self@ == Set::<TxId>::empty()),
    {
        let r = self.ids.len() == 0;
        proof {
            if r {
                assert(self.ids@.to_set() =~= Set::<TxId>::empty());
            } else {
                assert(self.ids@.to_set().contains(self.ids@[0]));
            }
        }
        r
    }

    /// Whether `id` is a member.
    pub fn contains(&self, id: &TxId) -> (r: bool)
        ensures
            r == self@.contains(*id),
    {
        let mut i: usize = 0;
        while i < self.ids.len()
            invariant
                i <= self.ids.len(),
                forall|j: int| 0 <= j < i ==> self.ids@[j] != *id,
            decreases self.ids.len() - i,
        {
            if self.ids[i] == *id {
                return true;
            }
            i += 1;
        }
        false
    }

    /// Adds `id` to the set.
    pub fn insert(&mut self, id: TxId)
        ensures
            final(self)@ == old(self)@.insert(id),
    {
        if !self.contains(&id) {
            self.ids.push(id);
            assert(self.ids@.to_set() =~= old(self).ids@.to_set().insert(id)) by {
                assert forall|x: TxId| self.ids@.contains(x) <==> (old(self).ids@.contains(x) || x
                    == id) by {
                    if old(self).ids@.contains(x) {
                        let j = choose|j: int| 0 <= j < old(self).ids@.len() && old(self).ids@[j] == x;
                        assert(self.ids@[j] == x);
                    }
                    if x == id {
                        assert(self.ids@[self.ids@.len() - 1] == x);
                    }
                }
            }
        } else {
            assert(old(self)@.insert(id) =~= old(self)@);
        }
    }

    /// Adds every member of `other` to the set.
    pub fn union_with(&mut self, other: &DepSet)
        ensures
            final(self)@ == old(self)@.union(other@),
    {
        let mut i: usize = 0;
        while i < other.ids.len()
            invariant
                i <= other.ids.len(),
                self@ == old(self)@.union(other.ids@.subrange(0, i as int).to_set()),
            decreases other.ids.len() - i,
        {
            let ghost before = self@;
            self.insert(other.ids[i]);
            proof {
                let a = other.ids@.subrange(0, i as int);
                let b = other.ids@.subrange(0, i + 1);
                assert(b =~= a.push(other.ids@[i as int]));
                assert(b.to_set() =~= a.to_set().insert(other.ids@[i as int])) by {
                    assert forall|x: TxId| b.contains(x) <==> (a.contains(x) || x
                        == other.ids@[i as int]) by {
                        if a.contains(x) {
                            let j = choose|j: int| 0 <= j < a.len() && a[j] == x;
                            assert(b[j] == x);
                        }
                        if x == other.ids@[i as int] {
                            assert(b[b.len() - 1] == x);
                        }
                    }
                }
                assert(self@ =~= old(self)@.union(b.to_set()));
            }
            i += 1;
        }
        assert(other.ids@.subrange(0, i as int) =~= other.ids@);
    }

    /// Whether every member of the set is a member of `other`.
    pub fn is_subset_of(&self, other: &DepSet) -> (r: bool)
        ensures
            r == self@.subset_of(other@),
    {
        let mut i: usize = 0;
        while i < self.ids.len()
            invariant
                i <= self.ids.len(),
                forall|j: int| 0 <= j < i ==> other@.contains(self.ids@[j]),
            decreases self.ids.len() - i,
        {
            if !other.contains(&self.ids[i]) {
                assert(self@.contains(self.ids@[i as int]));
                return false;
            }
            i += 1;
        }
        true
    }

    /// Whether the two sets have the same members.
    pub fn set_eq(&self, other: &DepSet) -> (r: bool)
        ensures
            r == (self@ == other@),
    {
        let r = self.is_subset_of(other) && other.is_subset_of(self);
        proof {
            if r {
                assert(self@ =~= other@);
            }
        }
        r
    }
}

} // verus!
