//! Sets of peers.

use vstd::prelude::*;

use crate::node::PeerId;

verus! {

/// A set of peer numbers, in the order in which they came.
#[derive(Debug)]
pub struct IdSet {
    ids: Vec<PeerId>,
}

impl View for IdSet {
    type V = Set<PeerId>;

    closed spec fn view(&self) -> Set<PeerId> {
        self.ids@.to_set()
    }
}

impl IdSet {
    /// Every member is listed once.
    #[verifier::type_invariant]
    spec fn listed_once(self) -> bool {
        self.ids@.no_duplicates()
    }

    /// The set without members.
    pub fn new() -> (r: Self)
        ensures
            r@ == Set::<PeerId>::empty(),
    {
        let r = IdSet { ids: Vec::new() };
        assert(r@ =~= Set::<PeerId>::empty());
        r
    }

    /// The members, each once.
    pub fn ids(&self) -> (r: &Vec<PeerId>)
        ensures
            r@.to_set() == self@,
            r@.no_duplicates(),
    {
        proof {
            use_type_invariant(self);
        }
        &self.ids
    }

    /// Whether the set has no member.
    pub fn is_empty(&self) -> (r: bool)
        ensures
            r == (self@ == Set::<PeerId>::empty()),
    {
        if self.ids.len() == 0 {
            assert(self@ =~= Set::<PeerId>::empty());
            true
        } else {
            assert(self@.contains(self.ids@[0]));
            false
        }
    }

    fn position(&self, id: PeerId) -> (r: Option<usize>)
        ensures
            match r {
                Some(i) => i < self.ids@.len() && self.ids@[i as int] == id,
                None => !self.ids@.contains(id),
            },
    {
        let mut i: usize = 0;
        while i < self.ids.len()
            invariant
                i <= self.ids@.len(),
                forall|j: int| 0 <= j < i ==> self.ids@[j] != id,
            decreases self.ids@.len() - i,
        {
            if self.ids[i] == id {
                return Some(i);
            }
            i = i + 1;
        }
        None
    }

    /// Whether `id` is a member.
    pub fn contains(&self, id: PeerId) -> (r: bool)
        ensures
            r == self@.contains(id),
    {
        self.position(id).is_some()
    }

    /// Makes `id` a member.
    pub fn insert(&mut self, id: PeerId)
        ensures
            final(self)@ == old(self)@.insert(id),
    {
        if self.contains(id) {
            assert(self@.insert(id) =~= self@);
            return;
        }
        proof {
            use_type_invariant(&*self);
        }
        let ghost before = self.ids@;
        let mut ids: Vec<PeerId> = Vec::new();
        std::mem::swap(&mut ids, &mut self.ids);
        ids.push(id);
        self.ids = ids;
        assert forall|x: PeerId| self.ids@.contains(x) == (before.contains(x) || x == id) by {
            if before.contains(x) {
                let k = choose|k: int| 0 <= k < before.len() && before[k] == x;
                assert(self.ids@[k] == x);
            }
            assert(self.ids@[before.len() as int] == id);
            if self.ids@.contains(x) && x != id {
                let k = choose|k: int| 0 <= k < self.ids@.len() && self.ids@[k] == x;
                assert(before[k] == x);
            }
        }
        assert(self@ =~= before.to_set().insert(id));
    }

    /// Makes `id` no member.
    pub fn remove(&mut self, id: PeerId)
        ensures
            final(self)@ == old(self)@.remove(id),
    {
        proof {
            use_type_invariant(&*self);
        }
        let ghost before = self.ids@;
        let mut kept: Vec<PeerId> = Vec::new();
        let mut i: usize = 0;
        while i < self.ids.len()
            invariant
                i <= self.ids@.len(),
                self.ids@ == before,
                before.no_duplicates(),
                kept@.no_duplicates(),
                forall|x: PeerId|
                    #![trigger kept@.contains(x)]
                    kept@.contains(x) <==> x != id && before.take(i as int).contains(x),
            decreases self.ids@.len() - i,
        {
            let ghost old_kept = kept@;
            let here = self.ids[i];
            if here != id {
                assert(!old_kept.contains(here));
                kept.push(here);
            }
            assert(before.take(i + 1) =~= before.take(i as int).push(here));
            assert forall|x: PeerId|
                #![trigger kept@.contains(x)]
                kept@.contains(x) <==> x != id && before.take(i + 1).contains(x) by {
                assert(old_kept.contains(x) <==> x != id && before.take(i as int).contains(x));
                let a = before.take(i as int);
                let b = before.take(i + 1);
                if a.contains(x) {
                    let k = choose|k: int| 0 <= k < a.len() && a[k] == x;
                    assert(b[k] == x);
                }
                if b.contains(x) && x != here {
                    let k = choose|k: int| 0 <= k < b.len() && b[k] == x;
                    assert(a[k] == x);
                }
                assert(b[i as int] == here);
                if here != id {
                    assert(kept@[old_kept.len() as int] == here);
                    if old_kept.contains(x) {
                        let k = choose|k: int| 0 <= k < old_kept.len() && old_kept[k] == x;
                        assert(kept@[k] == x);
                    }
                    if kept@.contains(x) && x != here {
                        let k = choose|k: int| 0 <= k < kept@.len() && kept@[k] == x;
                        assert(old_kept[k] == x);
                    }
                }
            }
            i = i + 1;
        }
        assert(before.take(before.len() as int) =~= before);
        self.ids = kept;
        assert(self@ =~= before.to_set().remove(id));
    }

    /// Makes every member of `other` a member.
    pub fn extend(&mut self, other: &IdSet)
        ensures
            final(self)@ == old(self)@.union(other@),
    {
        let ghost before = self@;
        let mut i: usize = 0;
        while i < other.ids.len()
            invariant
                i <= other.ids@.len(),
                self@ == before.union(other.ids@.take(i as int).to_set()),
            decreases other.ids@.len() - i,
        {
            let here = other.ids[i];
            let ghost prior = self@;
            self.insert(here);
            proof {
                let a = other.ids@.take(i as int);
                let b = other.ids@.take(i + 1);
                assert(b =~= a.push(here));
                assert forall|x: PeerId| self@.contains(x) == before.union(b.to_set()).contains(
                    x,
                ) by {
                    if a.contains(x) {
                        let k = choose|k: int| 0 <= k < a.len() && a[k] == x;
                        assert(b[k] == x);
                    }
                    assert(b[i as int] == here);
                    if b.contains(x) && x != here {
                        let k = choose|k: int| 0 <= k < b.len() && b[k] == x;
                        assert(a[k] == x);
                    }
                    assert(prior.contains(x) == (before.contains(x) || a.to_set().contains(x)));
                }
                assert(self@ =~= before.union(b.to_set()));
            }
            i = i + 1;
        }
        assert(other.ids@.take(other.ids@.len() as int) =~= other.ids@);
    }

    /// Makes every member of `other` no member.
    pub fn remove_all(&mut self, other: &IdSet)
        ensures
            final(self)@ == old(self)@.difference(other@),
    {
        let ghost before = self@;
        let mut i: usize = 0;
        while i < other.ids.len()
            invariant
                i <= other.ids@.len(),
                forall|x: PeerId|
                    #![trigger self@.contains(x)]
                    self@.contains(x) <==> before.contains(x) && forall|j: int|
                        0 <= j < i ==> other.ids@[j] != x,
            decreases other.ids@.len() - i,
        {
            let ghost prior = self@;
            self.remove(other.ids[i]);
            assert forall|x: PeerId|
                #![trigger self@.contains(x)]
                self@.contains(x) <==> before.contains(x) && forall|j: int|
                    0 <= j < i + 1 ==> other.ids@[j] != x by {
                assert(prior.contains(x) <==> before.contains(x) && forall|j: int|
                    0 <= j < i ==> other.ids@[j] != x);
            }
            i = i + 1;
        }
        assert forall|x: PeerId| self@.contains(x) == before.difference(other@).contains(x) by {
            if other.ids@.contains(x) {
                let k = choose|k: int| 0 <= k < other.ids@.len() && other.ids@[k] == x;
                assert(!self@.contains(x));
            }
        }
        assert(self@ =~= before.difference(other@));
    }

    /// A set with the members of `ids`.
    pub fn from_ids(ids: &Vec<PeerId>) -> (r: Self)
        ensures
            r@ == ids@.to_set(),
    {
        let mut r = IdSet::new();
        let mut i: usize = 0;
        assert(ids@.take(0).to_set() =~= Set::<PeerId>::empty());
        while i < ids.len()
            invariant
                i <= ids@.len(),
                r@ == ids@.take(i as int).to_set(),
            decreases ids@.len() - i,
        {
            let here = ids[i];
            r.insert(here);
            proof {
                let a = ids@.take(i as int);
                let b = ids@.take(i + 1);
                assert(b =~= a.push(here));
                assert forall|x: PeerId| r@.contains(x) == b.contains(x) by {
                    if a.contains(x) {
                        let k = choose|k: int| 0 <= k < a.len() && a[k] == x;
                        assert(b[k] == x);
                    }
                    assert(b[i as int] == here);
                    if b.contains(x) && x != here {
                        let k = choose|k: int| 0 <= k < b.len() && b[k] == x;
                        assert(a[k] == x);
                    }
                }
                assert(r@ =~= b.to_set());
            }
            i = i + 1;
        }
        assert(ids@.take(ids@.len() as int) =~= ids@);
        r
    }
}

} // verus!
