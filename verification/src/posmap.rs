//! Small collections keyed by grid positions: a map and a set, both kept as a
//! vector of distinct keys. Iteration follows insertion order, and every
//! contract is stated over the abstract `Map` or `Set` view.

use vstd::prelude::*;

use crate::types::Pos;

verus! {

/// A finite map from positions to values, with at most one entry per key.
#[derive(Clone)]
pub struct PosMap<V> {
    entries: Vec<(Pos, V)>,
}

impl<V> PosMap<V> {
    /// The entries, in iteration order.
    pub closed spec fn entries(&self) -> Seq<(Pos, V)> {
        self.entries@
    }

    /// Well-formed: no key occurs twice.
    pub open spec fn wf(&self) -> bool {
        forall|i: int, j: int|
            0 <= i < j < self.entries().len() ==> #[trigger] self.entries()[i].0
                != #[trigger] self.entries()[j].0
    }

    /// Index of the entry for `p`, if any.
    pub open spec fn index_of_key(&self, p: Pos) -> int {
        choose|i: int| 0 <= i < self.entries().len() && self.entries()[i].0 == p
    }

    pub open spec fn has_key(&self, p: Pos) -> bool {
        exists|i: int| 0 <= i < self.entries().len() && self.entries()[i].0 == p
    }

    /// Entry `i` is in the view, with its value.
    pub proof fn lemma_entry(&self, i: int)
        requires
            self.wf(),
            0 <= i < self.entries().len(),
        ensures
            self@.contains_key(self.entries()[i].0),
            self@[self.entries()[i].0] == self.entries()[i].1,
            self.index_of_key(self.entries()[i].0) == i,
    {
        let p = self.entries()[i].0;
        assert(self.has_key(p));
        let j = self.index_of_key(p);
        if j != i {
            if j < i {
                assert(self.entries()[j].0 != self.entries()[i].0);
            } else {
                assert(self.entries()[i].0 != self.entries()[j].0);
            }
        }
    }

    /// Every key of the view has an entry.
    pub proof fn lemma_key(&self, p: Pos)
        requires
            self.wf(),
            self@.contains_key(p),
        ensures
            0 <= self.index_of_key(p) < self.entries().len(),
            self.entries()[self.index_of_key(p)].0 == p,
            self@[p] == self.entries()[self.index_of_key(p)].1,
    {
    }

    pub fn new() -> (m: Self)
        ensures
            m.wf(),
            m@ == Map::<Pos, V>::empty(),
            m.entries().len() == 0,
    {
        let m = PosMap { entries: Vec::new() };
        assert(m@ =~= Map::<Pos, V>::empty());
        m
    }

    /// Number of entries.
    pub fn len(&self) -> (n: usize)
        ensures
            n == self.entries().len(),
    {
        self.entries.len()
    }

    /// Key of entry `i`.
    pub fn key_at(&self, i: usize) -> (p: Pos)
        requires
            i < self.entries().len(),
        ensures
            p == self.entries()[i as int].0,
    {
        self.entries[i].0
    }

    /// Value of entry `i`.
    pub fn value_at(&self, i: usize) -> (v: &V)
        requires
            i < self.entries().len(),
        ensures
            *v == self.entries()[i as int].1,
    {
        &self.entries[i].1
    }

    /// Index of the entry for `p`.
    pub fn find(&self, p: Pos) -> (r: Option<usize>)
        requires
            self.wf(),
        ensures
            match r {
                Some(i) => i < self.entries().len() && self.entries()[i as int].0 == p
                    && self@.contains_key(p) && self@[p] == self.entries()[i as int].1,
                None => !self@.contains_key(p),
            },
    {
        let n = self.entries.len();
        let mut i: usize = 0;
        while i < n
            invariant
                n == self.entries().len(),
                i <= n,
                self.wf(),
                forall|j: int| 0 <= j < i ==> self.entries()[j].0 != p,
            decreases n - i,
        {
            if self.entries[i].0 == p {
                proof {
                    self.lemma_entry(i as int);
                }
                return Some(i);
            }
            i = i + 1;
        }
        None
    }

    /// Whether `p` has an entry.
    pub fn contains_key(&self, p: Pos) -> (b: bool)
        requires
            self.wf(),
        ensures
            b == self@.contains_key(p),
    {
        self.find(p).is_some()
    }

    /// Replaces the value of entry `i`.
    pub fn set_at(&mut self, i: usize, v: V)
        requires
            old(self).wf(),
            i < old(self).entries().len(),
        ensures
            final(self).wf(),
            final(self).entries() == old(self).entries().update(i as int, (old(self).entries()[i as int].0, v)),
            final(self)@ == old(self)@.insert(old(self).entries()[i as int].0, v),
    {
        let ghost before = *self;
        let p = self.entries[i].0;
        self.entries.set(i, (p, v));
        proof {
            assert forall|q: Pos| #[trigger] self@.contains_key(q) <==> before@.insert(p, v).contains_key(q) by {
                if before@.contains_key(q) {
                    before.lemma_key(q);
                    let j = before.index_of_key(q);
                    assert(self.entries()[j].0 == q);
                }
                if self@.contains_key(q) {
                    let j = self.index_of_key(q);
                    assert(before.entries()[j].0 == q);
                }
            }
            assert forall|q: Pos| #[trigger] self@.contains_key(q) implies self@[q] == before@.insert(p, v)[q] by {
                let j = self.index_of_key(q);
                self.lemma_entry(j);
                if q != p {
                    before.lemma_entry(j);
                } else {
                    before.lemma_entry(i as int);
                }
            }
            assert(self@ =~= before@.insert(p, v));
        }
    }

    /// Adds or replaces the entry for `p`. A new key goes at the end.
    pub fn insert(&mut self, p: Pos, v: V)
        requires
            old(self).wf(),
        ensures
            final(self).wf(),
            final(self)@ == old(self)@.insert(p, v),
            old(self)@.contains_key(p) ==> final(self).entries().len() == old(self).entries().len(),
            !old(self)@.contains_key(p) ==> final(self).entries() == old(self).entries().push((p, v)),
    {
        match self.find(p) {
            Some(i) => {
                self.set_at(i, v);
            },
            None => {
                let ghost before = *self;
                self.entries.push((p, v));
                proof {
                    let n = before.entries().len() as int;
                    assert forall|q: Pos| #[trigger] self@.contains_key(q) <==> before@.insert(p, v).contains_key(q) by {
                        if before@.contains_key(q) {
                            before.lemma_key(q);
                            let j = before.index_of_key(q);
                            assert(self.entries()[j].0 == q);
                        }
                        if q == p {
                            assert(self.entries()[n].0 == q);
                        }
                        if self@.contains_key(q) {
                            let j = self.index_of_key(q);
                            if j < n {
                                assert(before.entries()[j].0 == q);
                            }
                        }
                    }
                    assert forall|q: Pos| #[trigger] self@.contains_key(q) implies self@[q] == before@.insert(p, v)[q] by {
                        let j = self.index_of_key(q);
                        self.lemma_entry(j);
                        if j < n {
                            before.lemma_entry(j);
                        }
                    }
                    assert(self@ =~= before@.insert(p, v));
                }
            },
        }
    }

    /// Removes the entry for `p`, if any; the other entries keep their order.
    pub fn remove(&mut self, p: Pos)
        requires
            old(self).wf(),
        ensures
            final(self).wf(),
            final(self)@ == old(self)@.remove(p),
    {
        match self.find(p) {
            Some(i) => {
                let ghost before = *self;
                self.entries.remove(i);
                proof {
                    assert forall|a: int, b: int|
                        0 <= a < b < self.entries().len() implies #[trigger] self.entries()[a].0
                            != #[trigger] self.entries()[b].0 by {
                        let a2 = if a < i { a } else { a + 1 };
                        let b2 = if b < i { b } else { b + 1 };
                        assert(self.entries()[a] == before.entries()[a2]);
                        assert(self.entries()[b] == before.entries()[b2]);
                    }
                    assert forall|q: Pos| #[trigger] self@.contains_key(q) <==> before@.remove(p).contains_key(q) by {
                        if before@.contains_key(q) && q != p {
                            before.lemma_key(q);
                            let j = before.index_of_key(q);
                            if j < i {
                                assert(self.entries()[j].0 == q);
                            } else {
                                assert(j != i);
                                assert(self.entries()[j - 1].0 == q);
                            }
                        }
                        if self@.contains_key(q) {
                            let j = self.index_of_key(q);
                            let j2 = if j < i { j } else { j + 1 };
                            assert(before.entries()[j2].0 == q);
                            before.lemma_entry(j2);
                            before.lemma_entry(i as int);
                        }
                    }
                    assert forall|q: Pos| #[trigger] self@.contains_key(q) implies self@[q] == before@.remove(p)[q] by {
                        let j = self.index_of_key(q);
                        self.lemma_entry(j);
                        let j2 = if j < i { j } else { j + 1 };
                        assert(before.entries()[j2] == self.entries()[j]);
                        before.lemma_entry(j2);
                    }
                    assert(self@ =~= before@.remove(p));
                }
            },
            None => {
                assert(self@ =~= self@.remove(p));
            },
        }
    }
}

impl<V> View for PosMap<V> {
    type V = Map<Pos, V>;

    open spec fn view(&self) -> Map<Pos, V> {
        Map::new(|p: Pos| self.has_key(p), |p: Pos| self.entries()[self.index_of_key(p)].1)
    }
}

/// A finite set of positions, kept without duplicates.
#[derive(Clone)]
pub struct PosSet {
    items: Vec<Pos>,
}

impl PosSet {
    /// The members, in iteration order.
    pub closed spec fn items(&self) -> Seq<Pos> {
        self.items@
    }

    /// Well-formed: no member occurs twice.
    pub open spec fn wf(&self) -> bool {
        self.items().no_duplicates()
    }

    pub fn new() -> (s: Self)
        ensures
            s.wf(),
            s@ == Set::<Pos>::empty(),
    {
        let s = PosSet { items: Vec::new() };
        assert(s@ =~= Set::<Pos>::empty());
        s
    }

    /// Number of members.
    pub fn len(&self) -> (n: usize)
        ensures
            n == self.items().len(),
    {
        self.items.len()
    }

    /// Member number `i` in iteration order.
    pub fn at(&self, i: usize) -> (p: Pos)
        requires
            i < self.items().len(),
        ensures
            p == self.items()[i as int],
            self@.contains(p),
    {
        self.items[i]
    }

    fn find(&self, p: Pos) -> (r: Option<usize>)
        ensures
            match r {
                Some(i) => i < self.items().len() && self.items()[i as int] == p,
                None => !self@.contains(p),
            },
    {
        let n = self.items.len();
        let mut i: usize = 0;
        while i < n
            invariant
                n == self.items().len(),
                i <= n,
                forall|j: int| 0 <= j < i ==> self.items()[j] != p,
            decreases n - i,
        {
            if self.items[i] == p {
                return Some(i);
            }
            i = i + 1;
        }
        None
    }

    /// Membership test.
    pub fn contains(&self, p: Pos) -> (b: bool)
        ensures
            b == self@.contains(p),
    {
        self.find(p).is_some()
    }

    /// Adds `p`.
    pub fn insert(&mut self, p: Pos)
        requires
            old(self).wf(),
        ensures
            final(self).wf(),
            final(self)@ == old(self)@.insert(p),
    {
        let found = self.find(p);
        if let Some(i) = found {
            assert(self.items().contains(p));
            assert(self@ =~= old(self)@.insert(p));
        } else {
            let ghost before = self.items();
            self.items.push(p);
            proof {
                assert(self.items() == before.push(p));
                assert forall|a: int, b: int|
                    0 <= a < self.items().len() && 0 <= b < self.items().len() && a != b implies
                    self.items()[a] != self.items()[b] by {
                    if a < before.len() && b < before.len() {
                        assert(before[a] != before[b]);
                    } else if a < before.len() {
                        assert(before.contains(before[a]));
                    } else {
                        assert(before.contains(before[b]));
                    }
                }
                assert forall|q: Pos| #[trigger] self@.contains(q) <==> old(self)@.insert(p).contains(q) by {
                    if before.contains(q) {
                        let j = choose|j: int| 0 <= j < before.len() && before[j] == q;
                        assert(self.items()[j] == q);
                    }
                    if q == p {
                        assert(self.items()[before.len() as int] == q);
                    }
                    if self.items().contains(q) {
                        let j = choose|j: int| 0 <= j < self.items().len() && self.items()[j] == q;
                        if j < before.len() {
                            assert(before[j] == q);
                        }
                    }
                }
                assert(self@ =~= old(self)@.insert(p));
            }
        }
    }

    /// Removes `p`, if it is a member.
    pub fn remove(&mut self, p: Pos)
        requires
            old(self).wf(),
        ensures
            final(self).wf(),
            final(self)@ == old(self)@.remove(p),
    {
        match self.find(p) {
            Some(i) => {
                let ghost before = self.items();
                self.items.remove(i);
                proof {
                    assert forall|a: int, b: int|
                        0 <= a < self.items().len() && 0 <= b < self.items().len() && a != b implies
                        self.items()[a] != self.items()[b] by {
                        let a2 = if a < i { a } else { a + 1 };
                        let b2 = if b < i { b } else { b + 1 };
                        assert(self.items()[a] == before[a2]);
                        assert(self.items()[b] == before[b2]);
                    }
                    assert forall|q: Pos| #[trigger] self@.contains(q) <==> old(self)@.remove(p).contains(q) by {
                        if before.contains(q) && q != p {
                            let j = choose|j: int| 0 <= j < before.len() && before[j] == q;
                            if j < i {
                                assert(self.items()[j] == q);
                            } else {
                                assert(self.items()[j - 1] == q);
                            }
                        }
                        if self@.contains(q) {
                            let j = choose|j: int| 0 <= j < self.items().len() && self.items()[j] == q;
                            let j2 = if j < i { j } else { j + 1 };
                            assert(before[j2] == q);
                            assert(j2 != i);
                        }
                    }
                    assert(self@ =~= old(self)@.remove(p));
                }
            },
            None => {
                assert(self@ =~= self@.remove(p));
            },
        }
    }
}

impl View for PosSet {
    type V = Set<Pos>;

    open spec fn view(&self) -> Set<Pos> {
        Set::new(|p: Pos| self.items().contains(p))
    }
}

} // verus!
