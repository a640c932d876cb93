//! The global knowledge that the base aggregates from the robots' messages.
//! Robots read it to navigate; only the base writes it.

use vstd::prelude::*;

use crate::message::Message;
use crate::posmap::{PosMap, PosSet};
use crate::types::{Pos, ResourceKind, dist};

verus! {

/// What is known of a resource deposit.
#[derive(Clone, Copy, Debug)]
pub struct KnownResource {
    pub kind: ResourceKind,
    pub qty: u32,
    pub claimed_by: Option<usize>,
    pub depleted: bool,
}

/// Resources and obstacles reported so far.
#[derive(Clone)]
pub struct Knowledge {
    pub resources: PosMap<KnownResource>,
    pub obstacles: PosSet,
}

/// A resource that collector `id` may target: not depleted, some quantity
/// left, and unclaimed or claimed by `id` itself.
pub open spec fn available_to(r: KnownResource, id: usize) -> bool {
    &&& !r.depleted
    &&& r.qty > 0
    &&& (r.claimed_by is None || r.claimed_by == Some(id))
}

/// The record of a resource after a `FoundResource` report of `kind` with
/// `qty` units: kind and quantity are replaced, a claim is kept, and a zero
/// quantity marks it depleted.
pub open spec fn reported(old: Option<KnownResource>, kind: ResourceKind, qty: u32) -> KnownResource {
    match old {
        Some(r) => KnownResource { kind, qty, claimed_by: r.claimed_by, depleted: r.depleted || qty == 0 },
        None => KnownResource { kind, qty, claimed_by: None, depleted: qty == 0 },
    }
}

/// The known resources and obstacles after one message, as the base applies
/// it. `Collected` concerns the world's totals and changes nothing here.
pub open spec fn knowledge_after(
    res: Map<Pos, KnownResource>,
    obs: Set<Pos>,
    msg: Message,
) -> (Map<Pos, KnownResource>, Set<Pos>) {
    match msg {
        Message::FoundResource { pos, kind, qty } => (
            res.insert(
                pos,
                reported(
                    if res.contains_key(pos) {
                        Some(res[pos])
                    } else {
                        None
                    },
                    kind,
                    qty,
                ),
            ),
            obs.remove(pos),
        ),
        Message::FoundObstacle { pos } => (res, obs.insert(pos)),
        Message::Claim { id, pos } => (
            if res.contains_key(pos) && res[pos].claimed_by is None {
                res.insert(pos, KnownResource { claimed_by: Some(id), ..res[pos] })
            } else {
                res
            },
            obs,
        ),
        Message::Deplete { pos } => (res.remove(pos), obs),
        Message::Collected { .. } => (res, obs),
    }
}

/// Entry `i` is the pick among the resources available to `id`: the nearest
/// to `from`, and the first such in iteration order.
pub open spec fn nearest_pick(k: Knowledge, from: Pos, id: usize, i: int) -> bool {
    let e = k.resources.entries();
    &&& 0 <= i < e.len()
    &&& available_to(e[i].1, id)
    &&& forall|j: int|
        0 <= j < e.len() && available_to(#[trigger] e[j].1, id) ==> dist(from, e[i].0) <= dist(from, e[j].0)
    &&& forall|j: int|
        0 <= j < i && available_to(#[trigger] e[j].1, id) ==> dist(from, e[i].0) < dist(from, e[j].0)
}

/// The position that `nearest_available` gives: the first nearest available
/// resource in iteration order, if any resource is available.
pub open spec fn nearest_spec(k: Knowledge, from: Pos, id: usize) -> Option<Pos> {
    if exists|i: int| nearest_pick(k, from, id, i) {
        Some(k.resources.entries()[choose|i: int| nearest_pick(k, from, id, i)].0)
    } else {
        None
    }
}

impl Knowledge {
    pub open spec fn wf(&self) -> bool {
        self.resources.wf() && self.obstacles.wf()
    }

    /// Empty knowledge.
    pub fn new() -> (k: Knowledge)
        ensures
            k.wf(),
            k.resources@ == Map::<Pos, KnownResource>::empty(),
            k.obstacles@ == Set::<Pos>::empty(),
    {
        Knowledge { resources: PosMap::new(), obstacles: PosSet::new() }
    }

    /// The nearest resource (by Manhattan distance from `from`) that collector
    /// `id` may target, if any.
    pub fn nearest_available(&self, from: Pos, id: usize) -> (r: Option<Pos>)
        requires
            self.wf(),
        ensures
            r == nearest_spec(*self, from, id),
            r is None <==> forall|p: Pos|
                #[trigger] self.resources@.contains_key(p) ==> !available_to(self.resources@[p], id),
            r matches Some(p) ==> {
                &&& self.resources@.contains_key(p)
                &&& available_to(self.resources@[p], id)
                &&& forall|q: Pos|
                    #[trigger] self.resources@.contains_key(q) && available_to(self.resources@[q], id)
                        ==> dist(from, p) <= dist(from, q)
            },
    {
        let n = self.resources.len();
        let mut best: Option<Pos> = None;
        let mut best_d: u64 = 0;
        let ghost mut best_i: int = 0;
        let mut i: usize = 0;
        while i < n
            invariant
                self.wf(),
                n == self.resources.entries().len(),
                i <= n,
                best is None <==> forall|j: int|
                    0 <= j < i ==> !available_to(#[trigger] self.resources.entries()[j].1, id),
                best matches Some(p) ==> {
                    &&& self.resources@.contains_key(p)
                    &&& available_to(self.resources@[p], id)
                    &&& best_d == dist(from, p)
                    &&& 0 <= best_i < i
                    &&& self.resources.entries()[best_i].0 == p
                    &&& available_to(self.resources.entries()[best_i].1, id)
                    &&& forall|j: int|
                        0 <= j < i && available_to(#[trigger] self.resources.entries()[j].1, id)
                            ==> best_d <= dist(from, self.resources.entries()[j].0)
                    &&& forall|j: int|
                        0 <= j < best_i && available_to(#[trigger] self.resources.entries()[j].1, id)
                            ==> best_d < dist(from, self.resources.entries()[j].0)
                },
            decreases n - i,
        {
            let r = self.resources.value_at(i);
            if !r.depleted && r.qty > 0 && (r.claimed_by.is_none() || r.claimed_by == Some(id)) {
                let p = self.resources.key_at(i);
                let dp = from.manhattan(p);
                proof {
                    self.resources.lemma_entry(i as int);
                }
                if best.is_none() || dp < best_d {
                    best = Some(p);
                    best_d = dp;
                    proof {
                        best_i = i as int;
                    }
                }
            }
            i = i + 1;
        }
        proof {
            if best is None {
                assert forall|p: Pos| #[trigger] self.resources@.contains_key(p) implies !available_to(
                    self.resources@[p],
                    id,
                ) by {
                    self.resources.lemma_key(p);
                    let j = self.resources.index_of_key(p);
                    assert(!available_to(self.resources.entries()[j].1, id));
                }
                assert(!exists|i: int| nearest_pick(*self, from, id, i));
            } else {
                assert(nearest_pick(*self, from, id, best_i));
                assert forall|i2: int| nearest_pick(*self, from, id, i2) implies i2 == best_i by {
                    if i2 < best_i {
                        assert(available_to(self.resources.entries()[i2].1, id));
                    } else if i2 > best_i {
                        assert(available_to(self.resources.entries()[best_i].1, id));
                    }
                }
                assert forall|q: Pos|
                    #[trigger] self.resources@.contains_key(q) && available_to(self.resources@[q], id)
                        implies best_d <= dist(from, q) by {
                    self.resources.lemma_key(q);
                    let j = self.resources.index_of_key(q);
                    assert(available_to(self.resources.entries()[j].1, id));
                }
            }
        }
        best
    }

    /// Folds one robot message into the knowledge. `Collected` concerns the
    /// world's totals and leaves the knowledge unchanged.
    pub fn apply_message(&mut self, msg: &Message)
        requires
            old(self).wf(),
        ensures
            final(self).wf(),
            (final(self).resources@, final(self).obstacles@) == knowledge_after(
                old(self).resources@,
                old(self).obstacles@,
                *msg,
            ),
    {
        match *msg {
            Message::FoundResource { pos, kind, qty } => {
                self.obstacles.remove(pos);
                let entry = match self.resources.find(pos) {
                    Some(i) => {
                        let r = *self.resources.value_at(i);
                        KnownResource {
                            kind,
                            qty,
                            claimed_by: r.claimed_by,
                            depleted: r.depleted || qty == 0,
                        }
                    },
                    None => KnownResource { kind, qty, claimed_by: None, depleted: qty == 0 },
                };
                self.resources.insert(pos, entry);
            },
            Message::FoundObstacle { pos } => {
                self.obstacles.insert(pos);
            },
            Message::Claim { id, pos } => {
                if let Some(i) = self.resources.find(pos) {
                    let r = *self.resources.value_at(i);
                    if r.claimed_by.is_none() {
                        self.resources.set_at(i, KnownResource { claimed_by: Some(id), ..r });
                    }
                }
            },
            Message::Deplete { pos } => {
                self.resources.remove(pos);
            },
            Message::Collected { .. } => {},
        }
    }
}

impl Default for Knowledge {
    fn default() -> (k: Knowledge)
        ensures
            k.wf(),
            k.resources@ == Map::<Pos, KnownResource>::empty(),
            k.obstacles@ == Set::<Pos>::empty(),
    {
        Knowledge::new()
    }
}

} // verus!
