//! The particle store: a slot arena with generation-tagged handles.
//!
//! A `Handle` names a slot together with the generation the slot had when
//! the particle was put in. Removing a particle bumps the slot's
//! generation, so a handle kept across a removal can never alias a later
//! occupant: every lookup with it returns `None`.

use vstd::prelude::*;
use crate::ball::Ball;
use crate::seqs::{asc_filter, lemma_asc_filter_props};

verus! {

/// An opaque reference to a store slot: index plus generation tag.
#[derive(Clone, Copy, Debug, PartialEq, Eq, Structural)]
pub struct Handle {
    pub index: usize,
    pub generation: u64,
}

/// One slot of the arena.
#[derive(Clone, Copy, Debug)]
pub struct Slot {
    /// Bumped on every removal, so stale handles miss.
    pub generation: u64,
    /// The occupant, if the slot is filled.
    pub ball: Option<Ball>,
}

/// The arena of particles. Slots are reused through a free list; the
/// generation tag keeps reuse safe.
pub struct Store {
    /// The slots, dead or filled.
    pub slots: Vec<Slot>,
    /// Indices of dead slots that may be reused, most recent last.
    pub free: Vec<usize>,
}

impl Store {
    /// The slots as the store's model.
    pub open spec fn slots_seq(self) -> Seq<Slot> {
        self.slots@
    }

    /// The free list as part of the model (it decides which slot the next
    /// insert fills).
    pub open spec fn free_seq(self) -> Seq<usize> {
        self.free@
    }

    /// Number of slots, filled or not.
    pub open spec fn num_slots(self) -> nat {
        self.slots@.len()
    }

    /// Slot `i` exists and holds a particle.
    pub open spec fn live_at(self, i: int) -> bool {
        &&& 0 <= i < self.slots@.len()
        &&& self.slots@[i].ball is Some
    }

    /// The particle in slot `i`.
    pub open spec fn ball_at_spec(self, i: int) -> Ball {
        self.slots@[i].ball->Some_0
    }

    /// The handle still refers to the particle it was issued for.
    pub open spec fn live(self, h: Handle) -> bool {
        &&& self.live_at(h.index as int)
        &&& self.slots@[h.index as int].generation == h.generation
    }

    /// The particle a live handle refers to.
    pub open spec fn ball_of(self, h: Handle) -> Ball {
        self.ball_at_spec(h.index as int)
    }

    /// The store invariant: filled slots have generation tags left to
    /// spend, and the free list names exactly the empty slots that can
    /// still be reused (generation not yet exhausted), without duplicates.
    pub open spec fn wf(self) -> bool {
        &&& forall|i: int|
            0 <= i < self.slots@.len() && self.slots@[i].ball is Some ==> (
            #[trigger] self.slots@[i].generation) < u64::MAX
        &&& forall|k: int|
            0 <= k < self.free@.len() ==> {
                &&& (#[trigger] self.free@[k]) < self.slots@.len()
                &&& self.slots@[self.free@[k] as int].ball is None
                &&& self.slots@[self.free@[k] as int].generation < u64::MAX
            }
        &&& forall|k1: int, k2: int|
            0 <= k1 < k2 < self.free@.len() ==> self.free@[k1] != self.free@[k2]
        &&& forall|i: int|
            0 <= i < self.slots@.len() && self.slots@[i].ball is None
                && (#[trigger] self.slots@[i].generation) < u64::MAX ==> self.free@.contains(
                i as usize,
            )
    }

    /// An empty store.
    pub fn new() -> (s: Store)
        ensures
            s.wf(),
            s.num_slots() == 0,
            s.free_seq().len() == 0,
    {
        Store { slots: Vec::new(), free: Vec::new() }
    }

    /// Number of slots, filled or not.
    pub fn slot_count(&self) -> (n: usize)
        ensures
            n == self.num_slots(),
    {
        self.slots.len()
    }

    /// Puts a particle in, reusing the most recently freed slot if one
    /// exists, and hands back a handle to it.
    pub fn insert(&mut self, b: Ball) -> (h: Handle)
        requires
            old(self).wf(),
            old(self).num_slots() < usize::MAX,
        ensures
            final(self).wf(),
            final(self).live(h),
            final(self).ball_of(h) == b,
            old(self).free_seq().len() > 0 ==> {
                let i = old(self).free_seq().last() as int;
                &&& h.index == old(self).free_seq().last()
                &&& h.generation == old(self).slots_seq()[i].generation
                &&& final(self).slots_seq() == old(self).slots_seq().update(
                    i,
                    Slot { generation: h.generation, ball: Some(b) },
                )
                &&& final(self).free_seq() == old(self).free_seq().drop_last()
            },
            old(self).free_seq().len() == 0 ==> {
                &&& h.index == old(self).num_slots()
                &&& h.generation == 0
                &&& final(self).slots_seq() == old(self).slots_seq().push(
                    Slot { generation: 0, ball: Some(b) },
                )
                &&& final(self).free_seq() == old(self).free_seq()
            },
    {
        match self.free.pop() {
            Some(i) => {
                let generation = self.slots[i].generation;
                self.slots[i] = Slot { generation, ball: Some(b) };
                proof {
                    assert forall|j: int|
                        0 <= j < self.slots@.len() && self.slots@[j].ball is None
                            && (#[trigger] self.slots@[j].generation) < u64::MAX implies self
                        .free@.contains(j as usize) by {
                        assert(old(self).free@.contains(j as usize));
                        let k = choose|k: int|
                            0 <= k < old(self).free@.len() && old(self).free@[k] == j as usize;
                        assert(k < old(self).free@.len() - 1);
                        assert(self.free@[k] == j as usize);
                    }
                }
                Handle { index: i, generation }
            },
            None => {
                let index = self.slots.len();
                self.slots.push(Slot { generation: 0, ball: Some(b) });
                proof {
                    assert forall|j: int|
                        0 <= j < self.slots@.len() && self.slots@[j].ball is None
                            && (#[trigger] self.slots@[j].generation) < u64::MAX implies self
                        .free@.contains(j as usize) by {
                        assert(old(self).free@.contains(j as usize));
                    }
                }
                Handle { index, generation: 0 }
            },
        }
    }

    /// Looks a handle up: the particle if the handle is still live, `None`
    /// if the slot was removed or reused since.
    pub fn get(&self, h: Handle) -> (r: Option<Ball>)
        ensures
            r == if self.live(h) {
                Some(self.ball_of(h))
            } else {
                None::<Ball>
            },
    {
        if h.index < self.slots.len() {
            let slot = self.slots[h.index];
            if slot.generation == h.generation {
                slot.ball
            } else {
                None
            }
        } else {
            None
        }
    }

    /// Overwrites the particle a live handle refers to. Returns whether
    /// the handle was live; a stale handle changes nothing.
    pub fn set(&mut self, h: Handle, b: Ball) -> (ok: bool)
        requires
            old(self).wf(),
        ensures
            final(self).wf(),
            ok == old(self).live(h),
            ok ==> final(self).slots_seq() == old(self).slots_seq().update(
                h.index as int,
                Slot { generation: h.generation, ball: Some(b) },
            ),
            !ok ==> final(self).slots_seq() == old(self).slots_seq(),
            final(self).free_seq() == old(self).free_seq(),
    {
        if h.index < self.slots.len() {
            let slot = self.slots[h.index];
            if slot.generation == h.generation && slot.ball.is_some() {
                self.slots[h.index] = Slot { generation: h.generation, ball: Some(b) };
                return true;
            }
        }
        false
    }

    /// Takes a particle out. The slot's generation is bumped, so the
    /// handle (and any copy of it) is stale from here on; a slot whose
    /// generation tags are used up is retired instead of reused.
    pub fn remove(&mut self, h: Handle) -> (r: Option<Ball>)
        requires
            old(self).wf(),
            old(self).free_seq().len() < usize::MAX,
        ensures
            final(self).wf(),
            r == if old(self).live(h) {
                Some(old(self).ball_of(h))
            } else {
                None::<Ball>
            },
            old(self).live(h) ==> {
                &&& final(self).slots_seq() == old(self).slots_seq().update(
                    h.index as int,
                    Slot { generation: (h.generation + 1) as u64, ball: None },
                )
                &&& !final(self).live(h)
                &&& if h.generation + 1 < u64::MAX {
                    final(self).free_seq() == old(self).free_seq().push(h.index)
                } else {
                    final(self).free_seq() == old(self).free_seq()
                }
            },
            !old(self).live(h) ==> {
                &&& final(self).slots_seq() == old(self).slots_seq()
                &&& final(self).free_seq() == old(self).free_seq()
            },
    {
        if h.index < self.slots.len() {
            let slot = self.slots[h.index];
            if slot.generation == h.generation && slot.ball.is_some() {
                let bumped = h.generation + 1;
                self.slots[h.index] = Slot { generation: bumped, ball: None };
                if bumped < u64::MAX {
                    self.free.push(h.index);
                }
                proof {
                    assert forall|j: int|
                        0 <= j < self.slots@.len() && self.slots@[j].ball is None
                            && (#[trigger] self.slots@[j].generation) < u64::MAX implies self
                        .free@.contains(j as usize) by {
                        if j == h.index as int {
                            assert(bumped < u64::MAX);
                            assert(self.free@.last() == h.index);
                        } else {
                            assert(old(self).free@.contains(j as usize));
                            let k = choose|k: int|
                                0 <= k < old(self).free@.len() && old(self).free@[k] == j as usize;
                            assert(self.free@[k] == j as usize);
                        }
                    }
                    if bumped < u64::MAX {
                        assert forall|k1: int, k2: int|
                            0 <= k1 < k2 < self.free@.len() implies self.free@[k1] != self
                            .free@[k2] by {
                            if k2 == self.free@.len() - 1 {
                                assert(old(self).slots@[old(self).free@[k1] as int].ball is None);
                            }
                        }
                    }
                }
                return slot.ball;
            }
        }
        None
    }

    /// Simultaneous read of two distinct particles, for pairwise collision
    /// work. Fails (with `None`) when the handles name the same slot or
    /// either is stale.
    pub fn get_pair(&self, h1: Handle, h2: Handle) -> (r: Option<(Ball, Ball)>)
        ensures
            r == if h1.index != h2.index && self.live(h1) && self.live(h2) {
                Some((self.ball_of(h1), self.ball_of(h2)))
            } else {
                None::<(Ball, Ball)>
            },
    {
        if h1.index == h2.index {
            return None;
        }
        match (self.get(h1), self.get(h2)) {
            (Some(a), Some(b)) => Some((a, b)),
            _ => None,
        }
    }

    /// Simultaneous write of two distinct particles. Returns whether both
    /// handles were live and distinct; otherwise nothing changes.
    pub fn set_pair(&mut self, h1: Handle, h2: Handle, b1: Ball, b2: Ball) -> (ok: bool)
        requires
            old(self).wf(),
        ensures
            final(self).wf(),
            ok == (h1.index != h2.index && old(self).live(h1) && old(self).live(h2)),
            ok ==> final(self).slots_seq() == old(self).slots_seq().update(
                h1.index as int,
                Slot { generation: h1.generation, ball: Some(b1) },
            ).update(h2.index as int, Slot { generation: h2.generation, ball: Some(b2) }),
            !ok ==> final(self).slots_seq() == old(self).slots_seq(),
            final(self).free_seq() == old(self).free_seq(),
    {
        if h1.index == h2.index {
            return false;
        }
        match self.get_pair(h1, h2) {
            Some(_) => {
                let ok1 = self.set(h1, b1);
                let ok2 = self.set(h2, b2);
                proof {
                    assert(ok1 && ok2);
                }
                true
            },
            None => false,
        }
    }

    /// The particle in slot `i`, if the slot is filled.
    pub fn ball_at(&self, i: usize) -> (r: Option<Ball>)
        requires
            i < self.num_slots(),
        ensures
            r == if self.live_at(i as int) {
                Some(self.ball_at_spec(i as int))
            } else {
                None::<Ball>
            },
    {
        self.slots[i].ball
    }

    /// The current handle of slot `i`, if the slot is filled.
    pub fn handle_at(&self, i: usize) -> (r: Option<Handle>)
        requires
            i < self.num_slots(),
        ensures
            r == if self.live_at(i as int) {
                Some(
                    (Handle { index: i, generation: self.slots_seq()[i as int].generation }),
                )
            } else {
                None::<Handle>
            },
            r is Some ==> self.live(r->Some_0),
    {
        let slot = self.slots[i];
        if slot.ball.is_some() {
            Some(Handle { index: i, generation: slot.generation })
        } else {
            None
        }
    }

    /// Overwrites the particle in a filled slot, keeping its generation.
    pub(crate) fn set_at(&mut self, i: usize, b: Ball)
        requires
            old(self).wf(),
            old(self).live_at(i as int),
        ensures
            final(self).wf(),
            final(self).slots_seq() == old(self).slots_seq().update(
                i as int,
                Slot { generation: old(self).slots_seq()[i as int].generation, ball: Some(b) },
            ),
            final(self).free_seq() == old(self).free_seq(),
    {
        let generation = self.slots[i].generation;
        self.slots[i] = Slot { generation, ball: Some(b) };
    }

    /// The ascending sequence of indices of filled slots.
    pub open spec fn live_indices(self) -> Seq<int> {
        asc_filter(self.num_slots(), |i: int| self.live_at(i))
    }

    /// All live handles, in ascending slot order.
    #[verifier::loop_isolation(false)]
    pub fn handles(&self) -> (r: Vec<Handle>)
        ensures
            r@.len() == self.live_indices().len(),
            forall|k: int|
                0 <= k < r@.len() ==> {
                    &&& (#[trigger] r@[k]).index as int == self.live_indices()[k]
                    &&& self.live(r@[k])
                },
    {
        let ghost pred = |i: int| self.live_at(i);
        let mut r: Vec<Handle> = Vec::new();
        let n = self.slots.len();
        for i in 0..n
            invariant
                n == self.num_slots(),
                r@.len() == asc_filter(i as nat, pred).len(),
                forall|k: int|
                    0 <= k < r@.len() ==> {
                        &&& (#[trigger] r@[k]).index as int == asc_filter(i as nat, pred)[k]
                        &&& self.live(r@[k])
                    },
        {
            let slot = self.slots[i];
            if slot.ball.is_some() {
                r.push(Handle { index: i, generation: slot.generation });
            }
        }
        r
    }
}

} // verus!
