//! The particle store: an arena of particle records addressed by handle.
//!
//! A record lives in a slot. When a particle is destroyed its slot is handed
//! out again under the next generation, so that the old handle stays
//! invalid; a slot whose generations are used up is retired for good.

use vstd::prelude::*;
use crate::error::SimError;
use crate::particle::{Handle, Particle};

verus! {

#[derive(Clone, Copy)]
enum Slot {
    Live { generation: u64, particle: Particle },
    Vacant { generation: u64 },
    Retired,
}

/// The table of live particle records.
pub struct ParticleStore {
    slots: Vec<Slot>,
    /// The handles that the vacant slots will be issued under next.
    free: Vec<Handle>,
    count: usize,
}

spec fn live_in(slots: Seq<Slot>, h: Handle) -> bool {
    &&& h.slot < slots.len()
    &&& slots[h.slot as int] matches Slot::Live { generation, .. }
    &&& generation == h.generation
}

spec fn dead_in(slots: Seq<Slot>, h: Handle) -> bool {
    &&& h.slot < slots.len()
    &&& match slots[h.slot as int] {
        Slot::Live { generation, .. } => h.generation < generation,
        Slot::Vacant { generation } => h.generation < generation,
        Slot::Retired => true,
    }
}

spec fn record_in(slots: Seq<Slot>, h: Handle) -> Particle {
    match slots[h.slot as int] {
        Slot::Live { particle, .. } => particle,
        _ => arbitrary(),
    }
}

impl ParticleStore {
    /// The live records, by handle.
    pub closed spec fn view(&self) -> Map<Handle, Particle> {
        Map::new(|h: Handle| live_in(self.slots@, h), |h: Handle| record_in(self.slots@, h))
    }

    /// Whether `h` names a live record.
    pub open spec fn contains(&self, h: Handle) -> bool {
        self@.dom().contains(h)
    }

    /// The handles whose particles were destroyed. None of them is ever
    /// issued or valid again.
    pub closed spec fn retired(&self) -> Set<Handle> {
        Set::new(|h: Handle| dead_in(self.slots@, h))
    }

    /// The invariant of the store.
    pub closed spec fn wf(&self) -> bool {
        &&& forall|i: int|
            0 <= i < self.free@.len() ==> (#[trigger] self.free@[i]).slot < self.slots@.len()
                && self.slots@[self.free@[i].slot as int] == (Slot::Vacant {
                generation: self.free@[i].generation,
            })
        &&& forall|i: int, j: int|
            0 <= i < j < self.free@.len() ==> (#[trigger] self.free@[i]).slot != (
            #[trigger] self.free@[j]).slot
        &&& self.count + self.free@.len() <= self.slots@.len()
        &&& self@.dom().finite()
        &&& self@.dom().len() == self.count
    }

    /// A live handle is not a retired one.
    pub proof fn lemma_live_not_retired(&self, h: Handle)
        requires
            self.contains(h),
        ensures
            !self.retired().contains(h),
    {
    }

    /// A sound store holds finitely many records.
    pub proof fn lemma_finite(&self)
        requires
            self.wf(),
        ensures
            self@.dom().finite(),
    {
    }

    /// An empty store.
    pub fn new() -> (s: ParticleStore)
        ensures
            s.wf(),
            s@ == Map::<Handle, Particle>::empty(),
            s.retired() == Set::<Handle>::empty(),
    {
        let s = ParticleStore { slots: Vec::new(), free: Vec::new(), count: 0 };
        assert(s@ =~= Map::<Handle, Particle>::empty());
        assert(s.retired() =~= Set::<Handle>::empty());
        s
    }

    /// The number of live records.
    pub fn len(&self) -> (n: usize)
        requires
            self.wf(),
        ensures
            self@.dom().finite(),
            n == self@.dom().len(),
    {
        self.count
    }

    /// Whether `h` names a live record.
    pub fn is_live(&self, h: Handle) -> (r: bool)
        ensures
            r == self.contains(h),
    {
        if h.slot < self.slots.len() {
            match self.slots[h.slot] {
                Slot::Live { generation, .. } => generation == h.generation,
                _ => false,
            }
        } else {
            false
        }
    }

    /// Allocates a record for `particle` and returns its handle. The handle
    /// is new: it names no live record and no destroyed one.
    pub fn create(&mut self, particle: Particle) -> (h: Handle)
        requires
            old(self).wf(),
        ensures
            final(self).wf(),
            !old(self).contains(h),
            !old(self).retired().contains(h),
            final(self)@ == old(self)@.insert(h, particle),
            final(self).retired() == old(self).retired(),
    {
        let h = match self.free.pop() {
            Some(h) => {
                self.slots[h.slot] = Slot::Live { generation: h.generation, particle };
                h
            },
            None => {
                let h = Handle { slot: self.slots.len(), generation: 0 };
                self.slots.push(Slot::Live { generation: 0, particle });
                h
            },
        };
        let n: usize = self.slots.len();
        assert(self.count < n);
        self.count = self.count + 1;
        proof {
            assert(final(self)@ =~= old(self)@.insert(h, particle));
            assert(final(self).retired() =~= old(self).retired());
        }
        h
    }

    /// The record that `h` names.
    pub fn get(&self, h: Handle) -> (r: Result<Particle, SimError>)
        ensures
            self.contains(h) ==> r == Ok::<Particle, SimError>(self@[h]),
            !self.contains(h) ==> r == Err::<Particle, SimError>(SimError::InvalidHandle),
    {
        if h.slot < self.slots.len() {
            match self.slots[h.slot] {
                Slot::Live { generation, particle } => {
                    if generation == h.generation {
                        Ok(particle)
                    } else {
                        Err(SimError::InvalidHandle)
                    }
                },
                _ => Err(SimError::InvalidHandle),
            }
        } else {
            Err(SimError::InvalidHandle)
        }
    }

    /// Replaces the record that `h` names by `particle`.
    pub fn set(&mut self, h: Handle, particle: Particle) -> (r: Result<(), SimError>)
        requires
            old(self).wf(),
        ensures
            final(self).wf(),
            final(self).retired() == old(self).retired(),
            old(self).contains(h) ==> r is Ok && final(self)@ == old(self)@.insert(h, particle),
            !old(self).contains(h) ==> r == Err::<(), SimError>(SimError::InvalidHandle)
                && final(self)@ == old(self)@,
    {
        if !self.is_live(h) {
            return Err(SimError::InvalidHandle);
        }
        self.slots[h.slot] = Slot::Live { generation: h.generation, particle };
        proof {
            assert(final(self)@ =~= old(self)@.insert(h, particle));
            assert(old(self)@.insert(h, particle).dom() =~= old(self)@.dom());
            assert(final(self).retired() =~= old(self).retired());
        }
        Ok(())
    }

    /// Updates the record that `h` names in place: the new record is what
    /// `f` makes of the old one.
    pub fn mutate<F: FnOnce(Particle) -> Particle>(&mut self, h: Handle, f: F) -> (r: Result<
        (),
        SimError,
    >)
        requires
            old(self).wf(),
            old(self).contains(h) ==> f.requires((old(self)@[h],)),
        ensures
            final(self).wf(),
            final(self).retired() == old(self).retired(),
            old(self).contains(h) ==> r is Ok && final(self).contains(h) && f.ensures(
                (old(self)@[h],),
                final(self)@[h],
            ) && final(self)@ == old(self)@.insert(h, final(self)@[h]),
            !old(self).contains(h) ==> r == Err::<(), SimError>(SimError::InvalidHandle)
                && final(self)@ == old(self)@,
    {
        match self.get(h) {
            Ok(p) => {
                let next = f(p);
                self.set(h, next)
            },
            Err(e) => Err(e),
        }
    }

    /// Releases the record that `h` names. From then on `h` is invalid.
    pub fn destroy(&mut self, h: Handle) -> (r: Result<(), SimError>)
        requires
            old(self).wf(),
        ensures
            final(self).wf(),
            old(self).contains(h) ==> r is Ok && final(self)@ == old(self)@.remove(h)
                && final(self).retired() == old(self).retired().insert(h),
            !old(self).contains(h) ==> r == Err::<(), SimError>(SimError::InvalidHandle)
                && final(self)@ == old(self)@ && final(self).retired() == old(self).retired(),
    {
        if !self.is_live(h) {
            return Err(SimError::InvalidHandle);
        }
        if h.generation < u64::MAX {
            let next = Handle { slot: h.slot, generation: h.generation + 1 };
            self.slots[h.slot] = Slot::Vacant { generation: next.generation };
            self.free.push(next);
        } else {
            self.slots[h.slot] = Slot::Retired;
        }
        proof {
            assert(old(self)@.dom().len() >= 1);
        }
        self.count = self.count - 1;
        proof {
            assert(final(self)@ =~= old(self)@.remove(h));
            assert(final(self).retired() =~= old(self).retired().insert(h));
        }
        Ok(())
    }
}

} // verus!
