//! Commit: the actions of one tick are applied to grid and store, one after
//! the other. An action that cannot be applied to the world as it then
//! stands is dropped, and the world is left as it was before that action.

use vstd::prelude::*;
use crate::board::{lemma_population_update, population};
use crate::particle::{Handle, Particle};
use crate::rules::{Action, Proposal};
use crate::world::World;

verus! {

/// Where the occupant of a cell comes from, counted from the start of a
/// commit.
pub enum Origin {
    /// The cell is empty.
    Empty,
    /// The occupant is the particle that sat in cell `from` at the start.
    Kept { from: int },
    /// The occupant was created during the commit.
    Fresh,
}

/// What a commit has made of a board so far.
pub struct Outcome {
    /// The particle in each cell.
    pub cells: Seq<Option<Particle>>,
    /// Where the occupant of each cell comes from.
    pub origin: Seq<Origin>,
    /// How many particles were created.
    pub created: nat,
    /// How many particles were destroyed.
    pub destroyed: nat,
    /// How many actions were dropped.
    pub dropped: nat,
}

/// The outcome before any action: every particle is where it was.
pub open spec fn spec_start(cells: Seq<Option<Particle>>) -> Outcome {
    Outcome {
        cells,
        origin: Seq::new(
            cells.len(),
            |c: int|
                if cells[c] is Some {
                    Origin::Kept { from: c }
                } else {
                    Origin::Empty
                },
        ),
        created: 0,
        destroyed: 0,
        dropped: 0,
    }
}

/// Whether the action can be applied to the cells as they stand.
///
/// A move needs a particle to move and an empty cell to move into. A swap
/// needs a particle in each of its two cells. To become something else, or
/// to vanish, needs a particle. To spawn needs an empty cell.
pub open spec fn applicable(cells: Seq<Option<Particle>>, p: Proposal) -> bool {
    match p.action {
        Action::Stay => true,
        Action::Move { to } => p.from < cells.len() && to < cells.len()
            && cells[p.from as int] is Some && cells[to as int] is None,
        Action::Swap { with } => p.from < cells.len() && with < cells.len()
            && cells[p.from as int] is Some && cells[with as int] is Some,
        Action::Become { next } => p.from < cells.len() && cells[p.from as int] is Some,
        Action::Vanish => p.from < cells.len() && cells[p.from as int] is Some,
        Action::Spawn { to, particle } => to < cells.len() && cells[to as int] is None,
    }
}

/// The outcome after one more action.
pub open spec fn spec_apply(o: Outcome, p: Proposal) -> Outcome {
    let from = p.from as int;
    if !applicable(o.cells, p) {
        Outcome {
            cells: o.cells,
            origin: o.origin,
            created: o.created,
            destroyed: o.destroyed,
            dropped: o.dropped + 1,
        }
    } else {
        match p.action {
            Action::Stay => o,
            Action::Move { to } => Outcome {
                cells: o.cells.update(from, None).update(to as int, o.cells[from]),
                origin: o.origin.update(from, Origin::Empty).update(to as int, o.origin[from]),
                created: o.created,
                destroyed: o.destroyed,
                dropped: o.dropped,
            },
            Action::Swap { with } => Outcome {
                cells: o.cells.update(from, o.cells[with as int]).update(
                    with as int,
                    o.cells[from],
                ),
                origin: o.origin.update(from, o.origin[with as int]).update(
                    with as int,
                    o.origin[from],
                ),
                created: o.created,
                destroyed: o.destroyed,
                dropped: o.dropped,
            },
            Action::Become { next } => Outcome {
                cells: o.cells.update(from, Some(next)),
                origin: o.origin,
                created: o.created,
                destroyed: o.destroyed,
                dropped: o.dropped,
            },
            Action::Vanish => Outcome {
                cells: o.cells.update(from, None),
                origin: o.origin.update(from, Origin::Empty),
                created: o.created,
                destroyed: o.destroyed + 1,
                dropped: o.dropped,
            },
            Action::Spawn { to, particle } => Outcome {
                cells: o.cells.update(to as int, Some(particle)),
                origin: o.origin.update(to as int, Origin::Fresh),
                created: o.created + 1,
                destroyed: o.destroyed,
                dropped: o.dropped,
            },
        }
    }
}

/// The outcome after the first `k` of the actions.
pub open spec fn spec_run(o: Outcome, actions: Seq<Proposal>, k: nat) -> Outcome
    decreases k,
{
    if k == 0 {
        o
    } else {
        spec_apply(spec_run(o, actions, (k - 1) as nat), actions[k - 1])
    }
}

/// What a whole commit makes of a board.
pub open spec fn spec_commit(cells: Seq<Option<Particle>>, actions: Seq<Proposal>) -> Outcome {
    spec_run(spec_start(cells), actions, actions.len())
}

/// An outcome keeps the number of cells.
pub proof fn lemma_run_len(o: Outcome, actions: Seq<Proposal>, k: nat)
    requires
        o.origin.len() == o.cells.len(),
    ensures
        spec_run(o, actions, k).cells.len() == o.cells.len(),
        spec_run(o, actions, k).origin.len() == o.cells.len(),
    decreases k,
{
    if k > 0 {
        lemma_run_len(o, actions, (k - 1) as nat);
    }
}

/// Conservation: after any number of actions there are as many particles
/// on the board as before, more by those created and fewer by those
/// destroyed. A move, a swap, a change in place and a dropped action leave
/// the number as it is.
pub proof fn lemma_commit_conserves(cells: Seq<Option<Particle>>, actions: Seq<Proposal>, k: nat)
    ensures
        population(spec_run(spec_start(cells), actions, k).cells) + spec_run(
            spec_start(cells),
            actions,
            k,
        ).destroyed == population(cells) + spec_run(spec_start(cells), actions, k).created,
    decreases k,
{
    if k > 0 {
        let j = (k - 1) as nat;
        lemma_commit_conserves(cells, actions, j);
        lemma_run_len(spec_start(cells), actions, j);
        let o = spec_run(spec_start(cells), actions, j);
        let p = actions[j as int];
        let from = p.from as int;
        let n = o.cells.len();
        if applicable(o.cells, p) {
            match p.action {
                Action::Stay => {},
                Action::Move { to } => {
                    let mid = o.cells.update(from, None);
                    lemma_population_update(o.cells, from, None, n);
                    lemma_population_update(mid, to as int, o.cells[from], n);
                },
                Action::Swap { with } => {
                    let mid = o.cells.update(from, o.cells[with as int]);
                    lemma_population_update(o.cells, from, o.cells[with as int], n);
                    lemma_population_update(mid, with as int, o.cells[from], n);
                },
                Action::Become { next } => {
                    lemma_population_update(o.cells, from, Some(next), n);
                },
                Action::Vanish => {
                    lemma_population_update(o.cells, from, None, n);
                },
                Action::Spawn { to, particle } => {
                    lemma_population_update(o.cells, to as int, Some(particle), n);
                },
            }
        }
    }
}

/// Whether the handles on the grid `after` are where `origin` says, counted
/// from the world `before`: an empty cell is empty, a kept particle has the
/// handle that it had, and a fresh one has a handle that named nothing
/// before, live or destroyed.
pub open spec fn traced(before: &World, after: &World, origin: Seq<Origin>) -> bool {
    &&& origin.len() == after.cells().len()
    &&& before.cells().len() == after.cells().len()
    &&& forall|c: int|
        0 <= c < origin.len() ==> match #[trigger] origin[c] {
            Origin::Empty => after.cells()[c] is None,
            Origin::Kept { from } => 0 <= from < before.cells().len()
                && before.cells()[from] is Some && after.cells()[c] == before.cells()[from],
            Origin::Fresh => after.cells()[c] is Some && !before.particles().dom().contains(
                after.cells()[c]->Some_0,
            ) && !before.retired().contains(after.cells()[c]->Some_0),
        }
}

/// Whether every particle of `before` is accounted for in `after`: it is
/// still alive, or it is among the destroyed; and what was destroyed stays
/// so.
pub open spec fn accounted(before: &World, after: &World) -> bool {
    &&& before.retired().subset_of(after.retired())
    &&& forall|h: Handle| #[trigger]
        before.particles().dom().contains(h) ==> after.particles().dom().contains(h)
            || after.retired().contains(h)
}

/// How one action changes the handles on the grid and the records in the
/// store.
pub open spec fn stepped(before: &World, after: &World, p: Proposal) -> bool {
    let from = p.from as int;
    let same_particles = after.particles() == before.particles() && after.retired()
        == before.retired();
    if !applicable(before.board().cells, p) {
        after.cells() == before.cells() && same_particles
    } else {
        match p.action {
            Action::Stay => after.cells() == before.cells() && same_particles,
            Action::Move { to } => after.cells() == before.cells().update(from, None).update(
                to as int,
                before.cells()[from],
            ) && same_particles,
            Action::Swap { with } => after.cells() == before.cells().update(
                from,
                before.cells()[with as int],
            ).update(with as int, before.cells()[from]) && same_particles,
            Action::Become { next } => after.cells() == before.cells() && after.particles()
                == before.particles().insert(before.cells()[from]->Some_0, next)
                && after.retired() == before.retired(),
            Action::Vanish => after.cells() == before.cells().update(from, None)
                && after.particles() == before.particles().remove(before.cells()[from]->Some_0)
                && after.retired() == before.retired().insert(before.cells()[from]->Some_0),
            Action::Spawn { to, particle } => after.cells()[to as int] is Some && after.cells()
                == before.cells().update(to as int, after.cells()[to as int])
                && !before.particles().dom().contains(after.cells()[to as int]->Some_0)
                && !before.retired().contains(after.cells()[to as int]->Some_0)
                && after.particles() == before.particles().insert(
                after.cells()[to as int]->Some_0,
                particle,
            ) && after.retired() == before.retired(),
        }
    }
}

/// Applies one action to the world, or drops it where it cannot be
/// applied. Tells whether it was applied.
fn apply(world: &mut World, p: Proposal) -> (applied: bool)
    requires
        old(world).wf(),
    ensures
        final(world).wf(),
        final(world).same_frame(old(world)),
        applied == applicable(old(world).board().cells, p),
        final(world).board().cells == spec_apply(spec_start(old(world).board().cells), p).cells,
        stepped(old(world), final(world), p),
{
    let n: usize = world.grid().cell_count();
    let from: usize = p.from;
    match p.action {
        Action::Stay => true,
        Action::Move { to } => {
            if from < n && to < n && world.occupied_at(from) && !world.occupied_at(to) {
                let _moved = world.move_at(from, to);
                true
            } else {
                false
            }
        },
        Action::Swap { with } => {
            if from < n && with < n && world.occupied_at(from) && world.occupied_at(with) {
                world.swap_at(from, with);
                true
            } else {
                false
            }
        },
        Action::Become { next } => {
            if from < n && world.occupied_at(from) {
                let _changed = world.set_at(from, next);
                true
            } else {
                false
            }
        },
        Action::Vanish => {
            if from < n && world.occupied_at(from) {
                let _gone = world.erase_at(from);
                true
            } else {
                false
            }
        },
        Action::Spawn { to, particle } => {
            if to < n && !world.occupied_at(to) {
                let _made = world.spawn_at(to, particle);
                true
            } else {
                false
            }
        },
    }
}

/// One step keeps the handles traced, the particles accounted for and the
/// number of particles in balance.
proof fn lemma_step(start: &World, before: &World, after: &World, o: Outcome, p: Proposal)
    requires
        start.wf(),
        before.wf(),
        after.wf(),
        o.cells == before.board().cells,
        traced(start, before, o.origin),
        accounted(start, before),
        stepped(before, after, p),
        before.particles().dom().finite(),
        before.particles().dom().len() + o.destroyed == start.particles().dom().len() + o.created,
    ensures
        traced(start, after, spec_apply(o, p).origin),
        accounted(start, after),
        after.particles().dom().finite(),
        after.particles().dom().len() + spec_apply(o, p).destroyed == start.particles().dom().len()
            + spec_apply(o, p).created,
{
    let from = p.from as int;
    let next = spec_apply(o, p);
    if applicable(o.cells, p) {
        match p.action {
            Action::Stay => {},
            Action::Move { to } => {
                assert forall|c: int| 0 <= c < next.origin.len() implies match #[trigger] next.origin[c] {
                    Origin::Empty => after.cells()[c] is None,
                    Origin::Kept { from } => 0 <= from < start.cells().len()
                        && start.cells()[from] is Some && after.cells()[c] == start.cells()[from],
                    Origin::Fresh => after.cells()[c] is Some
                        && !start.particles().dom().contains(after.cells()[c]->Some_0)
                        && !start.retired().contains(after.cells()[c]->Some_0),
                } by {
                    if c == to {
                        assert(next.origin[c] == o.origin[from]);
                    } else if c == from {
                    } else {
                        assert(next.origin[c] == o.origin[c]);
                    }
                }
            },
            Action::Swap { with } => {
                assert forall|c: int| 0 <= c < next.origin.len() implies match #[trigger] next.origin[c] {
                    Origin::Empty => after.cells()[c] is None,
                    Origin::Kept { from } => 0 <= from < start.cells().len()
                        && start.cells()[from] is Some && after.cells()[c] == start.cells()[from],
                    Origin::Fresh => after.cells()[c] is Some
                        && !start.particles().dom().contains(after.cells()[c]->Some_0)
                        && !start.retired().contains(after.cells()[c]->Some_0),
                } by {
                    if c == with {
                        assert(next.origin[c] == o.origin[from]);
                    } else if c == from {
                        assert(next.origin[c] == o.origin[with as int]);
                    } else {
                        assert(next.origin[c] == o.origin[c]);
                    }
                }
            },
            Action::Become { next: particle } => {
                let h = before.cells()[from]->Some_0;
                assert(before.particles().dom().contains(h));
                assert(after.particles().dom() =~= before.particles().dom());
            },
            Action::Vanish => {
                let h = before.cells()[from]->Some_0;
                assert(before.particles().dom().contains(h));
                assert(after.particles().dom() =~= before.particles().dom().remove(h));
                assert forall|c: int| 0 <= c < next.origin.len() implies match #[trigger] next.origin[c] {
                    Origin::Empty => after.cells()[c] is None,
                    Origin::Kept { from } => 0 <= from < start.cells().len()
                        && start.cells()[from] is Some && after.cells()[c] == start.cells()[from],
                    Origin::Fresh => after.cells()[c] is Some
                        && !start.particles().dom().contains(after.cells()[c]->Some_0)
                        && !start.retired().contains(after.cells()[c]->Some_0),
                } by {
                    if c != from {
                        assert(next.origin[c] == o.origin[c]);
                    }
                }
            },
            Action::Spawn { to, particle } => {
                let h = after.cells()[to as int]->Some_0;
                assert(after.particles().dom() =~= before.particles().dom().insert(h));
                assert(!start.particles().dom().contains(h));
                assert(!start.retired().contains(h));
                assert forall|c: int| 0 <= c < next.origin.len() implies match #[trigger] next.origin[c] {
                    Origin::Empty => after.cells()[c] is None,
                    Origin::Kept { from } => 0 <= from < start.cells().len()
                        && start.cells()[from] is Some && after.cells()[c] == start.cells()[from],
                    Origin::Fresh => after.cells()[c] is Some
                        && !start.particles().dom().contains(after.cells()[c]->Some_0)
                        && !start.retired().contains(after.cells()[c]->Some_0),
                } by {
                    if c != to {
                        assert(next.origin[c] == o.origin[c]);
                    }
                }
            },
        }
    }
}

/// Commit: applies the actions to the world in their order, and returns
/// how many of them had to be dropped.
///
/// The board afterwards is what `spec_commit` makes of the board before.
/// Every particle keeps its handle wherever it goes, a created particle has
/// a handle that never named anything, and the number of particles grows by
/// the number created and shrinks by the number destroyed.
pub fn commit(world: &mut World, actions: &Vec<Proposal>) -> (dropped: usize)
    requires
        old(world).wf(),
    ensures
        final(world).wf(),
        final(world).same_frame(old(world)),
        final(world).board().cells == spec_commit(old(world).board().cells, actions@).cells,
        dropped == spec_commit(old(world).board().cells, actions@).dropped,
        traced(old(world), final(world), spec_commit(old(world).board().cells, actions@).origin),
        accounted(old(world), final(world)),
        final(world).particles().dom().finite(),
        final(world).particles().dom().len() + spec_commit(
            old(world).board().cells,
            actions@,
        ).destroyed == old(world).particles().dom().len() + spec_commit(
            old(world).board().cells,
            actions@,
        ).created,
{
    let ghost first = spec_start(old(world).board().cells);
    let mut dropped: usize = 0;
    let mut i: usize = 0;
    proof {
        world.lemma_particles_finite();
    }
    while i < actions.len()
        invariant
            old(world).wf(),
            world.wf(),
            world.same_frame(old(world)),
            first == spec_start(old(world).board().cells),
            i <= actions@.len(),
            dropped <= i,
            world.board().cells == spec_run(first, actions@, i as nat).cells,
            dropped == spec_run(first, actions@, i as nat).dropped,
            traced(old(world), world, spec_run(first, actions@, i as nat).origin),
            accounted(old(world), world),
            world.particles().dom().finite(),
            world.particles().dom().len() + spec_run(first, actions@, i as nat).destroyed == old(
                world,
            ).particles().dom().len() + spec_run(first, actions@, i as nat).created,
        decreases actions@.len() - i,
    {
        let ghost before = *world;
        let ghost o = spec_run(first, actions@, i as nat);
        let applied = apply(world, actions[i]);
        proof {
            lemma_step(old(world), &before, world, o, actions@[i as int]);
        }
        if !applied {
            dropped = dropped + 1;
        }
        i = i + 1;
    }
    dropped
}

} // verus!
