//! The world: a grid and the store of the particles on it, kept consistent
//! with each other. Every live particle sits in exactly one cell, and every
//! occupied cell holds a live particle.

use vstd::prelude::*;
use crate::board::{
    content, handles_upto, lemma_handles_count, lemma_population_same, population, Board,
};
use crate::error::SimError;
use crate::grid::Grid;
use crate::material::Color;
use crate::particle::{Handle, Particle};
use crate::store::ParticleStore;

verus! {

/// The state of one sandbox.
pub struct World {
    grid: Grid,
    store: ParticleStore,
    ticks: u64,
}

impl World {
    /// The grid of the world.
    pub closed spec fn spec_grid(&self) -> Grid {
        self.grid
    }

    /// The store of the world.
    pub closed spec fn spec_store(&self) -> ParticleStore {
        self.store
    }

    /// The number of ticks that have run.
    pub closed spec fn spec_ticks(&self) -> u64 {
        self.ticks
    }

    /// The handle in each cell, by cell number.
    pub open spec fn cells(&self) -> Seq<Option<Handle>> {
        self.spec_grid()@
    }

    /// The live particles, by handle.
    pub open spec fn particles(&self) -> Map<Handle, Particle> {
        self.spec_store()@
    }

    /// The handles of the particles that were destroyed.
    pub open spec fn retired(&self) -> Set<Handle> {
        self.spec_store().retired()
    }

    /// Whether the coming tick sweeps the rows from right to left.
    pub open spec fn reverse(&self) -> bool {
        self.spec_ticks() % 2 == 1
    }

    /// The contents of the grid, as the rules of the simulation see them.
    pub open spec fn board(&self) -> Board {
        Board {
            width: self.spec_grid().spec_width() as int,
            height: self.spec_grid().spec_height() as int,
            cells: content(self.cells(), self.particles()),
            reverse: self.reverse(),
        }
    }

    /// The invariant of the world: grid and store are sound, every handle
    /// on the grid names a live particle, and every live particle is on the
    /// grid.
    pub open spec fn wf(&self) -> bool {
        &&& self.spec_grid().wf()
        &&& self.spec_store().wf()
        &&& forall|c: int|
            0 <= c < self.cells().len() && (#[trigger] self.cells()[c]) is Some
                ==> self.particles().dom().contains(self.cells()[c]->Some_0)
        &&& forall|h: Handle| #[trigger]
            self.particles().dom().contains(h) ==> self.spec_grid().holds(h)
    }

    /// Whether `other` has the dimensions, the background and the tick
    /// count of this world.
    pub open spec fn same_frame(&self, other: &World) -> bool {
        &&& self.spec_grid().same_shape(&other.spec_grid())
        &&& self.spec_ticks() == other.spec_ticks()
    }

    /// An empty world of `width` by `height` cells. Both sides must be at
    /// least 1 and at most `MAX_SIDE`.
    pub fn new(width: usize, height: usize, background: Color) -> (r: Result<World, SimError>)
        ensures
            0 < width <= crate::grid::MAX_SIDE && 0 < height <= crate::grid::MAX_SIDE ==> r is Ok
                && r->Ok_0.wf() && r->Ok_0.spec_grid().spec_width() == width
                && r->Ok_0.spec_grid().spec_height() == height
                && r->Ok_0.spec_grid().spec_background() == background && r->Ok_0.spec_ticks()
                == 0 && r->Ok_0.particles() == Map::<Handle, Particle>::empty()
                && r->Ok_0.retired() == Set::<Handle>::empty() && r->Ok_0.cells() == Seq::new(
                (width * height) as nat,
                |c: int| None::<Handle>,
            ),
            !(0 < width <= crate::grid::MAX_SIDE && 0 < height <= crate::grid::MAX_SIDE) ==> r is Err
                && r->Err_0 == SimError::ConfigurationError,
    {
        match Grid::new(width, height, background) {
            Ok(grid) => Ok(World { grid, store: ParticleStore::new(), ticks: 0 }),
            Err(e) => Err(e),
        }
    }

    /// The grid, to read.
    pub fn grid(&self) -> (g: &Grid)
        ensures
            *g == self.spec_grid(),
    {
        &self.grid
    }

    /// The store, to read.
    pub fn store(&self) -> (s: &ParticleStore)
        ensures
            *s == self.spec_store(),
    {
        &self.store
    }

    /// The number of ticks that have run.
    pub fn ticks(&self) -> (t: u64)
        ensures
            t == self.spec_ticks(),
    {
        self.ticks
    }

    /// The number of live particles.
    pub fn len(&self) -> (n: usize)
        requires
            self.wf(),
        ensures
            self.particles().dom().finite(),
            n == self.particles().dom().len(),
    {
        self.store.len()
    }

    /// The particle in cell number `c`. A number beyond the last cell names
    /// no cell and so no particle.
    pub fn particle_at(&self, c: usize) -> (r: Option<Particle>)
        requires
            self.wf(),
        ensures
            c < self.cells().len() ==> r == self.board().cells[c as int],
            c >= self.cells().len() ==> r is None,
    {
        match self.grid.occupant_at(c) {
            Some(h) => match self.store.get(h) {
                Ok(p) => Some(p),
                Err(_) => None,
            },
            None => None,
        }
    }

    /// Creates `particle` and puts it into cell number `c`. Refused with
    /// `CellOccupied` where the cell holds a particle.
    pub(crate) fn spawn_at(&mut self, c: usize, particle: Particle) -> (r: Result<Handle, SimError>)
        requires
            old(self).wf(),
            c < old(self).cells().len(),
        ensures
            final(self).wf(),
            final(self).same_frame(old(self)),
            final(self).retired() == old(self).retired(),
            old(self).cells()[c as int] is Some ==> r == Err::<Handle, SimError>(
                SimError::CellOccupied,
            ) && final(self).cells() == old(self).cells() && final(self).particles() == old(self).particles(),
            old(self).cells()[c as int] is None ==> r is Ok && !old(self).particles().dom().contains(
                r->Ok_0,
            ) && !old(self).retired().contains(r->Ok_0) && final(self).cells() == old(self).cells().update(c as int, Some(r->Ok_0)) && final(self).particles() == old(self).particles().insert(r->Ok_0, particle) && final(self).board().cells == old(self).board().cells.update(c as int, Some(particle)),
    {
        if self.grid.occupant_at(c).is_some() {
            return Err(SimError::CellOccupied);
        }
        let h = self.store.create(particle);
        proof {
            assert(!self.grid.holds(h)) by {
                if self.grid.holds(h) {
                    let d = choose|d: int|
                        0 <= d < self.grid@.len() && #[trigger] self.grid@[d] == Some(h);
                    assert(old(self).cells()[d] is Some);
                }
            }
        }
        let _placed = self.grid.place_at(c, h);
        proof {
            assert forall|g: Handle| #[trigger]
                self.particles().dom().contains(g) implies self.spec_grid().holds(g) by {
                if g == h {
                    assert(self.cells()[c as int] == Some(g));
                } else {
                    assert(old(self).particles().dom().contains(g));
                assert(old(self).spec_grid().holds(g));
                    let d = choose|d: int|
                        0 <= d < old(self).cells().len() && #[trigger] old(self).cells()[d]
                            == Some(g);
                    assert(self.cells()[d] == Some(g));
                }
            }
            assert forall|d: int|
                0 <= d < self.cells().len() && (#[trigger] self.cells()[d]) is Some implies self.particles().dom().contains(
                self.cells()[d]->Some_0,
            ) by {
                if d != c {
                    assert(old(self).cells()[d] is Some);
                }
            }
            assert(self.board().cells =~= old(self).board().cells.update(
                c as int,
                Some(particle),
            )) by {
                assert forall|d: int| 0 <= d < self.cells().len() implies self.board().cells[d]
                    == old(self).board().cells.update(c as int, Some(particle))[d] by {
                    if d != c && old(self).cells()[d] is Some {
                        assert(old(self).particles().dom().contains(old(self).cells()[d]->Some_0));
                    }
                }
            }
        }
        Ok(h)
    }

    /// Empties cell number `c`, destroys the particle that was there, and
    /// returns its handle, which is invalid from then on.
    pub(crate) fn erase_at(&mut self, c: usize) -> (r: Option<Handle>)
        requires
            old(self).wf(),
            c < old(self).cells().len(),
        ensures
            final(self).wf(),
            final(self).same_frame(old(self)),
            r == old(self).cells()[c as int],
            final(self).cells() == old(self).cells().update(c as int, None),
            final(self).board().cells == old(self).board().cells.update(c as int, None),
            r is Some ==> final(self).particles() == old(self).particles().remove(r->Some_0)
                && final(self).retired() == old(self).retired().insert(r->Some_0),
            r is None ==> final(self).particles() == old(self).particles() && final(self).retired() == old(self).retired(),
    {
        let r = self.grid.remove_at(c);
        match r {
            Some(h) => {
                let _gone = self.store.destroy(h);
                proof {
                    assert forall|g: Handle| #[trigger]
                        self.particles().dom().contains(g) implies self.spec_grid().holds(g) by {
                        assert(old(self).particles().dom().contains(g));
                assert(old(self).spec_grid().holds(g));
                        let d = choose|d: int|
                            0 <= d < old(self).cells().len() && #[trigger] old(self).cells()[d]
                                == Some(g);
                        assert(self.cells()[d] == Some(g));
                    }
                    assert forall|d: int|
                        0 <= d < self.cells().len() && (#[trigger] self.cells()[d]) is Some implies self.particles().dom().contains(
                        self.cells()[d]->Some_0,
                    ) by {
                        assert(old(self).cells()[d] is Some);
                        assert(old(self).cells()[c as int] is Some);
                    }
                    assert(self.board().cells =~= old(self).board().cells.update(c as int, None))
                        by {
                        assert forall|d: int|
                            0 <= d < self.cells().len() implies self.board().cells[d] == old(self).board().cells.update(c as int, None)[d] by {
                            if d != c && old(self).cells()[d] is Some {
                                assert(old(self).cells()[c as int] is Some);
                            }
                        }
                    }
                }
            },
            None => {
                proof {
                    assert(self.cells() =~= old(self).cells());
                    assert(self.board().cells =~= old(self).board().cells.update(c as int, None));
                }
            },
        }
        r
    }

    /// Moves the particle in cell `from` to cell `to`.
    ///
    /// Where `from` is empty there is nothing to move, and the result is
    /// `Ok(None)`. Where `to` holds another particle the move is refused
    /// with `CellOccupied`. Otherwise the particle sits in `to` afterwards
    /// and its handle is returned.
    pub(crate) fn move_at(&mut self, from: usize, to: usize) -> (r: Result<Option<Handle>, SimError>)
        requires
            old(self).wf(),
            from < old(self).cells().len(),
            to < old(self).cells().len(),
        ensures
            final(self).wf(),
            final(self).same_frame(old(self)),
            final(self).particles() == old(self).particles(),
            final(self).retired() == old(self).retired(),
            old(self).cells()[from as int] is None ==> r == Ok::<Option<Handle>, SimError>(None)
                && final(self).cells() == old(self).cells(),
            old(self).cells()[from as int] is Some && from != to && old(self).cells()[to as int] is Some
                ==> r == Err::<Option<Handle>, SimError>(SimError::CellOccupied) && final(self).cells() == old(self).cells(),
            old(self).cells()[from as int] is Some && (from == to || old(self).cells()[to as int] is None)
                ==> r == Ok::<Option<Handle>, SimError>(old(self).cells()[from as int]) && final(self).cells() == old(self).cells().update(from as int, None).update(
                to as int,
                old(self).cells()[from as int],
            ) && final(self).board().cells == old(self).board().cells.update(
                from as int,
                None,
            ).update(to as int, old(self).board().cells[from as int]),
    {
        let r = self.grid.move_at(from, to);
        proof {
            assert forall|g: Handle| #[trigger]
                self.particles().dom().contains(g) implies self.spec_grid().holds(g) by {
                assert(old(self).particles().dom().contains(g));
                assert(old(self).spec_grid().holds(g));
                let d = choose|d: int|
                    0 <= d < old(self).cells().len() && #[trigger] old(self).cells()[d] == Some(
                        g,
                    );
                if self.cells()[d] != Some(g) {
                    assert(self.cells()[to as int] == Some(g));
                }
            }
            assert forall|d: int|
                0 <= d < self.cells().len() && (#[trigger] self.cells()[d]) is Some implies self.particles().dom().contains(
                self.cells()[d]->Some_0,
            ) by {
                if d == to {
                    assert(old(self).cells()[from as int] is Some || old(self).cells()[d] is Some);
                } else {
                    assert(old(self).cells()[d] is Some);
                }
            }
            if old(self).cells()[from as int] is Some && (from == to || old(self).cells()[to as int] is None) {
                assert(self.board().cells =~= old(self).board().cells.update(
                    from as int,
                    None,
                ).update(to as int, old(self).board().cells[from as int]));
            }
        }
        r
    }

    /// Exchanges the contents of cells `a` and `b`.
    pub(crate) fn swap_at(&mut self, a: usize, b: usize)
        requires
            old(self).wf(),
            a < old(self).cells().len(),
            b < old(self).cells().len(),
        ensures
            final(self).wf(),
            final(self).same_frame(old(self)),
            final(self).particles() == old(self).particles(),
            final(self).retired() == old(self).retired(),
            final(self).cells() == old(self).cells().update(
                a as int,
                old(self).cells()[b as int],
            ).update(b as int, old(self).cells()[a as int]),
            final(self).board().cells == old(self).board().cells.update(
                a as int,
                old(self).board().cells[b as int],
            ).update(b as int, old(self).board().cells[a as int]),
    {
        self.grid.swap_at(a, b);
        proof {
            assert forall|g: Handle| #[trigger]
                self.particles().dom().contains(g) implies self.spec_grid().holds(g) by {
                assert(old(self).particles().dom().contains(g));
                assert(old(self).spec_grid().holds(g));
                let d = choose|d: int|
                    0 <= d < old(self).cells().len() && #[trigger] old(self).cells()[d] == Some(
                        g,
                    );
                if d == a {
                    assert(self.cells()[b as int] == Some(g));
                } else if d == b {
                    assert(self.cells()[a as int] == Some(g));
                } else {
                    assert(self.cells()[d] == Some(g));
                }
            }
            assert forall|d: int|
                0 <= d < self.cells().len() && (#[trigger] self.cells()[d]) is Some implies self.particles().dom().contains(
                self.cells()[d]->Some_0,
            ) by {
                if d == a {
                    assert(old(self).cells()[b as int] is Some);
                } else if d == b {
                    assert(old(self).cells()[a as int] is Some);
                } else {
                    assert(old(self).cells()[d] is Some);
                }
            }
            assert(self.board().cells =~= old(self).board().cells.update(
                a as int,
                old(self).board().cells[b as int],
            ).update(b as int, old(self).board().cells[a as int]));
        }
    }

    /// Replaces the particle in cell number `c` by `particle`, under the
    /// same handle, which is returned. An empty cell stays empty.
    pub(crate) fn set_at(&mut self, c: usize, particle: Particle) -> (r: Option<Handle>)
        requires
            old(self).wf(),
            c < old(self).cells().len(),
        ensures
            final(self).wf(),
            final(self).same_frame(old(self)),
            final(self).cells() == old(self).cells(),
            final(self).retired() == old(self).retired(),
            r == old(self).cells()[c as int],
            r is Some ==> final(self).particles() == old(self).particles().insert(
                r->Some_0,
                particle,
            ) && final(self).board().cells == old(self).board().cells.update(
                c as int,
                Some(particle),
            ),
            r is None ==> final(self).particles() == old(self).particles(),
    {
        let r = self.grid.occupant_at(c);
        match r {
            Some(h) => {
                let _done = self.store.set(h, particle);
                proof {
                    assert(old(self).cells()[c as int] is Some);
                    assert(self.particles().dom() =~= old(self).particles().dom());
                    assert(self.board().cells =~= old(self).board().cells.update(
                        c as int,
                        Some(particle),
                    )) by {
                        assert forall|d: int|
                            0 <= d < self.cells().len() implies self.board().cells[d] == old(self).board().cells.update(c as int, Some(particle))[d] by {
                            if d != c && old(self).cells()[d] is Some {
                                assert(old(self).cells()[c as int] is Some);
                            }
                        }
                    }
                }
            },
            None => {},
        }
        r
    }

    /// Whether cell number `c` holds a particle. A number beyond the last
    /// cell names no cell and so no particle.
    pub fn occupied_at(&self, c: usize) -> (r: bool)
        requires
            self.wf(),
        ensures
            c < self.cells().len() ==> r == self.cells()[c as int] is Some && r
                == self.board().cells[c as int] is Some,
            c >= self.cells().len() ==> !r,
    {
        self.grid.occupant_at(c).is_some()
    }

    /// Counts one more tick as run. The count starts again from 0 after
    /// the largest number that it can hold; the direction of the sweep
    /// alternates all the same.
    pub(crate) fn advance(&mut self)
        requires
            old(self).wf(),
        ensures
            final(self).wf(),
            final(self).spec_grid() == old(self).spec_grid(),
            final(self).spec_store() == old(self).spec_store(),
            final(self).spec_ticks() == (if old(self).spec_ticks() == u64::MAX {
                0
            } else {
                old(self).spec_ticks() + 1
            }),
            final(self).reverse() == !old(self).reverse(),
    {
        self.ticks = if self.ticks == u64::MAX {
            0
        } else {
            self.ticks + 1
        };
        proof {
            assert(self.cells() == old(self).cells());
            assert(self.particles() == old(self).particles());
            assert forall|h: Handle| #[trigger]
                self.particles().dom().contains(h) implies self.spec_grid().holds(h) by {
                assert(old(self).particles().dom().contains(h));
                assert(old(self).spec_grid().holds(h));
            }
        }
    }

    /// The board of a sound world is a sound board, with a cell for each
    /// cell of the grid.
    pub proof fn lemma_board_wf(&self)
        requires
            self.wf(),
        ensures
            self.board().wf(),
            self.board().cells.len() == self.cells().len(),
            forall|c: int|
                0 <= c < self.cells().len() ==> (#[trigger] self.board().cells[c] is Some)
                    == (self.cells()[c] is Some),
    {
        let w = self.spec_grid().spec_width() as int;
        let h = self.spec_grid().spec_height() as int;
        assert(w * h <= 0x4000_0000) by (nonlinear_arith)
            requires
                0 < w <= 32768,
                0 < h <= 32768,
        ;
    }

    /// Single occupancy: in a sound world every live particle sits in
    /// exactly one cell, and every occupied cell holds a live particle that
    /// sits nowhere else.
    pub proof fn lemma_single_occupancy(&self)
        requires
            self.wf(),
        ensures
            forall|h: Handle| #[trigger]
                self.particles().dom().contains(h) ==> exists|c: int|
                    0 <= c < self.cells().len() && #[trigger] self.cells()[c] == Some(h),
            forall|c1: int, c2: int|
                0 <= c1 < self.cells().len() && 0 <= c2 < self.cells().len() && (
                #[trigger] self.cells()[c1]) is Some && self.cells()[c1]
                    == #[trigger] self.cells()[c2] ==> c1 == c2,
            forall|c: int|
                0 <= c < self.cells().len() && (#[trigger] self.cells()[c]) is Some
                    ==> self.particles().dom().contains(self.cells()[c]->Some_0),
    {
        assert forall|h: Handle| #[trigger] self.particles().dom().contains(h) implies exists|
            c: int,
        |
            0 <= c < self.cells().len() && #[trigger] self.cells()[c] == Some(h) by {
            assert(self.spec_grid().holds(h));
        }
    }

    /// In a sound world there are as many live particles as occupied
    /// cells.
    pub proof fn lemma_len_is_population(&self)
        requires
            self.wf(),
        ensures
            self.particles().dom().finite(),
            self.particles().dom().len() == population(self.board().cells),
            self.particles().dom().len() == population(self.cells()),
    {
        let cells = self.cells();
        let n = cells.len();
        lemma_handles_count(cells, n);
        assert(self.particles().dom() =~= handles_upto(cells, n)) by {
            assert forall|h: Handle|
                self.particles().dom().contains(h) == handles_upto(cells, n).contains(h) by {
                if self.particles().dom().contains(h) {
                    assert(self.spec_grid().holds(h));
                }
                if handles_upto(cells, n).contains(h) {
                    let c = choose|c: int| 0 <= c < n && #[trigger] cells[c] == Some(h);
                    assert(cells[c] is Some);
                }
            }
        }
        lemma_population_same(cells, self.board().cells, n);
    }

    /// The live particles of a sound world are finitely many.
    pub proof fn lemma_particles_finite(&self)
        requires
            self.wf(),
        ensures
            self.particles().dom().finite(),
    {
        self.spec_store().lemma_finite();
    }
}

} // verus!
