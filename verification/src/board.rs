//! The board: the mathematical picture of the sandbox that the rules of the
//! simulation are stated over. It records what matter lies in each cell, and
//! nothing of how the particles are stored or named.

use vstd::prelude::*;
use crate::grid::cell_of;
use crate::particle::{Handle, Particle};

verus! {

/// The contents of a grid at one instant.
pub struct Board {
    pub width: int,
    pub height: int,
    /// The particle in each cell, by cell number.
    pub cells: Seq<Option<Particle>>,
    /// Whether the coming tick sweeps the rows from right to left.
    pub reverse: bool,
}

impl Board {
    /// The board has as many cells as its dimensions say, and no more than
    /// a machine can number.
    pub open spec fn wf(self) -> bool {
        &&& self.width > 0
        &&& self.height > 0
        &&& self.cells.len() == self.width * self.height
        &&& self.cells.len() <= usize::MAX
    }

    /// The particle in the cell that `(x, y)` names.
    pub open spec fn at(self, x: int, y: int) -> Option<Particle> {
        self.cells[cell_of(self.width, self.height, x, y)]
    }
}

/// What lies in each cell, given which handle sits there and which particle
/// each handle names.
pub open spec fn content(cells: Seq<Option<Handle>>, particles: Map<Handle, Particle>) -> Seq<
    Option<Particle>,
> {
    Seq::new(
        cells.len(),
        |c: int|
            match cells[c] {
                Some(h) => Some(particles[h]),
                None => None,
            },
    )
}

/// The number of occupied cells among the first `k`.
pub open spec fn population_upto<T>(cells: Seq<Option<T>>, k: nat) -> nat
    decreases k,
{
    if k == 0 {
        0
    } else {
        population_upto(cells, (k - 1) as nat) + (if cells[k - 1] is Some {
            1nat
        } else {
            0nat
        })
    }
}

/// The number of occupied cells.
pub open spec fn population<T>(cells: Seq<Option<T>>) -> nat {
    population_upto(cells, cells.len())
}

/// Changing one cell changes the population by what leaves and what comes.
pub proof fn lemma_population_update<T>(cells: Seq<Option<T>>, i: int, v: Option<T>, k: nat)
    requires
        0 <= i < cells.len(),
        k <= cells.len(),
    ensures
        population_upto(cells.update(i, v), k) + (if i < k && cells[i] is Some {
            1nat
        } else {
            0nat
        }) == population_upto(cells, k) + (if i < k && v is Some {
            1nat
        } else {
            0nat
        }),
    decreases k,
{
    if k > 0 {
        lemma_population_update(cells, i, v, (k - 1) as nat);
    }
}

/// Two rows of cells that are occupied in the same places have the same
/// population.
pub proof fn lemma_population_same<S, T>(a: Seq<Option<S>>, b: Seq<Option<T>>, k: nat)
    requires
        k <= a.len(),
        k <= b.len(),
        forall|c: int| 0 <= c < k ==> (#[trigger] a[c] is Some) == (b[c] is Some),
    ensures
        population_upto(a, k) == population_upto(b, k),
    decreases k,
{
    if k > 0 {
        lemma_population_same(a, b, (k - 1) as nat);
        assert((a[k - 1] is Some) == (b[k - 1] is Some));
    }
}

/// The handles that sit in the first `k` cells.
pub open spec fn handles_upto(cells: Seq<Option<Handle>>, k: nat) -> Set<Handle> {
    Set::new(|h: Handle| exists|c: int| 0 <= c < k && #[trigger] cells[c] == Some(h))
}

/// Where no handle sits in two cells, there are as many handles on the
/// grid as there are occupied cells.
pub proof fn lemma_handles_count(cells: Seq<Option<Handle>>, k: nat)
    requires
        k <= cells.len(),
        forall|c1: int, c2: int|
            0 <= c1 < cells.len() && 0 <= c2 < cells.len() && (#[trigger] cells[c1]) is Some
                && cells[c1] == #[trigger] cells[c2] ==> c1 == c2,
    ensures
        handles_upto(cells, k).finite(),
        handles_upto(cells, k).len() == population_upto(cells, k),
    decreases k,
{
    if k == 0 {
        assert(handles_upto(cells, k) =~= Set::<Handle>::empty());
    } else {
        let j = (k - 1) as nat;
        lemma_handles_count(cells, j);
        let before = handles_upto(cells, j);
        match cells[j as int] {
            Some(h) => {
                assert(!before.contains(h)) by {
                    if before.contains(h) {
                        let c = choose|c: int| 0 <= c < j && #[trigger] cells[c] == Some(h);
                        assert(cells[c] == cells[j as int]);
                    }
                }
                assert(handles_upto(cells, k) =~= before.insert(h)) by {
                    assert forall|g: Handle| handles_upto(cells, k).contains(g)
                        == before.insert(h).contains(g) by {
                        if handles_upto(cells, k).contains(g) {
                            let c = choose|c: int| 0 <= c < k && #[trigger] cells[c] == Some(g);
                            if c < j {
                                assert(before.contains(g));
                            }
                        }
                        if before.contains(g) {
                            let c = choose|c: int| 0 <= c < j && #[trigger] cells[c] == Some(g);
                            assert(0 <= c < k && cells[c] == Some(g));
                        }
                        if g == h {
                            assert(cells[j as int] == Some(g));
                        }
                    }
                }
            },
            None => {
                assert(handles_upto(cells, k) =~= before) by {
                    assert forall|g: Handle| handles_upto(cells, k).contains(g)
                        == before.contains(g) by {
                        if handles_upto(cells, k).contains(g) {
                            let c = choose|c: int| 0 <= c < k && #[trigger] cells[c] == Some(g);
                            assert(c < j);
                        }
                        if before.contains(g) {
                            let c = choose|c: int| 0 <= c < j && #[trigger] cells[c] == Some(g);
                            assert(0 <= c < k && cells[c] == Some(g));
                        }
                    }
                }
            },
        }
    }
}

} // verus!
