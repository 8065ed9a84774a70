//! The grid: a fixed-size toroidal field of cells. Each cell is empty or
//! holds the handle of one particle, and no handle sits in two cells.
//!
//! Cells are numbered row by row: the cell in column `x` of row `y` has the
//! number `y * width + x`. Row 0 is the bottom row; "down" is towards it.

use vstd::prelude::*;
use std::collections::HashMap;
use crate::error::SimError;
use crate::material::Color;
use crate::particle::Handle;

verus! {

broadcast use vstd::std_specs::hash::group_hash_axioms;

/// The largest width and the largest height that a grid can have.
pub const MAX_SIDE: usize = 32768;

/// A coordinate reduced into `0 .. n`, as on a ring of `n` cells.
pub open spec fn wrap(x: int, n: int) -> int {
    x % n
}

/// The number of the cell that the coordinates `(x, y)` name on a grid of
/// `width` by `height` cells. Any pair of integers names a cell.
pub open spec fn cell_of(width: int, height: int, x: int, y: int) -> int {
    wrap(y, height) * width + wrap(x, width)
}

/// A wrapped coordinate lies on the ring.
pub proof fn lemma_wrap_range(x: int, n: int)
    requires
        n > 0,
    ensures
        0 <= wrap(x, n) < n,
{
    vstd::arithmetic::div_mod::lemma_mod_bound(x, n);
}

/// Wrapping has period `n`: a coordinate and the same coordinate one full
/// turn further name the same place.
pub proof fn lemma_wrap_periodic(x: int, n: int)
    requires
        n > 0,
    ensures
        wrap(x + n, n) == wrap(x, n),
        wrap(x - n, n) == wrap(x, n),
{
    vstd::arithmetic::div_mod::lemma_mod_add_multiples_vanish(x, n);
    vstd::arithmetic::div_mod::lemma_mod_sub_multiples_vanish(x, n);
}

/// Coordinates one full turn apart, in either direction, name the same
/// cell.
pub proof fn lemma_cell_periodic(width: int, height: int, x: int, y: int)
    requires
        width > 0,
        height > 0,
    ensures
        cell_of(width, height, x + width, y) == cell_of(width, height, x, y),
        cell_of(width, height, x, y + height) == cell_of(width, height, x, y),
{
    lemma_wrap_periodic(x, width);
    lemma_wrap_periodic(y, height);
}

/// A coordinate that already lies on the ring is left as it is.
pub proof fn lemma_wrap_fixed(x: int, n: int)
    requires
        0 <= x < n,
    ensures
        wrap(x, n) == x,
{
    vstd::arithmetic::div_mod::lemma_small_mod(x as nat, n as nat);
}

/// Every pair of coordinates names a cell of the grid.
pub proof fn lemma_cell_of_range(width: int, height: int, x: int, y: int)
    requires
        width > 0,
        height > 0,
    ensures
        0 <= cell_of(width, height, x, y) < width * height,
{
    lemma_wrap_range(x, width);
    lemma_wrap_range(y, height);
    let r = wrap(y, height);
    assert(r * width + width <= height * width) by (nonlinear_arith)
        requires
            0 <= r < height,
            width > 0,
    ;
    assert(0 <= r * width) by (nonlinear_arith)
        requires
            0 <= r,
            width > 0,
    ;
}

/// The cell that `(x, y)` names lies in the wrapped column and the wrapped
/// row.
pub proof fn lemma_cell_of_parts(width: int, height: int, x: int, y: int)
    requires
        width > 0,
        height > 0,
    ensures
        cell_of(width, height, x, y) % width == wrap(x, width),
        cell_of(width, height, x, y) / width == wrap(y, height),
{
    lemma_wrap_range(x, width);
    lemma_wrap_range(y, height);
    vstd::arithmetic::div_mod::lemma_fundamental_div_mod_converse(
        cell_of(width, height, x, y),
        width,
        wrap(y, height),
        wrap(x, width),
    );
}

/// The column and the row of a cell number name that cell again.
pub proof fn lemma_cell_of_split(width: int, height: int, c: int)
    requires
        width > 0,
        height > 0,
        0 <= c < width * height,
    ensures
        0 <= c % width < width,
        0 <= c / width < height,
        cell_of(width, height, c % width, c / width) == c,
{
    vstd::arithmetic::div_mod::lemma_fundamental_div_mod(c, width);
    vstd::arithmetic::div_mod::lemma_mod_bound(c, width);
    let q = c / width;
    assert(q < height) by (nonlinear_arith)
        requires
            c == width * q + c % width,
            0 <= c % width,
            c < width * height,
            width > 0,
    ;
    assert(q >= 0) by (nonlinear_arith)
        requires
            c == width * q + c % width,
            c % width < width,
            0 <= c,
            width > 0,
    ;
    lemma_wrap_fixed(c % width, width);
    lemma_wrap_fixed(q, height);
    assert(q * width == width * q) by (nonlinear_arith);
}

/// The coordinate `x` reduced onto a ring of `n` cells.
pub(crate) fn wrap_coord(x: i64, n: usize) -> (r: usize)
    requires
        0 < n <= MAX_SIDE,
    ensures
        r == wrap(x as int, n as int),
        r < n,
{
    let w: i64 = n as i64;
    proof {
        lemma_wrap_range(x as int, n as int);
    }
    if x >= 0 {
        (x % w) as usize
    } else {
        let k: i64 = -(x + 1);
        let m: i64 = k % w;
        proof {
            let q = k as int / w as int;
            vstd::arithmetic::div_mod::lemma_fundamental_div_mod(k as int, w as int);
            assert((-(q + 1)) * (w as int) == -((w as int) * q) - w) by (nonlinear_arith);
            vstd::arithmetic::div_mod::lemma_fundamental_div_mod_converse(
                x as int,
                w as int,
                -(q + 1),
                w - 1 - m,
            );
        }
        (w - 1 - m) as usize
    }
}

/// The occupied cells among the first `n`, in the order of their numbers,
/// each with its column, its row and its occupant.
pub open spec fn occupancy(cells: Seq<Option<Handle>>, width: nat, n: nat) -> Seq<
    ((usize, usize), Handle),
>
    decreases n,
{
    if n == 0 {
        Seq::empty()
    } else {
        let c = (n - 1) as nat;
        let before = occupancy(cells, width, c);
        match cells[c as int] {
            Some(h) => before.push((((c % width) as usize, (c / width) as usize), h)),
            None => before,
        }
    }
}

/// The cell-addressed store of occupants.
pub struct Grid {
    width: usize,
    height: usize,
    cells: Vec<Option<Handle>>,
    /// Where each handle on the grid sits, by the handle's key.
    index: HashMap<u128, usize>,
    background: Color,
}

impl Grid {
    /// The occupant of every cell, by cell number.
    pub closed spec fn view(&self) -> Seq<Option<Handle>> {
        self.cells@
    }

    /// The number of columns.
    pub closed spec fn spec_width(&self) -> nat {
        self.width as nat
    }

    /// The number of rows.
    pub closed spec fn spec_height(&self) -> nat {
        self.height as nat
    }

    /// The colour of an empty cell.
    pub closed spec fn spec_background(&self) -> Color {
        self.background
    }

    /// Whether `h` sits in some cell.
    pub open spec fn holds(&self, h: Handle) -> bool {
        exists|c: int| 0 <= c < self@.len() && #[trigger] self@[c] == Some(h)
    }

    /// No handle sits in two cells.
    pub open spec fn placed_once(&self) -> bool {
        forall|c1: int, c2: int|
            0 <= c1 < self@.len() && 0 <= c2 < self@.len() && (#[trigger] self@[c1]) is Some
                && self@[c1] == #[trigger] self@[c2] ==> c1 == c2
    }

    /// The index agrees with the cells.
    pub closed spec fn index_wf(&self) -> bool {
        &&& forall|c: int|
            0 <= c < self.cells@.len() ==> match #[trigger] self.cells@[c] {
                Some(h) => self.index@.contains_key(h.spec_key()) && self.index@[h.spec_key()]
                    == c,
                None => true,
            }
        &&& forall|k: u128| #[trigger]
            self.index@.contains_key(k) ==> self.index@[k] < self.cells@.len()
                && self.cells@[self.index@[k] as int] is Some
                && self.cells@[self.index@[k] as int]->Some_0.spec_key() == k
    }

    /// The invariant of the grid.
    pub open spec fn wf(&self) -> bool {
        &&& 0 < self.spec_width() <= MAX_SIDE
        &&& 0 < self.spec_height() <= MAX_SIDE
        &&& self@.len() == self.spec_width() * self.spec_height()
        &&& self.placed_once()
        &&& self.index_wf()
    }

    /// The number of the cell that `(x, y)` names on this grid.
    pub open spec fn cell(&self, x: int, y: int) -> int {
        cell_of(self.spec_width() as int, self.spec_height() as int, x, y)
    }

    /// An empty grid of `width` by `height` cells. Both sides must be at
    /// least 1 and at most `MAX_SIDE`.
    pub fn new(width: usize, height: usize, background: Color) -> (r: Result<Grid, SimError>)
        ensures
            0 < width <= MAX_SIDE && 0 < height <= MAX_SIDE ==> r is Ok && r->Ok_0.wf()
                && r->Ok_0.spec_width() == width && r->Ok_0.spec_height() == height
                && r->Ok_0.spec_background() == background && r->Ok_0@ == Seq::new(
                (width * height) as nat,
                |c: int| None::<Handle>,
            ),
            !(0 < width <= MAX_SIDE && 0 < height <= MAX_SIDE) ==> r is Err && r->Err_0
                == SimError::ConfigurationError,
    {
        if width == 0 || height == 0 || width > MAX_SIDE || height > MAX_SIDE {
            return Err(SimError::ConfigurationError);
        }
        assert(width * height <= 0x4000_0000) by (nonlinear_arith)
            requires
                width <= 32768,
                height <= 32768,
        ;
        let n: usize = width * height;
        let mut cells: Vec<Option<Handle>> = Vec::new();
        let mut i: usize = 0;
        while i < n
            invariant
                i <= n,
                cells@.len() == i,
                forall|c: int| 0 <= c < i ==> cells@[c] == None::<Handle>,
            decreases n - i,
        {
            cells.push(None);
            i = i + 1;
        }
        let grid = Grid { width, height, cells, index: HashMap::new(), background };
        assert(grid@ =~= Seq::new((width * height) as nat, |c: int| None::<Handle>));
        Ok(grid)
    }

    /// The number of columns.
    pub fn width(&self) -> (w: usize)
        ensures
            w == self.spec_width(),
    {
        self.width
    }

    /// The number of rows.
    pub fn height(&self) -> (h: usize)
        ensures
            h == self.spec_height(),
    {
        self.height
    }

    /// The colour of an empty cell.
    pub fn background(&self) -> (c: Color)
        ensures
            c == self.spec_background(),
    {
        self.background
    }

    /// The number of cells.
    pub fn cell_count(&self) -> (n: usize)
        requires
            self.wf(),
        ensures
            n == self@.len(),
            n == self.spec_width() * self.spec_height(),
    {
        self.cells.len()
    }

    /// Reduces arbitrary coordinates, negative or beyond the edge, to the
    /// column and the row that they name on the torus.
    pub fn coordinate_wrap(&self, x: i64, y: i64) -> (r: (usize, usize))
        requires
            self.wf(),
        ensures
            r.0 == wrap(x as int, self.spec_width() as int),
            r.1 == wrap(y as int, self.spec_height() as int),
            r.0 < self.spec_width(),
            r.1 < self.spec_height(),
    {
        (wrap_coord(x, self.width), wrap_coord(y, self.height))
    }

    /// Wrap correctness: every pair of coordinates is reduced into the
    /// grid, and coordinates one full turn apart are reduced to the same
    /// place.
    pub proof fn lemma_coordinate_wrap(&self, x: int, y: int)
        requires
            self.wf(),
        ensures
            0 <= wrap(x, self.spec_width() as int) < self.spec_width(),
            0 <= wrap(y, self.spec_height() as int) < self.spec_height(),
            wrap(x + self.spec_width(), self.spec_width() as int) == wrap(
                x,
                self.spec_width() as int,
            ),
            wrap(y + self.spec_height(), self.spec_height() as int) == wrap(
                y,
                self.spec_height() as int,
            ),
            self.cell(x + self.spec_width(), y) == self.cell(x, y),
            self.cell(x, y + self.spec_height()) == self.cell(x, y),
            0 <= self.cell(x, y) < self@.len(),
    {
        let w = self.spec_width() as int;
        let h = self.spec_height() as int;
        lemma_wrap_range(x, w);
        lemma_wrap_range(y, h);
        lemma_wrap_periodic(x, w);
        lemma_wrap_periodic(y, h);
        lemma_cell_of_range(w, h, x, y);
    }

    /// The number of the cell that `(x, y)` names.
    pub fn cell_index(&self, x: i64, y: i64) -> (c: usize)
        requires
            self.wf(),
        ensures
            c == self.cell(x as int, y as int),
            c < self@.len(),
    {
        let cx: usize = wrap_coord(x, self.width);
        let cy: usize = wrap_coord(y, self.height);
        proof {
            lemma_cell_of_range(self.width as int, self.height as int, x as int, y as int);
            assert(self.width * self.height <= 0x4000_0000) by (nonlinear_arith)
                requires
                    self.width <= 32768,
                    self.height <= 32768,
            ;
            assert(0 <= cy * self.width) by (nonlinear_arith);
        }
        cy * self.width + cx
    }

    /// The column and the row of cell number `c`. For a number that names
    /// a cell of the grid, these name the same cell again.
    pub fn coordinates(&self, c: usize) -> (r: (usize, usize))
        requires
            self.wf(),
        ensures
            r.0 == c as int % self.spec_width() as int,
            r.1 == c as int / self.spec_width() as int,
            r.0 < self.spec_width(),
            c < self@.len() ==> r.1 < self.spec_height() && self.cell(r.0 as int, r.1 as int)
                == c,
    {
        proof {
            if c < self@.len() {
                lemma_cell_of_split(self.width as int, self.height as int, c as int);
            }
            vstd::arithmetic::div_mod::lemma_mod_bound(c as int, self.width as int);
        }
        (c % self.width, c / self.width)
    }

    /// Whether `other` has the dimensions and the background of this grid.
    pub open spec fn same_shape(&self, other: &Grid) -> bool {
        &&& self.spec_width() == other.spec_width()
        &&& self.spec_height() == other.spec_height()
        &&& self.spec_background() == other.spec_background()
    }

    proof fn lemma_index_holds(&self, h: Handle)
        requires
            self.index_wf(),
        ensures
            self.index@.contains_key(h.spec_key()) == self.holds(h),
    {
        let k = h.spec_key();
        if self.index@.contains_key(k) {
            let c = self.index@[k] as int;
            Handle::lemma_key_injective(self.cells@[c]->Some_0, h);
            assert(self@[c] == Some(h));
        }
        if self.holds(h) {
            let c = choose|c: int| 0 <= c < self@.len() && #[trigger] self@[c] == Some(h);
            assert(self.cells@[c] == Some(h));
        }
    }

    proof fn lemma_index_gives_once(&self)
        requires
            self.index_wf(),
        ensures
            self.placed_once(),
    {
        assert forall|c1: int, c2: int|
            0 <= c1 < self@.len() && 0 <= c2 < self@.len() && (#[trigger] self@[c1]) is Some
                && self@[c1] == #[trigger] self@[c2] implies c1 == c2 by {
            assert(self.cells@[c1] is Some);
            assert(self.cells@[c2] is Some);
        }
    }

    /// The occupant of cell number `c`. A number beyond the last cell names
    /// no cell and so no occupant.
    pub fn occupant_at(&self, c: usize) -> (r: Option<Handle>)
        ensures
            c < self@.len() ==> r == self@[c as int],
            c >= self@.len() ==> r is None,
    {
        if c < self.cells.len() {
            self.cells[c]
        } else {
            None
        }
    }

    /// The occupant of the cell that `(x, y)` names.
    pub fn occupant(&self, x: i64, y: i64) -> (r: Option<Handle>)
        requires
            self.wf(),
        ensures
            r == self@[self.cell(x as int, y as int)],
    {
        let c: usize = self.cell_index(x, y);
        self.cells[c]
    }

    /// Puts `h` into cell number `c`. Refused with `CellOccupied` where the
    /// cell holds a particle, and with `InvalidHandle` where `h` already
    /// sits somewhere on the grid; the grid is then left as it was.
    pub(crate) fn place_at(&mut self, c: usize, h: Handle) -> (r: Result<(), SimError>)
        requires
            old(self).wf(),
            c < old(self)@.len(),
        ensures
            final(self).wf(),
            final(self).same_shape(old(self)),
            old(self)@[c as int] is Some ==> r == Err::<(), SimError>(SimError::CellOccupied)
                && final(self)@ == old(self)@,
            old(self)@[c as int] is None && old(self).holds(h) ==> r == Err::<(), SimError>(
                SimError::InvalidHandle,
            ) && final(self)@ == old(self)@,
            old(self)@[c as int] is None && !old(self).holds(h) ==> r is Ok && final(self)@
                == old(self)@.update(c as int, Some(h)),
    {
        if self.cells[c].is_some() {
            return Err(SimError::CellOccupied);
        }
        let k: u128 = h.key();
        proof {
            self.lemma_index_holds(h);
        }
        if self.index.contains_key(&k) {
            return Err(SimError::InvalidHandle);
        }
        self.cells[c] = Some(h);
        self.index.insert(k, c);
        proof {
            assert forall|d: int| 0 <= d < self.cells@.len() implies match #[trigger] self.cells@[d] {
                Some(g) => self.index@.contains_key(g.spec_key()) && self.index@[g.spec_key()]
                    == d,
                None => true,
            } by {
                if d != c {
                    assert(self.cells@[d] == old(self).cells@[d]);
                }
            }
            assert forall|j: u128| #[trigger] self.index@.contains_key(j) implies self.index@[j]
                < self.cells@.len() && self.cells@[self.index@[j] as int] is Some
                && self.cells@[self.index@[j] as int]->Some_0.spec_key() == j by {
                if j != k {
                    assert(old(self).index@.contains_key(j));
                }
            }
            self.lemma_index_gives_once();
        }
        Ok(())
    }

    /// Puts `h` into the cell that `(x, y)` names. Refused with
    /// `CellOccupied` where the cell holds a particle, and with
    /// `InvalidHandle` where `h` already sits somewhere on the grid.
    pub fn place(&mut self, x: i64, y: i64, h: Handle) -> (r: Result<(), SimError>)
        requires
            old(self).wf(),
        ensures
            final(self).wf(),
            final(self).same_shape(old(self)),
            old(self)@[old(self).cell(x as int, y as int)] is Some ==> r == Err::<(), SimError>(
                SimError::CellOccupied,
            ) && final(self)@ == old(self)@,
            old(self)@[old(self).cell(x as int, y as int)] is None && old(self).holds(h) ==> r
                == Err::<(), SimError>(SimError::InvalidHandle) && final(self)@ == old(self)@,
            old(self)@[old(self).cell(x as int, y as int)] is None && !old(self).holds(h) ==> r is Ok
                && final(self)@ == old(self)@.update(
                old(self).cell(x as int, y as int),
                Some(h),
            ),
    {
        let c: usize = self.cell_index(x, y);
        self.place_at(c, h)
    }

    /// Empties cell number `c` and returns what was there.
    pub(crate) fn remove_at(&mut self, c: usize) -> (r: Option<Handle>)
        requires
            old(self).wf(),
            c < old(self)@.len(),
        ensures
            final(self).wf(),
            final(self).same_shape(old(self)),
            r == old(self)@[c as int],
            final(self)@ == old(self)@.update(c as int, None),
    {
        let r = self.cells[c];
        match r {
            Some(h) => {
                let k: u128 = h.key();
                self.cells[c] = None;
                self.index.remove(&k);
                proof {
                    assert forall|d: int| 0 <= d < self.cells@.len() implies match #[trigger] self.cells@[d] {
                        Some(g) => self.index@.contains_key(g.spec_key())
                            && self.index@[g.spec_key()] == d,
                        None => true,
                    } by {
                        if d != c {
                            assert(self.cells@[d] == old(self).cells@[d]);
                            if self.cells@[d] is Some {
                                let g = self.cells@[d]->Some_0;
                                if g.spec_key() == k {
                                    assert(old(self).index@[k] == d);
                                    assert(old(self).cells@[c as int] == Some(h));
                                }
                            }
                        }
                    }
                    assert forall|j: u128| #[trigger]
                        self.index@.contains_key(j) implies self.index@[j] < self.cells@.len()
                        && self.cells@[self.index@[j] as int] is Some
                        && self.cells@[self.index@[j] as int]->Some_0.spec_key() == j by {
                        assert(old(self).index@.contains_key(j));
                        assert(j != k);
                        let d = old(self).index@[j] as int;
                        if d == c {
                            assert(old(self).cells@[d] == Some(h));
                        }
                    }
                    self.lemma_index_gives_once();
                }
            },
            None => {
                proof {
                    assert(self@ =~= old(self)@.update(c as int, None));
                }
            },
        }
        r
    }

    /// Empties the cell that `(x, y)` names and returns what was there.
    pub fn remove(&mut self, x: i64, y: i64) -> (r: Option<Handle>)
        requires
            old(self).wf(),
        ensures
            final(self).wf(),
            final(self).same_shape(old(self)),
            r == old(self)@[old(self).cell(x as int, y as int)],
            final(self)@ == old(self)@.update(old(self).cell(x as int, y as int), None),
    {
        let c: usize = self.cell_index(x, y);
        self.remove_at(c)
    }

    /// Moves the occupant of cell `from` to cell `to` in one step.
    ///
    /// Where `from` is empty there is nothing to move, and the result is
    /// `Ok(None)`. Where `to` holds another particle the move is refused
    /// with `CellOccupied`. Otherwise the occupant sits in `to` afterwards
    /// and is returned.
    pub(crate) fn move_at(&mut self, from: usize, to: usize) -> (r: Result<Option<Handle>, SimError>)
        requires
            old(self).wf(),
            from < old(self)@.len(),
            to < old(self)@.len(),
        ensures
            final(self).wf(),
            final(self).same_shape(old(self)),
            old(self)@[from as int] is None ==> r == Ok::<Option<Handle>, SimError>(None)
                && final(self)@ == old(self)@,
            old(self)@[from as int] is Some && from != to && old(self)@[to as int] is Some ==> r
                == Err::<Option<Handle>, SimError>(SimError::CellOccupied) && final(self)@ == old(self)@,
            old(self)@[from as int] is Some && (from == to || old(self)@[to as int] is None) ==> r
                == Ok::<Option<Handle>, SimError>(old(self)@[from as int]) && final(self)@ == old(self)@.update(from as int, None).update(to as int, old(self)@[from as int]),
    {
        let h = match self.cells[from] {
            Some(h) => h,
            None => {
                return Ok(None);
            },
        };
        if from == to {
            proof {
                assert(self@ =~= old(self)@.update(from as int, None).update(
                    to as int,
                    old(self)@[from as int],
                ));
            }
            return Ok(Some(h));
        }
        if self.cells[to].is_some() {
            return Err(SimError::CellOccupied);
        }
        let _gone = self.remove_at(from);
        proof {
            assert(!self.holds(h)) by {
                if self.holds(h) {
                    let c = choose|c: int| 0 <= c < self@.len() && #[trigger] self@[c] == Some(h);
                    assert(old(self)@[c] == Some(h));
                    assert(old(self)@[from as int] == Some(h));
                }
            }
        }
        match self.place_at(to, h) {
            Ok(()) => Ok(Some(h)),
            Err(e) => Err(e),
        }
    }

    /// Moves the occupant of the cell that `from` names to the cell that
    /// `to` names, as `move_at` does.
    pub fn move_to(&mut self, from: (i64, i64), to: (i64, i64)) -> (r: Result<
        Option<Handle>,
        SimError,
    >)
        requires
            old(self).wf(),
        ensures
            final(self).wf(),
            final(self).same_shape(old(self)),
            ({
                let a = old(self).cell(from.0 as int, from.1 as int);
                let b = old(self).cell(to.0 as int, to.1 as int);
                &&& old(self)@[a] is None ==> r == Ok::<Option<Handle>, SimError>(None) && final(self)@ == old(self)@
                &&& old(self)@[a] is Some && a != b && old(self)@[b] is Some ==> r == Err::<
                    Option<Handle>,
                    SimError,
                >(SimError::CellOccupied) && final(self)@ == old(self)@
                &&& old(self)@[a] is Some && (a == b || old(self)@[b] is None) ==> r == Ok::<
                    Option<Handle>,
                    SimError,
                >(old(self)@[a]) && final(self)@ == old(self)@.update(a, None).update(
                    b,
                    old(self)@[a],
                )
            }),
    {
        let a: usize = self.cell_index(from.0, from.1);
        let b: usize = self.cell_index(to.0, to.1);
        self.move_at(a, b)
    }

    /// Exchanges the contents of cells `a` and `b` in one step.
    pub(crate) fn swap_at(&mut self, a: usize, b: usize)
        requires
            old(self).wf(),
            a < old(self)@.len(),
            b < old(self)@.len(),
        ensures
            final(self).wf(),
            final(self).same_shape(old(self)),
            final(self)@ == old(self)@.update(a as int, old(self)@[b as int]).update(
                b as int,
                old(self)@[a as int],
            ),
    {
        if a == b {
            proof {
                assert(self@ =~= old(self)@.update(a as int, old(self)@[b as int]).update(
                    b as int,
                    old(self)@[a as int],
                ));
            }
            return ;
        }
        let ha = self.remove_at(a);
        let hb = self.remove_at(b);
        if let Some(h) = hb {
            proof {
                assert(!self.holds(h)) by {
                    if self.holds(h) {
                        let c = choose|c: int|
                            0 <= c < self@.len() && #[trigger] self@[c] == Some(h);
                        assert(old(self)@[c] == Some(h));
                        assert(old(self)@[b as int] == Some(h));
                    }
                }
            }
            let _r = self.place_at(a, h);
        }
        if let Some(h) = ha {
            proof {
                assert(!self.holds(h)) by {
                    if self.holds(h) {
                        let c = choose|c: int|
                            0 <= c < self@.len() && #[trigger] self@[c] == Some(h);
                        assert(old(self)@[a as int] == Some(h));
                        if c == a {
                            assert(old(self)@[b as int] == Some(h));
                        } else {
                            assert(old(self)@[c] == Some(h));
                        }
                    }
                }
            }
            let _r = self.place_at(b, h);
        }
        proof {
            assert(self@ =~= old(self)@.update(a as int, old(self)@[b as int]).update(
                b as int,
                old(self)@[a as int],
            ));
        }
    }

    /// Exchanges the contents of the cells that `a` and `b` name.
    pub fn swap(&mut self, a: (i64, i64), b: (i64, i64))
        requires
            old(self).wf(),
        ensures
            final(self).wf(),
            final(self).same_shape(old(self)),
            ({
                let ca = old(self).cell(a.0 as int, a.1 as int);
                let cb = old(self).cell(b.0 as int, b.1 as int);
                final(self)@ == old(self)@.update(ca, old(self)@[cb]).update(cb, old(self)@[ca])
            }),
    {
        let ca: usize = self.cell_index(a.0, a.1);
        let cb: usize = self.cell_index(b.0, b.1);
        self.swap_at(ca, cb)
    }

    /// The cell in which `h` sits, as column and row, if it is on the grid.
    pub fn position_of(&self, h: Handle) -> (r: Option<(usize, usize)>)
        requires
            self.wf(),
        ensures
            self.holds(h) ==> r is Some && r->Some_0.0 < self.spec_width() && r->Some_0.1
                < self.spec_height() && self@[r->Some_0.1 * self.spec_width() + r->Some_0.0]
                == Some(h),
            !self.holds(h) ==> r is None,
    {
        let k: u128 = h.key();
        proof {
            self.lemma_index_holds(h);
        }
        match self.index.get(&k) {
            Some(c) => {
                let c: usize = *c;
                proof {
                    Handle::lemma_key_injective(self.cells@[c as int]->Some_0, h);
                    lemma_cell_of_split(self.width as int, self.height as int, c as int);
                    lemma_wrap_fixed(c as int % self.width as int, self.width as int);
                    lemma_wrap_fixed(c as int / self.width as int, self.height as int);
                }
                Some(self.coordinates(c))
            },
            None => None,
        }
    }

    /// The current occupancy: every occupied cell with its column, its row
    /// and its occupant, row by row from row 0, each row from column 0.
    pub fn iterate(&self) -> (out: Vec<((usize, usize), Handle)>)
        requires
            self.wf(),
        ensures
            out@ == occupancy(self@, self.spec_width(), self@.len()),
    {
        let mut out: Vec<((usize, usize), Handle)> = Vec::new();
        let n: usize = self.cells.len();
        let mut c: usize = 0;
        while c < n
            invariant
                self.wf(),
                n == self@.len(),
                c <= n,
                out@ == occupancy(self@, self.spec_width(), c as nat),
            decreases n - c,
        {
            match self.cells[c] {
                Some(h) => {
                    let at = self.coordinates(c);
                    out.push((at, h));
                },
                None => {},
            }
            c = c + 1;
        }
        out
    }

    /// Empties every cell.
    pub fn reset(&mut self)
        requires
            old(self).wf(),
        ensures
            final(self).wf(),
            final(self).same_shape(old(self)),
            final(self)@ == Seq::new(old(self)@.len(), |c: int| None::<Handle>),
    {
        self.index.clear();
        let n: usize = self.cells.len();
        let mut c: usize = 0;
        while c < n
            invariant
                n == self.cells@.len(),
                n == old(self).cells@.len(),
                c <= n,
                self.width == old(self).width,
                self.height == old(self).height,
                self.background == old(self).background,
                self.index@ == Map::<u128, usize>::empty(),
                forall|d: int| 0 <= d < c ==> self.cells@[d] == None::<Handle>,
            decreases n - c,
        {
            self.cells[c] = None;
            c = c + 1;
        }
        proof {
            assert(self@ =~= Seq::new(old(self)@.len(), |c: int| None::<Handle>));
            self.lemma_index_gives_once();
        }
    }
}

} // verus!
