//! The paint interface: the one way in which a tool changes the world
//! between ticks. A brush is a square of cells around its centre, wrapped at
//! the edges of the grid. Painting a material fills the empty cells under
//! the brush and leaves the occupied ones alone; erasing empties them all.

use vstd::prelude::*;
use crate::board::Board;
use crate::commit::accounted;
use crate::grid::{lemma_cell_of_parts, lemma_wrap_range, wrap, MAX_SIDE};
use crate::material::MaterialKind;
use crate::particle::{spec_fresh, Handle, Particle};
use crate::world::World;

verus! {

/// What a brush lays down.
#[derive(Clone, Copy, Debug, PartialEq, Eq, Structural)]
pub enum Selection {
    /// Nothing: the brush removes what it finds.
    Erase,
    /// Particles of this material.
    Material(MaterialKind),
}

/// What the tool layer knows: the selected tool, if any, the cell it points
/// at, and the radius of its brush.
#[derive(Clone, Copy, Debug, PartialEq, Eq, Structural)]
pub struct ToolState {
    /// What the tool lays down; `None` while no tool is active.
    pub current_tool: Option<Selection>,
    pub grid_x: i64,
    pub grid_y: i64,
    /// The radius of the brush. A negative radius covers nothing.
    pub tool_size: i32,
}

/// The place on a ring of `n` cells that lies `d` cells from `center`.
pub open spec fn ring(center: int, d: int, n: int) -> int {
    wrap(center + d, n)
}

/// Whether `x` lies at one of the offsets `lo .. hi` from `center` on a
/// ring of `n` cells.
pub open spec fn near_upto(center: int, lo: int, hi: int, n: int, x: int) -> bool {
    exists|d: int| lo <= d < hi && #[trigger] ring(center, d, n) == x
}

/// Whether `x` lies within `radius` cells of `center` on a ring of `n`
/// cells, the radius included.
pub open spec fn near(center: int, radius: int, n: int, x: int) -> bool {
    near_upto(center, -radius, radius + 1, n, x)
}

/// Whether cell number `c` lies under the brush of the given radius around
/// `(cx, cy)`: both its column and its row lie within the radius of the
/// centre, on a grid that wraps.
pub open spec fn in_brush(width: int, height: int, cx: int, cy: int, radius: int, c: int) -> bool {
    near(cx, radius, width, c % width) && near(cy, radius, height, c / width)
}

/// What painting makes of the content of cell number `c`.
pub open spec fn spec_paint_cell(before: Option<Particle>, selection: Selection, c: int) -> Option<
    Particle,
> {
    match selection {
        Selection::Erase => None,
        Selection::Material(kind) => if before is Some {
            before
        } else {
            Some(spec_fresh(kind, c as nat))
        },
    }
}

/// What painting makes of a board.
pub open spec fn spec_paint(b: Board, cx: int, cy: int, radius: int, selection: Selection) -> Seq<
    Option<Particle>,
> {
    Seq::new(
        b.cells.len(),
        |c: int|
            if in_brush(b.width, b.height, cx, cy, radius, c) {
                spec_paint_cell(b.cells[c], selection, c)
            } else {
                b.cells[c]
            },
    )
}

/// One more offset reaches one more place.
pub proof fn lemma_near_step(center: int, lo: int, hi: int, n: int, x: int)
    requires
        lo <= hi,
    ensures
        near_upto(center, lo, hi + 1, n, x) == (near_upto(center, lo, hi, n, x) || ring(
            center,
            hi,
            n,
        ) == x),
        !near_upto(center, lo, lo, n, x),
{
    if near_upto(center, lo, hi + 1, n, x) {
        let d = choose|d: int| lo <= d < hi + 1 && #[trigger] ring(center, d, n) == x;
        if d < hi {
            assert(lo <= d < hi && ring(center, d, n) == x);
        }
    }
    if near_upto(center, lo, hi, n, x) {
        let d = choose|d: int| lo <= d < hi && #[trigger] ring(center, d, n) == x;
        assert(lo <= d < hi + 1 && ring(center, d, n) == x);
    }
    if ring(center, hi, n) == x {
        assert(lo <= hi < hi + 1 && ring(center, hi, n) == x);
    }
}

/// A centre names the same places before and after it is wrapped.
pub proof fn lemma_near_wrapped(center: int, lo: int, hi: int, n: int, x: int)
    requires
        n > 0,
    ensures
        near_upto(wrap(center, n), lo, hi, n, x) == near_upto(center, lo, hi, n, x),
{
    assert forall|d: int| ring(wrap(center, n), d, n) == ring(center, d, n) by {
        vstd::arithmetic::div_mod::lemma_add_mod_noop_right(d, center, n);
    }
    if near_upto(wrap(center, n), lo, hi, n, x) {
        let d = choose|d: int| lo <= d < hi && #[trigger] ring(wrap(center, n), d, n) == x;
        assert(lo <= d < hi && ring(center, d, n) == x);
    }
    if near_upto(center, lo, hi, n, x) {
        let d = choose|d: int| lo <= d < hi && #[trigger] ring(center, d, n) == x;
        assert(lo <= d < hi && ring(wrap(center, n), d, n) == x);
    }
}

/// A brush at least as wide as the ring reaches every place on it.
pub proof fn lemma_near_all(center: int, radius: int, n: int, x: int)
    requires
        n > 0,
        radius >= n,
        0 <= x < n,
    ensures
        near(center, radius, n, x),
{
    let d = x - wrap(center, n);
    lemma_wrap_range(center, n);
    vstd::arithmetic::div_mod::lemma_fundamental_div_mod(center, n);
    vstd::arithmetic::div_mod::lemma_mod_multiples_vanish(center / n, x, n);
    vstd::arithmetic::div_mod::lemma_small_mod(x as nat, n as nat);
    assert(center + d == n * (center / n) + x);
    assert(-radius <= d < radius + 1 && ring(center, d, n) == x);
}

/// Whether cell number `c` of `after` is what painting makes of it, counted
/// from `before`, where `under` holds the cells that the brush has covered.
///
/// A cell that the brush has not covered holds what it held. A covered cell
/// is empty after erasing, and the handle that sat in it is invalid. After
/// painting a material a covered cell that was occupied holds the handle
/// that it held, and one that was empty holds a new particle of the
/// material, under a handle that never named anything.
pub open spec fn cell_painted(
    before: &World,
    after: &World,
    selection: Selection,
    under: Set<int>,
    c: int,
) -> bool {
    if !under.contains(c) {
        after.cells()[c] == before.cells()[c]
    } else {
        match selection {
            Selection::Erase => after.cells()[c] is None && (before.cells()[c] is Some ==> {
                let h = before.cells()[c]->Some_0;
                !after.particles().dom().contains(h) && after.retired().contains(h)
            }),
            Selection::Material(kind) => if before.cells()[c] is Some {
                after.cells()[c] == before.cells()[c]
            } else {
                after.cells()[c] is Some && {
                    let h = after.cells()[c]->Some_0;
                    &&& !before.particles().dom().contains(h)
                    &&& !before.retired().contains(h)
                    &&& after.particles().dom().contains(h)
                    &&& after.particles()[h] == spec_fresh(kind, c as nat)
                }
            },
        }
    }
}

/// Whether `after` is what painting the cells `under` makes of `before`.
///
/// Every cell is as `cell_painted` says. A particle that is still alive has
/// the record that it had. No particle is lost without being destroyed.
/// Painting a material destroys nothing; erasing creates nothing.
pub open spec fn painted_over(
    before: &World,
    after: &World,
    selection: Selection,
    under: Set<int>,
) -> bool {
    &&& after.cells().len() == before.cells().len()
    &&& forall|c: int|
        0 <= c < after.cells().len() ==> #[trigger] cell_painted(
            before,
            after,
            selection,
            under,
            c,
        )
    &&& forall|h: Handle|
        before.particles().dom().contains(h) && #[trigger] after.particles().dom().contains(h)
            ==> after.particles()[h] == before.particles()[h]
    &&& accounted(before, after)
    &&& selection is Material ==> before.particles().dom().subset_of(after.particles().dom())
        && after.retired() == before.retired()
    &&& selection is Erase ==> after.particles().dom().subset_of(before.particles().dom())
}

/// Painting a material is additive: a cell that was occupied holds the
/// handle that it held, under the brush or not, and its particle has the
/// record that it had.
pub proof fn lemma_paint_is_additive(
    before: &World,
    after: &World,
    kind: MaterialKind,
    under: Set<int>,
    c: int,
)
    requires
        before.wf(),
        painted_over(before, after, Selection::Material(kind), under),
        0 <= c < before.cells().len(),
        before.cells()[c] is Some,
    ensures
        after.cells()[c] == before.cells()[c],
        after.particles().dom().contains(before.cells()[c]->Some_0),
        after.particles()[before.cells()[c]->Some_0] == before.particles()[before.cells()[c]->Some_0],
{
    assert(cell_painted(before, after, Selection::Material(kind), under, c));
    let h = before.cells()[c]->Some_0;
    assert(before.particles().dom().contains(h));
}

/// Erasing clears the brush: every cell under it is empty afterwards, and
/// the handle that sat in it names no live particle any more, and is among
/// the destroyed.
pub proof fn lemma_erase_clears(before: &World, after: &World, under: Set<int>, c: int)
    requires
        painted_over(before, after, Selection::Erase, under),
        0 <= c < before.cells().len(),
        under.contains(c),
    ensures
        after.cells()[c] is None,
        before.cells()[c] is Some ==> !after.particles().dom().contains(before.cells()[c]->Some_0)
            && after.retired().contains(before.cells()[c]->Some_0),
{
    assert(cell_painted(before, after, Selection::Erase, under, c));
}

/// How painting one cell changes the handles on the grid and the records
/// in the store.
pub open spec fn brushed(before: &World, after: &World, selection: Selection, c: int) -> bool {
    match selection {
        Selection::Erase => after.cells() == before.cells().update(c, None) && (
        match before.cells()[c] {
            Some(h) => after.particles() == before.particles().remove(h) && after.retired()
                == before.retired().insert(h),
            None => after.particles() == before.particles() && after.retired()
                == before.retired(),
        }),
        Selection::Material(kind) => if before.cells()[c] is Some {
            after.cells() == before.cells() && after.particles() == before.particles()
                && after.retired() == before.retired()
        } else {
            after.cells()[c] is Some && {
                let h = after.cells()[c]->Some_0;
                &&& after.cells() == before.cells().update(c, Some(h))
                &&& !before.particles().dom().contains(h)
                &&& !before.retired().contains(h)
                &&& after.particles() == before.particles().insert(h, spec_fresh(kind, c as nat))
                &&& after.retired() == before.retired()
            }
        },
    }
}

/// Paints the one cell number `c`.
fn paint_cell(world: &mut World, c: usize, selection: Selection)
    requires
        old(world).wf(),
        c < old(world).cells().len(),
    ensures
        final(world).wf(),
        final(world).same_frame(old(world)),
        brushed(old(world), final(world), selection, c as int),
{
    match selection {
        Selection::Erase => {
            let _gone = world.erase_at(c);
        },
        Selection::Material(kind) => {
            if !world.occupied_at(c) {
                let _made = world.spawn_at(c, Particle::fresh(kind, c));
            }
        },
    }
}

/// Painting one more cell keeps the world painted over.
proof fn lemma_paint_step(
    start: &World,
    before: &World,
    after: &World,
    selection: Selection,
    under: Set<int>,
    c: int,
)
    requires
        start.wf(),
        before.wf(),
        after.wf(),
        0 <= c < before.cells().len(),
        painted_over(start, before, selection, under),
        brushed(before, after, selection, c),
    ensures
        painted_over(start, after, selection, under.insert(c)),
{
    let next = under.insert(c);
    assert(cell_painted(start, before, selection, under, c));
    assert forall|d: int| 0 <= d < after.cells().len() implies #[trigger] cell_painted(
        start,
        after,
        selection,
        next,
        d,
    ) by {
        assert(cell_painted(start, before, selection, under, d));
        if d != c {
            assert(after.cells()[d] == before.cells()[d]);
            if under.contains(d) && selection is Material && start.cells()[d] is None {
                let h = before.cells()[d]->Some_0;
                assert(before.particles().dom().contains(h));
            }
        } else {
            if selection is Erase && start.cells()[c] is Some && !under.contains(c) {
                let h = start.cells()[c]->Some_0;
                assert(start.particles().dom().contains(h));
            }
            if selection is Material && under.contains(c) {
                assert(before.cells()[c] is Some);
            }
        }
    }
    assert forall|h: Handle|
        start.particles().dom().contains(h) && #[trigger] after.particles().dom().contains(
            h,
        ) implies after.particles()[h] == start.particles()[h] by {
        if selection is Erase {
            assert(before.particles().dom().contains(h));
        } else {
            assert(before.particles().dom().contains(h));
        }
    }
    assert forall|h: Handle| #[trigger]
        start.particles().dom().contains(h) implies after.particles().dom().contains(h)
        || after.retired().contains(h) by {
        assert(before.particles().dom().contains(h) || before.retired().contains(h));
    }
}

/// The board of a world that was painted over is the board before, painted.
proof fn lemma_painted_board(before: &World, after: &World, selection: Selection, under: Set<int>)
    requires
        before.wf(),
        after.wf(),
        painted_over(before, after, selection, under),
    ensures
        after.board().cells.len() == before.board().cells.len(),
        forall|c: int|
            0 <= c < before.cells().len() ==> #[trigger] after.board().cells[c] == (if under.contains(
                c,
            ) {
                spec_paint_cell(before.board().cells[c], selection, c)
            } else {
                before.board().cells[c]
            }),
{
    assert forall|c: int| 0 <= c < before.cells().len() implies #[trigger] after.board().cells[c]
        == (if under.contains(c) {
        spec_paint_cell(before.board().cells[c], selection, c)
    } else {
        before.board().cells[c]
    }) by {
        assert(cell_painted(before, after, selection, under, c));
        if before.cells()[c] is Some {
            let h = before.cells()[c]->Some_0;
            assert(before.particles().dom().contains(h));
            if after.cells()[c] == before.cells()[c] {
                assert(after.cells()[c] is Some);
                assert(after.particles().dom().contains(h));
            }
        }
    }
}

/// The cells of a grid that lie under a brush.
pub open spec fn brush(width: int, height: int, cx: int, cy: int, radius: int) -> Set<int> {
    Set::new(|c: int| 0 <= c < width * height && in_brush(width, height, cx, cy, radius, c))
}

/// A radius beyond the length of the ring covers no more than that length
/// does: both cover the whole ring.
proof fn lemma_near_capped(center: int, radius: int, n: int, x: int)
    requires
        0 < n,
        0 <= x < n,
        radius >= 0,
    ensures
        near(center, radius, n, x) == near(
            center,
            if radius > n {
                n
            } else {
                radius
            },
            n,
            x,
        ),
{
    if radius > n {
        lemma_near_all(center, radius, n, x);
        lemma_near_all(center, n, n, x);
    }
}

impl World {
    /// Paints with a square brush of the given radius around the cell that
    /// `(center_x, center_y)` names. The brush covers every cell whose
    /// column and row lie within the radius of the centre, the radius
    /// included, and wraps at the edges of the grid.
    ///
    /// Erasing removes the occupant of every covered cell and destroys its
    /// particle. Painting a material puts a new particle of it into every
    /// covered cell that is empty, and leaves the occupied cells as they
    /// are. The cells outside the brush are not touched.
    pub fn paint(&mut self, center_x: i64, center_y: i64, radius: u32, selection: Selection)
        requires
            old(self).wf(),
        ensures
            final(self).wf(),
            final(self).same_frame(old(self)),
            painted_over(
                old(self),
                final(self),
                selection,
                brush(
                    old(self).board().width,
                    old(self).board().height,
                    center_x as int,
                    center_y as int,
                    radius as int,
                ),
            ),
            final(self).board().cells == spec_paint(
                old(self).board(),
                center_x as int,
                center_y as int,
                radius as int,
                selection,
            ),
    {
        let at = self.grid().coordinate_wrap(center_x, center_y);
        let cx: i64 = at.0 as i64;
        let cy: i64 = at.1 as i64;
        let width: usize = self.grid().width();
        let height: usize = self.grid().height();
        let rx: i64 = if radius as usize > width {
            width as i64
        } else {
            radius as i64
        };
        let ry: i64 = if radius as usize > height {
            height as i64
        } else {
            radius as i64
        };
        let ghost w = self.board().width;
        let ghost h = self.board().height;
        let ghost n = self.cells().len() as int;
        let ghost mut under: Set<int> = Set::empty();
        proof {
            self.lemma_board_wf();
            assert forall|c: int| 0 <= c < n implies (under.contains(c) <==> near(
                cx as int,
                rx as int,
                w,
                c % w,
            ) && near_upto(cy as int, -ry, -ry, h, c / w)) by {
                lemma_near_step(cy as int, -ry as int, -ry as int, h, c / w);
            }
        }
        let mut dy: i64 = -ry;
        while dy <= ry
            invariant
                old(self).wf(),
                self.wf(),
                self.same_frame(old(self)),
                painted_over(old(self), self, selection, under),
                w == self.board().width,
                h == self.board().height,
                n == self.cells().len(),
                n == w * h,
                0 < w <= MAX_SIDE,
                0 < h <= MAX_SIDE,
                0 <= cx < w,
                0 <= cy < h,
                0 <= rx <= MAX_SIDE,
                0 <= ry <= MAX_SIDE,
                -ry <= dy <= ry + 1,
                forall|c: int|
                    0 <= c < n ==> (#[trigger] under.contains(c) <==> near(
                        cx as int,
                        rx as int,
                        w,
                        c % w,
                    ) && near_upto(cy as int, -ry, dy as int, h, c / w)),
            decreases ry + 1 - dy,
        {
            let ghost row = ring(cy as int, dy as int, h);
            let ghost rows_done = under;
            proof {
                assert forall|c: int| 0 <= c < n implies (#[trigger] under.contains(c)
                    <==> rows_done.contains(c) || (c / w == row && near_upto(
                    cx as int,
                    -rx,
                    -rx,
                    w,
                    c % w,
                ))) by {
                    lemma_near_step(cx as int, -rx as int, -rx as int, w, c % w);
                }
            }
            let mut dx: i64 = -rx;
            while dx <= rx
                invariant
                    old(self).wf(),
                    self.wf(),
                    self.same_frame(old(self)),
                    painted_over(old(self), self, selection, under),
                    w == self.board().width,
                    h == self.board().height,
                    n == self.cells().len(),
                    n == w * h,
                    0 < w <= MAX_SIDE,
                    0 < h <= MAX_SIDE,
                    0 <= cx < w,
                    0 <= cy < h,
                    0 <= rx <= MAX_SIDE,
                    0 <= ry <= MAX_SIDE,
                    -ry <= dy <= ry,
                    -rx <= dx <= rx + 1,
                    row == ring(cy as int, dy as int, h),
                    forall|c: int|
                        0 <= c < n ==> (#[trigger] under.contains(c) <==> rows_done.contains(c) || (
                        c / w == row && near_upto(cx as int, -rx, dx as int, w, c % w))),
                decreases rx + 1 - dx,
            {
                let c: usize = self.grid().cell_index(cx + dx, cy + dy);
                let ghost before = *self;
                let ghost covered = under;
                paint_cell(self, c, selection);
                proof {
                    lemma_paint_step(old(self), &before, self, selection, covered, c as int);
                    under = covered.insert(c as int);
                    lemma_cell_of_parts(w, h, cx + dx, cy + dy);
                    assert forall|d: int| 0 <= d < n implies (#[trigger] under.contains(d)
                        <==> rows_done.contains(d) || (d / w == row && near_upto(
                        cx as int,
                        -rx,
                        dx + 1,
                        w,
                        d % w,
                    ))) by {
                        lemma_near_step(cx as int, -rx as int, dx as int, w, d % w);
                        vstd::arithmetic::div_mod::lemma_fundamental_div_mod(d, w);
                        vstd::arithmetic::div_mod::lemma_fundamental_div_mod(c as int, w);
                        assert(covered.contains(d) <==> rows_done.contains(d) || (d / w == row
                            && near_upto(cx as int, -rx, dx as int, w, d % w)));
                    }
                }
                dx = dx + 1;
            }
            proof {
                assert forall|c: int| 0 <= c < n implies (#[trigger] under.contains(c) <==> near(
                    cx as int,
                    rx as int,
                    w,
                    c % w,
                ) && near_upto(cy as int, -ry, dy + 1, h, c / w)) by {
                    lemma_near_step(cy as int, -ry as int, dy as int, h, c / w);
                    assert(rows_done.contains(c) <==> near(cx as int, rx as int, w, c % w)
                        && near_upto(cy as int, -ry, dy as int, h, c / w));
                }
            }
            dy = dy + 1;
        }
        proof {
            let target = brush(w, h, center_x as int, center_y as int, radius as int);
            assert forall|c: int| 0 <= c < n implies under.contains(c) == target.contains(c) by {
                crate::grid::lemma_cell_of_split(w, h, c);
                lemma_near_wrapped(center_x as int, -rx as int, rx + 1, w, c % w);
                lemma_near_wrapped(center_y as int, -ry as int, ry + 1, h, c / w);
                lemma_near_capped(center_x as int, radius as int, w, c % w);
                lemma_near_capped(center_y as int, radius as int, h, c / w);
            }
            assert forall|c: int| 0 <= c < self.cells().len() implies #[trigger] cell_painted(
                old(self),
                self,
                selection,
                target,
                c,
            ) by {
                assert(cell_painted(old(self), self, selection, under, c));
            }
            lemma_painted_board(old(self), self, selection, target);
            old(self).lemma_board_wf();
            assert(self.board().cells =~= spec_paint(
                old(self).board(),
                center_x as int,
                center_y as int,
                radius as int,
                selection,
            ));
        }
    }

    /// Empties the whole grid and destroys every particle. All handles that
    /// were valid are invalid afterwards. The dimensions, the background and
    /// the count of ticks stay as they are.
    pub fn reset(&mut self)
        requires
            old(self).wf(),
        ensures
            final(self).wf(),
            final(self).same_frame(old(self)),
            final(self).cells() == Seq::new(old(self).cells().len(), |c: int| None::<Handle>),
            final(self).particles() == Map::<Handle, Particle>::empty(),
            forall|h: Handle| #[trigger]
                old(self).particles().dom().contains(h) ==> final(self).retired().contains(h),
            old(self).retired().subset_of(final(self).retired()),
    {
        let n: usize = self.grid().cell_count();
        let ghost mut under: Set<int> = Set::empty();
        let mut c: usize = 0;
        while c < n
            invariant
                old(self).wf(),
                self.wf(),
                self.same_frame(old(self)),
                n == self.cells().len(),
                c <= n,
                painted_over(old(self), self, Selection::Erase, under),
                forall|d: int| 0 <= d < n ==> (#[trigger] under.contains(d) <==> d < c),
            decreases n - c,
        {
            let ghost before = *self;
            let ghost covered = under;
            paint_cell(self, c, Selection::Erase);
            proof {
                lemma_paint_step(old(self), &before, self, Selection::Erase, covered, c as int);
                under = covered.insert(c as int);
            }
            c = c + 1;
        }
        proof {
            assert forall|d: int| 0 <= d < n implies self.cells()[d] == None::<Handle> by {
                assert(cell_painted(old(self), self, Selection::Erase, under, d));
            }
            assert(self.cells() =~= Seq::new(old(self).cells().len(), |c: int| None::<Handle>));
            assert forall|h: Handle| !self.particles().dom().contains(h) by {
                if self.particles().dom().contains(h) {
                    assert(self.spec_grid().holds(h));
                }
            }
            assert(self.particles() =~= Map::<Handle, Particle>::empty());
        }
    }

    /// Applies the tool where it points: paints with its selection and
    /// its radius around its cell. An idle tool, and one with a negative
    /// radius, changes nothing.
    pub fn apply_tool(&mut self, tool: &ToolState)
        requires
            old(self).wf(),
        ensures
            final(self).wf(),
            final(self).same_frame(old(self)),
            tool.current_tool is Some && tool.tool_size >= 0 ==> painted_over(
                old(self),
                final(self),
                tool.current_tool->Some_0,
                brush(
                    old(self).board().width,
                    old(self).board().height,
                    tool.grid_x as int,
                    tool.grid_y as int,
                    tool.tool_size as int,
                ),
            ) && final(self).board().cells == spec_paint(
                old(self).board(),
                tool.grid_x as int,
                tool.grid_y as int,
                tool.tool_size as int,
                tool.current_tool->Some_0,
            ),
            tool.current_tool is None || tool.tool_size < 0 ==> final(self).cells() == old(self).cells() && final(self).particles() == old(self).particles() && final(self).retired() == old(self).retired(),
    {
        match tool.current_tool {
            Some(selection) => {
                if tool.tool_size >= 0 {
                    self.paint(tool.grid_x, tool.grid_y, tool.tool_size as u32, selection);
                }
            },
            None => {},
        }
    }
}

} // verus!
