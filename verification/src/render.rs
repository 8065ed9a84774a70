//! Rendering: the grid drawn into a buffer of RGBA pixels, one pixel for
//! each cell. Row 0 of the grid is the bottom row of the picture, so the
//! rows of the buffer run from the top row of the grid down.
//!
//! An active tool is shown by a highlight: the red, green and blue of each
//! pixel under its brush are halved, once for every offset of the brush that
//! lands on the pixel's cell.

use vstd::prelude::*;
use crate::board::Board;
use crate::error::SimError;
use crate::grid::{cell_of, lemma_cell_of_parts, lemma_cell_of_range, lemma_cell_of_split, wrap};
use crate::material::Color;
use crate::paint::{in_brush, near_upto, ring, ToolState};
use crate::world::World;

verus! {

/// One of the four channels of a colour: red, green, blue, alpha.
pub open spec fn channel(color: Color, ch: int) -> u8 {
    if ch == 0 {
        color.r
    } else if ch == 1 {
        color.g
    } else if ch == 2 {
        color.b
    } else {
        color.a
    }
}

/// The colour in which cell number `c` is drawn: that of its particle, or
/// the background where it is empty.
pub open spec fn cell_color(b: Board, background: Color, c: int) -> Color {
    match b.cells[c] {
        Some(p) => p.color,
        None => background,
    }
}

/// The number of the cell that pixel number `pix` shows. The pixels run row
/// by row from the top of the picture, the cells from the bottom of the
/// grid.
pub open spec fn pixel_cell(width: int, height: int, pix: int) -> int {
    (height - 1 - pix / width) * width + pix % width
}

/// A value halved `k` times.
pub open spec fn halve(v: u8, k: nat) -> u8
    decreases k,
{
    if k == 0 {
        v
    } else {
        halve(v, (k - 1) as nat) / 2
    }
}

/// How many of the offsets `lo .. hi` from `center` land on `x`, on a ring
/// of `n` cells.
pub open spec fn count_near(center: int, lo: int, hi: int, n: int, x: int) -> nat
    decreases hi - lo,
{
    if hi <= lo {
        0
    } else {
        count_near(center, lo, hi - 1, n, x) + (if ring(center, hi - 1, n) == x {
            1nat
        } else {
            0nat
        })
    }
}

/// How many offsets of a square brush of radius `size` around `(cx, cy)`
/// land on cell number `c`. On a grid narrower than the brush one cell is
/// reached by several offsets.
pub open spec fn visits(width: int, height: int, cx: int, cy: int, size: int, c: int) -> nat {
    count_near(cx, -size, size + 1, width, c % width) * count_near(
        cy,
        -size,
        size + 1,
        height,
        c / width,
    )
}

/// The byte at place `o` of the picture before any highlight.
pub open spec fn spec_base(b: Board, background: Color, o: int) -> u8 {
    channel(cell_color(b, background, pixel_cell(b.width, b.height, o / 4)), o % 4)
}

/// The byte at place `o` of the finished picture.
pub open spec fn spec_pixel(b: Board, background: Color, tool: ToolState, o: int) -> u8 {
    let base = spec_base(b, background, o);
    if tool.current_tool is Some && o % 4 < 3 {
        halve(
            base,
            visits(
                b.width,
                b.height,
                tool.grid_x as int,
                tool.grid_y as int,
                tool.tool_size as int,
                pixel_cell(b.width, b.height, o / 4),
            ),
        )
    } else {
        base
    }
}

/// The finished picture: four bytes for each cell.
pub open spec fn spec_frame(b: Board, background: Color, tool: ToolState) -> Seq<u8> {
    Seq::new((4 * b.cells.len()) as nat, |o: int| spec_pixel(b, background, tool, o))
}

/// The pixels show the cells one for one.
pub proof fn lemma_pixel_cell(width: int, height: int, pix: int)
    requires
        width > 0,
        height > 0,
        0 <= pix < width * height,
    ensures
        0 <= pixel_cell(width, height, pix) < width * height,
        pixel_cell(width, height, pix) % width == pix % width,
        pixel_cell(width, height, pix) / width == height - 1 - pix / width,
{
    lemma_cell_of_split(width, height, pix);
    let row = height - 1 - pix / width;
    let col = pix % width;
    crate::grid::lemma_wrap_fixed(row, height);
    crate::grid::lemma_wrap_fixed(col, width);
    assert(pixel_cell(width, height, pix) == cell_of(width, height, col, row));
    lemma_cell_of_range(width, height, col, row);
    lemma_cell_of_parts(width, height, col, row);
}

impl World {
    /// The colour of every occupied cell, with its column and its row, row
    /// by row from row 0, each row from column 0.
    pub fn colors(&self) -> (out: Vec<((usize, usize), Color)>)
        requires
            self.wf(),
        ensures
            out@ == spec_colors(self.board(), self.cells().len()),
    {
        let n: usize = self.grid().cell_count();
        let mut out: Vec<((usize, usize), Color)> = Vec::new();
        let mut c: usize = 0;
        while c < n
            invariant
                self.wf(),
                n == self.cells().len(),
                c <= n,
                out@ == spec_colors(self.board(), c as nat),
            decreases n - c,
        {
            match self.particle_at(c) {
                Some(p) => {
                    let at = self.grid().coordinates(c);
                    out.push((at, p.color));
                },
                None => {},
            }
            c = c + 1;
        }
        out
    }
}

/// The occupied cells among the first `k`, in the order of their numbers,
/// each with its column, its row and the colour of its particle.
pub open spec fn spec_colors(b: Board, k: nat) -> Seq<((usize, usize), Color)>
    decreases k,
{
    if k == 0 {
        Seq::empty()
    } else {
        let c = (k - 1) as int;
        let before = spec_colors(b, (k - 1) as nat);
        match b.cells[c] {
            Some(p) => before.push((((c % b.width) as usize, (c / b.width) as usize), p.color)),
            None => before,
        }
    }
}

/// The number of the cell that an entry of a list of colours is for.
pub open spec fn entry_cell(entry: ((usize, usize), Color), width: int) -> int {
    entry.0.1 * width + entry.0.0
}

/// Whether one of the first `i` entries of a list of colours is for cell
/// number `c`.
pub open spec fn listed(entries: Seq<((usize, usize), Color)>, width: int, i: int, c: int) -> bool {
    exists|j: int| 0 <= j < i && #[trigger] entry_cell(entries[j], width) == c
}

/// Every entry of the list of colours is for an occupied cell, and gives
/// the colour of the particle in it.
proof fn lemma_colors_sound(b: Board, k: nat, j: int)
    requires
        b.wf(),
        k <= b.cells.len(),
        0 <= j < spec_colors(b, k).len(),
    ensures
        ({
            let e = spec_colors(b, k)[j];
            let c = entry_cell(e, b.width);
            &&& 0 <= c < k
            &&& e.0.0 == c % b.width
            &&& e.0.1 == c / b.width
            &&& b.cells[c] is Some
            &&& b.cells[c]->Some_0.color == e.1
        }),
    decreases k,
{
    if k > 0 {
        let c = (k - 1) as int;
        let before = spec_colors(b, (k - 1) as nat);
        if j < before.len() {
            lemma_colors_sound(b, (k - 1) as nat, j);
        } else {
            lemma_cell_of_split(b.width, b.height, c);
            vstd::arithmetic::div_mod::lemma_fundamental_div_mod(c, b.width);
            assert((c / b.width) * b.width == b.width * (c / b.width)) by (nonlinear_arith);
        }
    }
}

/// Every occupied cell has its entry in the list of colours.
proof fn lemma_colors_complete(b: Board, k: nat, c: int)
    requires
        b.wf(),
        k <= b.cells.len(),
        0 <= c < k,
        b.cells[c] is Some,
    ensures
        listed(spec_colors(b, k), b.width, spec_colors(b, k).len() as int, c),
    decreases k,
{
    let all = spec_colors(b, k);
    if c == k - 1 {
        lemma_colors_sound(b, k, all.len() - 1);
        lemma_cell_of_split(b.width, b.height, c);
        vstd::arithmetic::div_mod::lemma_fundamental_div_mod(c, b.width);
        assert((c / b.width) * b.width == b.width * (c / b.width)) by (nonlinear_arith);
        assert(entry_cell(all[all.len() - 1], b.width) == c);
    } else {
        lemma_colors_complete(b, (k - 1) as nat, c);
        let before = spec_colors(b, (k - 1) as nat);
        let j = choose|j: int| 0 <= j < before.len() && #[trigger] entry_cell(before[j], b.width) == c;
        assert(all[j] == before[j]);
        assert(entry_cell(all[j], b.width) == c);
    }
}

/// Fills the picture with one colour.
fn fill(data: &mut Vec<u8>, color: Color)
    requires
        old(data)@.len() % 4 == 0,
    ensures
        final(data)@.len() == old(data)@.len(),
        forall|o: int| 0 <= o < final(data)@.len() ==> #[trigger] final(data)@[o] == channel(color, o % 4),
{
    let n: usize = data.len();
    let mut o: usize = 0;
    while o < n
        invariant
            n == data@.len(),
            n % 4 == 0,
            o % 4 == 0,
            o <= n,
            forall|q: int| 0 <= q < o ==> #[trigger] data@[q] == channel(color, q % 4),
        decreases n - o,
    {
        data[o] = color.r;
        data[o + 1] = color.g;
        data[o + 2] = color.b;
        data[o + 3] = color.a;
        o = o + 4;
    }
}

/// Draws every particle into a picture that holds the background.
fn draw(world: &World, data: &mut Vec<u8>)
    requires
        world.wf(),
        old(data)@.len() == 4 * world.cells().len(),
        forall|o: int|
            0 <= o < old(data)@.len() ==> #[trigger] old(data)@[o] == channel(
                world.spec_grid().spec_background(),
                o % 4,
            ),
    ensures
        final(data)@.len() == old(data)@.len(),
        forall|o: int|
            0 <= o < final(data)@.len() ==> #[trigger] final(data)@[o] == spec_base(
                world.board(),
                world.spec_grid().spec_background(),
                o,
            ),
{
    let entries = world.colors();
    let size: usize = data.len();
    let width: usize = world.grid().width();
    let height: usize = world.grid().height();
    let ghost b = world.board();
    let ghost bg = world.spec_grid().spec_background();
    let ghost n = world.cells().len() as int;
    proof {
        world.lemma_board_wf();
    }
    let mut i: usize = 0;
    while i < entries.len()
        invariant
            world.wf(),
            b == world.board(),
            b.wf(),
            bg == world.spec_grid().spec_background(),
            n == world.cells().len(),
            n == b.width * b.height,
            width == b.width,
            height == b.height,
            entries@ == spec_colors(b, n as nat),
            i <= entries@.len(),
            data@.len() == 4 * n,
            data@.len() == size,
            forall|o: int|
                0 <= o < data@.len() ==> #[trigger] data@[o] == channel(
                    if listed(entries@, b.width, i as int, pixel_cell(b.width, b.height, o / 4)) {
                        cell_color(b, bg, pixel_cell(b.width, b.height, o / 4))
                    } else {
                        bg
                    },
                    o % 4,
                ),
        decreases entries@.len() - i,
    {
        let entry = entries[i];
        let x: usize = entry.0.0;
        let y: usize = entry.0.1;
        let color = entry.1;
        let ghost c0 = entry_cell(entry, b.width);
        proof {
            lemma_colors_sound(b, n as nat, i as int);
            lemma_cell_of_split(b.width, b.height, c0);
            let up = height - 1 - y;
            assert(0 <= up * width && up * width + width <= width * height) by (nonlinear_arith)
                requires
                    0 <= up < height,
                    width > 0,
            ;
        }
        let pix: usize = x + (height - y - 1) * width;
        assert(pix < n);
        let at: usize = pix * 4;
        let ghost prior = data@;
        data[at] = color.r;
        data[at + 1] = color.g;
        data[at + 2] = color.b;
        data[at + 3] = color.a;
        proof {
            let up = height - 1 - y;
            vstd::arithmetic::div_mod::lemma_fundamental_div_mod_converse(
                pix as int,
                width as int,
                up,
                x as int,
            );
            assert(pixel_cell(b.width, b.height, pix as int) == c0);
            assert forall|o: int| 0 <= o < data@.len() implies #[trigger] data@[o] == channel(
                if listed(entries@, b.width, i + 1, pixel_cell(b.width, b.height, o / 4)) {
                    cell_color(b, bg, pixel_cell(b.width, b.height, o / 4))
                } else {
                    bg
                },
                o % 4,
            ) by {
                let c = pixel_cell(b.width, b.height, o / 4);
                if o / 4 == pix {
                    assert(entry_cell(entries@[i as int], b.width) == c);
                } else {
                    assert(data@[o] == prior[o]);
                    lemma_pixel_cell(b.width, b.height, o / 4);
                    lemma_pixel_cell(b.width, b.height, pix as int);
                    vstd::arithmetic::div_mod::lemma_fundamental_div_mod(o / 4, b.width);
                    vstd::arithmetic::div_mod::lemma_fundamental_div_mod(pix as int, b.width);
                    assert(c != c0);
                    if listed(entries@, b.width, i + 1, c) {
                        let j = choose|j: int|
                            0 <= j < i + 1 && #[trigger] entry_cell(entries@[j], b.width) == c;
                        assert(j < i);
                        assert(listed(entries@, b.width, i as int, c));
                    }
                    if listed(entries@, b.width, i as int, c) {
                        let j = choose|j: int|
                            0 <= j < i && #[trigger] entry_cell(entries@[j], b.width) == c;
                        assert(0 <= j < i + 1 && entry_cell(entries@[j], b.width) == c);
                    }
                }
            }
        }
        i = i + 1;
    }
    proof {
        assert forall|o: int| 0 <= o < data@.len() implies #[trigger] data@[o] == spec_base(
            b,
            bg,
            o,
        ) by {
            let c = pixel_cell(b.width, b.height, o / 4);
            lemma_pixel_cell(b.width, b.height, o / 4);
            if b.cells[c] is Some {
                lemma_colors_complete(b, n as nat, c);
            }
            if listed(entries@, b.width, entries@.len() as int, c) {
                let j = choose|j: int|
                    0 <= j < entries@.len() && #[trigger] entry_cell(entries@[j], b.width) == c;
                lemma_colors_sound(b, n as nat, j);
            }
        }
    }
}

/// How many offsets of the brush have landed on cell number `c` when the
/// columns at the offsets below `i` are done, and of the column at offset
/// `i` the rows at the offsets below `j`.
pub open spec fn seen(
    width: int,
    height: int,
    cx: int,
    cy: int,
    size: int,
    i: int,
    j: int,
    c: int,
) -> nat {
    count_near(cx, -size, i, width, c % width) * count_near(
        cy,
        -size,
        size + 1,
        height,
        c / width,
    ) + (if ring(cx, i, width) == c % width {
        count_near(cy, -size, j, height, c / width)
    } else {
        0
    })
}

/// The byte at place `o` of the picture, its cell highlighted `k` times.
pub open spec fn lit(b: Board, background: Color, o: int, k: nat) -> u8 {
    if o % 4 < 3 {
        halve(spec_base(b, background, o), k)
    } else {
        spec_base(b, background, o)
    }
}

/// A centre counts the same places before and after it is wrapped.
proof fn lemma_count_wrapped(center: int, lo: int, hi: int, n: int, x: int)
    requires
        n > 0,
    ensures
        count_near(wrap(center, n), lo, hi, n, x) == count_near(center, lo, hi, n, x),
    decreases hi - lo,
{
    if hi > lo {
        lemma_count_wrapped(center, lo, hi - 1, n, x);
        vstd::arithmetic::div_mod::lemma_add_mod_noop_right(hi - 1, center, n);
        assert(ring(wrap(center, n), hi - 1, n) == ring(center, hi - 1, n));
    }
}

/// Offsets land on a place exactly where the place lies at one of them.
pub proof fn lemma_count_is_near(center: int, lo: int, hi: int, n: int, x: int)
    ensures
        count_near(center, lo, hi, n, x) > 0 <==> near_upto(center, lo, hi, n, x),
    decreases hi - lo,
{
    if hi > lo {
        lemma_count_is_near(center, lo, hi - 1, n, x);
        crate::paint::lemma_near_step(center, lo, hi - 1, n, x);
    } else {
        if near_upto(center, lo, hi, n, x) {
            let d = choose|d: int| lo <= d < hi && #[trigger] ring(center, d, n) == x;
        }
    }
}

/// The highlight shows the brush: a cell is highlighted exactly when
/// painting with the same tool would cover it.
pub proof fn lemma_highlight_is_brush(
    width: int,
    height: int,
    cx: int,
    cy: int,
    size: int,
    c: int,
)
    ensures
        visits(width, height, cx, cy, size, c) > 0 <==> in_brush(width, height, cx, cy, size, c),
{
    let columns = count_near(cx, -size, size + 1, width, c % width);
    let rows = count_near(cy, -size, size + 1, height, c / width);
    lemma_count_is_near(cx, -size, size + 1, width, c % width);
    lemma_count_is_near(cy, -size, size + 1, height, c / width);
    assert(columns * rows > 0 <==> columns > 0 && rows > 0) by (nonlinear_arith)
        requires
            columns >= 0,
            rows >= 0,
    ;
}

/// Halves the red, green and blue of every pixel under the brush of the
/// tool, once for every offset of the brush that lands on it.
fn highlight(world: &World, tool: &ToolState, data: &mut Vec<u8>)
    requires
        world.wf(),
        tool.current_tool is Some,
        old(data)@.len() == 4 * world.cells().len(),
        forall|o: int|
            0 <= o < old(data)@.len() ==> #[trigger] old(data)@[o] == spec_base(
                world.board(),
                world.spec_grid().spec_background(),
                o,
            ),
    ensures
        final(data)@ == spec_frame(world.board(), world.spec_grid().spec_background(), *tool),
{
    let size: usize = data.len();
    let width: usize = world.grid().width();
    let height: usize = world.grid().height();
    let s: i64 = tool.tool_size as i64;
    let ghost b = world.board();
    let ghost bg = world.spec_grid().spec_background();
    let ghost n = world.cells().len() as int;
    proof {
        world.lemma_board_wf();
    }
    if s < 0 {
        proof {
            assert forall|o: int| 0 <= o < data@.len() implies #[trigger] data@[o] == spec_pixel(
                b,
                bg,
                *tool,
                o,
            ) by {
                let c = pixel_cell(b.width, b.height, o / 4);
                let rows = count_near(tool.grid_y as int, -s as int, s + 1, b.height, c / b.width);
                assert(count_near(tool.grid_x as int, -s as int, s + 1, b.width, c % b.width)
                    == 0);
                assert(0 * rows == 0) by (nonlinear_arith);
            }
            assert(data@ =~= spec_frame(b, bg, *tool));
        }
        return ;
    }
    let at = world.grid().coordinate_wrap(tool.grid_x, tool.grid_y);
    let cx: i64 = at.0 as i64;
    let cy: i64 = at.1 as i64;
    proof {
        assert forall|o: int| 0 <= o < data@.len() implies #[trigger] data@[o] == lit(
            b,
            bg,
            o,
            seen(
                b.width,
                b.height,
                cx as int,
                cy as int,
                s as int,
                -s,
                -s,
                pixel_cell(b.width, b.height, o / 4),
            ),
        ) by {
            let c = pixel_cell(b.width, b.height, o / 4);
            let full = count_near(cy as int, -s as int, s + 1, b.height, c / b.width);
            assert(count_near(cx as int, -s as int, -s as int, b.width, c % b.width) == 0);
            assert(count_near(cy as int, -s as int, -s as int, b.height, c / b.width) == 0);
            assert(0 * full == 0) by (nonlinear_arith);
        }
    }
    let mut dx: i64 = -s;
    while dx <= s
        invariant
            world.wf(),
            b == world.board(),
            b.wf(),
            bg == world.spec_grid().spec_background(),
            n == world.cells().len(),
            n == b.width * b.height,
            width == b.width,
            height == b.height,
            0 <= cx < width,
            0 <= cy < height,
            0 <= s <= i32::MAX,
            -s <= dx <= s + 1,
            data@.len() == 4 * n,
            data@.len() == size,
            forall|o: int|
                0 <= o < data@.len() ==> #[trigger] data@[o] == lit(
                    b,
                    bg,
                    o,
                    seen(
                        b.width,
                        b.height,
                        cx as int,
                        cy as int,
                        s as int,
                        dx as int,
                        -s,
                        pixel_cell(b.width, b.height, o / 4),
                    ),
                ),
        decreases s + 1 - dx,
    {
        let mut dy: i64 = -s;
        while dy <= s
            invariant
                world.wf(),
                b == world.board(),
                b.wf(),
                bg == world.spec_grid().spec_background(),
                n == world.cells().len(),
                n == b.width * b.height,
                width == b.width,
                height == b.height,
                0 <= cx < width,
                0 <= cy < height,
                0 <= s <= i32::MAX,
                -s <= dx <= s,
                -s <= dy <= s + 1,
                data@.len() == 4 * n,
                data@.len() == size,
                forall|o: int|
                    0 <= o < data@.len() ==> #[trigger] data@[o] == lit(
                        b,
                        bg,
                        o,
                        seen(
                            b.width,
                            b.height,
                            cx as int,
                            cy as int,
                            s as int,
                            dx as int,
                            dy as int,
                            pixel_cell(b.width, b.height, o / 4),
                        ),
                    ),
            decreases s + 1 - dy,
        {
            let c0: usize = world.grid().cell_index(cx + dx, cy + dy);
            let place = world.grid().coordinates(c0);
            let x: usize = place.0;
            let y: usize = place.1;
            proof {
                lemma_cell_of_parts(b.width, b.height, cx + dx, cy + dy);
                let up = height - 1 - y;
                assert(0 <= up * width && up * width + width <= width * height)
                    by (nonlinear_arith)
                    requires
                        0 <= up < height,
                        width > 0,
                ;
            }
            let pix: usize = x + (height - y - 1) * width;
            assert(pix < n);
            let at: usize = pix * 4;
            let ghost prior = data@;
            data[at] = data[at] / 2;
            data[at + 1] = data[at + 1] / 2;
            data[at + 2] = data[at + 2] / 2;
            proof {
                let up = height - 1 - y;
                vstd::arithmetic::div_mod::lemma_fundamental_div_mod_converse(
                    pix as int,
                    width as int,
                    up,
                    x as int,
                );
                vstd::arithmetic::div_mod::lemma_fundamental_div_mod(c0 as int, b.width);
                assert(pixel_cell(b.width, b.height, pix as int) == c0);
                assert forall|o: int| 0 <= o < data@.len() implies #[trigger] data@[o] == lit(
                    b,
                    bg,
                    o,
                    seen(
                        b.width,
                        b.height,
                        cx as int,
                        cy as int,
                        s as int,
                        dx as int,
                        dy + 1,
                        pixel_cell(b.width, b.height, o / 4),
                    ),
                ) by {
                    let c = pixel_cell(b.width, b.height, o / 4);
                    assert(prior[o] == lit(
                        b,
                        bg,
                        o,
                        seen(b.width, b.height, cx as int, cy as int, s as int, dx as int, dy as int, c),
                    ));
                    if o / 4 == pix {
                    } else {
                        assert(data@[o] == prior[o]);
                        lemma_pixel_cell(b.width, b.height, o / 4);
                        lemma_pixel_cell(b.width, b.height, pix as int);
                        vstd::arithmetic::div_mod::lemma_fundamental_div_mod(o / 4, b.width);
                        vstd::arithmetic::div_mod::lemma_fundamental_div_mod(pix as int, b.width);
                        assert(c != c0);
                        vstd::arithmetic::div_mod::lemma_fundamental_div_mod(c, b.width);
                    }
                }
            }
            dy = dy + 1;
        }
        proof {
            assert forall|o: int| 0 <= o < data@.len() implies #[trigger] data@[o] == lit(
                b,
                bg,
                o,
                seen(
                    b.width,
                    b.height,
                    cx as int,
                    cy as int,
                    s as int,
                    dx + 1,
                    -s,
                    pixel_cell(b.width, b.height, o / 4),
                ),
            ) by {
                let c = pixel_cell(b.width, b.height, o / 4);
                let before = count_near(cx as int, -s as int, dx as int, b.width, c % b.width);
                let full = count_near(cy as int, -s as int, s + 1, b.height, c / b.width);
                assert((before + 1) * full == before * full + full) by (nonlinear_arith);
                assert(count_near(cy as int, -s as int, -s as int, b.height, c / b.width) == 0);
            }
        }
        dx = dx + 1;
    }
    proof {
        assert forall|o: int| 0 <= o < data@.len() implies #[trigger] data@[o] == spec_pixel(
            b,
            bg,
            *tool,
            o,
        ) by {
            let c = pixel_cell(b.width, b.height, o / 4);
            lemma_count_wrapped(tool.grid_x as int, -s as int, s + 1, b.width, c % b.width);
            lemma_count_wrapped(tool.grid_y as int, -s as int, s + 1, b.height, c / b.width);
            assert(count_near(cy as int, -s as int, -s as int, b.height, c / b.width) == 0);
        }
        assert(data@ =~= spec_frame(b, bg, *tool));
    }
}

/// Draws the world into `data`, four bytes for each cell: first the
/// background everywhere, then each particle in its colour, then the
/// highlight of the tool if one is active.
///
/// The buffer must hold exactly four bytes for each cell of the grid. One
/// of another length is refused as a configuration error and left as it
/// is.
pub fn grid_render(world: &World, tool: &ToolState, data: &mut Vec<u8>) -> (r: Result<
    (),
    SimError,
>)
    requires
        world.wf(),
    ensures
        old(data)@.len() == 4 * world.cells().len() ==> r is Ok && final(data)@ == spec_frame(
            world.board(),
            world.spec_grid().spec_background(),
            *tool,
        ),
        old(data)@.len() != 4 * world.cells().len() ==> r == Err::<(), SimError>(
            SimError::ConfigurationError,
        ) && final(data)@ == old(data)@,
{
    let n: usize = world.grid().cell_count();
    if data.len() % 4 != 0 || data.len() / 4 != n {
        return Err(SimError::ConfigurationError);
    }
    fill(data, world.grid().background());
    draw(world, data);
    if tool.current_tool.is_some() {
        highlight(world, tool, data);
    } else {
        proof {
            world.lemma_board_wf();
            assert(data@ =~= spec_frame(
                world.board(),
                world.spec_grid().spec_background(),
                *tool,
            ));
        }
    }
    Ok(())
}

} // verus!
