//! The tick engine. One tick runs four phases to completion:
//!
//! 1. *Scan*: the occupied cells are listed, in the order of the sweep,
//!    before anything changes, so that every particle is decided once.
//! 2. *Decide*: each listed particle proposes an action, from the board as
//!    it stood before the tick.
//! 3. *Resolve*: the proposals are taken in the order of the sweep. One
//!    that touches a cell which an earlier accepted proposal touches loses
//!    and becomes "stay".
//! 4. *Commit*: the accepted actions are applied to grid and store.
//!
//! The sweep runs through the rows from the top row down. Within a row it
//! runs from left to right in even ticks and from right to left in odd
//! ticks, so that neither side wins every contested cell.

use vstd::prelude::*;
use crate::board::{population, Board};
use crate::particle::{Handle, Particle};
use crate::commit::{
    accounted, applicable, commit, lemma_commit_conserves, lemma_run_len, spec_apply, spec_commit,
    spec_run, spec_start, traced, Outcome,
};
use crate::resolve::{
    clear_for, lemma_accepted_are_disjoint, lemma_taken_is_touched, lemma_taken_len, resolve,
    settle, spec_resolve, spec_taken, touches,
};
use crate::rules::{decide, feasible, lemma_decide_feasible, spec_decide, Proposal};
use crate::world::World;

verus! {

/// The number of the cell that the sweep visits at step `k`.
pub open spec fn sweep_cell(width: int, height: int, reverse: bool, k: int) -> int {
    let row = height - 1 - k / width;
    let col = if reverse {
        width - 1 - k % width
    } else {
        k % width
    };
    row * width + col
}

/// Every step of the sweep visits a cell of the grid.
pub proof fn lemma_sweep_cell_range(width: int, height: int, reverse: bool, k: int)
    requires
        width > 0,
        height > 0,
        0 <= k < width * height,
    ensures
        0 <= k % width < width,
        0 <= k / width < height,
        0 <= sweep_cell(width, height, reverse, k) < width * height,
{
    crate::grid::lemma_cell_of_split(width, height, k);
    let row = height - 1 - k / width;
    assert(0 <= row * width && row * width + width <= width * height) by (nonlinear_arith)
        requires
            0 <= row < height,
            width > 0,
    ;
}

/// The step at which the sweep visits cell number `c`.
pub open spec fn sweep_step(width: int, height: int, reverse: bool, c: int) -> int {
    let line = height - 1 - c / width;
    let place = if reverse {
        width - 1 - c % width
    } else {
        c % width
    };
    line * width + place
}

/// The sweep visits every cell once: each cell has its step, and each step
/// its cell.
pub proof fn lemma_sweep_visits_each_once(width: int, height: int, reverse: bool, c: int)
    requires
        width > 0,
        height > 0,
        0 <= c < width * height,
    ensures
        0 <= sweep_step(width, height, reverse, c) < width * height,
        sweep_cell(width, height, reverse, sweep_step(width, height, reverse, c)) == c,
        sweep_step(width, height, reverse, sweep_cell(width, height, reverse, c)) == c,
{
    lemma_sweep_cell_range(width, height, reverse, c);
    let line = height - 1 - c / width;
    let place = if reverse {
        width - 1 - c % width
    } else {
        c % width
    };
    let k = line * width + place;
    assert(0 <= line * width && line * width + width <= width * height) by (nonlinear_arith)
        requires
            0 <= line < height,
            width > 0,
    ;
    vstd::arithmetic::div_mod::lemma_fundamental_div_mod_converse(k, width, line, place);
    vstd::arithmetic::div_mod::lemma_fundamental_div_mod(c, width);
    assert((c / width) * width == width * (c / width)) by (nonlinear_arith);
}

/// The two directions of the sweep mirror each other: at the same step
/// they are in the same row, in columns equally far from the two sides.
pub proof fn lemma_sweep_mirrors(width: int, height: int, k: int)
    requires
        width > 0,
        height > 0,
        0 <= k < width * height,
    ensures
        sweep_cell(width, height, true, k) / width == sweep_cell(width, height, false, k) / width,
        sweep_cell(width, height, true, k) % width == width - 1 - sweep_cell(
            width,
            height,
            false,
            k,
        ) % width,
{
    lemma_sweep_cell_range(width, height, true, k);
    let row = height - 1 - k / width;
    vstd::arithmetic::div_mod::lemma_fundamental_div_mod_converse(
        sweep_cell(width, height, true, k),
        width,
        row,
        width - 1 - k % width,
    );
    vstd::arithmetic::div_mod::lemma_fundamental_div_mod_converse(
        sweep_cell(width, height, false, k),
        width,
        row,
        k % width,
    );
}

/// The occupied cells among the first `k` that the sweep visits, each with
/// its occupant, in the order of the sweep.
pub open spec fn spec_snapshot(
    cells: Seq<Option<Handle>>,
    width: int,
    height: int,
    reverse: bool,
    k: nat,
) -> Seq<(usize, Handle)>
    decreases k,
{
    if k == 0 {
        Seq::empty()
    } else {
        let before = spec_snapshot(cells, width, height, reverse, (k - 1) as nat);
        let c = sweep_cell(width, height, reverse, k - 1);
        match cells[c] {
            Some(h) => before.push((c as usize, h)),
            None => before,
        }
    }
}

/// The proposals for the first `k` entries of a snapshot. An entry whose
/// cell is not on the grid, or whose handle names no live particle, is
/// passed over.
pub open spec fn spec_proposals(
    b: Board,
    particles: Map<Handle, Particle>,
    snapshot: Seq<(usize, Handle)>,
    k: nat,
) -> Seq<Proposal>
    decreases k,
{
    if k == 0 {
        Seq::empty()
    } else {
        let before = spec_proposals(b, particles, snapshot, (k - 1) as nat);
        let entry = snapshot[k - 1];
        if entry.0 < b.cells.len() && particles.dom().contains(entry.1) {
            before.push(Proposal { from: entry.0, action: spec_decide(b, entry.0 as int) })
        } else {
            before
        }
    }
}

/// The proposals of the occupants of the first `k` cells that the sweep
/// visits, in the order of the sweep.
pub open spec fn spec_plan(b: Board, k: nat) -> Seq<Proposal>
    decreases k,
{
    if k == 0 {
        Seq::empty()
    } else {
        let before = spec_plan(b, (k - 1) as nat);
        let c = sweep_cell(b.width, b.height, b.reverse, k - 1);
        if b.cells[c] is Some {
            before.push(Proposal { from: c as usize, action: spec_decide(b, c) })
        } else {
            before
        }
    }
}

/// Scan: lists the occupied cells with their occupants, in the order of
/// the coming sweep.
pub fn scan(world: &World) -> (snapshot: Vec<(usize, Handle)>)
    requires
        world.wf(),
    ensures
        snapshot@ == spec_snapshot(
            world.cells(),
            world.board().width,
            world.board().height,
            world.reverse(),
            world.cells().len(),
        ),
{
    let grid = world.grid();
    let width: usize = grid.width();
    let height: usize = grid.height();
    let n: usize = grid.cell_count();
    let reverse = world.ticks() % 2 == 1;
    let mut snapshot: Vec<(usize, Handle)> = Vec::new();
    let mut k: usize = 0;
    while k < n
        invariant
            world.wf(),
            *grid == world.spec_grid(),
            width == world.board().width,
            height == world.board().height,
            n == world.cells().len(),
            reverse == world.reverse(),
            k <= n,
            snapshot@ == spec_snapshot(
                world.cells(),
                world.board().width,
                world.board().height,
                world.reverse(),
                k as nat,
            ),
        decreases n - k,
    {
        proof {
            lemma_sweep_cell_range(width as int, height as int, reverse, k as int);
        }
        let row: usize = height - 1 - k / width;
        let col: usize = if reverse {
            width - 1 - k % width
        } else {
            k % width
        };
        assert(0 <= row * width && row * width + width <= width * height) by (nonlinear_arith)
            requires
                0 <= row < height,
                width > 0,
        ;
        let c: usize = row * width + col;
        match grid.occupant_at(c) {
            Some(h) => {
                snapshot.push((c, h));
            },
            None => {},
        }
        k = k + 1;
    }
    snapshot
}

/// Decide: the proposal of every particle of the snapshot, from the world
/// as it stands. An entry whose cell is not on the grid, or whose handle
/// has gone stale, is passed over for this tick.
pub fn decide_all(world: &World, snapshot: &Vec<(usize, Handle)>) -> (proposals: Vec<Proposal>)
    requires
        world.wf(),
    ensures
        proposals@ == spec_proposals(
            world.board(),
            world.particles(),
            snapshot@,
            snapshot@.len(),
        ),
{
    let n: usize = world.grid().cell_count();
    let mut proposals: Vec<Proposal> = Vec::new();
    let mut i: usize = 0;
    while i < snapshot.len()
        invariant
            world.wf(),
            n == world.cells().len(),
            i <= snapshot@.len(),
            proposals@ == spec_proposals(world.board(), world.particles(), snapshot@, i as nat),
        decreases snapshot@.len() - i,
    {
        let entry = snapshot[i];
        if entry.0 < n && world.store().is_live(entry.1) {
            proposals.push(Proposal { from: entry.0, action: decide(world, entry.0) });
        }
        i = i + 1;
    }
    proposals
}

/// What one tick makes of a board: the proposals of all its particles are
/// resolved and committed.
pub open spec fn spec_tick(b: Board) -> Outcome {
    spec_commit(b.cells, spec_resolve(spec_plan(b, b.cells.len()), b.cells.len()))
}

proof fn lemma_proposals_prefix(
    b: Board,
    particles: Map<Handle, Particle>,
    snapshot: Seq<(usize, Handle)>,
    entry: (usize, Handle),
    k: nat,
)
    requires
        k <= snapshot.len(),
    ensures
        spec_proposals(b, particles, snapshot.push(entry), k) == spec_proposals(
            b,
            particles,
            snapshot,
            k,
        ),
    decreases k,
{
    if k > 0 {
        lemma_proposals_prefix(b, particles, snapshot, entry, (k - 1) as nat);
    }
}

/// Deciding the snapshot of a sound world gives the plan of its board.
proof fn lemma_snapshot_plan(world: &World, k: nat)
    requires
        world.wf(),
        k <= world.cells().len(),
    ensures
        ({
            let snapshot = spec_snapshot(
                world.cells(),
                world.board().width,
                world.board().height,
                world.reverse(),
                k,
            );
            spec_proposals(world.board(), world.particles(), snapshot, snapshot.len())
                == spec_plan(world.board(), k)
        }),
    decreases k,
{
    let b = world.board();
    world.lemma_board_wf();
    if k > 0 {
        lemma_snapshot_plan(world, (k - 1) as nat);
        lemma_sweep_cell_range(b.width, b.height, b.reverse, k - 1);
        let before = spec_snapshot(world.cells(), b.width, b.height, b.reverse, (k - 1) as nat);
        let c = sweep_cell(b.width, b.height, b.reverse, k - 1);
        assert(b.cells[c] is Some == world.cells()[c] is Some);
        match world.cells()[c] {
            Some(h) => {
                let entry = (c as usize, h);
                let snapshot = before.push(entry);
                assert(snapshot == spec_snapshot(world.cells(), b.width, b.height, b.reverse, k));
                lemma_proposals_prefix(b, world.particles(), before, entry, before.len());
                assert(world.particles().dom().contains(h));
                assert(snapshot[snapshot.len() - 1] == entry);
                assert(spec_proposals(b, world.particles(), snapshot, snapshot.len())
                    == spec_proposals(
                    b,
                    world.particles(),
                    snapshot,
                    (snapshot.len() - 1) as nat,
                ).push(Proposal { from: entry.0, action: spec_decide(b, entry.0 as int) }));
            },
            None => {},
        }
    }
}

/// Every proposal of a plan can be carried out on the board that it was
/// decided from.
proof fn lemma_plan_feasible(b: Board, k: nat)
    requires
        b.wf(),
        k <= b.cells.len(),
    ensures
        forall|i: int|
            0 <= i < spec_plan(b, k).len() ==> feasible(
                b,
                (#[trigger] spec_plan(b, k)[i]).from as int,
                spec_plan(b, k)[i].action,
            ),
    decreases k,
{
    if k > 0 {
        lemma_plan_feasible(b, (k - 1) as nat);
        lemma_sweep_cell_range(b.width, b.height, b.reverse, k - 1);
        let c = sweep_cell(b.width, b.height, b.reverse, k - 1);
        if b.cells[c] is Some {
            lemma_decide_feasible(b, c);
        }
    }
}

/// Resolution serialises the plan: as the resolved plan is committed, no
/// action is dropped, and a cell that no accepted proposal has touched still
/// holds what it held before the tick.
proof fn lemma_resolved_runs_clean(b: Board, ps: Seq<Proposal>, k: nat)
    requires
        b.wf(),
        k <= ps.len(),
        forall|i: int| 0 <= i < ps.len() ==> feasible(b, (#[trigger] ps[i]).from as int, ps[i].action),
    ensures
        ({
            let n = b.cells.len();
            let o = spec_run(spec_start(b.cells), spec_resolve(ps, n), k);
            let taken = spec_taken(ps, n, k);
            &&& o.dropped == 0
            &&& o.cells.len() == n
            &&& taken.len() == n
            &&& forall|c: int| 0 <= c < n && !taken[c] ==> o.cells[c] == b.cells[c]
        }),
    decreases k,
{
    let n = b.cells.len();
    lemma_taken_len(ps, n, k);
    lemma_run_len(spec_start(b.cells), spec_resolve(ps, n), k);
    if k > 0 {
        lemma_resolved_runs_clean(b, ps, (k - 1) as nat);
        let before = spec_run(spec_start(b.cells), spec_resolve(ps, n), (k - 1) as nat);
        let taken = spec_taken(ps, n, (k - 1) as nat);
        let p = ps[k - 1];
        assert(feasible(b, p.from as int, p.action));
        assert(spec_resolve(ps, n)[k - 1] == settle(taken, p));
        if clear_for(taken, p) {
            assert(applicable(before.cells, p));
        }
    }
}

/// As the resolved plan is committed, every cell that an accepted proposal
/// touches holds what that proposal alone makes of the board before the
/// tick.
proof fn lemma_resolved_runs_at_once(b: Board, ps: Seq<Proposal>, k: nat, j: int, c: int)
    requires
        b.wf(),
        k <= ps.len(),
        forall|i: int| 0 <= i < ps.len() ==> feasible(b, (#[trigger] ps[i]).from as int, ps[i].action),
        0 <= j < k,
        0 <= c < b.cells.len(),
        touches(spec_resolve(ps, b.cells.len())[j], c),
    ensures
        spec_run(spec_start(b.cells), spec_resolve(ps, b.cells.len()), k).cells[c] == spec_apply(
            spec_start(b.cells),
            spec_resolve(ps, b.cells.len())[j],
        ).cells[c],
    decreases k,
{
    let n = b.cells.len();
    let settled = spec_resolve(ps, n);
    let last = (k - 1) as nat;
    let before = spec_run(spec_start(b.cells), settled, last);
    let p = settled[last as int];
    lemma_resolved_runs_clean(b, ps, last);
    let taken = spec_taken(ps, n, last);
    assert(p == settle(taken, ps[last as int]));
    assert(feasible(b, ps[last as int].from as int, ps[last as int].action));
    if j < last {
        lemma_resolved_runs_at_once(b, ps, last, j, c);
        lemma_accepted_are_disjoint(ps, n, j, last as int, c);
    } else {
        assert(applicable(before.cells, p));
        assert(applicable(b.cells, p));
    }
}

/// A tick acts at once: every cell that an accepted proposal touches holds,
/// after the tick, what that proposal alone makes of the board before the
/// tick, whatever else was accepted.
pub proof fn lemma_tick_acts_at_once(b: Board, j: int, c: int)
    requires
        b.wf(),
        0 <= j < spec_plan(b, b.cells.len()).len(),
        0 <= c < b.cells.len(),
        touches(spec_resolve(spec_plan(b, b.cells.len()), b.cells.len())[j], c),
    ensures
        spec_tick(b).cells[c] == spec_apply(
            spec_start(b.cells),
            spec_resolve(spec_plan(b, b.cells.len()), b.cells.len())[j],
        ).cells[c],
{
    let ps = spec_plan(b, b.cells.len());
    lemma_plan_feasible(b, b.cells.len());
    assert(spec_resolve(ps, b.cells.len()).len() == ps.len());
    lemma_resolved_runs_at_once(b, ps, ps.len(), j, c);
}

/// A cell that no accepted proposal touches holds after the tick what it
/// held before.
pub proof fn lemma_tick_leaves_the_rest(b: Board, c: int)
    requires
        b.wf(),
        0 <= c < b.cells.len(),
        forall|j: int|
            0 <= j < spec_plan(b, b.cells.len()).len() ==> !touches(
                #[trigger] spec_resolve(spec_plan(b, b.cells.len()), b.cells.len())[j],
                c,
            ),
    ensures
        spec_tick(b).cells[c] == b.cells[c],
{
    let n = b.cells.len();
    let ps = spec_plan(b, n);
    lemma_plan_feasible(b, n);
    assert(spec_resolve(ps, n).len() == ps.len());
    lemma_resolved_runs_clean(b, ps, ps.len());
    lemma_taken_is_touched(ps, n, ps.len(), c);
}

/// A tick drops nothing: every action that resolution accepts can be
/// applied when its turn comes.
pub proof fn lemma_tick_runs_clean(b: Board)
    requires
        b.wf(),
    ensures
        spec_tick(b).dropped == 0,
        spec_tick(b).cells.len() == b.cells.len(),
{
    let ps = spec_plan(b, b.cells.len());
    lemma_plan_feasible(b, b.cells.len());
    lemma_resolved_runs_clean(b, ps, ps.len());
    assert(spec_resolve(ps, b.cells.len()).len() == ps.len());
}

/// Conservation over a tick: the board holds as many particles after the
/// tick as before, more by those that the rules created and fewer by those
/// that they destroyed. No particle is lost to a conflict.
pub proof fn lemma_tick_conserves(b: Board)
    requires
        b.wf(),
    ensures
        population(spec_tick(b).cells) + spec_tick(b).destroyed == population(b.cells)
            + spec_tick(b).created,
        spec_tick(b).dropped == 0,
{
    let settled = spec_resolve(spec_plan(b, b.cells.len()), b.cells.len());
    lemma_commit_conserves(b.cells, settled, settled.len());
    lemma_tick_runs_clean(b);
}

impl World {
    /// Runs one tick: scan, decide, resolve, commit.
    ///
    /// The board afterwards is what `spec_tick` makes of the board before,
    /// and nothing had to be dropped on the way. Every particle keeps its
    /// handle wherever it went; the number of particles changes by what the
    /// rules created and destroyed, and by nothing else. The next tick
    /// sweeps the other way.
    pub fn tick(&mut self)
        requires
            old(self).wf(),
        ensures
            final(self).wf(),
            final(self).spec_grid().same_shape(&old(self).spec_grid()),
            final(self).spec_ticks() == (if old(self).spec_ticks() == u64::MAX {
                0
            } else {
                old(self).spec_ticks() + 1
            }),
            final(self).reverse() == !old(self).reverse(),
            final(self).board().cells == spec_tick(old(self).board()).cells,
            spec_tick(old(self).board()).dropped == 0,
            traced(old(self), final(self), spec_tick(old(self).board()).origin),
            accounted(old(self), final(self)),
            final(self).particles().dom().finite(),
            final(self).particles().dom().len() + spec_tick(old(self).board()).destroyed == old(self).particles().dom().len() + spec_tick(old(self).board()).created,
    {
        let n: usize = self.grid().cell_count();
        let snapshot = scan(self);
        let proposals = decide_all(self, &snapshot);
        let settled = resolve(&proposals, n);
        proof {
            self.lemma_board_wf();
            lemma_snapshot_plan(self, n as nat);
            lemma_tick_runs_clean(self.board());
        }
        let _dropped = commit(self, &settled);
        let ghost done = *self;
        self.advance();
        proof {
            assert(self.cells() == done.cells());
            assert(self.particles() == done.particles());
            assert(self.retired() == done.retired());
        }
    }
}

} // verus!
