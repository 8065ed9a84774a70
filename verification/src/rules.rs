//! The local rules: what one particle proposes to do in the coming tick,
//! given the board as it stands before the tick.
//!
//! A particle first reacts, if its material's interaction rule fires. A
//! particle that does not react moves as its phase says. Each candidate
//! destination is probed in turn; the first that is not blocked decides.

use vstd::prelude::*;
use crate::board::Board;
use crate::grid::{cell_of, lemma_cell_of_range, MAX_SIDE};
use crate::material::{
    displaces, hot, lookup, spec_displaces, spec_hot, spec_lookup, MaterialKind, Phase, Rule,
};
use crate::particle::{spec_fresh, Particle};
use crate::world::World;

verus! {

/// What a particle does in one tick.
#[derive(Clone, Copy, Debug, PartialEq, Eq, Structural)]
pub enum Action {
    /// Nothing.
    Stay,
    /// It moves into the empty cell `to`.
    Move { to: usize },
    /// It changes places with the particle in cell `with`, which it
    /// displaces.
    Swap { with: usize },
    /// It stays where it is and becomes `next`.
    Become { next: Particle },
    /// It is destroyed.
    Vanish,
    /// It stays as it is and emits `particle` into the empty cell `to`.
    Spawn { to: usize, particle: Particle },
}

/// The action proposed for the particle in cell `from`.
#[derive(Clone, Copy, Debug, PartialEq, Eq, Structural)]
pub struct Proposal {
    pub from: usize,
    pub action: Action,
}

/// Whether the coordinates lie on the grid without wrapping.
pub open spec fn on_grid(b: Board, x: int, y: int) -> bool {
    0 <= x < b.width && 0 <= y < b.height
}

/// Whether the cell that `(x, y)` names holds a particle that heats its
/// neighbours.
pub open spec fn spec_hot_at(b: Board, x: int, y: int) -> bool {
    b.at(x, y) is Some && spec_hot(b.at(x, y)->Some_0.kind)
}

/// Whether any of the eight cells around `(x, y)` holds a hot particle.
/// The neighbourhood is the same in every direction and wraps at the edge.
pub open spec fn spec_near_heat(b: Board, x: int, y: int) -> bool {
    ||| spec_hot_at(b, x - 1, y - 1)
    ||| spec_hot_at(b, x, y - 1)
    ||| spec_hot_at(b, x + 1, y - 1)
    ||| spec_hot_at(b, x - 1, y)
    ||| spec_hot_at(b, x + 1, y)
    ||| spec_hot_at(b, x - 1, y + 1)
    ||| spec_hot_at(b, x, y + 1)
    ||| spec_hot_at(b, x + 1, y + 1)
}

/// What a particle of `kind` can do about the destination `(tx, ty)`.
///
/// A destination beyond the edge, for a material that does not wrap, takes
/// the particle off the grid. An empty cell can be moved into. An occupied
/// cell can be taken only by displacing its occupant. `None` means that the
/// destination is blocked.
pub open spec fn spec_probe(b: Board, kind: MaterialKind, tx: int, ty: int) -> Option<Action> {
    if spec_lookup(kind).wraps || on_grid(b, tx, ty) {
        let c = cell_of(b.width, b.height, tx, ty);
        match b.cells[c] {
            None => Some(Action::Move { to: c as usize }),
            Some(q) => if spec_displaces(kind, q.kind) {
                Some(Action::Swap { with: c as usize })
            } else {
                None
            },
        }
    } else {
        Some(Action::Vanish)
    }
}

/// The first of two candidates that is not blocked.
pub open spec fn or_else(first: Option<Action>, second: Option<Action>) -> Option<Action> {
    if first is Some {
        first
    } else {
        second
    }
}

/// The column `d` cells to the left or to the right of `x`.
pub open spec fn ahead(x: int, left: bool, d: int) -> int {
    if left {
        x - d
    } else {
        x + d
    }
}

/// The vertical move of a particle of `kind` at `(x, y)`: straight into the
/// row `y + dy`, else diagonally into it. Of the two diagonals the left one
/// is tried first in a tick that sweeps from the left, the right one in a
/// tick that sweeps from the right.
pub open spec fn spec_fall(b: Board, kind: MaterialKind, x: int, y: int, dy: int) -> Option<
    Action,
> {
    or_else(
        spec_probe(b, kind, x, y + dy),
        or_else(
            spec_probe(b, kind, ahead(x, !b.reverse, 1), y + dy),
            spec_probe(b, kind, ahead(x, b.reverse, 1), y + dy),
        ),
    )
}

/// Whether a flowing particle can pass through `(tx, ty)`: the place is on
/// the grid, or the material wraps, and the cell is empty.
pub open spec fn spec_open_at(b: Board, tx: int, ty: int, wraps: bool) -> bool {
    (wraps || on_grid(b, tx, ty)) && b.at(tx, ty) is None
}

/// How far a particle at `(x, y)` that has come `d` cells sideways gets in
/// all: it goes on through open cells until it has come `limit` cells.
pub open spec fn spec_reach(
    b: Board,
    x: int,
    y: int,
    left: bool,
    wraps: bool,
    d: int,
    limit: int,
) -> int
    decreases limit - d,
{
    if d < limit && spec_open_at(b, ahead(x, left, d + 1), y, wraps) {
        spec_reach(b, x, y, left, wraps, d + 1, limit)
    } else {
        d
    }
}

/// The sideways move of a particle of `kind` at `(x, y)` in one direction.
/// Where the next cell is empty the particle flows on through empty cells,
/// as far as the spread of its material allows.
pub open spec fn spec_slide(b: Board, kind: MaterialKind, x: int, y: int, left: bool) -> Option<
    Action,
> {
    let props = spec_lookup(kind);
    if props.spread == 0 {
        None
    } else {
        match spec_probe(b, kind, ahead(x, left, 1), y) {
            Some(Action::Move { to }) => {
                let d = spec_reach(b, x, y, left, props.wraps, 1, props.spread as int);
                Some(Action::Move { to: cell_of(b.width, b.height, ahead(x, left, d), y) as usize })
            },
            other => other,
        }
    }
}

/// The sideways move of a particle in either direction, the direction of
/// the sweep first.
pub open spec fn spec_flow(b: Board, kind: MaterialKind, x: int, y: int) -> Option<Action> {
    or_else(spec_slide(b, kind, x, y, !b.reverse), spec_slide(b, kind, x, y, b.reverse))
}

/// A candidate if there is one, else to stay.
pub open spec fn or_stay(candidate: Option<Action>) -> Action {
    match candidate {
        Some(a) => a,
        None => Action::Stay,
    }
}

/// How a particle of `kind` at `(x, y)` moves.
///
/// A static solid never moves. A mobile solid falls. A liquid falls, and
/// flows sideways where it cannot fall. A gas rises, and drifts sideways
/// where it cannot rise.
pub open spec fn spec_movement(b: Board, kind: MaterialKind, x: int, y: int) -> Action {
    match spec_lookup(kind).phase {
        Phase::StaticSolid => Action::Stay,
        Phase::MobileSolid => or_stay(spec_fall(b, kind, x, y, -1)),
        Phase::Liquid => or_stay(or_else(spec_fall(b, kind, x, y, -1), spec_flow(b, kind, x, y))),
        Phase::Gas => or_stay(or_else(spec_fall(b, kind, x, y, 1), spec_flow(b, kind, x, y))),
    }
}

/// How the particle `p` at `(x, y)` reacts, if its rule fires.
///
/// A flammable particle next to heat becomes fire. An evaporating one next
/// to heat becomes steam. A burning one counts its lifetime down and becomes
/// ash when none is left. A generator emits water into the cell below it
/// where that cell is empty.
pub open spec fn spec_reaction(b: Board, p: Particle, x: int, y: int) -> Option<Action> {
    let here = cell_of(b.width, b.height, x, y);
    match spec_lookup(p.kind).rule {
        Rule::Inert => None,
        Rule::Flammable => if spec_near_heat(b, x, y) {
            Some(Action::Become { next: spec_fresh(MaterialKind::Fire, here as nat) })
        } else {
            None
        },
        Rule::Evaporating => if spec_near_heat(b, x, y) {
            Some(Action::Become { next: spec_fresh(MaterialKind::Steam, here as nat) })
        } else {
            None
        },
        Rule::Burning => if p.lifetime > 0 {
            Some(
                Action::Become {
                    next: Particle {
                        kind: p.kind,
                        color: p.color,
                        lifetime: (p.lifetime - 1) as u32,
                    },
                },
            )
        } else {
            Some(Action::Become { next: spec_fresh(MaterialKind::Ash, here as nat) })
        },
        Rule::Generator => {
            let below = cell_of(b.width, b.height, x, y - 1);
            if b.cells[below] is None {
                Some(
                    Action::Spawn {
                        to: below as usize,
                        particle: spec_fresh(MaterialKind::Water, below as nat),
                    },
                )
            } else {
                None
            }
        },
    }
}

/// What the occupant of cell number `c` proposes for the coming tick: its
/// reaction if its rule fires, else its movement. An empty cell proposes
/// nothing.
pub open spec fn spec_decide(b: Board, c: int) -> Action {
    match b.cells[c] {
        None => Action::Stay,
        Some(p) => {
            let x = c % b.width;
            let y = c / b.width;
            match spec_reaction(b, p, x, y) {
                Some(a) => a,
                None => spec_movement(b, p.kind, x, y),
            }
        },
    }
}

/// The particle in the cell that `(x, y)` names.
fn look(world: &World, x: i64, y: i64) -> (r: Option<Particle>)
    requires
        world.wf(),
    ensures
        r == world.board().at(x as int, y as int),
{
    let c: usize = world.grid().cell_index(x, y);
    world.particle_at(c)
}

fn hot_at(world: &World, x: i64, y: i64) -> (r: bool)
    requires
        world.wf(),
    ensures
        r == spec_hot_at(world.board(), x as int, y as int),
{
    match look(world, x, y) {
        Some(q) => hot(q.kind),
        None => false,
    }
}

fn near_heat(world: &World, x: i64, y: i64) -> (r: bool)
    requires
        world.wf(),
        0 <= x < MAX_SIDE,
        0 <= y < MAX_SIDE,
    ensures
        r == spec_near_heat(world.board(), x as int, y as int),
{
    hot_at(world, x - 1, y - 1) || hot_at(world, x, y - 1) || hot_at(world, x + 1, y - 1)
        || hot_at(world, x - 1, y) || hot_at(world, x + 1, y) || hot_at(world, x - 1, y + 1)
        || hot_at(world, x, y + 1) || hot_at(world, x + 1, y + 1)
}

fn within(world: &World, x: i64, y: i64) -> (r: bool)
    requires
        world.wf(),
    ensures
        r == on_grid(world.board(), x as int, y as int),
{
    0 <= x && x < world.grid().width() as i64 && 0 <= y && y < world.grid().height() as i64
}

fn probe(world: &World, kind: MaterialKind, tx: i64, ty: i64) -> (r: Option<Action>)
    requires
        world.wf(),
    ensures
        r == spec_probe(world.board(), kind, tx as int, ty as int),
{
    if lookup(kind).wraps || within(world, tx, ty) {
        let c: usize = world.grid().cell_index(tx, ty);
        match world.particle_at(c) {
            None => Some(Action::Move { to: c }),
            Some(q) => if displaces(kind, q.kind) {
                Some(Action::Swap { with: c })
            } else {
                None
            },
        }
    } else {
        Some(Action::Vanish)
    }
}

fn side(x: i64, left: bool, d: i64) -> (r: i64)
    requires
        0 <= x < MAX_SIDE,
        0 <= d <= 256,
    ensures
        r == ahead(x as int, left, d as int),
{
    if left {
        x - d
    } else {
        x + d
    }
}

fn fall(world: &World, kind: MaterialKind, x: i64, y: i64, dy: i64) -> (r: Option<Action>)
    requires
        world.wf(),
        0 <= x < MAX_SIDE,
        0 <= y < MAX_SIDE,
        -1 <= dy <= 1,
    ensures
        r == spec_fall(world.board(), kind, x as int, y as int, dy as int),
{
    let reverse = world.ticks() % 2 == 1;
    match probe(world, kind, x, y + dy) {
        Some(a) => Some(a),
        None => match probe(world, kind, side(x, !reverse, 1), y + dy) {
            Some(a) => Some(a),
            None => probe(world, kind, side(x, reverse, 1), y + dy),
        },
    }
}

fn open_at(world: &World, tx: i64, ty: i64, wraps: bool) -> (r: bool)
    requires
        world.wf(),
    ensures
        r == spec_open_at(world.board(), tx as int, ty as int, wraps),
{
    (wraps || within(world, tx, ty)) && look(world, tx, ty).is_none()
}

fn reach(world: &World, x: i64, y: i64, left: bool, wraps: bool, limit: u8) -> (r: u8)
    requires
        world.wf(),
        0 <= x < MAX_SIDE,
        1 <= limit,
    ensures
        r == spec_reach(world.board(), x as int, y as int, left, wraps, 1, limit as int),
        1 <= r <= limit,
{
    let mut d: u8 = 1;
    let mut more: bool = d < limit && open_at(world, side(x, left, 2), y, wraps);
    while more
        invariant
            world.wf(),
            0 <= x < MAX_SIDE,
            1 <= d <= limit,
            more == (d < limit && spec_open_at(
                world.board(),
                ahead(x as int, left, d + 1),
                y as int,
                wraps,
            )),
            spec_reach(world.board(), x as int, y as int, left, wraps, d as int, limit as int)
                == spec_reach(world.board(), x as int, y as int, left, wraps, 1, limit as int),
        decreases limit - d,
    {
        d = d + 1;
        more = d < limit && open_at(world, side(x, left, d as i64 + 1), y, wraps);
    }
    d
}

fn slide(world: &World, kind: MaterialKind, x: i64, y: i64, left: bool) -> (r: Option<Action>)
    requires
        world.wf(),
        0 <= x < MAX_SIDE,
    ensures
        r == spec_slide(world.board(), kind, x as int, y as int, left),
{
    let props = lookup(kind);
    if props.spread == 0 {
        return None;
    }
    match probe(world, kind, side(x, left, 1), y) {
        Some(Action::Move { to }) => {
            let d: u8 = reach(world, x, y, left, props.wraps, props.spread);
            let c: usize = world.grid().cell_index(side(x, left, d as i64), y);
            Some(Action::Move { to: c })
        },
        other => other,
    }
}

fn flow(world: &World, kind: MaterialKind, x: i64, y: i64) -> (r: Option<Action>)
    requires
        world.wf(),
        0 <= x < MAX_SIDE,
    ensures
        r == spec_flow(world.board(), kind, x as int, y as int),
{
    let reverse = world.ticks() % 2 == 1;
    match slide(world, kind, x, y, !reverse) {
        Some(a) => Some(a),
        None => slide(world, kind, x, y, reverse),
    }
}

fn movement(world: &World, kind: MaterialKind, x: i64, y: i64) -> (r: Action)
    requires
        world.wf(),
        0 <= x < MAX_SIDE,
        0 <= y < MAX_SIDE,
    ensures
        r == spec_movement(world.board(), kind, x as int, y as int),
{
    let candidate = match lookup(kind).phase {
        Phase::StaticSolid => None,
        Phase::MobileSolid => fall(world, kind, x, y, -1),
        Phase::Liquid => match fall(world, kind, x, y, -1) {
            Some(a) => Some(a),
            None => flow(world, kind, x, y),
        },
        Phase::Gas => match fall(world, kind, x, y, 1) {
            Some(a) => Some(a),
            None => flow(world, kind, x, y),
        },
    };
    match candidate {
        Some(a) => a,
        None => Action::Stay,
    }
}

fn reaction(world: &World, p: Particle, x: i64, y: i64) -> (r: Option<Action>)
    requires
        world.wf(),
        0 <= x < MAX_SIDE,
        0 <= y < MAX_SIDE,
    ensures
        r == spec_reaction(world.board(), p, x as int, y as int),
{
    match lookup(p.kind).rule {
        Rule::Inert => None,
        Rule::Flammable => if near_heat(world, x, y) {
            let here: usize = world.grid().cell_index(x, y);
            Some(Action::Become { next: Particle::fresh(MaterialKind::Fire, here) })
        } else {
            None
        },
        Rule::Evaporating => if near_heat(world, x, y) {
            let here: usize = world.grid().cell_index(x, y);
            Some(Action::Become { next: Particle::fresh(MaterialKind::Steam, here) })
        } else {
            None
        },
        Rule::Burning => if p.lifetime > 0 {
            Some(
                Action::Become {
                    next: Particle { kind: p.kind, color: p.color, lifetime: p.lifetime - 1 },
                },
            )
        } else {
            let here: usize = world.grid().cell_index(x, y);
            Some(Action::Become { next: Particle::fresh(MaterialKind::Ash, here) })
        },
        Rule::Generator => {
            let below: usize = world.grid().cell_index(x, y - 1);
            if world.particle_at(below).is_none() {
                Some(
                    Action::Spawn {
                        to: below,
                        particle: Particle::fresh(MaterialKind::Water, below),
                    },
                )
            } else {
                None
            }
        },
    }
}

/// What the occupant of cell number `c` proposes for the coming tick, as
/// the world stands: its reaction if its rule fires, else its movement. An
/// empty cell proposes nothing, and neither does a number that names no
/// cell.
pub fn decide(world: &World, c: usize) -> (a: Action)
    requires
        world.wf(),
    ensures
        c < world.cells().len() ==> a == spec_decide(world.board(), c as int),
        c >= world.cells().len() ==> a == Action::Stay,
{
    match world.particle_at(c) {
        None => Action::Stay,
        Some(p) => {
            let at = world.grid().coordinates(c);
            let x: i64 = at.0 as i64;
            let y: i64 = at.1 as i64;
            match reaction(world, p, x, y) {
                Some(a) => a,
                None => movement(world, p.kind, x, y),
            }
        },
    }
}

/// Whether the action is one that the occupant of cell `from` can carry out
/// on the board as it stands: there is a particle to act, a move or a spawn
/// goes into an empty cell of the grid, and a swap meets a particle.
pub open spec fn feasible(b: Board, from: int, a: Action) -> bool {
    0 <= from < b.cells.len() && b.cells[from] is Some && match a {
        Action::Move { to } => to < b.cells.len() && b.cells[to as int] is None,
        Action::Swap { with } => with < b.cells.len() && b.cells[with as int] is Some,
        Action::Spawn { to, particle } => to < b.cells.len() && b.cells[to as int] is None,
        _ => true,
    }
}

proof fn lemma_probe_feasible(b: Board, from: int, kind: MaterialKind, tx: int, ty: int)
    requires
        b.wf(),
        0 <= from < b.cells.len(),
        b.cells[from] is Some,
    ensures
        spec_probe(b, kind, tx, ty) is Some ==> feasible(
            b,
            from,
            spec_probe(b, kind, tx, ty)->Some_0,
        ),
        spec_probe(b, kind, tx, ty) matches Some(Action::Move { to }) ==> spec_open_at(
            b,
            tx,
            ty,
            spec_lookup(kind).wraps,
        ),
{
    lemma_cell_of_range(b.width, b.height, tx, ty);
}

/// A flowing particle that starts from an open cell ends in an open cell.
proof fn lemma_reach_open(b: Board, x: int, y: int, left: bool, wraps: bool, d: int, limit: int)
    requires
        spec_open_at(b, ahead(x, left, d), y, wraps),
    ensures
        spec_open_at(b, ahead(x, left, spec_reach(b, x, y, left, wraps, d, limit)), y, wraps),
    decreases limit - d,
{
    if d < limit && spec_open_at(b, ahead(x, left, d + 1), y, wraps) {
        lemma_reach_open(b, x, y, left, wraps, d + 1, limit);
    }
}

proof fn lemma_slide_feasible(b: Board, from: int, kind: MaterialKind, x: int, y: int, left: bool)
    requires
        b.wf(),
        0 <= from < b.cells.len(),
        b.cells[from] is Some,
    ensures
        spec_slide(b, kind, x, y, left) is Some ==> feasible(
            b,
            from,
            spec_slide(b, kind, x, y, left)->Some_0,
        ),
{
    let props = spec_lookup(kind);
    lemma_probe_feasible(b, from, kind, ahead(x, left, 1), y);
    if props.spread != 0 {
        if spec_probe(b, kind, ahead(x, left, 1), y) matches Some(Action::Move { to }) {
            lemma_reach_open(b, x, y, left, props.wraps, 1, props.spread as int);
            let d = spec_reach(b, x, y, left, props.wraps, 1, props.spread as int);
            lemma_cell_of_range(b.width, b.height, ahead(x, left, d), y);
        }
    }
}

proof fn lemma_fall_feasible(b: Board, from: int, kind: MaterialKind, x: int, y: int, dy: int)
    requires
        b.wf(),
        0 <= from < b.cells.len(),
        b.cells[from] is Some,
    ensures
        spec_fall(b, kind, x, y, dy) is Some ==> feasible(
            b,
            from,
            spec_fall(b, kind, x, y, dy)->Some_0,
        ),
{
    lemma_probe_feasible(b, from, kind, x, y + dy);
    lemma_probe_feasible(b, from, kind, ahead(x, !b.reverse, 1), y + dy);
    lemma_probe_feasible(b, from, kind, ahead(x, b.reverse, 1), y + dy);
}

/// What a particle proposes, it can carry out on the board that it was
/// decided from.
pub proof fn lemma_decide_feasible(b: Board, c: int)
    requires
        b.wf(),
        0 <= c < b.cells.len(),
        b.cells[c] is Some,
    ensures
        feasible(b, c, spec_decide(b, c)),
{
    let p = b.cells[c]->Some_0;
    let x = c % b.width;
    let y = c / b.width;
    lemma_cell_of_range(b.width, b.height, x, y - 1);
    lemma_fall_feasible(b, c, p.kind, x, y, -1);
    lemma_fall_feasible(b, c, p.kind, x, y, 1);
    lemma_slide_feasible(b, c, p.kind, x, y, true);
    lemma_slide_feasible(b, c, p.kind, x, y, false);
}

/// Density displacement: a mobile solid directly above a fluid that it may
/// displace proposes to change places with it.
pub proof fn lemma_denser_solid_sinks(b: Board, c: int)
    requires
        b.wf(),
        0 <= c < b.cells.len(),
        b.cells[c] is Some,
        spec_lookup(b.cells[c]->Some_0.kind).phase == Phase::MobileSolid,
        b.at(c % b.width, c / b.width - 1) is Some,
        spec_displaces(b.cells[c]->Some_0.kind, b.at(c % b.width, c / b.width - 1)->Some_0.kind),
    ensures
        spec_decide(b, c) == (Action::Swap {
            with: cell_of(b.width, b.height, c % b.width, c / b.width - 1) as usize,
        }),
{
}

/// A static solid never proposes to move: it stays, or it reacts in place
/// as its rule says.
pub proof fn lemma_static_solid_keeps_its_cell(b: Board, c: int)
    requires
        b.wf(),
        0 <= c < b.cells.len(),
        b.cells[c] is Some,
        spec_lookup(b.cells[c]->Some_0.kind).phase == Phase::StaticSolid,
    ensures
        !(spec_decide(b, c) is Move),
        !(spec_decide(b, c) is Swap),
        !(spec_decide(b, c) is Vanish),
{
}

} // verus!
