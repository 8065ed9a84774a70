//! The material table: the closed set of substances and their physical
//! properties. Pure data; nothing here changes after start-up.

use vstd::prelude::*;
use crate::error::SimError;

verus! {

/// An RGBA colour, eight bits per channel.
#[derive(Clone, Copy, Debug, PartialEq, Eq, Structural)]
pub struct Color {
    pub r: u8,
    pub g: u8,
    pub b: u8,
    pub a: u8,
}

/// The coarse mobility class of a material; it selects the movement rule.
#[derive(Clone, Copy, Debug, PartialEq, Eq, Structural)]
pub enum Phase {
    /// Never moves and is never displaced.
    StaticSolid,
    /// Falls and piles up; is never displaced.
    MobileSolid,
    /// Falls, then flows sideways; a denser mover displaces it.
    Liquid,
    /// Rises, then drifts sideways; a denser mover displaces it.
    Gas,
}

/// Which interaction rule a material follows.
#[derive(Clone, Copy, Debug, PartialEq, Eq, Structural)]
pub enum Rule {
    /// Takes part in no reaction.
    Inert,
    /// Catches fire when a burning neighbour touches it.
    Flammable,
    /// Burns down over its lifetime and leaves ash; heats its neighbours.
    Burning,
    /// Turns to steam when a burning neighbour touches it.
    Evaporating,
    /// Emits water into the cell below whenever that cell is empty.
    Generator,
}

/// The substances of the sandbox.
#[derive(Clone, Copy, Debug, PartialEq, Eq, Structural)]
pub enum MaterialKind {
    /// A wall: dense, still and inert.
    Stone,
    /// A powder that falls and piles up.
    Sand,
    /// A liquid; heat turns it to steam.
    Water,
    /// A liquid lighter than water; it burns.
    Oil,
    /// A still solid that burns.
    Wood,
    /// What burning things become; it heats its neighbours and burns down to
    /// ash.
    Fire,
    /// A powder, what fire leaves behind.
    Ash,
    /// A gas that rises and leaves the grid at its edge.
    Steam,
    /// A still solid that emits water.
    Spout,
}

/// The physical properties of one material.
#[derive(Clone, Copy, Debug, PartialEq, Eq, Structural)]
pub struct MaterialProps {
    /// Decides which of two materials may displace the other.
    pub density: u8,
    pub phase: Phase,
    pub rule: Rule,
    pub base_color: Color,
    /// Whether a move across the edge of the grid re-enters on the opposite
    /// side. Where it does not, the edge absorbs the particle.
    pub wraps: bool,
    /// How many cells a liquid or gas may flow sideways in one tick.
    pub spread: u8,
}

/// The number of material kinds; the valid codes are those below it.
pub const KIND_COUNT: u8 = 9;

/// How many ticks a freshly lit fire burns before it turns to ash.
pub const BURN_TICKS: u32 = 5;

/// The table itself.
pub open spec fn spec_lookup(kind: MaterialKind) -> MaterialProps {
    match kind {
        MaterialKind::Stone => MaterialProps {
            density: 255,
            phase: Phase::StaticSolid,
            rule: Rule::Inert,
            base_color: Color { r: 128, g: 128, b: 128, a: 255 },
            wraps: true,
            spread: 0,
        },
        MaterialKind::Sand => MaterialProps {
            density: 150,
            phase: Phase::MobileSolid,
            rule: Rule::Inert,
            base_color: Color { r: 237, g: 201, b: 175, a: 255 },
            wraps: true,
            spread: 0,
        },
        MaterialKind::Water => MaterialProps {
            density: 100,
            phase: Phase::Liquid,
            rule: Rule::Evaporating,
            base_color: Color { r: 64, g: 164, b: 223, a: 255 },
            wraps: true,
            spread: 4,
        },
        MaterialKind::Oil => MaterialProps {
            density: 80,
            phase: Phase::Liquid,
            rule: Rule::Flammable,
            base_color: Color { r: 90, g: 70, b: 40, a: 255 },
            wraps: true,
            spread: 2,
        },
        MaterialKind::Wood => MaterialProps {
            density: 200,
            phase: Phase::StaticSolid,
            rule: Rule::Flammable,
            base_color: Color { r: 133, g: 94, b: 66, a: 255 },
            wraps: true,
            spread: 0,
        },
        MaterialKind::Fire => MaterialProps {
            density: 10,
            phase: Phase::StaticSolid,
            rule: Rule::Burning,
            base_color: Color { r: 255, g: 100, b: 20, a: 255 },
            wraps: true,
            spread: 0,
        },
        MaterialKind::Ash => MaterialProps {
            density: 120,
            phase: Phase::MobileSolid,
            rule: Rule::Inert,
            base_color: Color { r: 90, g: 90, b: 90, a: 255 },
            wraps: true,
            spread: 0,
        },
        MaterialKind::Steam => MaterialProps {
            density: 5,
            phase: Phase::Gas,
            rule: Rule::Inert,
            base_color: Color { r: 220, g: 220, b: 230, a: 255 },
            wraps: false,
            spread: 2,
        },
        MaterialKind::Spout => MaterialProps {
            density: 255,
            phase: Phase::StaticSolid,
            rule: Rule::Generator,
            base_color: Color { r: 40, g: 80, b: 160, a: 255 },
            wraps: true,
            spread: 0,
        },
    }
}

/// The properties of `kind`. Total over the closed set of kinds.
pub fn lookup(kind: MaterialKind) -> (props: MaterialProps)
    ensures
        props == spec_lookup(kind),
{
    match kind {
        MaterialKind::Stone => row(255, Phase::StaticSolid, Rule::Inert, 128, 128, 128, true, 0),
        MaterialKind::Sand => row(150, Phase::MobileSolid, Rule::Inert, 237, 201, 175, true, 0),
        MaterialKind::Water => row(100, Phase::Liquid, Rule::Evaporating, 64, 164, 223, true, 4),
        MaterialKind::Oil => row(80, Phase::Liquid, Rule::Flammable, 90, 70, 40, true, 2),
        MaterialKind::Wood => row(200, Phase::StaticSolid, Rule::Flammable, 133, 94, 66, true, 0),
        MaterialKind::Fire => row(10, Phase::StaticSolid, Rule::Burning, 255, 100, 20, true, 0),
        MaterialKind::Ash => row(120, Phase::MobileSolid, Rule::Inert, 90, 90, 90, true, 0),
        MaterialKind::Steam => row(5, Phase::Gas, Rule::Inert, 220, 220, 230, false, 2),
        MaterialKind::Spout => row(255, Phase::StaticSolid, Rule::Generator, 40, 80, 160, true, 0),
    }
}

fn row(
    density: u8,
    phase: Phase,
    rule: Rule,
    r: u8,
    g: u8,
    b: u8,
    wraps: bool,
    spread: u8,
) -> (props: MaterialProps)
    ensures
        props == (MaterialProps {
            density,
            phase,
            rule,
            base_color: Color { r, g, b, a: 255 },
            wraps,
            spread,
        }),
{
    MaterialProps { density, phase, rule, base_color: Color { r, g, b, a: 255 }, wraps, spread }
}

/// The numeric code of a kind, as configuration files and tools name it.
pub open spec fn spec_code(kind: MaterialKind) -> u8 {
    match kind {
        MaterialKind::Stone => 0,
        MaterialKind::Sand => 1,
        MaterialKind::Water => 2,
        MaterialKind::Oil => 3,
        MaterialKind::Wood => 4,
        MaterialKind::Fire => 5,
        MaterialKind::Ash => 6,
        MaterialKind::Steam => 7,
        MaterialKind::Spout => 8,
    }
}

/// The numeric code of `kind`.
pub fn code(kind: MaterialKind) -> (c: u8)
    ensures
        c == spec_code(kind),
        c < KIND_COUNT,
{
    match kind {
        MaterialKind::Stone => 0,
        MaterialKind::Sand => 1,
        MaterialKind::Water => 2,
        MaterialKind::Oil => 3,
        MaterialKind::Wood => 4,
        MaterialKind::Fire => 5,
        MaterialKind::Ash => 6,
        MaterialKind::Steam => 7,
        MaterialKind::Spout => 8,
    }
}

/// The kind that a code names. Codes from `KIND_COUNT` on name nothing and
/// are refused as a configuration error.
pub fn kind_from_code(c: u8) -> (r: Result<MaterialKind, SimError>)
    ensures
        c < KIND_COUNT ==> r is Ok && spec_code(r->Ok_0) == c,
        c >= KIND_COUNT ==> r == Err::<MaterialKind, SimError>(SimError::ConfigurationError),
{
    match c {
        0 => Ok(MaterialKind::Stone),
        1 => Ok(MaterialKind::Sand),
        2 => Ok(MaterialKind::Water),
        3 => Ok(MaterialKind::Oil),
        4 => Ok(MaterialKind::Wood),
        5 => Ok(MaterialKind::Fire),
        6 => Ok(MaterialKind::Ash),
        7 => Ok(MaterialKind::Steam),
        8 => Ok(MaterialKind::Spout),
        _ => Err(SimError::ConfigurationError),
    }
}

/// The properties of the material that a code names.
pub fn lookup_code(c: u8) -> (r: Result<MaterialProps, SimError>)
    ensures
        c < KIND_COUNT ==> r is Ok && exists|k: MaterialKind|
            spec_code(k) == c && r->Ok_0 == spec_lookup(k),
        c >= KIND_COUNT ==> r == Err::<MaterialProps, SimError>(SimError::ConfigurationError),
{
    match kind_from_code(c) {
        Ok(kind) => Ok(lookup(kind)),
        Err(e) => Err(e),
    }
}

/// Whether a material of this phase gives way to a denser mover.
pub open spec fn spec_displaceable(phase: Phase) -> bool {
    phase == Phase::Liquid || phase == Phase::Gas
}

/// Whether a particle of kind `mover` may push one of kind `occupant` out of
/// its cell: the mover is strictly denser, and the occupant is a fluid.
pub open spec fn spec_displaces(mover: MaterialKind, occupant: MaterialKind) -> bool {
    spec_lookup(mover).density > spec_lookup(occupant).density && spec_displaceable(
        spec_lookup(occupant).phase,
    )
}

/// Whether `mover` may displace `occupant`.
pub fn displaces(mover: MaterialKind, occupant: MaterialKind) -> (r: bool)
    ensures
        r == spec_displaces(mover, occupant),
{
    let m = lookup(mover);
    let o = lookup(occupant);
    let fluid = match o.phase {
        Phase::Liquid => true,
        Phase::Gas => true,
        _ => false,
    };
    m.density > o.density && fluid
}

/// Whether a material heats its neighbours.
pub open spec fn spec_hot(kind: MaterialKind) -> bool {
    spec_lookup(kind).rule == Rule::Burning
}

/// Whether `kind` heats its neighbours.
pub fn hot(kind: MaterialKind) -> (r: bool)
    ensures
        r == spec_hot(kind),
{
    match lookup(kind).rule {
        Rule::Burning => true,
        _ => false,
    }
}

/// A colour darkened by a small amount that depends on `seed`, to give
/// neighbouring particles of one material a little visual variety.
pub open spec fn spec_shade(base: Color, seed: nat) -> Color {
    let d = (seed % 4) * 6;
    Color {
        r: (if base.r >= d { base.r - d } else { 0 }) as u8,
        g: (if base.g >= d { base.g - d } else { 0 }) as u8,
        b: (if base.b >= d { base.b - d } else { 0 }) as u8,
        a: base.a,
    }
}

/// The colour `base`, darkened according to `seed`.
pub fn shade(base: Color, seed: usize) -> (c: Color)
    ensures
        c == spec_shade(base, seed as nat),
{
    let d: u8 = ((seed % 4) * 6) as u8;
    Color {
        r: if base.r >= d { base.r - d } else { 0 },
        g: if base.g >= d { base.g - d } else { 0 },
        b: if base.b >= d { base.b - d } else { 0 },
        a: base.a,
    }
}

/// Every kind has a code, and the code names that kind again.
pub proof fn lemma_code_round_trip(kind: MaterialKind)
    ensures
        spec_code(kind) < KIND_COUNT,
        forall|other: MaterialKind| spec_code(other) == spec_code(kind) ==> other == kind,
{
}

/// No material displaces itself, and displacement never runs both ways.
pub proof fn lemma_displacement_is_strict(a: MaterialKind, b: MaterialKind)
    ensures
        !spec_displaces(a, a),
        spec_displaces(a, b) ==> !spec_displaces(b, a),
{
}

} // verus!
