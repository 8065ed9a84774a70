//! Particles and the handles that name them.

use vstd::prelude::*;
use crate::material::{lookup, shade, spec_lookup, spec_shade, Color, MaterialKind, Rule, BURN_TICKS};

verus! {

/// One simulated unit of matter. It occupies at most one cell at a time.
#[derive(Clone, Copy, Debug, PartialEq, Eq, Structural)]
pub struct Particle {
    pub kind: MaterialKind,
    /// The colour shown for this particle; it may differ a little from the
    /// base colour of its material.
    pub color: Color,
    /// Ticks that a reacting particle has left before its reaction ends.
    pub lifetime: u32,
}

/// A stable reference to one particle record. A handle stays valid until
/// its particle is destroyed, and is never valid again after that.
#[derive(Clone, Copy, Debug, PartialEq, Eq, Hash, Structural)]
pub struct Handle {
    pub(crate) slot: usize,
    pub(crate) generation: u64,
}

impl Handle {
    /// The number under which the handle is filed in an index. Distinct
    /// handles have distinct keys.
    pub closed spec fn spec_key(self) -> u128 {
        (self.slot * 0x1_0000_0000_0000_0000 + self.generation) as u128
    }

    /// The key of the handle.
    pub(crate) fn key(&self) -> (k: u128)
        ensures
            k == self.spec_key(),
    {
        (self.slot as u128) * 0x1_0000_0000_0000_0000u128 + (self.generation as u128)
    }

    /// Distinct handles have distinct keys.
    pub proof fn lemma_key_injective(a: Handle, b: Handle)
        requires
            a.spec_key() == b.spec_key(),
        ensures
            a == b,
    {
    }
}

/// The lifetime that a new particle of `kind` starts with.
pub open spec fn spec_initial_lifetime(kind: MaterialKind) -> u32 {
    if spec_lookup(kind).rule == Rule::Burning {
        BURN_TICKS
    } else {
        0
    }
}

/// A new particle of `kind`, its colour shaded by `seed`.
pub open spec fn spec_fresh(kind: MaterialKind, seed: nat) -> Particle {
    Particle {
        kind,
        color: spec_shade(spec_lookup(kind).base_color, seed),
        lifetime: spec_initial_lifetime(kind),
    }
}

impl Particle {
    /// A new particle of `kind`. Its colour is the base colour of the
    /// material, shaded by `seed`; a burning material starts with a full
    /// lifetime, every other with none.
    pub fn fresh(kind: MaterialKind, seed: usize) -> (p: Particle)
        ensures
            p == spec_fresh(kind, seed as nat),
    {
        let props = lookup(kind);
        let lifetime: u32 = match props.rule {
            Rule::Burning => BURN_TICKS,
            _ => 0,
        };
        Particle { kind, color: shade(props.base_color, seed), lifetime }
    }
}

} // verus!
