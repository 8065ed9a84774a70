use falling_sand::error::SimError;
use falling_sand::material::{
    code, displaces, hot, kind_from_code, lookup, lookup_code, shade, Color, MaterialKind, Phase,
    Rule, BURN_TICKS, KIND_COUNT,
};
use falling_sand::particle::Particle;

const ALL: [MaterialKind; 9] = [
    MaterialKind::Stone,
    MaterialKind::Sand,
    MaterialKind::Water,
    MaterialKind::Oil,
    MaterialKind::Wood,
    MaterialKind::Fire,
    MaterialKind::Ash,
    MaterialKind::Steam,
    MaterialKind::Spout,
];

#[test]
fn lookup_gives_the_row_of_each_kind() {
    let sand = lookup(MaterialKind::Sand);
    assert_eq!(sand.density, 150);
    assert_eq!(sand.phase, Phase::MobileSolid);
    assert_eq!(sand.rule, Rule::Inert);
    assert_eq!(sand.base_color, Color { r: 237, g: 201, b: 175, a: 255 });
    assert!(sand.wraps);
    assert_eq!(sand.spread, 0);

    let water = lookup(MaterialKind::Water);
    assert_eq!(water.density, 100);
    assert_eq!(water.phase, Phase::Liquid);
    assert_eq!(water.rule, Rule::Evaporating);
    assert_eq!(water.spread, 4);

    let steam = lookup(MaterialKind::Steam);
    assert_eq!(steam.phase, Phase::Gas);
    assert!(!steam.wraps);
    assert_eq!(steam.density, 5);

    assert_eq!(lookup(MaterialKind::Stone).phase, Phase::StaticSolid);
    assert_eq!(lookup(MaterialKind::Wood).rule, Rule::Flammable);
    assert_eq!(lookup(MaterialKind::Oil).rule, Rule::Flammable);
    assert_eq!(lookup(MaterialKind::Fire).rule, Rule::Burning);
    assert_eq!(lookup(MaterialKind::Spout).rule, Rule::Generator);
    assert_eq!(lookup(MaterialKind::Ash).phase, Phase::MobileSolid);
}

#[test]
fn codes_and_kinds_round_trip() {
    assert_eq!(KIND_COUNT as usize, ALL.len());
    for (i, kind) in ALL.iter().enumerate() {
        assert_eq!(code(*kind) as usize, i);
        assert_eq!(kind_from_code(i as u8), Ok(*kind));
        assert_eq!(lookup_code(i as u8), Ok(lookup(*kind)));
    }
}

#[test]
fn unknown_code_is_a_configuration_error() {
    assert_eq!(kind_from_code(KIND_COUNT), Err(SimError::ConfigurationError));
    assert_eq!(kind_from_code(255), Err(SimError::ConfigurationError));
    assert_eq!(lookup_code(9), Err(SimError::ConfigurationError));
    assert_eq!(lookup_code(200), Err(SimError::ConfigurationError));
}

#[test]
fn displacement_needs_a_denser_mover_and_a_fluid_occupant() {
    assert!(displaces(MaterialKind::Sand, MaterialKind::Water));
    assert!(displaces(MaterialKind::Water, MaterialKind::Oil));
    assert!(displaces(MaterialKind::Oil, MaterialKind::Steam));
    assert!(displaces(MaterialKind::Stone, MaterialKind::Water));
    // Not denser.
    assert!(!displaces(MaterialKind::Oil, MaterialKind::Water));
    assert!(!displaces(MaterialKind::Water, MaterialKind::Water));
    assert!(!displaces(MaterialKind::Steam, MaterialKind::Water));
    // Denser, but the occupant is a solid.
    assert!(!displaces(MaterialKind::Sand, MaterialKind::Ash));
    assert!(!displaces(MaterialKind::Stone, MaterialKind::Sand));
    assert!(!displaces(MaterialKind::Water, MaterialKind::Fire));
    for a in ALL {
        assert!(!displaces(a, a));
        for b in ALL {
            assert!(!(displaces(a, b) && displaces(b, a)));
        }
    }
}

#[test]
fn only_fire_is_hot() {
    for kind in ALL {
        assert_eq!(hot(kind), kind == MaterialKind::Fire);
    }
}

#[test]
fn shade_darkens_by_the_seed() {
    let base = Color { r: 100, g: 10, b: 3, a: 77 };
    assert_eq!(shade(base, 0), base);
    assert_eq!(shade(base, 1), Color { r: 94, g: 4, b: 0, a: 77 });
    assert_eq!(shade(base, 2), Color { r: 88, g: 0, b: 0, a: 77 });
    assert_eq!(shade(base, 3), Color { r: 82, g: 0, b: 0, a: 77 });
    assert_eq!(shade(base, 4), base);
    assert_eq!(shade(base, 7), shade(base, 3));
}

#[test]
fn fresh_particle_has_shaded_base_colour_and_initial_lifetime() {
    let p = Particle::fresh(MaterialKind::Sand, 5);
    assert_eq!(p.kind, MaterialKind::Sand);
    assert_eq!(p.color, Color { r: 231, g: 195, b: 169, a: 255 });
    assert_eq!(p.lifetime, 0);
    let f = Particle::fresh(MaterialKind::Fire, 0);
    assert_eq!(f.color, Color { r: 255, g: 100, b: 20, a: 255 });
    assert_eq!(f.lifetime, BURN_TICKS);
    assert_eq!(BURN_TICKS, 5);
}
