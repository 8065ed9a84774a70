use falling_sand::material::{Color, MaterialKind, BURN_TICKS};
use falling_sand::paint::Selection;
use falling_sand::particle::Handle;
use falling_sand::world::World;

const BG: Color = Color { r: 28, g: 28, b: 28, a: 255 };

fn world(width: usize, height: usize) -> World {
    World::new(width, height, BG).unwrap()
}

fn put(w: &mut World, x: i64, y: i64, kind: MaterialKind) -> Handle {
    w.paint(x, y, 0, Selection::Material(kind));
    w.grid().occupant(x, y).unwrap()
}

fn kind_at(w: &World, x: i64, y: i64) -> Option<MaterialKind> {
    w.grid().occupant(x, y).map(|h| w.store().get(h).unwrap().kind)
}

#[test]
fn sand_falls_one_cell_per_tick() {
    let mut w = world(5, 5);
    let h = put(&mut w, 2, 3, MaterialKind::Sand);
    w.tick();
    assert_eq!(w.grid().occupant(2, 2), Some(h));
    assert_eq!(w.grid().occupant(2, 3), None);
    w.tick();
    assert_eq!(w.grid().occupant(2, 1), Some(h));
    assert_eq!(w.len(), 1);
}

#[test]
fn sand_wraps_from_the_bottom_row_to_the_top_row() {
    let mut w = world(3, 4);
    let h = put(&mut w, 1, 0, MaterialKind::Sand);
    w.tick();
    assert_eq!(w.grid().occupant(1, 3), Some(h));
    assert_eq!(w.grid().occupant(1, 0), None);
}

#[test]
fn sand_rests_on_stone() {
    let mut w = world(5, 5);
    // A floor of stone across the whole bottom row.
    for x in 0..5 {
        put(&mut w, x, 0, MaterialKind::Stone);
    }
    let h = put(&mut w, 2, 1, MaterialKind::Sand);
    w.tick();
    w.tick();
    assert_eq!(w.grid().occupant(2, 1), Some(h));
}

#[test]
fn sand_slides_off_a_single_stone_to_the_side_of_the_sweep() {
    // Even tick: the left diagonal is tried first.
    let mut w = world(5, 5);
    put(&mut w, 2, 1, MaterialKind::Stone);
    let h = put(&mut w, 2, 2, MaterialKind::Sand);
    assert_eq!(w.ticks(), 0);
    w.tick();
    assert_eq!(w.grid().occupant(1, 1), Some(h));

    // Odd tick: the right diagonal is tried first.
    let mut w = world(5, 5);
    put(&mut w, 0, 4, MaterialKind::Stone);
    w.tick();
    assert_eq!(w.ticks(), 1);
    put(&mut w, 2, 1, MaterialKind::Stone);
    let h = put(&mut w, 2, 2, MaterialKind::Sand);
    w.tick();
    assert_eq!(w.grid().occupant(3, 1), Some(h));
}

#[test]
fn stone_never_moves() {
    let mut w = world(4, 4);
    let h = put(&mut w, 1, 2, MaterialKind::Stone);
    for _ in 0..10 {
        w.tick();
    }
    assert_eq!(w.grid().occupant(1, 2), Some(h));
    assert_eq!(w.ticks(), 10);
}

#[test]
fn denser_solid_swaps_with_liquid_below() {
    // Sand directly above water, nothing below the water.
    let mut w = world(3, 4);
    let sand = put(&mut w, 1, 2, MaterialKind::Sand);
    let water = put(&mut w, 1, 1, MaterialKind::Water);
    assert_eq!(w.grid().occupant(1, 0), None);
    w.tick();
    assert_eq!(w.grid().occupant(1, 1), Some(sand));
    assert_eq!(w.grid().occupant(1, 2), Some(water));
    assert_eq!(w.grid().occupant(1, 0), None);
    assert_eq!(w.len(), 2);
}

#[test]
fn liquid_does_not_displace_a_solid() {
    let mut w = world(3, 3);
    for x in 0..3 {
        put(&mut w, x, 0, MaterialKind::Stone);
    }
    let sand = put(&mut w, 1, 1, MaterialKind::Sand);
    let left = put(&mut w, 0, 1, MaterialKind::Stone);
    let right = put(&mut w, 2, 1, MaterialKind::Stone);
    let water = put(&mut w, 1, 2, MaterialKind::Water);
    put(&mut w, 0, 2, MaterialKind::Stone);
    put(&mut w, 2, 2, MaterialKind::Stone);
    w.tick();
    assert_eq!(w.grid().occupant(1, 1), Some(sand));
    assert_eq!(w.grid().occupant(1, 2), Some(water));
    assert_eq!(w.grid().occupant(0, 1), Some(left));
    assert_eq!(w.grid().occupant(2, 1), Some(right));
}

#[test]
fn water_sinks_through_oil() {
    let mut w = world(3, 3);
    for x in 0..3 {
        put(&mut w, x, 0, MaterialKind::Stone);
    }
    put(&mut w, 0, 1, MaterialKind::Stone);
    put(&mut w, 2, 1, MaterialKind::Stone);
    put(&mut w, 0, 2, MaterialKind::Stone);
    put(&mut w, 2, 2, MaterialKind::Stone);
    let oil = put(&mut w, 1, 1, MaterialKind::Oil);
    let water = put(&mut w, 1, 2, MaterialKind::Water);
    w.tick();
    assert_eq!(w.grid().occupant(1, 1), Some(water));
    assert_eq!(w.grid().occupant(1, 2), Some(oil));
}

#[test]
fn contested_cell_goes_to_the_first_in_the_sweep() {
    // Two grains of sand, each blocked below, both able to reach only the
    // one empty cell between and below them.
    let mut w = world(3, 3);
    put(&mut w, 0, 0, MaterialKind::Stone);
    put(&mut w, 2, 0, MaterialKind::Stone);
    let left = put(&mut w, 0, 1, MaterialKind::Sand);
    let right = put(&mut w, 2, 1, MaterialKind::Sand);
    assert_eq!(w.ticks() % 2, 0);
    w.tick();
    assert_eq!(w.grid().occupant(1, 0), Some(left));
    // The loser stays where it was, and is not lost.
    assert_eq!(w.grid().occupant(2, 1), Some(right));
    assert_eq!(w.grid().occupant(0, 1), None);
    assert_eq!(w.len(), 4);
}

#[test]
fn contested_cell_alternates_between_the_contenders() {
    let mut w = world(3, 3);
    put(&mut w, 0, 0, MaterialKind::Stone);
    put(&mut w, 2, 0, MaterialKind::Stone);
    let mut left_wins = 0;
    let mut right_wins = 0;
    for trial in 0..100u64 {
        assert_eq!(w.ticks(), trial);
        let left = put(&mut w, 0, 1, MaterialKind::Sand);
        let right = put(&mut w, 2, 1, MaterialKind::Sand);
        w.tick();
        let winner = w.grid().occupant(1, 0).unwrap();
        if winner == left {
            left_wins += 1;
            assert_eq!(w.grid().occupant(2, 1), Some(right));
        } else {
            assert_eq!(winner, right);
            right_wins += 1;
            assert_eq!(w.grid().occupant(0, 1), Some(left));
        }
        // Clear the sand away; the stones stay.
        w.paint(1, 0, 0, Selection::Erase);
        w.paint(0, 1, 0, Selection::Erase);
        w.paint(2, 1, 0, Selection::Erase);
        assert_eq!(w.len(), 2);
    }
    assert_eq!(left_wins, 50);
    assert_eq!(right_wins, 50);
}

#[test]
fn water_flows_sideways_up_to_its_spread() {
    let mut w = world(12, 2);
    for x in 0..12 {
        put(&mut w, x, 0, MaterialKind::Stone);
    }
    let water = put(&mut w, 6, 1, MaterialKind::Water);
    // Even tick: leftwards first, four cells at most.
    w.tick();
    assert_eq!(w.grid().occupant(2, 1), Some(water));
    // Odd tick: rightwards first.
    w.tick();
    assert_eq!(w.grid().occupant(6, 1), Some(water));
}

#[test]
fn water_flow_stops_before_an_obstacle() {
    let mut w = world(12, 2);
    for x in 0..12 {
        put(&mut w, x, 0, MaterialKind::Stone);
    }
    put(&mut w, 3, 1, MaterialKind::Stone);
    let water = put(&mut w, 6, 1, MaterialKind::Water);
    w.tick();
    assert_eq!(w.grid().occupant(4, 1), Some(water));
}

#[test]
fn water_blocked_on_one_side_flows_to_the_other() {
    let mut w = world(12, 2);
    for x in 0..12 {
        put(&mut w, x, 0, MaterialKind::Stone);
    }
    put(&mut w, 5, 1, MaterialKind::Stone);
    let water = put(&mut w, 6, 1, MaterialKind::Water);
    w.tick();
    assert_eq!(w.grid().occupant(10, 1), Some(water));
}

#[test]
fn steam_rises_and_leaves_at_the_top() {
    let mut w = world(3, 3);
    let steam = put(&mut w, 1, 1, MaterialKind::Steam);
    w.tick();
    assert_eq!(w.grid().occupant(1, 2), Some(steam));
    assert_eq!(w.len(), 1);
    w.tick();
    // It crossed the top edge, which absorbs it.
    assert_eq!(w.len(), 0);
    assert_eq!(w.grid().occupant(1, 2), None);
    assert_eq!(w.grid().occupant(1, 0), None);
    assert!(w.store().get(steam).is_err());
}

#[test]
fn wood_next_to_fire_catches_fire() {
    let mut w = world(5, 5);
    let wood = put(&mut w, 1, 1, MaterialKind::Wood);
    let far = put(&mut w, 4, 4, MaterialKind::Wood);
    put(&mut w, 2, 2, MaterialKind::Fire);
    w.tick();
    let p = w.store().get(wood).unwrap();
    assert_eq!(p.kind, MaterialKind::Fire);
    assert_eq!(p.lifetime, BURN_TICKS);
    assert_eq!(w.grid().occupant(1, 1), Some(wood));
    assert_eq!(w.store().get(far).unwrap().kind, MaterialKind::Wood);
}

#[test]
fn fire_burns_down_to_ash() {
    let mut w = world(3, 3);
    for x in 0..3 {
        put(&mut w, x, 0, MaterialKind::Stone);
    }
    let fire = put(&mut w, 1, 1, MaterialKind::Fire);
    assert_eq!(w.store().get(fire).unwrap().lifetime, BURN_TICKS);
    for left in (0..BURN_TICKS).rev() {
        w.tick();
        let p = w.store().get(fire).unwrap();
        assert_eq!(p.kind, MaterialKind::Fire);
        assert_eq!(p.lifetime, left);
    }
    w.tick();
    let p = w.store().get(fire).unwrap();
    assert_eq!(p.kind, MaterialKind::Ash);
    assert_eq!(p.lifetime, 0);
    assert_eq!(w.grid().occupant(1, 1), Some(fire));
}

#[test]
fn water_next_to_fire_turns_to_steam() {
    let mut w = world(4, 4);
    let water = put(&mut w, 1, 1, MaterialKind::Water);
    put(&mut w, 2, 1, MaterialKind::Fire);
    w.tick();
    assert_eq!(w.store().get(water).unwrap().kind, MaterialKind::Steam);
    assert_eq!(w.grid().occupant(1, 1), Some(water));
}

#[test]
fn heat_reaches_across_the_edge_of_the_grid() {
    let mut w = world(4, 4);
    let wood = put(&mut w, 0, 0, MaterialKind::Wood);
    put(&mut w, 3, 3, MaterialKind::Fire);
    w.tick();
    assert_eq!(w.store().get(wood).unwrap().kind, MaterialKind::Fire);
}

#[test]
fn spout_emits_water_into_the_empty_cell_below() {
    let mut w = world(3, 4);
    let spout = put(&mut w, 1, 3, MaterialKind::Spout);
    assert_eq!(w.len(), 1);
    w.tick();
    assert_eq!(w.len(), 2);
    assert_eq!(w.grid().occupant(1, 3), Some(spout));
    assert_eq!(kind_at(&w, 1, 2), Some(MaterialKind::Water));
    let first = w.grid().occupant(1, 2).unwrap();
    assert_ne!(first, spout);
    w.tick();
    // The first drop fell on; the cell below the spout was still occupied
    // when the spout was decided, so no second drop yet.
    assert_eq!(w.grid().occupant(1, 1), Some(first));
    assert_eq!(w.len(), 2);
    w.tick();
    assert_eq!(w.len(), 3);
    assert_eq!(kind_at(&w, 1, 2), Some(MaterialKind::Water));
}

#[test]
fn every_particle_is_decided_once_per_tick() {
    // A column of sand over empty space: only the lowest grain has room,
    // and a grain that has moved is not moved again.
    let mut w = world(3, 8);
    let a = put(&mut w, 1, 5, MaterialKind::Sand);
    let b = put(&mut w, 1, 6, MaterialKind::Sand);
    let c = put(&mut w, 1, 7, MaterialKind::Sand);
    w.tick();
    assert_eq!(w.grid().occupant(1, 4), Some(a));
    // b and c had sand below them before the tick: straight down was
    // blocked, the diagonals were free.
    assert_eq!(w.grid().position_of(b).map(|p| p.1), Some(5));
    assert_eq!(w.grid().position_of(c).map(|p| p.1), Some(6));
    assert_eq!(w.len(), 3);
}

#[test]
fn ticks_conserve_particles_and_occupancy() {
    let mut w = world(8, 8);
    for x in 0..8 {
        put(&mut w, x, 0, MaterialKind::Stone);
    }
    w.paint(4, 5, 1, Selection::Material(MaterialKind::Sand));
    w.paint(1, 6, 1, Selection::Material(MaterialKind::Water));
    let before = w.len();
    assert_eq!(before, 8 + 9 + 9);
    let mut handles: Vec<Handle> = w.grid().iterate().iter().map(|e| e.1).collect();
    handles.sort_by_key(|h| format!("{:?}", h));
    for _ in 0..40 {
        w.tick();
        assert_eq!(w.len(), before);
        let occupancy = w.grid().iterate();
        assert_eq!(occupancy.len(), before);
        let mut now: Vec<Handle> = occupancy.iter().map(|e| e.1).collect();
        now.sort_by_key(|h| format!("{:?}", h));
        assert_eq!(now, handles);
        for ((x, y), h) in occupancy {
            assert_eq!(w.grid().occupant(x as i64, y as i64), Some(h));
            assert_eq!(w.grid().position_of(h), Some((x, y)));
            assert!(w.store().get(h).is_ok());
        }
    }
}

#[test]
fn sweep_direction_alternates_with_every_tick() {
    let mut w = world(2, 2);
    assert_eq!(w.ticks(), 0);
    w.tick();
    assert_eq!(w.ticks(), 1);
    w.tick();
    assert_eq!(w.ticks(), 2);
}
