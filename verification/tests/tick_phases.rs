use falling_sand::commit::commit;
use falling_sand::engine::{decide_all, scan};
use falling_sand::material::{Color, MaterialKind};
use falling_sand::paint::Selection;
use falling_sand::particle::Particle;
use falling_sand::resolve::resolve;
use falling_sand::rules::{decide, Action, Proposal};
use falling_sand::store::ParticleStore;
use falling_sand::world::World;

const BG: Color = Color { r: 28, g: 28, b: 28, a: 255 };

fn put(w: &mut World, x: i64, y: i64, kind: MaterialKind) {
    w.paint(x, y, 0, Selection::Material(kind));
}

#[test]
fn scan_runs_from_the_top_row_down_and_alternates_sideways() {
    let mut w = World::new(3, 2, BG).unwrap();
    w.paint(0, 0, 5, Selection::Material(MaterialKind::Stone));
    let cells: Vec<usize> = scan(&w).iter().map(|e| e.0).collect();
    assert_eq!(cells, vec![3, 4, 5, 0, 1, 2]);
    for (c, h) in scan(&w) {
        assert_eq!(w.grid().occupant_at(c), Some(h));
    }
    w.tick();
    let cells: Vec<usize> = scan(&w).iter().map(|e| e.0).collect();
    assert_eq!(cells, vec![5, 4, 3, 2, 1, 0]);
}

#[test]
fn scan_lists_only_occupied_cells() {
    let mut w = World::new(4, 3, BG).unwrap();
    put(&mut w, 1, 0, MaterialKind::Stone);
    put(&mut w, 3, 2, MaterialKind::Stone);
    put(&mut w, 0, 2, MaterialKind::Stone);
    let cells: Vec<usize> = scan(&w).iter().map(|e| e.0).collect();
    assert_eq!(cells, vec![8, 11, 1]);
}

#[test]
fn decide_proposes_by_phase_and_rule() {
    let mut w = World::new(4, 4, BG).unwrap();
    put(&mut w, 1, 2, MaterialKind::Sand);
    put(&mut w, 1, 1, MaterialKind::Water);
    put(&mut w, 3, 3, MaterialKind::Stone);
    put(&mut w, 3, 0, MaterialKind::Spout);
    // Sand above water: displacement.
    assert_eq!(decide(&w, 9), Action::Swap { with: 5 });
    // Water with an empty cell below.
    assert_eq!(decide(&w, 5), Action::Move { to: 1 });
    // Stone stays.
    assert_eq!(decide(&w, 15), Action::Stay);
    // An empty cell proposes nothing, and neither does a number that names
    // no cell.
    assert_eq!(decide(&w, 0), Action::Stay);
    assert_eq!(decide(&w, 16), Action::Stay);
    // The cell below the spout, across the edge, is occupied: no drop.
    assert_eq!(decide(&w, 3), Action::Stay);
}

#[test]
fn spout_proposes_a_drop_for_the_empty_cell_below() {
    let mut w = World::new(4, 4, BG).unwrap();
    put(&mut w, 2, 0, MaterialKind::Spout);
    put(&mut w, 1, 2, MaterialKind::Spout);
    // From the bottom row the drop goes into the top row, across the edge.
    assert_eq!(
        decide(&w, 2),
        Action::Spawn { to: 14, particle: Particle::fresh(MaterialKind::Water, 14) }
    );
    assert_eq!(
        decide(&w, 9),
        Action::Spawn { to: 5, particle: Particle::fresh(MaterialKind::Water, 5) }
    );
}

#[test]
fn steam_at_the_top_edge_proposes_to_vanish() {
    let mut w = World::new(3, 3, BG).unwrap();
    put(&mut w, 1, 2, MaterialKind::Steam);
    assert_eq!(decide(&w, 7), Action::Vanish);
    let mut w = World::new(3, 3, BG).unwrap();
    put(&mut w, 1, 1, MaterialKind::Steam);
    assert_eq!(decide(&w, 4), Action::Move { to: 7 });
}

#[test]
fn decide_all_follows_the_snapshot_and_skips_stale_entries() {
    let mut w = World::new(3, 3, BG).unwrap();
    put(&mut w, 1, 2, MaterialKind::Sand);
    put(&mut w, 0, 0, MaterialKind::Stone);
    let snapshot = scan(&w);
    let proposals = decide_all(&w, &snapshot);
    assert_eq!(
        proposals,
        vec![
            Proposal { from: 7, action: Action::Move { to: 4 } },
            Proposal { from: 0, action: Action::Stay },
        ]
    );
    // A snapshot entry whose handle is unknown, or whose cell is off the
    // grid, is passed over.
    let mut other = ParticleStore::new();
    other.create(Particle::fresh(MaterialKind::Sand, 0));
    other.create(Particle::fresh(MaterialKind::Sand, 0));
    let unknown = other.create(Particle::fresh(MaterialKind::Sand, 0));
    let mut tampered = snapshot.clone();
    tampered.insert(1, (4, unknown));
    tampered.push((99, snapshot[0].1));
    assert_eq!(decide_all(&w, &tampered), proposals);
}

#[test]
fn resolve_lets_the_first_proposal_win() {
    let ps = vec![
        Proposal { from: 3, action: Action::Move { to: 1 } },
        Proposal { from: 5, action: Action::Move { to: 1 } },
        Proposal { from: 4, action: Action::Move { to: 0 } },
    ];
    let settled = resolve(&ps, 6);
    assert_eq!(
        settled,
        vec![
            Proposal { from: 3, action: Action::Move { to: 1 } },
            Proposal { from: 5, action: Action::Stay },
            Proposal { from: 4, action: Action::Move { to: 0 } },
        ]
    );
}

#[test]
fn resolve_drops_the_own_move_of_a_displaced_particle() {
    let ps = vec![
        Proposal { from: 7, action: Action::Swap { with: 4 } },
        Proposal { from: 4, action: Action::Move { to: 1 } },
        Proposal { from: 3, action: Action::Swap { with: 4 } },
        Proposal { from: 5, action: Action::Become { next: Particle::fresh(MaterialKind::Fire, 5) } },
        Proposal { from: 2, action: Action::Swap { with: 5 } },
        Proposal { from: 8, action: Action::Vanish },
    ];
    let settled = resolve(&ps, 9);
    assert_eq!(settled[0], ps[0]);
    assert_eq!(settled[1], Proposal { from: 4, action: Action::Stay });
    assert_eq!(settled[2], Proposal { from: 3, action: Action::Stay });
    assert_eq!(settled[3], ps[3]);
    assert_eq!(settled[4], Proposal { from: 2, action: Action::Stay });
    assert_eq!(settled[5], ps[5]);
    assert_eq!(settled.len(), ps.len());
}

#[test]
fn resolve_refuses_cells_off_the_grid_and_keeps_stays() {
    let ps = vec![
        Proposal { from: 9, action: Action::Vanish },
        Proposal { from: 0, action: Action::Move { to: 9 } },
        Proposal { from: 0, action: Action::Stay },
        Proposal { from: 0, action: Action::Move { to: 1 } },
        Proposal { from: 77, action: Action::Stay },
    ];
    let settled = resolve(&ps, 4);
    assert_eq!(settled[0], Proposal { from: 9, action: Action::Stay });
    assert_eq!(settled[1], Proposal { from: 0, action: Action::Stay });
    assert_eq!(settled[2], ps[2]);
    assert_eq!(settled[3], ps[3]);
    assert_eq!(settled[4], ps[4]);
    assert_eq!(resolve(&Vec::new(), 0), Vec::new());
}

#[test]
fn after_a_spawn_is_accepted_its_target_is_taken() {
    let water = Particle::fresh(MaterialKind::Water, 1);
    let ps = vec![
        Proposal { from: 4, action: Action::Spawn { to: 1, particle: water } },
        Proposal { from: 0, action: Action::Move { to: 1 } },
    ];
    let settled = resolve(&ps, 6);
    assert_eq!(settled[0], ps[0]);
    assert_eq!(settled[1], Proposal { from: 0, action: Action::Stay });
}

#[test]
fn commit_applies_each_kind_of_action() {
    let mut w = World::new(3, 3, BG).unwrap();
    put(&mut w, 0, 0, MaterialKind::Sand);
    put(&mut w, 1, 0, MaterialKind::Water);
    put(&mut w, 2, 0, MaterialKind::Wood);
    put(&mut w, 0, 1, MaterialKind::Steam);
    put(&mut w, 1, 1, MaterialKind::Spout);
    let sand = w.grid().occupant_at(0).unwrap();
    let water = w.grid().occupant_at(1).unwrap();
    let wood = w.grid().occupant_at(2).unwrap();
    let steam = w.grid().occupant_at(3).unwrap();
    let fire = Particle::fresh(MaterialKind::Fire, 2);
    let drop = Particle::fresh(MaterialKind::Water, 7);
    let actions = vec![
        Proposal { from: 0, action: Action::Move { to: 6 } },
        Proposal { from: 1, action: Action::Swap { with: 6 } },
        Proposal { from: 2, action: Action::Become { next: fire } },
        Proposal { from: 3, action: Action::Vanish },
        Proposal { from: 4, action: Action::Spawn { to: 7, particle: drop } },
        Proposal { from: 8, action: Action::Stay },
    ];
    let dropped = commit(&mut w, &actions);
    assert_eq!(dropped, 0);
    assert_eq!(w.grid().occupant_at(0), None);
    assert_eq!(w.grid().occupant_at(1), Some(sand));
    assert_eq!(w.grid().occupant_at(6), Some(water));
    assert_eq!(w.grid().occupant_at(2), Some(wood));
    assert_eq!(w.store().get(wood), Ok(fire));
    assert_eq!(w.grid().occupant_at(3), None);
    assert!(w.store().get(steam).is_err());
    assert_eq!(w.particle_at(7), Some(drop));
    // Five before, one destroyed, one created.
    assert_eq!(w.len(), 5);
    assert_eq!(w.ticks(), 0);
}

#[test]
fn commit_drops_what_cannot_be_applied_and_keeps_the_occupant() {
    let mut w = World::new(3, 3, BG).unwrap();
    put(&mut w, 0, 0, MaterialKind::Sand);
    put(&mut w, 1, 0, MaterialKind::Stone);
    let sand = w.grid().occupant_at(0).unwrap();
    let stone = w.grid().occupant_at(1).unwrap();
    let p = Particle::fresh(MaterialKind::Water, 0);
    let actions = vec![
        // Into an occupied cell.
        Proposal { from: 0, action: Action::Move { to: 1 } },
        // From an empty cell.
        Proposal { from: 5, action: Action::Move { to: 6 } },
        // Off the grid.
        Proposal { from: 0, action: Action::Move { to: 9 } },
        Proposal { from: 9, action: Action::Vanish },
        // A swap with an empty cell.
        Proposal { from: 0, action: Action::Swap { with: 4 } },
        // A change of nothing.
        Proposal { from: 4, action: Action::Become { next: p } },
        Proposal { from: 4, action: Action::Vanish },
        // A spawn into an occupied cell.
        Proposal { from: 0, action: Action::Spawn { to: 1, particle: p } },
        // This one is fine.
        Proposal { from: 0, action: Action::Move { to: 3 } },
    ];
    let dropped = commit(&mut w, &actions);
    assert_eq!(dropped, 8);
    assert_eq!(w.grid().occupant_at(3), Some(sand));
    assert_eq!(w.grid().occupant_at(1), Some(stone));
    assert_eq!(w.grid().occupant_at(0), None);
    assert_eq!(w.len(), 2);
}

#[test]
fn the_four_phases_together_are_one_tick() {
    let mut a = World::new(6, 6, BG).unwrap();
    let mut b = World::new(6, 6, BG).unwrap();
    for w in [&mut a, &mut b] {
        w.paint(0, 0, 6, Selection::Material(MaterialKind::Water));
        w.paint(2, 2, 1, Selection::Erase);
        w.paint(2, 4, 0, Selection::Erase);
        w.paint(2, 4, 0, Selection::Material(MaterialKind::Sand));
        w.paint(5, 5, 0, Selection::Erase);
        w.paint(5, 5, 0, Selection::Material(MaterialKind::Fire));
    }
    let snapshot = scan(&a);
    let proposals = decide_all(&a, &snapshot);
    let settled = resolve(&proposals, 36);
    let dropped = commit(&mut a, &settled);
    assert_eq!(dropped, 0);
    b.tick();
    assert_eq!(a.colors(), b.colors());
    for c in 0..36 {
        assert_eq!(a.particle_at(c), b.particle_at(c));
    }
    assert_eq!(a.len(), b.len());
}
