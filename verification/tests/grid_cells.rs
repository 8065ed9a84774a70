use falling_sand::error::SimError;
use falling_sand::grid::{Grid, MAX_SIDE};
use falling_sand::material::{Color, MaterialKind};
use falling_sand::particle::{Handle, Particle};
use falling_sand::store::ParticleStore;

const BG: Color = Color { r: 28, g: 28, b: 28, a: 255 };

fn handles(n: usize) -> Vec<Handle> {
    let mut s = ParticleStore::new();
    (0..n).map(|i| s.create(Particle::fresh(MaterialKind::Sand, i))).collect()
}

#[test]
fn new_grid_is_empty_and_keeps_its_configuration() {
    let g = Grid::new(4, 3, BG).unwrap();
    assert_eq!(g.width(), 4);
    assert_eq!(g.height(), 3);
    assert_eq!(g.cell_count(), 12);
    assert_eq!(g.background(), BG);
    assert!(g.iterate().is_empty());
    for y in 0..3 {
        for x in 0..4 {
            assert_eq!(g.occupant(x, y), None);
        }
    }
}

#[test]
fn grid_dimensions_out_of_range_are_a_configuration_error() {
    assert!(matches!(Grid::new(0, 3, BG), Err(SimError::ConfigurationError)));
    assert!(matches!(Grid::new(3, 0, BG), Err(SimError::ConfigurationError)));
    assert!(matches!(Grid::new(MAX_SIDE + 1, 1, BG), Err(SimError::ConfigurationError)));
    assert!(matches!(Grid::new(1, MAX_SIDE + 1, BG), Err(SimError::ConfigurationError)));
    assert!(Grid::new(1, 1, BG).is_ok());
    assert!(Grid::new(MAX_SIDE, 1, BG).is_ok());
}

#[test]
fn coordinate_wrap_reduces_into_range() {
    let g = Grid::new(5, 3, BG).unwrap();
    assert_eq!(g.coordinate_wrap(0, 0), (0, 0));
    assert_eq!(g.coordinate_wrap(4, 2), (4, 2));
    assert_eq!(g.coordinate_wrap(5, 3), (0, 0));
    assert_eq!(g.coordinate_wrap(-1, -1), (4, 2));
    assert_eq!(g.coordinate_wrap(-5, -3), (0, 0));
    assert_eq!(g.coordinate_wrap(-6, -4), (4, 2));
    assert_eq!(g.coordinate_wrap(9, 5), (4, 2));
    assert_eq!(g.coordinate_wrap(12, -7), (2, 2));
    assert_eq!(g.coordinate_wrap(i64::MAX, i64::MIN), ((i64::MAX % 5) as usize, 1));
}

#[test]
fn coordinate_wrap_is_in_range_and_periodic() {
    let (w, h) = (7usize, 4usize);
    let g = Grid::new(w, h, BG).unwrap();
    for x in -(w as i64)..2 * w as i64 {
        for y in -(h as i64)..2 * h as i64 {
            let (cx, cy) = g.coordinate_wrap(x, y);
            assert!(cx < w);
            assert!(cy < h);
            assert_eq!(g.coordinate_wrap(x + w as i64, y), (cx, cy));
            assert_eq!(g.coordinate_wrap(x, y + h as i64), (cx, cy));
            assert_eq!(g.cell_index(x, y), cy * w + cx);
        }
    }
}

#[test]
fn coordinate_wrap_on_rings_of_one_and_ten() {
    let g = Grid::new(10, 1, BG).unwrap();
    assert_eq!(g.coordinate_wrap(0, 0), (0, 0));
    assert_eq!(g.coordinate_wrap(-1, -1), (9, 0));
    assert_eq!(g.coordinate_wrap(-10, 7), (0, 0));
    assert_eq!(g.coordinate_wrap(-11, i64::MAX), (9, 0));
    assert_eq!(g.coordinate_wrap(25, i64::MIN), (5, 0));
    assert_eq!(g.coordinate_wrap(i64::MIN, 0), (2, 0));
}

#[test]
fn cell_numbers_beyond_the_grid_name_no_occupant() {
    let hs = handles(1);
    let mut g = Grid::new(4, 3, BG).unwrap();
    g.place(3, 2, hs[0]).unwrap();
    assert_eq!(g.occupant_at(11), Some(hs[0]));
    assert_eq!(g.occupant_at(12), None);
    assert_eq!(g.occupant_at(usize::MAX), None);
    assert_eq!(g.coordinates(11), (3, 2));
    assert_eq!(g.coordinates(0), (0, 0));
}

#[test]
fn place_then_occupant_and_position() {
    let hs = handles(2);
    let mut g = Grid::new(4, 3, BG).unwrap();
    assert_eq!(g.place(1, 2, hs[0]), Ok(()));
    assert_eq!(g.occupant(1, 2), Some(hs[0]));
    assert_eq!(g.occupant(5, -1), Some(hs[0]));
    assert_eq!(g.occupant_at(9), Some(hs[0]));
    assert_eq!(g.position_of(hs[0]), Some((1, 2)));
    assert_eq!(g.position_of(hs[1]), None);
    assert_eq!(g.coordinates(9), (1, 2));
}

#[test]
fn place_into_an_occupied_cell_fails_with_cell_occupied() {
    let hs = handles(2);
    let mut g = Grid::new(4, 3, BG).unwrap();
    assert_eq!(g.place(1, 1, hs[0]), Ok(()));
    assert_eq!(g.place(1, 1, hs[1]), Err(SimError::CellOccupied));
    assert_eq!(g.place(5, 4, hs[1]), Err(SimError::CellOccupied));
    assert_eq!(g.occupant(1, 1), Some(hs[0]));
    assert_eq!(g.position_of(hs[1]), None);
}

#[test]
fn placing_a_handle_twice_fails_with_invalid_handle() {
    let hs = handles(1);
    let mut g = Grid::new(4, 3, BG).unwrap();
    assert_eq!(g.place(1, 1, hs[0]), Ok(()));
    assert_eq!(g.place(2, 2, hs[0]), Err(SimError::InvalidHandle));
    assert_eq!(g.occupant(2, 2), None);
    assert_eq!(g.position_of(hs[0]), Some((1, 1)));
    assert_eq!(g.iterate().len(), 1);
}

#[test]
fn remove_clears_the_cell_and_returns_the_occupant() {
    let hs = handles(1);
    let mut g = Grid::new(4, 3, BG).unwrap();
    assert_eq!(g.remove(0, 0), None);
    g.place(3, 0, hs[0]).unwrap();
    assert_eq!(g.remove(-1, 3), Some(hs[0]));
    assert_eq!(g.occupant(3, 0), None);
    assert_eq!(g.position_of(hs[0]), None);
    assert_eq!(g.remove(3, 0), None);
    // The handle can be placed again once it is off the grid.
    assert_eq!(g.place(0, 0, hs[0]), Ok(()));
}

#[test]
fn move_to_relocates_or_refuses() {
    let hs = handles(2);
    let mut g = Grid::new(4, 3, BG).unwrap();
    g.place(0, 0, hs[0]).unwrap();
    g.place(1, 0, hs[1]).unwrap();
    // Nothing to move.
    assert_eq!(g.move_to((2, 2), (3, 2)), Ok(None));
    // Target occupied.
    assert_eq!(g.move_to((0, 0), (1, 0)), Err(SimError::CellOccupied));
    assert_eq!(g.occupant(0, 0), Some(hs[0]));
    assert_eq!(g.occupant(1, 0), Some(hs[1]));
    // Onto itself.
    assert_eq!(g.move_to((0, 0), (4, 3)), Ok(Some(hs[0])));
    assert_eq!(g.occupant(0, 0), Some(hs[0]));
    // A real move, across the edge.
    assert_eq!(g.move_to((0, 0), (-1, 0)), Ok(Some(hs[0])));
    assert_eq!(g.occupant(0, 0), None);
    assert_eq!(g.occupant(3, 0), Some(hs[0]));
    assert_eq!(g.position_of(hs[0]), Some((3, 0)));
}

#[test]
fn swap_exchanges_two_cells() {
    let hs = handles(2);
    let mut g = Grid::new(4, 3, BG).unwrap();
    g.place(0, 0, hs[0]).unwrap();
    g.place(1, 1, hs[1]).unwrap();
    g.swap((0, 0), (1, 1));
    assert_eq!(g.occupant(0, 0), Some(hs[1]));
    assert_eq!(g.occupant(1, 1), Some(hs[0]));
    assert_eq!(g.position_of(hs[0]), Some((1, 1)));
    assert_eq!(g.position_of(hs[1]), Some((0, 0)));
    // With an empty cell.
    g.swap((0, 0), (2, 2));
    assert_eq!(g.occupant(0, 0), None);
    assert_eq!(g.occupant(2, 2), Some(hs[1]));
    // With itself.
    g.swap((2, 2), (2, 2));
    assert_eq!(g.occupant(2, 2), Some(hs[1]));
    assert_eq!(g.iterate().len(), 2);
}

#[test]
fn iterate_lists_occupancy_row_by_row_and_can_be_repeated() {
    let hs = handles(3);
    let mut g = Grid::new(4, 3, BG).unwrap();
    g.place(2, 1, hs[0]).unwrap();
    g.place(3, 0, hs[1]).unwrap();
    g.place(0, 2, hs[2]).unwrap();
    let expected = vec![((3, 0), hs[1]), ((2, 1), hs[0]), ((0, 2), hs[2])];
    assert_eq!(g.iterate(), expected);
    assert_eq!(g.iterate(), expected);
}

#[test]
fn reset_empties_every_cell() {
    let hs = handles(3);
    let mut g = Grid::new(4, 3, BG).unwrap();
    g.place(2, 1, hs[0]).unwrap();
    g.place(3, 0, hs[1]).unwrap();
    g.reset();
    assert!(g.iterate().is_empty());
    assert_eq!(g.position_of(hs[0]), None);
    assert_eq!(g.width(), 4);
    assert_eq!(g.height(), 3);
    assert_eq!(g.place(2, 1, hs[0]), Ok(()));
}
