use falling_sand::error::SimError;
use falling_sand::material::{Color, MaterialKind};
use falling_sand::paint::{Selection, ToolState};
use falling_sand::particle::Particle;
use falling_sand::render::grid_render;
use falling_sand::world::World;

const BG: Color = Color { r: 28, g: 29, b: 30, a: 255 };

fn idle() -> ToolState {
    ToolState { current_tool: None, grid_x: 0, grid_y: 0, tool_size: 3 }
}

fn pixel(data: &[u8], width: usize, height: usize, x: usize, y: usize) -> [u8; 4] {
    let o = (x + (height - y - 1) * width) * 4;
    [data[o], data[o + 1], data[o + 2], data[o + 3]]
}

#[test]
fn empty_world_renders_as_background() {
    let w = World::new(3, 2, BG).unwrap();
    let mut data = vec![0u8; 24];
    assert_eq!(grid_render(&w, &idle(), &mut data), Ok(()));
    for chunk in data.chunks(4) {
        assert_eq!(chunk, [28, 29, 30, 255]);
    }
}

#[test]
fn particles_are_drawn_in_their_colour_with_row_zero_at_the_bottom() {
    let mut w = World::new(3, 2, BG).unwrap();
    w.paint(0, 0, 0, Selection::Material(MaterialKind::Sand));
    w.paint(2, 1, 0, Selection::Material(MaterialKind::Water));
    let sand = Particle::fresh(MaterialKind::Sand, 0).color;
    let water = Particle::fresh(MaterialKind::Water, 5).color;
    let mut data = vec![7u8; 24];
    assert_eq!(grid_render(&w, &idle(), &mut data), Ok(()));
    let bg = [28, 29, 30, 255];
    let expected: Vec<u8> = [
        // Top row of the picture: row 1 of the grid.
        bg,
        bg,
        [water.r, water.g, water.b, water.a],
        // Bottom row of the picture: row 0 of the grid.
        [sand.r, sand.g, sand.b, sand.a],
        bg,
        bg,
    ]
    .concat();
    assert_eq!(data, expected);
    assert_eq!(pixel(&data, 3, 2, 0, 0), [237, 201, 175, 255]);
    assert_eq!(pixel(&data, 3, 2, 2, 1), [58, 158, 217, 255]);
}

#[test]
fn colors_lists_the_occupied_cells_with_their_colours() {
    let mut w = World::new(3, 2, BG).unwrap();
    w.paint(2, 1, 0, Selection::Material(MaterialKind::Water));
    w.paint(0, 0, 0, Selection::Material(MaterialKind::Sand));
    assert_eq!(
        w.colors(),
        vec![
            ((0, 0), Color { r: 237, g: 201, b: 175, a: 255 }),
            ((2, 1), Color { r: 58, g: 158, b: 217, a: 255 }),
        ]
    );
}

#[test]
fn active_tool_halves_the_brightness_under_the_brush() {
    let mut w = World::new(5, 5, BG).unwrap();
    w.paint(2, 2, 0, Selection::Material(MaterialKind::Stone));
    let tool = ToolState {
        current_tool: Some(Selection::Erase),
        grid_x: 2,
        grid_y: 2,
        tool_size: 1,
    };
    let mut data = vec![0u8; 100];
    assert_eq!(grid_render(&w, &tool, &mut data), Ok(()));
    for y in 0..5 {
        for x in 0..5 {
            let under = (1..=3).contains(&x) && (1..=3).contains(&y);
            let base: [u8; 4] = if (x, y) == (2, 2) {
                let c = Particle::fresh(MaterialKind::Stone, 12).color;
                [c.r, c.g, c.b, c.a]
            } else {
                [28, 29, 30, 255]
            };
            let expected = if under {
                [base[0] / 2, base[1] / 2, base[2] / 2, base[3]]
            } else {
                base
            };
            assert_eq!(pixel(&data, 5, 5, x, y), expected);
        }
    }
    assert_eq!(pixel(&data, 5, 5, 2, 2), [64, 64, 64, 255]);
    assert_eq!(pixel(&data, 5, 5, 1, 1), [14, 14, 15, 255]);
}

#[test]
fn highlight_wraps_with_the_brush() {
    let w = World::new(4, 4, BG).unwrap();
    let tool = ToolState {
        current_tool: Some(Selection::Material(MaterialKind::Sand)),
        grid_x: 0,
        grid_y: -4,
        tool_size: 0,
    };
    let mut data = vec![0u8; 64];
    assert_eq!(grid_render(&w, &tool, &mut data), Ok(()));
    assert_eq!(pixel(&data, 4, 4, 0, 0), [14, 14, 15, 255]);
    assert_eq!(pixel(&data, 4, 4, 1, 0), [28, 29, 30, 255]);
    assert_eq!(pixel(&data, 4, 4, 0, 3), [28, 29, 30, 255]);
}

#[test]
fn brush_wider_than_the_grid_halves_a_pixel_once_for_each_offset() {
    // On a ring of 2 columns the offsets -1, 0, 1 land on one column twice
    // and on the other once; there is one row, which every offset hits.
    let w = World::new(2, 1, Color { r: 240, g: 128, b: 64, a: 9 }).unwrap();
    let tool = ToolState {
        current_tool: Some(Selection::Erase),
        grid_x: 0,
        grid_y: 0,
        tool_size: 1,
    };
    let mut data = vec![0u8; 8];
    assert_eq!(grid_render(&w, &tool, &mut data), Ok(()));
    // Column 0: offset 0 only, three rows of offsets: 3 halvings.
    assert_eq!(pixel(&data, 2, 1, 0, 0), [30, 16, 8, 9]);
    // Column 1: offsets -1 and 1, three rows of offsets: 6 halvings.
    assert_eq!(pixel(&data, 2, 1, 1, 0), [3, 2, 1, 9]);
}

#[test]
fn negative_tool_size_highlights_nothing() {
    let w = World::new(2, 2, BG).unwrap();
    let tool = ToolState {
        current_tool: Some(Selection::Erase),
        grid_x: 0,
        grid_y: 0,
        tool_size: -1,
    };
    let mut data = vec![0u8; 16];
    assert_eq!(grid_render(&w, &tool, &mut data), Ok(()));
    for chunk in data.chunks(4) {
        assert_eq!(chunk, [28, 29, 30, 255]);
    }
}

#[test]
fn buffer_of_the_wrong_length_is_refused_and_left_alone() {
    let w = World::new(3, 2, BG).unwrap();
    for len in [0usize, 23, 25, 20, 28, 6] {
        let mut data = vec![9u8; len];
        assert_eq!(grid_render(&w, &idle(), &mut data), Err(SimError::ConfigurationError));
        assert_eq!(data, vec![9u8; len]);
    }
}

#[test]
fn rendering_does_not_change_the_world() {
    let mut w = World::new(4, 4, BG).unwrap();
    w.paint(1, 1, 1, Selection::Material(MaterialKind::Sand));
    let before = w.grid().iterate();
    let tool = ToolState {
        current_tool: Some(Selection::Erase),
        grid_x: 1,
        grid_y: 1,
        tool_size: 2,
    };
    let mut data = vec![0u8; 64];
    assert_eq!(grid_render(&w, &tool, &mut data), Ok(()));
    assert_eq!(w.grid().iterate(), before);
    assert_eq!(w.len(), 9);
}
