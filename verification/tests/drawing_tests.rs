use maze_escape::drawing::{
    cell_to_texture_color, draw_cell, render_minimap, FINISH_MARKER, FLOOR_CELL_COLOR,
    MINIMAP_BACKGROUND, MONSTER_MARKER, VIEW_DIRECTION_COLOR,
};
use maze_escape::framebuffer::{Framebuffer, BACKGROUND_COLOR};
use maze_escape::line::draw_line;

fn lit(fb: &Framebuffer, width: usize, color: u32) -> Vec<(usize, usize)> {
    fb.get_buffer()
        .iter()
        .enumerate()
        .filter(|(_, &c)| c == color)
        .map(|(i, _)| (i % width, i / width))
        .collect()
}

fn sorted(mut v: Vec<(usize, usize)>) -> Vec<(usize, usize)> {
    v.sort_by_key(|&(x, y)| (y, x));
    v
}

#[test]
fn texture_color_of_walls_and_goal() {
    for c in ['+', '-', '|', 'g'] {
        assert_eq!(cell_to_texture_color(c, 0xAA00BB), 0xAA00BB);
    }
    assert_eq!(cell_to_texture_color(' ', 0xAA00BB), 0x000000);
    assert_eq!(cell_to_texture_color('x', 0xAA00BB), 0x000000);
}

#[test]
fn draw_cell_wall_uses_wall_color() {
    let mut fb = Framebuffer::new(6, 6);
    draw_cell(&mut fb, 1, 2, 3, '+', 0x00CC00);
    let expected: Vec<(usize, usize)> =
        (2..5).flat_map(|y| (1..4).map(move |x| (x, y))).collect();
    assert_eq!(sorted(lit(&fb, 6, 0x00CC00)), sorted(expected));
    assert_eq!(lit(&fb, 6, BACKGROUND_COLOR).len(), 36 - 9);
}

#[test]
fn draw_cell_floor_uses_floor_color() {
    let mut fb = Framebuffer::new(4, 4);
    draw_cell(&mut fb, 0, 0, 2, ' ', 0x00CC00);
    assert_eq!(lit(&fb, 4, FLOOR_CELL_COLOR).len(), 4);
    assert!(lit(&fb, 4, 0x00CC00).is_empty());
    fb.point(3, 3);
    assert_eq!(fb.get_buffer()[15], FLOOR_CELL_COLOR);
}

#[test]
fn draw_cell_empty_block_draws_nothing() {
    let mut fb = Framebuffer::new(4, 4);
    draw_cell(&mut fb, 1, 1, 0, 'g', 5);
    assert_eq!(lit(&fb, 4, BACKGROUND_COLOR).len(), 16);
}

#[test]
fn line_shallow() {
    let mut fb = Framebuffer::new(8, 8);
    fb.set_current_color(9);
    draw_line(&mut fb, 0, 0, 5, 2);
    let expected = vec![(0, 0), (1, 0), (2, 1), (3, 1), (4, 2), (5, 2)];
    assert_eq!(sorted(lit(&fb, 8, 9)), sorted(expected));
}

#[test]
fn line_reversed() {
    let mut fb = Framebuffer::new(8, 8);
    fb.set_current_color(9);
    draw_line(&mut fb, 5, 2, 0, 0);
    let expected = vec![(5, 2), (4, 2), (3, 1), (2, 1), (1, 0), (0, 0)];
    assert_eq!(sorted(lit(&fb, 8, 9)), sorted(expected));
}

#[test]
fn line_steep() {
    let mut fb = Framebuffer::new(8, 8);
    fb.set_current_color(9);
    draw_line(&mut fb, 1, 1, 2, 6);
    let expected = vec![(1, 1), (1, 2), (1, 3), (2, 4), (2, 5), (2, 6)];
    assert_eq!(sorted(lit(&fb, 8, 9)), sorted(expected));
}

#[test]
fn line_single_point_and_vertical() {
    let mut fb = Framebuffer::new(8, 8);
    fb.set_current_color(9);
    draw_line(&mut fb, 3, 3, 3, 3);
    assert_eq!(lit(&fb, 8, 9), vec![(3, 3)]);
    fb.set_current_color(4);
    draw_line(&mut fb, 2, 4, 2, 0);
    assert_eq!(sorted(lit(&fb, 8, 4)), sorted((0..5).map(|y| (2, y)).collect()));
}

#[test]
fn line_is_clipped() {
    let mut fb = Framebuffer::new(4, 4);
    fb.set_current_color(9);
    draw_line(&mut fb, 2, 2, 7, 2);
    assert_eq!(sorted(lit(&fb, 4, 9)), vec![(2, 2), (3, 2)]);
}

#[test]
fn line_ends_touch_both_points() {
    let mut fb = Framebuffer::new(20, 20);
    fb.set_current_color(1);
    draw_line(&mut fb, 17, 3, 2, 11);
    let pts = lit(&fb, 20, 1);
    assert!(pts.contains(&(17, 3)));
    assert!(pts.contains(&(2, 11)));
    assert_eq!(pts.len(), 16);
}

#[test]
fn minimap_draws_cells_markers_and_view() {
    let maze = vec![vec!['+', ' '], vec!['g', ' ']];
    let mut fb = Framebuffer::new(10, 10);
    let monsters = vec![(3, 0)];
    render_minimap(&mut fb, &maze, 1, 1, 2, 0x00CC00, (1, 1), &monsters, (0, 3), (2, 0));
    // the backdrop is covered by the cells: walls and goal in the wall colour
    let wall: Vec<(usize, usize)> = vec![(1, 1), (2, 1), (1, 2), (1, 3), (2, 3), (2, 4)];
    assert_eq!(sorted(lit(&fb, 10, 0x00CC00)), sorted(wall));
    assert!(lit(&fb, 10, MINIMAP_BACKGROUND).is_empty());
    assert_eq!(lit(&fb, 10, MONSTER_MARKER), vec![(4, 1)]);
    assert_eq!(lit(&fb, 10, FINISH_MARKER), vec![(1, 4)]);
    // the view line runs from the player (2, 2) to (4, 2), over the player marker
    assert_eq!(sorted(lit(&fb, 10, VIEW_DIRECTION_COLOR)), vec![(2, 2), (3, 2), (4, 2)]);
    let floor = lit(&fb, 10, FLOOR_CELL_COLOR);
    assert_eq!(floor.len(), 8 - 3);
}
