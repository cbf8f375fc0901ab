use maze_escape::framebuffer::{Framebuffer, BACKGROUND_COLOR, DEFAULT_DRAW_COLOR};

fn pixel(fb: &Framebuffer, width: usize, x: usize, y: usize) -> u32 {
    fb.get_buffer()[y * width + x]
}

#[test]
fn new_fills_with_background() {
    let fb = Framebuffer::new(4, 3);
    assert_eq!(fb.get_buffer().len(), 12);
    assert!(fb.get_buffer().iter().all(|&c| c == 0x333355));
    assert_eq!(BACKGROUND_COLOR, 0x333355);
    assert_eq!(DEFAULT_DRAW_COLOR, 0xFFDDDD);
}

#[test]
fn new_with_zero_size_is_empty() {
    let fb = Framebuffer::new(0, 7);
    assert!(fb.get_buffer().is_empty());
    let fb = Framebuffer::new(5, 0);
    assert!(fb.get_buffer().is_empty());
}

#[test]
fn set_color_writes_one_pixel() {
    let mut fb = Framebuffer::new(4, 3);
    fb.set_color(2, 1, 0xABCDEF);
    assert_eq!(pixel(&fb, 4, 2, 1), 0xABCDEF);
    assert_eq!(fb.get_buffer()[6], 0xABCDEF);
    let others = fb.get_buffer().iter().enumerate().filter(|(i, _)| *i != 6);
    assert!(others.clone().all(|(_, &c)| c == BACKGROUND_COLOR));
}

#[test]
fn set_color_outside_is_ignored() {
    let mut fb = Framebuffer::new(4, 3);
    let before = fb.get_buffer().to_vec();
    fb.set_color(4, 0, 1);
    fb.set_color(0, 3, 1);
    fb.set_color(usize::MAX, usize::MAX, 1);
    assert_eq!(fb.get_buffer(), &before[..]);
}

#[test]
fn read_back_after_write() {
    let mut fb = Framebuffer::new(3, 3);
    fb.set_color(1, 1, 7);
    fb.set_color(1, 1, 9);
    fb.set_color(0, 1, 5);
    assert_eq!(pixel(&fb, 3, 1, 1), 9);
    assert_eq!(pixel(&fb, 3, 0, 1), 5);
    assert_eq!(pixel(&fb, 3, 2, 2), BACKGROUND_COLOR);
}

#[test]
fn point_uses_current_color() {
    let mut fb = Framebuffer::new(3, 2);
    fb.point(0, 0);
    assert_eq!(pixel(&fb, 3, 0, 0), DEFAULT_DRAW_COLOR);
    fb.set_current_color(0x123456);
    fb.point(2, 1);
    assert_eq!(pixel(&fb, 3, 2, 1), 0x123456);
    fb.point(3, 1);
    assert_eq!(fb.get_buffer().iter().filter(|&&c| c == 0x123456).count(), 1);
}

#[test]
fn draw_rectangle_fills_exactly_the_rectangle() {
    let mut fb = Framebuffer::new(5, 4);
    fb.set_current_color(1);
    fb.draw_rectangle(1, 1, 3, 2);
    for y in 0..4 {
        for x in 0..5 {
            let inside = (1..4).contains(&x) && (1..3).contains(&y);
            let expected = if inside { 1 } else { BACKGROUND_COLOR };
            assert_eq!(pixel(&fb, 5, x, y), expected, "pixel ({}, {})", x, y);
        }
    }
}

#[test]
fn draw_rectangle_is_clipped() {
    let mut fb = Framebuffer::new(3, 3);
    fb.set_current_color(2);
    fb.draw_rectangle(2, 2, 10, 10);
    assert_eq!(fb.get_buffer().iter().filter(|&&c| c == 2).count(), 1);
    assert_eq!(pixel(&fb, 3, 2, 2), 2);
}

#[test]
fn draw_rectangle_empty_draws_nothing() {
    let mut fb = Framebuffer::new(3, 3);
    fb.set_current_color(2);
    fb.draw_rectangle(0, 0, 0, 3);
    fb.draw_rectangle(0, 0, 3, 0);
    assert!(fb.get_buffer().iter().all(|&c| c == BACKGROUND_COLOR));
}

#[test]
fn draw_rectangle_twice_is_once() {
    let mut once = Framebuffer::new(4, 4);
    once.set_current_color(3);
    once.draw_rectangle(1, 0, 2, 3);
    let mut twice = once.clone();
    twice.draw_rectangle(1, 0, 2, 3);
    assert_eq!(once.get_buffer(), twice.get_buffer());
}
