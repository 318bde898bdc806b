use physics_engine_2d::renderer::{body_color, BACKGROUND, CENTER_DOT, DYNAMIC_COLOR, STATIC_COLOR};
use physics_engine_2d::font::glyph_rows;
use physics_engine_2d::Renderer;

fn lit(r: &Renderer, color: u32) -> Vec<(usize, usize)> {
    let buf = r.get_buffer();
    let mut out = Vec::new();
    for (k, &c) in buf.iter().enumerate() {
        if c == color {
            out.push((k % r.width, k / r.width));
        }
    }
    out
}

#[test]
fn new_frame_is_black() {
    let r = Renderer::new(4, 3);
    assert_eq!(r.width, 4);
    assert_eq!(r.height, 3);
    assert_eq!(r.get_buffer(), &[0u32; 12][..]);
}

#[test]
fn empty_frame() {
    let mut r = Renderer::new(0, 5);
    r.clear(7);
    r.draw_circle(0, 0, 3, 1);
    r.draw_text("1", 0, 0, 1);
    assert!(r.get_buffer().is_empty());
}

#[test]
fn clear_fills_every_pixel() {
    let mut r = Renderer::new(3, 2);
    r.clear(BACKGROUND);
    assert_eq!(r.get_buffer(), &[0x001122u32; 6][..]);
}

#[test]
fn colors_of_bodies() {
    assert_eq!(body_color(true), STATIC_COLOR);
    assert_eq!(body_color(false), DYNAMIC_COLOR);
    assert_eq!(STATIC_COLOR, 0x444444);
    assert_eq!(DYNAMIC_COLOR, 0xFF6B35);
}

#[test]
fn glyph_of_one() {
    assert_eq!(glyph_rows('1'), [0b00100, 0b01100, 0b00100, 0b00100, 0b00100, 0b00100, 0b01110]);
    assert_eq!(glyph_rows(' '), [0; 7]);
    assert_eq!(glyph_rows('?'), [0b11111, 0b10001, 0b10001, 0b10001, 0b10001, 0b10001, 0b11111]);
}

#[test]
fn text_one_draws_its_glyph() {
    let mut r = Renderer::new(8, 9);
    r.draw_text("1", 1, 1, 5);
    let expected = vec![
        (3, 1),
        (2, 2), (3, 2),
        (3, 3),
        (3, 4),
        (3, 5),
        (3, 6),
        (2, 7), (3, 7), (4, 7),
    ];
    let mut got = lit(&r, 5);
    got.sort_by_key(|&(x, y)| (y, x));
    assert_eq!(got, expected);
}

#[test]
fn text_characters_advance_six_columns() {
    let mut r = Renderer::new(20, 7);
    r.draw_text("::", 0, 0, 9);
    let mut got = lit(&r, 9);
    got.sort();
    assert_eq!(got, vec![(2, 1), (2, 5), (8, 1), (8, 5)]);
}

#[test]
fn unknown_character_is_a_box() {
    let mut r = Renderer::new(5, 7);
    r.draw_text("x", 0, 0, 1);
    let buf = r.get_buffer();
    for y in 0..7 {
        for x in 0..5 {
            let edge = y == 0 || y == 6 || x == 0 || x == 4;
            assert_eq!(buf[y * 5 + x] == 1, edge, "pixel ({}, {})", x, y);
        }
    }
}

#[test]
fn text_is_clipped_at_the_frame() {
    let mut r = Renderer::new(3, 3);
    r.draw_text("0", -2, -3, 4);
    // Glyph rows 3..6 land on frame rows 0..3; glyph columns 2..5 on frame columns 0..3.
    let mut got = lit(&r, 4);
    got.sort_by_key(|&(x, y)| (y, x));
    assert_eq!(got, vec![(2, 0), (2, 1), (2, 2)]);
}

#[test]
fn space_draws_nothing() {
    let mut r = Renderer::new(6, 7);
    r.draw_text(" ", 0, 0, 3);
    assert!(lit(&r, 3).is_empty());
}

#[test]
fn circle_of_radius_one_is_a_plus() {
    let mut r = Renderer::new(5, 5);
    r.draw_circle(2, 2, 1, 8);
    let mut got = lit(&r, 8);
    got.sort();
    assert_eq!(got, vec![(1, 2), (2, 1), (2, 3), (3, 2)]);
    assert_eq!(r.get_buffer()[2 * 5 + 2], CENTER_DOT);
}

#[test]
fn circle_of_radius_two() {
    let mut r = Renderer::new(5, 5);
    r.draw_circle(2, 2, 2, 8);
    // Corners of the 5x5 square lie outside; (1,0) has 1 + 4 = 5 > 4 and is out too.
    let inside = |x: i32, y: i32| (x - 2) * (x - 2) + (y - 2) * (y - 2) <= 4;
    let buf = r.get_buffer();
    for y in 0..5 {
        for x in 0..5 {
            let c = buf[(y * 5 + x) as usize];
            if x == 2 && y == 2 {
                assert_eq!(c, CENTER_DOT);
            } else {
                assert_eq!(c == 8, inside(x, y), "pixel ({}, {})", x, y);
            }
        }
    }
    assert_eq!(lit(&r, 8).len(), 12);
}

#[test]
fn negative_radius_draws_only_the_dot() {
    let mut r = Renderer::new(3, 3);
    r.draw_circle(1, 1, -2, 8);
    assert!(lit(&r, 8).is_empty());
    assert_eq!(lit(&r, CENTER_DOT), vec![(1, 1)]);
}

#[test]
fn circle_off_screen_is_clipped() {
    let mut r = Renderer::new(4, 4);
    r.draw_circle(0, 0, 1, 8);
    let mut got = lit(&r, 8);
    got.sort();
    assert_eq!(got, vec![(0, 1), (1, 0)]);
    assert_eq!(r.get_buffer()[0], CENTER_DOT);
    r.draw_circle(-10, -10, 2, 6);
    assert!(lit(&r, 6).is_empty());
}

#[test]
fn rectangle_fills_its_box() {
    let mut r = Renderer::new(6, 5);
    r.draw_rectangle(2, 2, 2, 1, 3);
    let buf = r.get_buffer();
    for y in 0..5 {
        for x in 0..6 {
            let c = buf[y * 6 + x];
            if x == 2 && y == 2 {
                assert_eq!(c, CENTER_DOT);
            } else if x <= 4 && (1..=3).contains(&y) {
                assert_eq!(c, 3, "pixel ({}, {})", x, y);
            } else {
                assert_eq!(c, 0, "pixel ({}, {})", x, y);
            }
        }
    }
}

#[test]
fn rectangle_with_zero_extent_is_a_dot() {
    let mut r = Renderer::new(3, 3);
    r.draw_rectangle(1, 1, 0, 0, 3);
    assert_eq!(lit(&r, CENTER_DOT), vec![(1, 1)]);
    assert!(lit(&r, 3).is_empty());
    r.draw_rectangle(1, 1, -1, 1, 3);
    assert!(lit(&r, 3).is_empty());
}
