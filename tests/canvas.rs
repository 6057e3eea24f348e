use snorf::canvas::MAX_COORD;
use snorf::{Ctx, DrawError, Hex, Rgba, Vec2D};

fn blank(w: usize, h: usize) -> Ctx {
    Ctx::new(vec![0; w * h], w, h)
}

fn painted_pixels(ctx: &Ctx, color: u32) -> Vec<(usize, usize)> {
    let mut out = Vec::new();
    for y in 0..ctx.get_height() {
        for x in 0..ctx.get_width() {
            if ctx.get_pixel(x, y) == Some(color) {
                out.push((x, y));
            }
        }
    }
    out
}

#[test]
fn draw_pixel_then_read() {
    let mut ctx = blank(4, 3);
    for y in 0..3 {
        for x in 0..4 {
            let c = (10 * y + x) as u32 + 1;
            assert_eq!(ctx.draw_pixel(x, y, c), Ok(()));
            assert_eq!(ctx.get_pixel(x, y), Some(c));
        }
    }
}

#[test]
fn draw_pixel_flips_rows() {
    let mut ctx = blank(3, 2);
    ctx.draw_pixel(1, 0, 7).unwrap();
    // logical row 0 is the last buffer row
    assert_eq!(ctx.buffer(), &vec![0, 0, 0, 0, 7, 0]);
    ctx.draw_pixel(2, 1, 9).unwrap();
    assert_eq!(ctx.buffer(), &vec![0, 0, 9, 0, 7, 0]);
}

#[test]
fn draw_pixel_out_of_bounds_on_each_axis() {
    let mut ctx = blank(4, 3);
    assert_eq!(ctx.draw_pixel(4, 0, 1), Err(DrawError::OutOfBounds));
    assert_eq!(ctx.draw_pixel(0, 3, 1), Err(DrawError::OutOfBounds));
    assert_eq!(ctx.draw_pixel(100, 100, 1), Err(DrawError::OutOfBounds));
    assert!(ctx.buffer().iter().all(|&p| p == 0));
    assert_eq!(ctx.get_pixel(4, 0), None);
}

#[test]
fn clear_rect_sets_everything() {
    let mut ctx = blank(5, 4);
    ctx.draw_pixel(2, 2, 3).unwrap();
    ctx.clear_rect(0xabcdef);
    assert!(ctx.buffer().iter().all(|&p| p == 0xabcdef));
    assert_eq!(ctx.buffer().len(), 20);
}

#[test]
fn scaled_pixel_below_zero_fails() {
    let mut ctx = blank(10, 10);
    assert_eq!(ctx.draw_scaled_pixel(0, 0, 2, 5), Err(DrawError::OutOfBounds));
    assert!(ctx.buffer().iter().all(|&p| p == 0));
}

#[test]
fn scaled_pixel_draws_block() {
    let mut ctx = blank(10, 10);
    assert_eq!(ctx.draw_scaled_pixel(4, 5, 2, 5), Ok(()));
    let mut expected = Vec::new();
    for y in 4..=6 {
        for x in 3..=5 {
            expected.push((x, y));
        }
    }
    assert_eq!(painted_pixels(&ctx, 5), expected);
}

#[test]
fn scaled_pixel_partly_outside_draws_the_rest() {
    let mut ctx = blank(4, 4);
    assert_eq!(ctx.draw_scaled_pixel(3, 1, 2, 5), Err(DrawError::OutOfBounds));
    let mut expected = Vec::new();
    for y in 0..=2 {
        for x in 2..=3 {
            expected.push((x, y));
        }
    }
    assert_eq!(painted_pixels(&ctx, 5), expected);
}

#[test]
fn horizontal_line_sets_six_pixels() {
    let mut ctx = blank(10, 10);
    let c = 0x123456;
    ctx.draw_line(&Vec2D::new(0, 0), &Vec2D::new(5, 0), c).unwrap();
    let set = painted_pixels(&ctx, c);
    assert_eq!(set, vec![(0, 0), (1, 0), (2, 0), (3, 0), (4, 0), (5, 0)]);
    assert_eq!(ctx.buffer().iter().filter(|&&p| p != 0).count(), 6);
}

#[test]
fn diagonal_line_sets_one_pixel_per_step() {
    for n in 0..12usize {
        let mut ctx = blank(16, 16);
        ctx.draw_line(&Vec2D::new(0, 0), &Vec2D::new(n, n), 9).unwrap();
        let set = painted_pixels(&ctx, 9);
        assert_eq!(set.len(), n + 1);
        assert!(set.iter().all(|&(x, y)| x == y && x <= n));
    }
}

#[test]
fn long_diagonal_passes_through_center() {
    let mut ctx = blank(100, 100);
    ctx.draw_line(&Vec2D::new(10, 10), &Vec2D::new(90, 90), 0xFF0000).unwrap();
    assert_eq!(ctx.get_pixel(50, 50), Some(0xFF0000));
}

#[test]
fn steep_line_reversed_direction() {
    let mut ctx = blank(10, 10);
    ctx.draw_line(&Vec2D::new(3, 8), &Vec2D::new(1, 2), 4).unwrap();
    let set = painted_pixels(&ctx, 4);
    assert_eq!(set.len(), 7);
    assert!(set.contains(&(3, 8)));
    assert!(set.contains(&(1, 2)));
    for y in 2..=8 {
        assert_eq!(set.iter().filter(|p| p.1 == y).count(), 1);
    }
}

#[test]
fn degenerate_line_is_one_pixel() {
    let mut ctx = blank(10, 10);
    ctx.set_thickness(3);
    ctx.draw_line(&Vec2D::new(4, 4), &Vec2D::new(4, 4), 2).unwrap();
    assert_eq!(painted_pixels(&ctx, 2), vec![(4, 4)]);
}

#[test]
fn thick_line_has_three_strokes() {
    let mut ctx = blank(60, 30);
    let c = 0x00ff00;
    ctx.set_thickness(3);
    assert_eq!(ctx.get_thickness(), 3);
    ctx.draw_line(&Vec2D::new(0, 10), &Vec2D::new(50, 10), c).unwrap();
    let set = painted_pixels(&ctx, c);
    let mut expected = Vec::new();
    for y in 9..=11 {
        for x in 0..=50 {
            expected.push((x, y));
        }
    }
    assert_eq!(set, expected);
}

#[test]
fn thick_vertical_line_strokes_sideways() {
    let mut ctx = blank(30, 30);
    ctx.set_thickness(2);
    ctx.draw_line(&Vec2D::new(10, 5), &Vec2D::new(10, 20), 3).unwrap();
    let set = painted_pixels(&ctx, 3);
    let xs: Vec<usize> = {
        let mut v: Vec<usize> = set.iter().map(|p| p.0).collect();
        v.sort();
        v.dedup();
        v
    };
    // turned a quarter, the direction (0, 15) points to -x; half a pixel
    // either side truncates to columns 9 and 10
    assert_eq!(xs, vec![9, 10]);
    assert_eq!(set.len(), 2 * 16);
}

#[test]
fn line_off_canvas_is_clipped() {
    let mut ctx = blank(5, 5);
    assert_eq!(ctx.draw_line(&Vec2D::new(0, 2), &Vec2D::new(9, 2), 1), Ok(()));
    assert_eq!(painted_pixels(&ctx, 1), vec![(0, 2), (1, 2), (2, 2), (3, 2), (4, 2)]);
}

#[test]
fn rect_draws_outline() {
    let mut ctx = blank(10, 10);
    ctx.rect(&Vec2D::new(2, 3), 4, 2, 6);
    let set = painted_pixels(&ctx, 6);
    assert_eq!(set.len(), 2 * 5 + 2);
    assert!(set.contains(&(2, 3)));
    assert!(set.contains(&(6, 5)));
    assert!(set.contains(&(2, 4)));
    assert!(!set.contains(&(4, 4)));
}

#[test]
fn max_coord_is_accepted() {
    let mut ctx = blank(3, 3);
    assert_eq!(ctx.draw_line(&Vec2D::new(0, 0), &Vec2D::new(MAX_COORD, 0), 1), Ok(()));
    assert_eq!(painted_pixels(&ctx, 1), vec![(0, 0), (1, 0), (2, 0)]);
}

#[test]
fn colors_by_name() {
    assert_eq!(Hex::from_word("white"), 0xffffff);
    assert_eq!(Hex::from_word("grey"), 0xd1d1d1);
    assert_eq!(Hex::from_word("red"), 0xff0000);
    assert_eq!(Hex::from_word("blue"), 0x4328ed);
    assert_eq!(Hex::from_word("green"), 0x008000);
    assert_eq!(Hex::from_word("black"), 0x000000);
    assert_eq!(Hex::from_word("purple"), 0x000000);
    let h = Hex(0x10);
    assert_eq!(h.0, 0x10);
    let p = Rgba([1, 2, 3, 4]);
    assert_eq!(p.0[3], 4);
}

#[test]
fn vector_arithmetic() {
    let a: Vec2D<i64> = Vec2D::new(3, -4);
    let b: Vec2D<i64> = Vec2D::new(1, 2);
    assert_eq!(a.add_vec(&b), Vec2D::new(4, -2));
    assert_eq!(a.sub_vec(&b), Vec2D::new(2, -6));
    assert_eq!(a.mult_scalar(-2), Vec2D::new(-6, 8));
    assert_eq!(a.magnitude(), 25);
    assert_eq!(a.distance(&b), 40);
    assert_eq!(a.dot(&b), -5);
    assert_eq!(a.usize(), Vec2D::new(3usize, 0usize));
    assert_eq!(Vec2D::new(7i64, 0).usize(), Vec2D::new(7usize, 0usize));
}

#[test]
fn scaled_pixel_below_zero_near_usize_max_fails() {
    let mut ctx = blank(4, 4);
    assert_eq!(ctx.draw_scaled_pixel(usize::MAX, 0, 3, 1), Err(DrawError::OutOfBounds));
    assert!(ctx.buffer().iter().all(|&p| p == 0));
}
