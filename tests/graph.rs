use snorf::graph::{next_action, AXIS_COLOR, GRID_COLOR};
use snorf::{Ctx, GraphAction, GraphCtx, Vec2D};

fn graph(w: usize, h: usize, offset: usize) -> GraphCtx {
    GraphCtx::new(Ctx::new(vec![0; w * h], w, h), offset)
}

fn count(ctx: &Ctx, color: u32) -> usize {
    ctx.buffer().iter().filter(|&&p| p == color).count()
}

#[test]
fn invalid_sample_breaks_the_curve() {
    let p = Some(Vec2D::new(5usize, 5usize));
    assert_eq!(next_action(p, None), (GraphAction::Break, None));
    assert_eq!(next_action(None, p), (GraphAction::Dot(5, 5), p));
}

#[test]
fn near_sample_is_a_dot() {
    let prev = Some(Vec2D::new(5usize, 5usize));
    let s = Some(Vec2D::new(5usize, 7usize));
    assert_eq!(next_action(prev, s), (GraphAction::Dot(5, 7), s));
    let s = Some(Vec2D::new(6usize, 6usize));
    assert_eq!(next_action(prev, s), (GraphAction::Dot(6, 6), s));
}

#[test]
fn far_sample_is_bridged() {
    let prev = Some(Vec2D::new(5usize, 5usize));
    let s = Some(Vec2D::new(6usize, 7usize));
    assert_eq!(next_action(prev, s), (GraphAction::Bridge(5, 5, 6, 7), s));
    let s = Some(Vec2D::new(5usize, 2usize));
    assert_eq!(next_action(prev, s), (GraphAction::Bridge(5, 5, 5, 2), s));
}

#[test]
fn samples_draw_dots_and_bridges() {
    let mut g = graph(20, 20, 2);
    let samples = vec![
        Some(Vec2D::new(3usize, 3usize)),
        Some(Vec2D::new(4usize, 4usize)),
        Some(Vec2D::new(5usize, 10usize)),
    ];
    g.draw_samples(&samples, 8);
    // two dots, then a line from (4, 4) to (5, 10) of thickness 2
    assert_eq!(g.ctx.get_pixel(3, 3), Some(8));
    assert_eq!(g.ctx.get_pixel(4, 4), Some(8));
    assert_eq!(g.ctx.get_pixel(5, 10), Some(8));
    assert_eq!(g.ctx.get_pixel(4, 7), Some(8));
    assert_eq!(g.ctx.get_thickness(), 1);
}

#[test]
fn asymptote_splits_curve_in_two() {
    let mut g = graph(20, 20, 1);
    let samples = vec![
        Some(Vec2D::new(2usize, 2usize)),
        Some(Vec2D::new(3usize, 3usize)),
        None,
        Some(Vec2D::new(5usize, 15usize)),
        Some(Vec2D::new(6usize, 16usize)),
    ];
    g.draw_samples(&samples, 8);
    // only the four points: nothing joins (3, 3) and (5, 15)
    assert_eq!(count(&g.ctx, 8), 4);
    assert_eq!(g.ctx.get_pixel(4, 9), Some(0));
}

#[test]
fn without_the_break_the_gap_is_bridged() {
    let mut g = graph(20, 20, 1);
    let samples = vec![Some(Vec2D::new(3usize, 3usize)), Some(Vec2D::new(5usize, 15usize))];
    g.draw_samples(&samples, 8);
    assert!(count(&g.ctx, 8) > 2);
}

#[test]
fn thick_dots_use_line_thickness() {
    let mut g = graph(20, 20, 1);
    g.ctx.set_thickness(2);
    g.draw_samples(&vec![Some(Vec2D::new(5usize, 5usize))], 8);
    assert_eq!(count(&g.ctx, 8), 9);
}

#[test]
fn y_axis_ticks_and_lines() {
    let mut g = graph(40, 30, 4);
    g.ctx.clear_rect(0xffffff);
    let labels = g.draw_axis_lines(true, 5);
    let ys: Vec<usize> = labels.ticks.iter().map(|p| p.y).collect();
    assert_eq!(ys, vec![4, 9, 14, 19, 24]);
    assert!(labels.ticks.iter().all(|p| p.x == 2));
    assert_eq!(labels.name, Vec2D::new(2, 28));
    // the axis line is black from (4, 4) to (4, 26)
    for y in 4..=26 {
        assert_eq!(g.ctx.get_pixel(4, y), Some(AXIS_COLOR));
    }
    // a grid line through the second tick
    assert_eq!(g.ctx.get_pixel(20, 9), Some(GRID_COLOR));
    assert_eq!(g.ctx.get_pixel(36, 9), Some(GRID_COLOR));
    // none through the first
    assert_eq!(g.ctx.get_pixel(20, 4), Some(0xffffff));
}

#[test]
fn x_axis_ticks_and_lines() {
    let mut g = graph(30, 20, 4);
    let labels = g.draw_axis_lines(false, 10);
    let xs: Vec<usize> = labels.ticks.iter().map(|p| p.x).collect();
    assert_eq!(xs, vec![4, 14, 24]);
    assert_eq!(labels.name, Vec2D::new(28, 4));
    assert_eq!(g.ctx.get_pixel(14, 10), Some(GRID_COLOR));
    assert_eq!(g.ctx.get_pixel(20, 4), Some(AXIS_COLOR));
}

#[test]
fn x_axis_ticks_stop_at_plotting_region() {
    let mut g = graph(30, 20, 4);
    g.ctx.clear_rect(0xffffff);
    let labels = g.draw_axis_lines(false, 5);
    let xs: Vec<usize> = labels.ticks.iter().map(|p| p.x).collect();
    assert_eq!(xs, vec![4, 9, 14, 19, 24]);
    // no grid line beyond the region, which ends at 26
    for y in 2..=16 {
        assert_eq!(g.ctx.get_pixel(29, y), Some(0xffffff));
    }
}

#[test]
fn x_axis_tick_on_region_edge() {
    let mut g = graph(30, 20, 4);
    let labels = g.draw_axis_lines(false, 11);
    let xs: Vec<usize> = labels.ticks.iter().map(|p| p.x).collect();
    assert_eq!(xs, vec![4, 15, 26]);
    assert_eq!(g.ctx.get_pixel(26, 10), Some(GRID_COLOR));
}

#[test]
fn plot_points_reports_every_failure() {
    let mut g = graph(10, 10, 1);
    let points = vec![
        Vec2D::new(0usize, 5usize),
        Vec2D::new(5usize, 5usize),
        Vec2D::new(9usize, 2usize),
        Vec2D::new(2usize, 2usize),
    ];
    assert_eq!(g.plot_points(&points, 2, 4), Err(vec![0, 2]));
    // the fitting points and the in-bounds part of (9, 2) are drawn
    assert_eq!(g.ctx.get_pixel(5, 5), Some(4));
    assert_eq!(g.ctx.get_pixel(1, 1), Some(4));
    assert_eq!(g.ctx.get_pixel(8, 3), Some(4));
    assert_eq!(g.ctx.get_pixel(0, 5), Some(0));
}

#[test]
fn plot_points_all_fit() {
    let mut g = graph(10, 10, 1);
    let points = vec![Vec2D::new(3usize, 3usize), Vec2D::new(6usize, 6usize)];
    assert_eq!(g.plot_points(&points, 1, 4), Ok(()));
    assert_eq!(count(&g.ctx, 4), 2);
}
