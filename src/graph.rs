use vstd::prelude::*;

use crate::canvas::{in_block, in_bounds, painted, Ctx, MAX_COORD, MAX_THICKNESS};
use crate::math::Vec2D;
use crate::raster::{lemma_line_reach, line_covers, strokes_cover};

verus! {

/// Consecutive plotted points farther apart than this many pixels are joined
/// by a line.
pub const GAP_THRESHOLD: i64 = 2;

/// What the plotter does with one sample of a curve.
#[derive(Clone, Copy, Debug, PartialEq, Eq, Structural)]
pub enum GraphAction {
    /// The sample is invalid: nothing is drawn and the curve breaks here.
    Break,
    /// The sample is drawn as a scaled pixel at `(x, y)`.
    Dot(usize, usize),
    /// A line is drawn from the previous point `(x0, y0)` to the sample `(x1, y1)`.
    Bridge(usize, usize, usize, usize),
}

/// The squared distance between two window points.
pub open spec fn sq_dist(a: Vec2D<usize>, b: Vec2D<usize>) -> int {
    (a.x - b.x) * (a.x - b.x) + (a.y - b.y) * (a.y - b.y)
}

/// The action taken for `sample` (`None` when it is invalid), given the
/// previous point of the curve.
pub open spec fn step_action(prev: Option<Vec2D<usize>>, sample: Option<Vec2D<usize>>) -> GraphAction {
    match sample {
        None => GraphAction::Break,
        Some(p) => match prev {
            Some(q) => if sq_dist(q, p) > GAP_THRESHOLD * GAP_THRESHOLD {
                GraphAction::Bridge(q.x, q.y, p.x, p.y)
            } else {
                GraphAction::Dot(p.x, p.y)
            },
            None => GraphAction::Dot(p.x, p.y),
        },
    }
}

/// The previous point of the curve when sample `i` is taken: the sample
/// before it, absent at the start and after an invalid sample.
pub open spec fn cursor_before(samples: Seq<Option<Vec2D<usize>>>, i: int) -> Option<Vec2D<usize>> {
    if i <= 0 {
        None
    } else {
        samples[i - 1]
    }
}

/// The action taken for sample `i` of a curve.
pub open spec fn sample_action(samples: Seq<Option<Vec2D<usize>>>, i: int) -> GraphAction {
    step_action(cursor_before(samples, i), samples[i])
}

/// The pixels an action draws, with the canvas's thickness `t`.
pub open spec fn action_covers(a: GraphAction, t: int, px: int, py: int) -> bool {
    match a {
        GraphAction::Break => false,
        GraphAction::Dot(x, y) => t - 1 <= x && t - 1 <= y && in_block(x as int, y as int, t, px, py),
        GraphAction::Bridge(x0, y0, x1, y1) => line_covers(
            x0 as int,
            y0 as int,
            x1 as int,
            y1 as int,
            2 * t,
            px,
            py,
        ),
    }
}

/// One of the first `n` samples' actions draws `(px, py)`.
pub open spec fn samples_cover(samples: Seq<Option<Vec2D<usize>>>, n: int, t: int, px: int, py: int) -> bool {
    exists|j: int| 0 <= j < n && #[trigger] action_covers(sample_action(samples, j), t, px, py)
}

/// Every sample lies within the coordinates that line drawing takes.
pub open spec fn samples_in_range(samples: Seq<Option<Vec2D<usize>>>) -> bool {
    forall|i: int|
        0 <= i < samples.len() ==> match #[trigger] samples[i] {
            Some(p) => p.x <= MAX_COORD && p.y <= MAX_COORD,
            None => true,
        }
}

/// One step of the plotter: the action for `sample` and the new cursor.
pub fn next_action(prev: Option<Vec2D<usize>>, sample: Option<Vec2D<usize>>) -> (r: (
    GraphAction,
    Option<Vec2D<usize>>,
))
    requires
        match prev {
            Some(q) => q.x <= MAX_COORD && q.y <= MAX_COORD,
            None => true,
        },
        match sample {
            Some(p) => p.x <= MAX_COORD && p.y <= MAX_COORD,
            None => true,
        },
    ensures
        r.0 == step_action(prev, sample),
        r.1 == sample,
{
    match sample {
        None => (GraphAction::Break, None),
        Some(p) => match prev {
            Some(q) => {
                let a = Vec2D::new(q.x as i64, q.y as i64);
                let b = Vec2D::new(p.x as i64, p.y as i64);
                proof {
                    let dx = a.x - b.x;
                    let dy = a.y - b.y;
                    assert(dx * dx <= 0x3fff_ffff_0000_0001) by (nonlinear_arith)
                        requires
                            -0x7fff_ffff <= dx <= 0x7fff_ffff,
                    ;
                    assert(dy * dy <= 0x3fff_ffff_0000_0001) by (nonlinear_arith)
                        requires
                            -0x7fff_ffff <= dy <= 0x7fff_ffff,
                    ;
                    assert(0 <= dx * dx) by (nonlinear_arith);
                    assert(0 <= dy * dy) by (nonlinear_arith);
                }
                if a.distance(&b) > GAP_THRESHOLD * GAP_THRESHOLD {
                    (GraphAction::Bridge(q.x, q.y, p.x, p.y), Some(p))
                } else {
                    (GraphAction::Dot(p.x, p.y), Some(p))
                }
            },
            None => (GraphAction::Dot(p.x, p.y), Some(p)),
        },
    }
}

/// A canvas with a margin of `axis_offset` pixels kept for axes and labels
/// on each edge.
pub struct GraphCtx {
    pub ctx: Ctx,
    pub axis_offset: usize,
}

impl GraphCtx {
    /// The canvas is well formed and the margins leave a plotting region.
    pub open spec fn wf(&self) -> bool {
        &&& self.ctx.wf()
        &&& 2 * self.axis_offset < self.ctx.width()
        &&& 2 * self.axis_offset < self.ctx.height()
        &&& self.ctx.width() <= MAX_COORD
        &&& self.ctx.height() <= MAX_COORD
    }

    pub fn new(ctx: Ctx, axis_offset: usize) -> (r: Self)
        requires
            ctx.wf(),
            2 * axis_offset < ctx.width(),
            2 * axis_offset < ctx.height(),
            ctx.width() <= MAX_COORD,
            ctx.height() <= MAX_COORD,
        ensures
            r.wf(),
            r.ctx == ctx,
            r.axis_offset == axis_offset,
    {
        GraphCtx { ctx, axis_offset }
    }

    /// Draws a sampled curve.  `samples` holds, in order, the window point of
    /// each sample, or `None` where the function was undefined or out of
    /// range there.  A valid sample is drawn as a scaled pixel of the line
    /// thickness, or, when it lies more than `GAP_THRESHOLD` pixels from the
    /// previous valid sample, as a line of twice that thickness from it.  An
    /// invalid sample breaks the curve.
    pub fn draw_samples(&mut self, samples: &Vec<Option<Vec2D<usize>>>, color: u32)
        requires
            old(self).wf(),
            old(self).ctx.thickness() >= 1,
            samples_in_range(samples@),
        ensures
            final(self).axis_offset == old(self).axis_offset,
            painted(
                old(self).ctx,
                final(self).ctx,
                color,
                |px: int, py: int|
                    samples_cover(samples@, samples@.len() as int, old(self).ctx.thickness() as int, px, py),
            ),
    {
        let ghost before = self.ctx;
        let ghost t = self.ctx.thickness() as int;
        let thickness = self.ctx.get_thickness();
        let mut prev: Option<Vec2D<usize>> = None;
        let mut i: usize = 0;
        proof {
            crate::canvas::lemma_paint_none(before, color);
            crate::canvas::lemma_paint_ext(
                before,
                self.ctx,
                color,
                |px: int, py: int| false,
                |px: int, py: int| samples_cover(samples@, 0, t, px, py),
            );
        }
        while i < samples.len()
            invariant
                0 <= i <= samples@.len(),
                before.wf(),
                1 <= t <= MAX_THICKNESS,
                thickness == t,
                self.axis_offset == old(self).axis_offset,
                before == old(self).ctx,
                t == before.thickness(),
                samples_in_range(samples@),
                prev == cursor_before(samples@, i as int),
                painted(before, self.ctx, color, |px: int, py: int| samples_cover(samples@, i as int, t, px, py)),
            decreases samples@.len() - i,
        {
            let sample = samples[i];
            proof {
                assert(samples@[i as int] == sample);
                if i > 0 {
                    assert(samples@[i - 1] == prev);
                }
            }
            let (action, next) = next_action(prev, sample);
            let ghost mid = self.ctx;
            match action {
                GraphAction::Break => {
                    proof {
                        crate::canvas::lemma_paint_none(mid, color);
                    }
                },
                GraphAction::Dot(x, y) => {
                    let _ = self.ctx.draw_scaled_pixel(x, y, thickness, color);
                },
                GraphAction::Bridge(x0, y0, x1, y1) => {
                    self.ctx.stroke_line(x0, y0, x1, y1, 2 * thickness, color);
                },
            }
            proof {
                assert(action == sample_action(samples@, i as int));
                assert forall|px: int, py: int|
                    #[trigger] samples_cover(samples@, i + 1, t, px, py) == (samples_cover(samples@, i as int, t, px, py)
                        || action_covers(action, t, px, py)) by {
                    if samples_cover(samples@, i + 1, t, px, py) {
                        let j = choose|j: int| 0 <= j < i + 1 && #[trigger] action_covers(sample_action(samples@, j), t, px, py);
                        if j < i {
                            assert(samples_cover(samples@, i as int, t, px, py));
                        }
                    }
                    if action_covers(action, t, px, py) {
                        assert(action_covers(sample_action(samples@, i as int), t, px, py));
                    }
                }
                crate::canvas::lemma_paint_then(
                    before,
                    mid,
                    self.ctx,
                    color,
                    |px: int, py: int| samples_cover(samples@, i as int, t, px, py),
                    |px: int, py: int| action_covers(action, t, px, py),
                    |px: int, py: int| samples_cover(samples@, i + 1, t, px, py),
                );
            }
            prev = next;
            i = i + 1;
        }
    }
}

/// The curve never crosses an invalid sample: an invalid sample draws
/// nothing, the sample after it is drawn on its own, and every connecting
/// line joins two consecutive valid samples.
pub proof fn lemma_break_is_never_bridged(samples: Seq<Option<Vec2D<usize>>>, i: int)
    requires
        0 <= i < samples.len(),
    ensures
        samples[i] is None ==> sample_action(samples, i) == GraphAction::Break,
        samples[i] is None && i + 1 < samples.len() ==> !(sample_action(samples, i + 1) is Bridge),
        sample_action(samples, i) is Bridge ==> {
            &&& i >= 1
            &&& samples[i - 1] == Some(
                Vec2D { x: sample_action(samples, i)->Bridge_0, y: sample_action(samples, i)->Bridge_1 },
            )
            &&& samples[i] == Some(
                Vec2D { x: sample_action(samples, i)->Bridge_2, y: sample_action(samples, i)->Bridge_3 },
            )
        },
{
}

/// An asymptote leaves a visible gap: when sample `a` is invalid, every valid
/// sample before it lies more than `2 t` columns left of column `c`, and every
/// valid sample after it more than `2 t` columns right of `c`, then nothing the
/// curve draws with thickness `t` (dots of `t`, connecting lines of `2 t`)
/// touches column `c`.
pub proof fn lemma_asymptote_gap(samples: Seq<Option<Vec2D<usize>>>, a: int, t: int, c: int)
    requires
        t >= 1,
        0 <= a < samples.len(),
        samples[a] is None,
        forall|j: int|
            0 <= j < a && (#[trigger] samples[j]) is Some ==> samples[j]->0.x + 2 * t < c,
        forall|j: int|
            a < j < samples.len() && (#[trigger] samples[j]) is Some ==> c < samples[j]->0.x - 2 * t,
    ensures
        forall|py: int| !#[trigger] samples_cover(samples, samples.len() as int, t, c, py),
{
    assert forall|py: int| !#[trigger] samples_cover(samples, samples.len() as int, t, c, py) by {
        if samples_cover(samples, samples.len() as int, t, c, py) {
            let j = choose|j: int|
                0 <= j < samples.len() && #[trigger] action_covers(sample_action(samples, j), t, c, py);
            lemma_break_is_never_bridged(samples, j);
            match sample_action(samples, j) {
                GraphAction::Break => {},
                GraphAction::Dot(x, y) => {
                    assert(samples[j] is Some && samples[j]->0.x == x);
                    assert(j != a);
                },
                GraphAction::Bridge(x0, y0, x1, y1) => {
                    lemma_line_reach(x0 as int, y0 as int, x1 as int, y1 as int, 2 * t, c, py);
                    assert(j - 1 != a && j != a);
                },
            }
        }
    }
}

/// A scaled pixel of `scale` at `p` fits on a `w` by `h` canvas.
pub open spec fn block_fits(p: Vec2D<usize>, scale: int, w: int, h: int) -> bool {
    scale - 1 <= p.x && scale - 1 <= p.y && p.x + scale - 1 < w && p.y + scale - 1 < h
}

/// One of the first `n` points' scaled pixels covers `(px, py)`.
pub open spec fn points_cover(points: Seq<Vec2D<usize>>, n: int, scale: int, px: int, py: int) -> bool {
    exists|j: int|
        0 <= j < n && scale - 1 <= points[j].x && scale - 1 <= points[j].y && #[trigger] in_block(
            points[j].x as int,
            points[j].y as int,
            scale,
            px,
            py,
        )
}

/// `v` lists, in increasing order, exactly the indices of the points whose
/// scaled pixel does not fit on a `w` by `h` canvas.
pub open spec fn failed_points(points: Seq<Vec2D<usize>>, scale: int, w: int, h: int, v: Seq<usize>) -> bool {
    &&& forall|k: int|
        0 <= k < v.len() ==> #[trigger] v[k] < points.len() && !block_fits(points[v[k] as int], scale, w, h)
    &&& forall|k: int, m: int| 0 <= k < m < v.len() ==> v[k] < v[m]
    &&& forall|i: int|
        0 <= i < points.len() && !block_fits(#[trigger] points[i], scale, w, h) ==> exists|k: int|
            0 <= k < v.len() && v[k] == i
}

impl GraphCtx {
    /// Plots each window point as a scaled pixel, going on past points that
    /// do not fit; fails with the indices, in order, of every point that did
    /// not fit.
    pub fn plot_points(&mut self, points: &Vec<Vec2D<usize>>, scale: usize, color: u32) -> (r: Result<
        (),
        Vec<usize>,
    >)
        requires
            old(self).wf(),
            scale >= 1,
            forall|i: int|
                0 <= i < points@.len() ==> (#[trigger] points@[i]).x + scale <= usize::MAX && points@[i].y
                    + scale <= usize::MAX,
        ensures
            final(self).axis_offset == old(self).axis_offset,
            painted(
                old(self).ctx,
                final(self).ctx,
                color,
                |px: int, py: int| points_cover(points@, points@.len() as int, scale as int, px, py),
            ),
            r is Ok <==> forall|i: int|
                0 <= i < points@.len() ==> block_fits(
                    #[trigger] points@[i],
                    scale as int,
                    old(self).ctx.width() as int,
                    old(self).ctx.height() as int,
                ),
            r matches Err(v) ==> failed_points(
                points@,
                scale as int,
                old(self).ctx.width() as int,
                old(self).ctx.height() as int,
                v@,
            ),
    {
        let ghost before = self.ctx;
        let ghost w = before.width() as int;
        let ghost h = before.height() as int;
        let mut failures: Vec<usize> = Vec::new();
        let mut i: usize = 0;
        proof {
            crate::canvas::lemma_paint_none(before, color);
            crate::canvas::lemma_paint_ext(
                before,
                self.ctx,
                color,
                |px: int, py: int| false,
                |px: int, py: int| points_cover(points@, 0, scale as int, px, py),
            );
        }
        while i < points.len()
            invariant
                0 <= i <= points@.len(),
                before.wf(),
                before == old(self).ctx,
                w == before.width(),
                h == before.height(),
                scale >= 1,
                self.axis_offset == old(self).axis_offset,
                forall|j: int|
                    0 <= j < points@.len() ==> (#[trigger] points@[j]).x + scale <= usize::MAX
                        && points@[j].y + scale <= usize::MAX,
                painted(
                    before,
                    self.ctx,
                    color,
                    |px: int, py: int| points_cover(points@, i as int, scale as int, px, py),
                ),
                forall|k: int|
                    0 <= k < failures@.len() ==> #[trigger] failures@[k] < i && !block_fits(
                        points@[failures@[k] as int],
                        scale as int,
                        w,
                        h,
                    ),
                forall|k: int, m: int| 0 <= k < m < failures@.len() ==> failures@[k] < failures@[m],
                forall|j: int|
                    0 <= j < i && !block_fits(#[trigger] points@[j], scale as int, w, h) ==> exists|
                        k: int,
                    | 0 <= k < failures@.len() && failures@[k] == j,
            decreases points@.len() - i,
        {
            let p = points[i];
            let ghost mid = self.ctx;
            let res = self.ctx.draw_scaled_pixel(p.x, p.y, scale, color);
            proof {
                assert(points@[i as int] == p);
                assert forall|px: int, py: int|
                    #[trigger] points_cover(points@, i + 1, scale as int, px, py) == (points_cover(
                        points@,
                        i as int,
                        scale as int,
                        px,
                        py,
                    ) || (scale - 1 <= p.x && scale - 1 <= p.y && in_block(
                        p.x as int,
                        p.y as int,
                        scale as int,
                        px,
                        py,
                    ))) by {
                    if points_cover(points@, i + 1, scale as int, px, py) {
                        let j = choose|j: int|
                            0 <= j < i + 1 && scale - 1 <= points@[j].x && scale - 1 <= points@[j].y
                                && #[trigger] in_block(
                                points@[j].x as int,
                                points@[j].y as int,
                                scale as int,
                                px,
                                py,
                            );
                        if j < i {
                            assert(points_cover(points@, i as int, scale as int, px, py));
                        }
                    }
                    if scale - 1 <= p.x && scale - 1 <= p.y && in_block(
                        p.x as int,
                        p.y as int,
                        scale as int,
                        px,
                        py,
                    ) {
                        assert(in_block(
                            points@[i as int].x as int,
                            points@[i as int].y as int,
                            scale as int,
                            px,
                            py,
                        ));
                    }
                }
                crate::canvas::lemma_paint_then(
                    before,
                    mid,
                    self.ctx,
                    color,
                    |px: int, py: int| points_cover(points@, i as int, scale as int, px, py),
                    |px: int, py: int|
                        scale - 1 <= p.x && scale - 1 <= p.y && in_block(
                            p.x as int,
                            p.y as int,
                            scale as int,
                            px,
                            py,
                        ),
                    |px: int, py: int| points_cover(points@, i + 1, scale as int, px, py),
                );
            }
            if res.is_err() {
                let ghost prev = failures@;
                failures.push(i);
                proof {
                    assert forall|j: int|
                        0 <= j < i + 1 && !block_fits(#[trigger] points@[j], scale as int, w, h) implies exists|
                            k: int,
                        | 0 <= k < failures@.len() && failures@[k] == j by {
                        if j < i {
                            let k = choose|k: int| 0 <= k < prev.len() && prev[k] == j;
                            assert(failures@[k] == j);
                        } else {
                            assert(failures@[prev.len() as int] == j);
                        }
                    }
                }
            }
            i = i + 1;
        }
        if failures.len() == 0 {
            proof {
                assert forall|j: int| 0 <= j < points@.len() implies block_fits(
                    #[trigger] points@[j],
                    scale as int,
                    w,
                    h,
                ) by {
                    if !block_fits(points@[j], scale as int, w, h) {
                        let k = choose|k: int| 0 <= k < failures@.len() && failures@[k] == j;
                    }
                }
            }
            Ok(())
        } else {
            proof {
                assert(i == points@.len());
                assert(w == old(self).ctx.width() && h == old(self).ctx.height());
                assert(!block_fits(points@[failures@[0] as int], scale as int, w, h));
                assert(failed_points(points@, scale as int, w, h, failures@));
            }
            Err(failures)
        }
    }
}

/// The color of grid lines.
pub const GRID_COLOR: u32 = 0xd1d1d1;

/// The color of the axis lines.
pub const AXIS_COLOR: u32 = 0x000000;

/// Where an axis wants its text drawn.
pub struct AxisLabels {
    /// The anchor of each tick's number, from the axis outward.
    pub ticks: Vec<Vec2D<usize>>,
    /// The anchor of the axis name.
    pub name: Vec2D<usize>,
}

/// The last pixel position a tick of the axis may take: the far edge of the
/// plotting region.
pub open spec fn tick_last(y_axis: bool, w: int, h: int, offset: int) -> int {
    if y_axis {
        h - offset
    } else {
        w - offset
    }
}

/// Where the number of the tick at pixel position `pos` is anchored.
pub open spec fn tick_anchor(y_axis: bool, offset: int, pos: int) -> (int, int) {
    if y_axis {
        (offset - offset / 2, pos)
    } else {
        (pos, offset - offset / 2)
    }
}

/// The grid line through the tick at pixel position `pos`, across the
/// plotting region.
pub open spec fn grid_line(y_axis: bool, w: int, h: int, offset: int, pos: int) -> (int, int, int, int) {
    let a = tick_anchor(y_axis, offset, pos);
    if y_axis {
        (a.0, a.1, w - offset, pos)
    } else {
        (a.0, a.1, pos, h - offset)
    }
}

/// The axis line itself, along the margin.
pub open spec fn axis_line(y_axis: bool, w: int, h: int, offset: int) -> (int, int, int, int) {
    if y_axis {
        (offset, offset, offset, h - offset)
    } else {
        (offset, offset, w - offset, offset)
    }
}

/// Where the axis name is anchored.
pub open spec fn name_anchor(y_axis: bool, w: int, h: int, offset: int) -> (int, int) {
    if y_axis {
        (offset / 2, h - offset / 2)
    } else {
        (w - offset / 2, offset)
    }
}

/// One of the grid lines of ticks `1 .. n` (of pixel stride `step`) covers
/// `(px, py)`; the first tick lies on the axis and has none.
pub open spec fn grid_covers(
    y_axis: bool,
    w: int,
    h: int,
    offset: int,
    step: int,
    n: int,
    t: int,
    px: int,
    py: int,
) -> bool {
    exists|i: int|
        1 <= i < n && #[trigger] line_covers(
            grid_line(y_axis, w, h, offset, offset + i * step).0,
            grid_line(y_axis, w, h, offset, offset + i * step).1,
            grid_line(y_axis, w, h, offset, offset + i * step).2,
            grid_line(y_axis, w, h, offset, offset + i * step).3,
            t,
            px,
            py,
        )
}

/// The axis line covers `(px, py)`.
pub open spec fn axis_covers(y_axis: bool, w: int, h: int, offset: int, t: int, px: int, py: int) -> bool {
    let l = axis_line(y_axis, w, h, offset);
    line_covers(l.0, l.1, l.2, l.3, t, px, py)
}

impl GraphCtx {
    /// Draws an axis with ticks every `pix_step` pixels from the margin: a
    /// grid line across the plotting region at each tick but the first, then
    /// the axis line.  Returns where the tick numbers and the axis name go.
    pub fn draw_axis_lines(&mut self, y_axis: bool, pix_step: usize) -> (r: AxisLabels)
        requires
            old(self).wf(),
            pix_step >= 1,
        ensures
            final(self).wf(),
            final(self).axis_offset == old(self).axis_offset,
            final(self).ctx.width() == old(self).ctx.width(),
            final(self).ctx.height() == old(self).ctx.height(),
            final(self).ctx.thickness() == old(self).ctx.thickness(),
            ({
                let w = old(self).ctx.width() as int;
                let h = old(self).ctx.height() as int;
                let o = old(self).axis_offset as int;
                let n = r.ticks@.len() as int;
                &&& n >= 1
                &&& o + (n - 1) * pix_step <= tick_last(y_axis, w, h, o) < o + n * pix_step
                &&& forall|i: int|
                    0 <= i < n ==> (#[trigger] r.ticks@[i]).x == tick_anchor(y_axis, o, o + i * pix_step).0
                        && r.ticks@[i].y == tick_anchor(y_axis, o, o + i * pix_step).1
                &&& r.name.x == name_anchor(y_axis, w, h, o).0
                &&& r.name.y == name_anchor(y_axis, w, h, o).1
                &&& forall|px: int, py: int|
                    in_bounds(w, h, px, py) ==> #[trigger] final(self).ctx.pixel(px, py) == (if axis_covers(
                        y_axis,
                        w,
                        h,
                        o,
                        old(self).ctx.thickness() as int,
                        px,
                        py,
                    ) {
                        AXIS_COLOR
                    } else if grid_covers(
                        y_axis,
                        w,
                        h,
                        o,
                        pix_step as int,
                        n,
                        old(self).ctx.thickness() as int,
                        px,
                        py,
                    ) {
                        GRID_COLOR
                    } else {
                        old(self).ctx.pixel(px, py)
                    })
            }),
    {
        let ghost before = self.ctx;
        let ghost t = self.ctx.thickness() as int;
        let w = self.ctx.get_width();
        let h = self.ctx.get_height();
        let offset = self.axis_offset;
        let last: usize = if y_axis {
            h - offset
        } else {
            w - offset
        };
        let mut ticks: Vec<Vec2D<usize>> = Vec::new();
        let mut pos: usize = offset;
        let mut going = true;
        proof {
            assert(ticks@.len() * pix_step == 0) by (nonlinear_arith)
                requires
                    ticks@.len() == 0,
            ;
            crate::canvas::lemma_paint_none(before, GRID_COLOR);
            crate::canvas::lemma_paint_ext(
                before,
                self.ctx,
                GRID_COLOR,
                |px: int, py: int| false,
                |px: int, py: int|
                    grid_covers(y_axis, w as int, h as int, offset as int, pix_step as int, 0, t, px, py),
            );
        }
        while going
            invariant
                self.wf(),
                before.wf(),
                before == old(self).ctx,
                t == before.thickness(),
                w == before.width(),
                h == before.height(),
                offset == self.axis_offset,
                offset == old(self).axis_offset,
                2 * offset < w,
                2 * offset < h,
                w <= MAX_COORD,
                h <= MAX_COORD,
                pix_step >= 1,
                last == tick_last(y_axis, w as int, h as int, offset as int),
                offset <= pos <= last,
                going ==> pos == offset + ticks@.len() * pix_step,
                !going ==> pos == offset + (ticks@.len() - 1) * pix_step,
                !going ==> last < pos + pix_step && ticks@.len() >= 1,
                forall|i: int|
                    0 <= i < ticks@.len() ==> (#[trigger] ticks@[i]).x == tick_anchor(
                        y_axis,
                        offset as int,
                        offset + i * pix_step,
                    ).0 && ticks@[i].y == tick_anchor(y_axis, offset as int, offset + i * pix_step).1,
                painted(
                    before,
                    self.ctx,
                    GRID_COLOR,
                    |px: int, py: int|
                        grid_covers(
                            y_axis,
                            w as int,
                            h as int,
                            offset as int,
                            pix_step as int,
                            ticks@.len() as int,
                            t,
                            px,
                            py,
                        ),
                ),
            decreases last - pos + (if going { 1int } else { 0int }),
        {
            let ghost k = ticks@.len() as int;
            let anchor: Vec2D<usize> = if y_axis {
                Vec2D::new(offset - offset / 2, pos)
            } else {
                Vec2D::new(pos, offset - offset / 2)
            };
            let ghost mid = self.ctx;
            let ghost g = grid_line(y_axis, w as int, h as int, offset as int, pos as int);
            if pos > offset {
                let far: Vec2D<usize> = if y_axis {
                    Vec2D::new(w - offset, pos)
                } else {
                    Vec2D::new(pos, h - offset)
                };
                let _ = self.ctx.draw_line(&anchor, &far, GRID_COLOR);
                proof {
                    assert(g == (anchor.x as int, anchor.y as int, far.x as int, far.y as int));
                }
            } else {
                proof {
                    crate::canvas::lemma_paint_none(mid, GRID_COLOR);
                }
            }
            proof {
                assert(k >= 1 <==> pos > offset) by (nonlinear_arith)
                    requires
                        pos == offset + k * pix_step,
                        pix_step >= 1,
                        k >= 0,
                ;
                assert forall|px: int, py: int|
                    #[trigger] grid_covers(y_axis, w as int, h as int, offset as int, pix_step as int, k + 1, t, px, py)
                        == (grid_covers(y_axis, w as int, h as int, offset as int, pix_step as int, k, t, px, py)
                        || (pos > offset && line_covers(g.0, g.1, g.2, g.3, t, px, py))) by {
                    if grid_covers(y_axis, w as int, h as int, offset as int, pix_step as int, k + 1, t, px, py) {
                        let i = choose|i: int|
                            1 <= i < k + 1 && #[trigger] line_covers(
                                grid_line(y_axis, w as int, h as int, offset as int, offset + i * pix_step).0,
                                grid_line(y_axis, w as int, h as int, offset as int, offset + i * pix_step).1,
                                grid_line(y_axis, w as int, h as int, offset as int, offset + i * pix_step).2,
                                grid_line(y_axis, w as int, h as int, offset as int, offset + i * pix_step).3,
                                t,
                                px,
                                py,
                            );
                        if i < k {
                            assert(grid_covers(y_axis, w as int, h as int, offset as int, pix_step as int, k, t, px, py));
                        }
                    }
                }
                crate::canvas::lemma_paint_then(
                    before,
                    mid,
                    self.ctx,
                    GRID_COLOR,
                    |px: int, py: int|
                        grid_covers(y_axis, w as int, h as int, offset as int, pix_step as int, k, t, px, py),
                    |px: int, py: int| pos > offset && line_covers(g.0, g.1, g.2, g.3, t, px, py),
                    |px: int, py: int|
                        grid_covers(y_axis, w as int, h as int, offset as int, pix_step as int, k + 1, t, px, py),
                );
            }
            ticks.push(anchor);
            if last - pos >= pix_step {
                proof {
                    assert(offset + (k + 1) * pix_step == offset + k * pix_step + pix_step) by (nonlinear_arith);
                }
                pos = pos + pix_step;
            } else {
                going = false;
            }
        }
        let ghost mid = self.ctx;
        let axis_end: Vec2D<usize> = if y_axis {
            Vec2D::new(offset, h - offset)
        } else {
            Vec2D::new(w - offset, offset)
        };
        let _ = self.ctx.draw_line(&Vec2D::new(offset, offset), &axis_end, AXIS_COLOR);
        proof {
            let n = ticks@.len() as int;
            let o = offset as int;
            assert(axis_line(y_axis, w as int, h as int, o) == (o, o, axis_end.x as int, axis_end.y as int));
            assert(o + (n - 1) * pix_step <= tick_last(y_axis, w as int, h as int, o) < o + n * pix_step) by (nonlinear_arith)
                requires
                    pos == o + (n - 1) * pix_step,
                    pos <= last,
                    last < pos + pix_step,
                    last == tick_last(y_axis, w as int, h as int, o),
            ;
            assert forall|px: int, py: int| in_bounds(w as int, h as int, px, py) implies #[trigger] self.ctx.pixel(px, py)
                == (if axis_covers(y_axis, w as int, h as int, o, t, px, py) {
                AXIS_COLOR
            } else if grid_covers(y_axis, w as int, h as int, o, pix_step as int, n, t, px, py) {
                GRID_COLOR
            } else {
                before.pixel(px, py)
            }) by {
                assert(mid.pixel(px, py) == (if grid_covers(y_axis, w as int, h as int, o, pix_step as int, n, t, px, py) {
                    GRID_COLOR
                } else {
                    before.pixel(px, py)
                }));
            }
        }
        let name: Vec2D<usize> = if y_axis {
            Vec2D::new(offset / 2, h - offset / 2)
        } else {
            Vec2D::new(w - offset / 2, offset)
        };
        AxisLabels { ticks, name }
    }
}

} // verus!
