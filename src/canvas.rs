use vstd::prelude::*;

use crate::math::Vec2D;
use crate::raster::{
    iabs, lemma_diagonal_pixels, line_covers, raster_from, raster_line, shifted, stroke, stroke_count, stroke_hits,
    strokes_cover, trunc_shift,
};

verus! {

/// The largest coordinate that line drawing takes.
pub const MAX_COORD: usize = 0x7fff_ffff;

/// The largest line thickness a canvas holds.
pub const MAX_THICKNESS: usize = 0x10_0000;

/// Why a drawing call could not write all of its pixels.
#[derive(Clone, Copy, Debug, PartialEq, Eq, Structural)]
pub enum DrawError {
    /// A requested pixel lies outside the canvas.
    OutOfBounds,
}

/// `(x, y)` is a pixel of a `w` by `h` canvas.
pub open spec fn in_bounds(w: int, h: int, x: int, y: int) -> bool {
    0 <= x < w && 0 <= y < h
}

/// Where the pixel `(x, y)` sits in the row-major buffer: logical row 0 is
/// the bottom row, which is the last row of the buffer.
pub open spec fn index_of(w: int, h: int, x: int, y: int) -> int {
    (h - 1 - y) * w + x
}

/// The block of a scaled pixel: every pixel within `scale - 1` of `(cx, cy)`
/// along both axes.
pub open spec fn in_block(cx: int, cy: int, scale: int, px: int, py: int) -> bool {
    cx - scale + 1 <= px <= cx + scale - 1 && cy - scale + 1 <= py <= cy + scale - 1
}

proof fn lemma_index(w: int, h: int, x: int, y: int, x2: int, y2: int)
    requires
        in_bounds(w, h, x, y),
        in_bounds(w, h, x2, y2),
    ensures
        0 <= index_of(w, h, x, y) < w * h,
        index_of(w, h, x, y) == index_of(w, h, x2, y2) ==> x == x2 && y == y2,
{
    let a = h - 1 - y;
    let a2 = h - 1 - y2;
    assert(0 <= a * w <= (h - 1) * w) by (nonlinear_arith)
        requires
            0 <= a <= h - 1,
            w >= 0,
    ;
    assert((h - 1) * w + w == w * h) by (nonlinear_arith);
    if a < a2 {
        assert(a * w + w <= a2 * w) by (nonlinear_arith)
            requires
                a < a2,
                w >= 0,
        ;
    }
    if a2 < a {
        assert(a2 * w + w <= a * w) by (nonlinear_arith)
            requires
                a2 < a,
                w >= 0,
        ;
    }
}

/// A pixel buffer with its size and the thickness used for lines.
/// Everything is drawn in respect to the bottom left of the canvas.
pub struct Ctx {
    buf: Vec<u32>,
    w: usize,
    h: usize,
    thickness: usize,
}

/// `after` is `before` with the pixels that `cover` holds of set to `c`.
pub open spec fn painted(before: Ctx, after: Ctx, c: u32, cover: spec_fn(int, int) -> bool) -> bool {
    &&& after.wf()
    &&& after.width() == before.width()
    &&& after.height() == before.height()
    &&& after.thickness() == before.thickness()
    &&& forall|px: int, py: int|
        in_bounds(after.width() as int, after.height() as int, px, py) ==> #[trigger] after.pixel(
            px,
            py,
        ) == (if cover(px, py) {
            c
        } else {
            before.pixel(px, py)
        })
}

pub(crate) proof fn lemma_paint_none(a: Ctx, c: u32)
    requires
        a.wf(),
    ensures
        painted(a, a, c, |px: int, py: int| false),
{
}

pub(crate) proof fn lemma_paint_ext(a: Ctx, b: Ctx, c: u32, f: spec_fn(int, int) -> bool, g: spec_fn(int, int) -> bool)
    requires
        painted(a, b, c, f),
        forall|px: int, py: int|
            in_bounds(b.width() as int, b.height() as int, px, py) ==> f(px, py) == g(px, py),
    ensures
        painted(a, b, c, g),
{
    assert forall|px: int, py: int| in_bounds(b.width() as int, b.height() as int, px, py) implies #[trigger] b.pixel(
        px,
        py,
    ) == (if g(px, py) {
        c
    } else {
        a.pixel(px, py)
    }) by {
        assert(f(px, py) == g(px, py));
    }
}

pub(crate) proof fn lemma_paint_then(
    a: Ctx,
    b: Ctx,
    d: Ctx,
    c: u32,
    f: spec_fn(int, int) -> bool,
    g: spec_fn(int, int) -> bool,
    h: spec_fn(int, int) -> bool,
)
    requires
        painted(a, b, c, f),
        painted(b, d, c, g),
        forall|px: int, py: int|
            in_bounds(d.width() as int, d.height() as int, px, py) ==> h(px, py) == (f(px, py)
                || g(px, py)),
    ensures
        painted(a, d, c, h),
{
    assert forall|px: int, py: int| in_bounds(d.width() as int, d.height() as int, px, py) implies #[trigger] d.pixel(
        px,
        py,
    ) == (if h(px, py) {
        c
    } else {
        a.pixel(px, py)
    }) by {
        assert(h(px, py) == (f(px, py) || g(px, py)));
        assert(d.pixel(px, py) == (if g(px, py) {
            c
        } else {
            b.pixel(px, py)
        }));
        assert(b.pixel(px, py) == (if f(px, py) {
            c
        } else {
            a.pixel(px, py)
        }));
    }
}

impl Ctx {
    /// The buffer, row-major from the top row down.
    pub closed spec fn pixels(&self) -> Seq<u32> {
        self.buf@
    }

    pub closed spec fn width(&self) -> nat {
        self.w as nat
    }

    pub closed spec fn height(&self) -> nat {
        self.h as nat
    }

    /// The thickness that lines are drawn with.
    pub closed spec fn thickness(&self) -> nat {
        self.thickness as nat
    }

    /// The buffer holds exactly one value per pixel.
    pub open spec fn wf(&self) -> bool {
        &&& self.pixels().len() == self.width() * self.height()
        &&& self.thickness() <= MAX_THICKNESS
    }

    /// The color of the pixel at logical coordinate `(x, y)`.
    pub open spec fn pixel(&self, x: int, y: int) -> u32 {
        self.pixels()[index_of(self.width() as int, self.height() as int, x, y)]
    }

    pub fn new(buffer: Vec<u32>, width: usize, height: usize) -> (r: Self)
        requires
            buffer@.len() == width * height,
        ensures
            r.wf(),
            r.pixels() == buffer@,
            r.width() == width,
            r.height() == height,
            r.thickness() == 1,
    {
        Ctx { buf: buffer, w: width, h: height, thickness: 1 }
    }

    pub fn set_thickness(&mut self, thickness: usize)
        requires
            old(self).wf(),
            thickness <= MAX_THICKNESS,
        ensures
            final(self).wf(),
            final(self).pixels() == old(self).pixels(),
            final(self).width() == old(self).width(),
            final(self).height() == old(self).height(),
            final(self).thickness() == thickness,
    {
        self.thickness = thickness;
    }

    pub fn get_width(&self) -> (r: usize)
        ensures
            r == self.width(),
    {
        self.w
    }

    pub fn get_height(&self) -> (r: usize)
        ensures
            r == self.height(),
    {
        self.h
    }

    pub fn get_thickness(&self) -> (r: usize)
        ensures
            r == self.thickness(),
    {
        self.thickness
    }

    /// The buffer, row-major from the top row down.
    pub fn buffer(&self) -> (r: &Vec<u32>)
        ensures
            r@ == self.pixels(),
    {
        &self.buf
    }

    /// The color at logical coordinate `(x, y)`, or `None` outside the canvas.
    pub fn get_pixel(&self, x: usize, y: usize) -> (r: Option<u32>)
        requires
            self.wf(),
        ensures
            in_bounds(self.width() as int, self.height() as int, x as int, y as int) ==> r == Some(
                self.pixel(x as int, y as int),
            ),
            !in_bounds(self.width() as int, self.height() as int, x as int, y as int) ==> r is None,
    {
        if x < self.w && y < self.h {
            let n = self.buf.len();
            proof {
                lemma_index(self.w as int, self.h as int, x as int, y as int, x as int, y as int);
            }
            Some(self.buf[(self.h - 1 - y) * self.w + x])
        } else {
            None
        }
    }

    /// Sets every pixel to `color`.
    pub fn clear_rect(&mut self, color: u32)
        requires
            old(self).wf(),
        ensures
            final(self).pixels() == Seq::new(old(self).pixels().len(), |i: int| color),
            painted(*old(self), *final(self), color, |px: int, py: int| true),
    {
        let ghost before = *self;
        let n = self.buf.len();
        let mut i: usize = 0;
        while i < n
            invariant
                0 <= i <= n,
                n == before.pixels().len(),
                self.w == before.w,
                self.h == before.h,
                self.thickness == before.thickness,
                self.buf@.len() == n,
                forall|j: int| 0 <= j < i ==> self.buf@[j] == color,
            decreases n - i,
        {
            self.buf.set(i, color);
            i = i + 1;
        }
        assert(self.pixels() =~= Seq::new(before.pixels().len(), |i: int| color));
        assert forall|px: int, py: int|
            in_bounds(self.width() as int, self.height() as int, px, py) implies #[trigger] self.pixel(
            px,
            py,
        ) == color by {
            lemma_index(self.w as int, self.h as int, px, py, px, py);
        }
    }

    /// Writes one pixel at logical coordinate `(x, y)`, measured from the
    /// bottom-left corner.
    pub fn draw_pixel(&mut self, x: usize, y: usize, color: u32) -> (r: Result<(), DrawError>)
        requires
            old(self).wf(),
        ensures
            r is Ok <==> in_bounds(
                old(self).width() as int,
                old(self).height() as int,
                x as int,
                y as int,
            ),
            r is Err ==> r == Err::<(), DrawError>(DrawError::OutOfBounds),
            r is Err ==> final(self).pixels() == old(self).pixels(),
            painted(*old(self), *final(self), color, |px: int, py: int| px == x && py == y),
    {
        let ghost before = *self;
        if x < self.w && y < self.h {
            let n = self.buf.len();
            proof {
                lemma_index(self.w as int, self.h as int, x as int, y as int, x as int, y as int);
            }
            let idx = (self.h - 1 - y) * self.w + x;
            self.buf.set(idx, color);
            assert forall|px: int, py: int|
                in_bounds(self.width() as int, self.height() as int, px, py) implies #[trigger] self.pixel(
                px,
                py,
            ) == (if px == x && py == y {
                color
            } else {
                before.pixel(px, py)
            }) by {
                lemma_index(self.w as int, self.h as int, px, py, x as int, y as int);
            }
            Ok(())
        } else {
            Err(DrawError::OutOfBounds)
        }
    }

    /// Draws the block of pixels within `scale - 1` of `(x, y)`.  Fails when
    /// the block would reach below 0 (drawing nothing), and when some pixel
    /// of it lies outside the canvas (after drawing the others).
    pub fn draw_scaled_pixel(&mut self, x: usize, y: usize, scale: usize, color: u32) -> (r: Result<
        (),
        DrawError,
    >)
        requires
            old(self).wf(),
            scale >= 1,
            scale - 1 <= x && scale - 1 <= y ==> x + scale <= usize::MAX,
            scale - 1 <= x && scale - 1 <= y ==> y + scale <= usize::MAX,
        ensures
            r is Ok <==> (scale - 1 <= x && scale - 1 <= y && x + scale - 1 < old(self).width()
                && y + scale - 1 < old(self).height()),
            r is Err ==> r == Err::<(), DrawError>(DrawError::OutOfBounds),
            x < scale - 1 || y < scale - 1 ==> final(self).pixels() == old(self).pixels(),
            painted(
                *old(self),
                *final(self),
                color,
                |px: int, py: int|
                    scale - 1 <= x && scale - 1 <= y && in_block(
                        x as int,
                        y as int,
                        scale as int,
                        px,
                        py,
                    ),
            ),
    {
        let ghost before = *self;
        let off = scale - 1;
        if x < off || y < off {
            proof {
                lemma_paint_none(before, color);
                lemma_paint_ext(
                    before,
                    *self,
                    color,
                    |px: int, py: int| false,
                    |px: int, py: int|
                        scale - 1 <= x && scale - 1 <= y && in_block(
                            x as int,
                            y as int,
                            scale as int,
                            px,
                            py,
                        ),
                );
            }
            return Err(DrawError::OutOfBounds);
        }
        let ghost w = before.width() as int;
        let ghost h = before.height() as int;
        let mut failed = false;
        let mut bx = x - off;
        proof {
            lemma_paint_none(before, color);
            lemma_paint_ext(
                before,
                *self,
                color,
                |px: int, py: int| false,
                |px: int, py: int| x - off <= px < bx && y - off <= py <= y + off,
            );
        }
        while bx < x + scale
            invariant
                x - off <= bx <= x + scale,
                off == scale - 1,
                x >= off,
                y >= off,
                y + scale <= usize::MAX,
                x + scale <= usize::MAX,
                w == before.width(),
                h == before.height(),
                painted(
                    before,
                    *self,
                    color,
                    |px: int, py: int| x - off <= px < bx && y - off <= py <= y + off,
                ),
                failed <==> (bx > x - off && (bx - 1 >= w || y + off >= h)),
            decreases x + scale - bx,
        {
            let mut by = y - off;
            let ghost col_start = *self;
            proof {
                lemma_paint_ext(
                    before,
                    *self,
                    color,
                    |px: int, py: int| x - off <= px < bx && y - off <= py <= y + off,
                    |px: int, py: int|
                        (x - off <= px < bx && y - off <= py <= y + off) || (px == bx && y
                            - off <= py < by),
                );
            }
            while by < y + scale
                invariant
                    x - off <= bx < x + scale,
                    y - off <= by <= y + scale,
                    off == scale - 1,
                    x >= off,
                    y >= off,
                    y + scale <= usize::MAX,
                    x + scale <= usize::MAX,
                    w == before.width(),
                    h == before.height(),
                    painted(
                        before,
                        *self,
                        color,
                        |px: int, py: int|
                            (x - off <= px < bx && y - off <= py <= y + off) || (px == bx && y
                                - off <= py < by),
                    ),
                    failed <==> ((bx > x - off && (bx - 1 >= w || y + off >= h)) || (by > y
                        - off && (bx >= w || by - 1 >= h))),
                decreases y + scale - by,
            {
                let ghost mid = *self;
                let res = self.draw_pixel(bx, by, color);
                if res.is_err() {
                    failed = true;
                }
                proof {
                    lemma_paint_then(
                        before,
                        mid,
                        *self,
                        color,
                        |px: int, py: int|
                            (x - off <= px < bx && y - off <= py <= y + off) || (px == bx && y
                                - off <= py < by),
                        |px: int, py: int| px == bx && py == by,
                        |px: int, py: int|
                            (x - off <= px < bx && y - off <= py <= y + off) || (px == bx && y
                                - off <= py < by + 1),
                    );
                }
                by = by + 1;
            }
            proof {
                lemma_paint_ext(
                    before,
                    *self,
                    color,
                    |px: int, py: int|
                        (x - off <= px < bx && y - off <= py <= y + off) || (px == bx && y - off
                            <= py < by),
                    |px: int, py: int| x - off <= px < bx + 1 && y - off <= py <= y + off,
                );
            }
            bx = bx + 1;
        }
        proof {
            lemma_paint_ext(
                before,
                *self,
                color,
                |px: int, py: int| x - off <= px < bx && y - off <= py <= y + off,
                |px: int, py: int|
                    scale - 1 <= x && scale - 1 <= y && in_block(
                        x as int,
                        y as int,
                        scale as int,
                        px,
                        py,
                    ),
            );
        }
        if failed {
            Err(DrawError::OutOfBounds)
        } else {
            Ok(())
        }
    }
}

/// Lowest coordinate a single stroke may reach.
const STROKE_LO: i64 = -0x8000_0000;

/// Highest coordinate a single stroke may reach.
const STROKE_HI: i64 = 0xf000_0000;

proof fn lemma_push_contains(s: Seq<(int, int)>, a: (int, int), b: (int, int))
    ensures
        s.push(a).contains(b) <==> (s.contains(b) || a == b),
{
    if s.contains(b) {
        let i = choose|i: int| 0 <= i < s.len() && s[i] == b;
        assert(s.push(a)[i] == b);
    }
    if a == b {
        assert(s.push(a)[s.len() as int] == b);
    }
    if s.push(a).contains(b) {
        let i = choose|i: int| 0 <= i < s.push(a).len() && s.push(a)[i] == b;
        if i < s.len() {
            assert(s[i] == b);
        }
    }
}

impl Ctx {
    /// Rasterizes the line from `(x0, y0)` to `(x1, y1)` with Bresenham's
    /// integer walk, writing each visited pixel that lies on the canvas.
    fn draw_single_line(&mut self, x0: i64, y0: i64, x1: i64, y1: i64, color: u32)
        requires
            old(self).wf(),
            STROKE_LO <= x0 <= STROKE_HI,
            STROKE_LO <= y0 <= STROKE_HI,
            STROKE_LO <= x1 <= STROKE_HI,
            STROKE_LO <= y1 <= STROKE_HI,
        ensures
            painted(
                *old(self),
                *final(self),
                color,
                |px: int, py: int|
                    raster_line(x0 as int, y0 as int, x1 as int, y1 as int).contains((px, py)),
            ),
    {
        let ghost before = *self;
        let ghost full = raster_line(x0 as int, y0 as int, x1 as int, y1 as int);
        let dx: i64 = if x1 >= x0 {
            x1 - x0
        } else {
            x0 - x1
        };
        let ady: i64 = if y1 >= y0 {
            y1 - y0
        } else {
            y0 - y1
        };
        let mut x: i64 = x0;
        let mut y: i64 = y0;
        let mut err: i64 = dx - ady;
        let ghost mut done: Seq<(int, int)> = Seq::empty();
        let mut going = true;
        proof {
            lemma_paint_none(before, color);
            lemma_paint_ext(
                before,
                *self,
                color,
                |px: int, py: int| false,
                |px: int, py: int| done.contains((px, py)),
            );
        }
        while going
            invariant
                before.wf(),
                STROKE_LO <= x0 <= STROKE_HI,
                STROKE_LO <= y0 <= STROKE_HI,
                STROKE_LO <= x1 <= STROKE_HI,
                STROKE_LO <= y1 <= STROKE_HI,
                dx == iabs(x1 - x0),
                ady == iabs(y1 - y0),
                (x0 <= x <= x1) || (x1 <= x <= x0),
                (y0 <= y <= y1) || (y1 <= y <= y0),
                -2 * ady <= err <= 2 * dx,
                full == raster_line(x0 as int, y0 as int, x1 as int, y1 as int),
                going ==> done + raster_from(
                    x as int,
                    y as int,
                    err as int,
                    x1 as int,
                    y1 as int,
                    dx as nat,
                    ady as nat,
                ) == full,
                !going ==> done == full,
                painted(before, *self, color, |px: int, py: int| done.contains((px, py))),
            decreases iabs(x1 - x) + iabs(y1 - y) + (if going {
                1int
            } else {
                0int
            }),
        {
            let ghost mid = *self;
            let ghost here: (int, int) = (x as int, y as int);
            if x >= 0 && y >= 0 {
                let _ = self.draw_scaled_pixel(x as usize, y as usize, 1, color);
            } else {
                proof {
                    lemma_paint_none(mid, color);
                }
            }
            proof {
                let ghost prev = done;
                done = done.push(here);
                assert forall|px: int, py: int|
                    in_bounds(self.width() as int, self.height() as int, px, py) implies #[trigger] done.contains(
                    (px, py),
                ) == (prev.contains((px, py)) || (x >= 0 && y >= 0 && px == x && py == y)) by {
                    lemma_push_contains(prev, here, (px, py));
                }
                if x >= 0 && y >= 0 {
                    lemma_paint_then(
                        before,
                        mid,
                        *self,
                        color,
                        |px: int, py: int| prev.contains((px, py)),
                        |px: int, py: int|
                            1 - 1 <= x && 1 - 1 <= y && in_block(x as int, y as int, 1, px, py),
                        |px: int, py: int| done.contains((px, py)),
                    );
                } else {
                    lemma_paint_then(
                        before,
                        mid,
                        *self,
                        color,
                        |px: int, py: int| prev.contains((px, py)),
                        |px: int, py: int| false,
                        |px: int, py: int| done.contains((px, py)),
                    );
                }
            }
            let ghost rest = raster_from(
                x as int,
                y as int,
                err as int,
                x1 as int,
                y1 as int,
                dx as nat,
                ady as nat,
            );
            let e2: i64 = 2 * err;
            if x == x1 && y == y1 {
                going = false;
            } else if e2 >= -ady && x == x1 {
                going = false;
            } else if e2 <= dx && y == y1 {
                going = false;
            } else {
                if e2 >= -ady {
                    err = err - ady;
                    x = if x < x1 {
                        x + 1
                    } else {
                        x - 1
                    };
                }
                if e2 <= dx {
                    err = err + dx;
                    y = if y < y1 {
                        y + 1
                    } else {
                        y - 1
                    };
                }
            }
            proof {
                if going {
                    let next = raster_from(
                        x as int,
                        y as int,
                        err as int,
                        x1 as int,
                        y1 as int,
                        dx as nat,
                        ady as nat,
                    );
                    assert(rest == seq![here] + next);
                    assert(done + next =~= (done.drop_last() + rest));
                } else {
                    assert(rest == seq![here]);
                    assert(done =~= done.drop_last() + rest);
                }
            }
        }
    }
}

proof fn lemma_cover_step(x0: int, y0: int, x1: int, y1: int, n: int)
    requires
        n >= 0,
    ensures
        forall|px: int, py: int|
            #[trigger] strokes_cover(x0, y0, x1, y1, n + 1, px, py) == (strokes_cover(
                x0,
                y0,
                x1,
                y1,
                n,
                px,
                py,
            ) || stroke_hits(x0, y0, x1, y1, n, px, py)),
{
    assert forall|px: int, py: int|
        #[trigger] strokes_cover(x0, y0, x1, y1, n + 1, px, py) == (strokes_cover(
            x0,
            y0,
            x1,
            y1,
            n,
            px,
            py,
        ) || stroke_hits(x0, y0, x1, y1, n, px, py)) by {
        if strokes_cover(x0, y0, x1, y1, n + 1, px, py) {
            let i = choose|i: int| 0 <= i < n + 1 && #[trigger] stroke_hits(x0, y0, x1, y1, i, px, py);
            if i < n {
                assert(strokes_cover(x0, y0, x1, y1, n, px, py));
            }
        }
        if stroke_hits(x0, y0, x1, y1, n, px, py) {
            assert(0 <= n < n + 1);
        }
    }
}

impl Ctx {
    /// Draws the line from `(x0, y0)` to `(x1, y1)` with `t` strokes: the
    /// line itself, then for `k = 1 .. t - 1` the line moved by `k / 2` pixels
    /// to either side.
    pub(crate) fn stroke_line(&mut self, x0: usize, y0: usize, x1: usize, y1: usize, t: usize, color: u32)
        requires
            old(self).wf(),
            x0 <= MAX_COORD,
            y0 <= MAX_COORD,
            x1 <= MAX_COORD,
            y1 <= MAX_COORD,
            t <= 2 * MAX_THICKNESS,
        ensures
            painted(
                *old(self),
                *final(self),
                color,
                |px: int, py: int|
                    line_covers(x0 as int, y0 as int, x1 as int, y1 as int, t as int, px, py),
            ),
    {
        let ghost before = *self;
        let ghost (gx0, gy0, gx1, gy1) = (x0 as int, y0 as int, x1 as int, y1 as int);
        let ax0 = x0 as i64;
        let ay0 = y0 as i64;
        let ax1 = x1 as i64;
        let ay1 = y1 as i64;
        self.draw_single_line(ax0, ay0, ax1, ay1, color);
        proof {
            assert(stroke(gx0, gy0, gx1, gy1, 0) == (gx0, gy0, gx1, gy1));
            lemma_cover_step(gx0, gy0, gx1, gy1, 0);
            lemma_paint_ext(
                before,
                *self,
                color,
                |px: int, py: int| raster_line(gx0, gy0, gx1, gy1).contains((px, py)),
                |px: int, py: int| strokes_cover(gx0, gy0, gx1, gy1, 1, px, py),
            );
        }
        if t > 1 {
            let dx: i64 = ax1 - ax0;
            let dy: i64 = ay1 - ay0;
            proof {
                assert(dx * dx <= 0x3fff_ffff_0000_0001) by (nonlinear_arith)
                    requires
                        -0x7fff_ffff <= dx <= 0x7fff_ffff,
                ;
                assert(dy * dy <= 0x3fff_ffff_0000_0001) by (nonlinear_arith)
                    requires
                        -0x7fff_ffff <= dy <= 0x7fff_ffff,
                ;
                assert(0 <= dx * dx) by (nonlinear_arith);
                assert(0 <= dy * dy) by (nonlinear_arith);
            }
            let d: u128 = (dx * dx + dy * dy) as u128;
            let mut k: usize = 1;
            while k < t
                invariant
                    1 <= k <= t,
                    t <= 2 * MAX_THICKNESS,
                    x0 <= MAX_COORD,
                    y0 <= MAX_COORD,
                    x1 <= MAX_COORD,
                    y1 <= MAX_COORD,
                    gx0 == x0,
                    gy0 == y0,
                    gx1 == x1,
                    gy1 == y1,
                    ax0 == gx0,
                    ay0 == gy0,
                    ax1 == gx1,
                    ay1 == gy1,
                    dx == gx1 - gx0,
                    dy == gy1 - gy0,
                    d == dx * dx + dy * dy,
                    d <= 0x8000_0000_0000_0000,
                    painted(
                        before,
                        *self,
                        color,
                        |px: int, py: int| strokes_cover(gx0, gy0, gx1, gy1, 2 * k - 1, px, py),
                    ),
                decreases t - k,
            {
                let kk = k as u64;
                let ghost mid = *self;
                let sx0 = shifted(ax0, kk, -dy, d);
                let sy0 = shifted(ay0, kk, dx, d);
                let sx1 = shifted(ax1, kk, -dy, d);
                let sy1 = shifted(ay1, kk, dx, d);
                self.draw_single_line(sx0, sy0, sx1, sy1, color);
                proof {
                    let i = 2 * k - 1;
                    assert((i + 1) / 2 == k);
                    assert(i % 2 == 1);
                    assert(stroke(gx0, gy0, gx1, gy1, i) == (sx0 as int, sy0 as int, sx1 as int, sy1 as int));
                    lemma_cover_step(gx0, gy0, gx1, gy1, i);
                    lemma_paint_then(
                        before,
                        mid,
                        *self,
                        color,
                        |px: int, py: int| strokes_cover(gx0, gy0, gx1, gy1, 2 * k - 1, px, py),
                        |px: int, py: int|
                            raster_line(sx0 as int, sy0 as int, sx1 as int, sy1 as int).contains(
                                (px, py),
                            ),
                        |px: int, py: int| strokes_cover(gx0, gy0, gx1, gy1, 2 * k, px, py),
                    );
                }
                let ghost mid2 = *self;
                let tx0 = shifted(ax0, kk, dy, d);
                let ty0 = shifted(ay0, kk, -dx, d);
                let tx1 = shifted(ax1, kk, dy, d);
                let ty1 = shifted(ay1, kk, -dx, d);
                self.draw_single_line(tx0, ty0, tx1, ty1, color);
                proof {
                    let i = 2 * k;
                    assert((i + 1) / 2 == k);
                    assert(i % 2 == 0);
                    assert(stroke(gx0, gy0, gx1, gy1, i) == (tx0 as int, ty0 as int, tx1 as int, ty1 as int));
                    lemma_cover_step(gx0, gy0, gx1, gy1, i);
                    lemma_paint_then(
                        before,
                        mid2,
                        *self,
                        color,
                        |px: int, py: int| strokes_cover(gx0, gy0, gx1, gy1, 2 * k, px, py),
                        |px: int, py: int|
                            raster_line(tx0 as int, ty0 as int, tx1 as int, ty1 as int).contains(
                                (px, py),
                            ),
                        |px: int, py: int| strokes_cover(gx0, gy0, gx1, gy1, 2 * k + 1, px, py),
                    );
                }
                k = k + 1;
            }
        }
    }

    /// Draws a line from `start` to `end` with the canvas's thickness.  Pixels
    /// that fall outside the canvas are skipped.
    pub fn draw_line(&mut self, start: &Vec2D<usize>, end: &Vec2D<usize>, color: u32) -> (r: Result<
        (),
        DrawError,
    >)
        requires
            old(self).wf(),
            start.x <= MAX_COORD,
            start.y <= MAX_COORD,
            end.x <= MAX_COORD,
            end.y <= MAX_COORD,
        ensures
            r is Ok,
            painted(
                *old(self),
                *final(self),
                color,
                |px: int, py: int|
                    line_covers(
                        start.x as int,
                        start.y as int,
                        end.x as int,
                        end.y as int,
                        old(self).thickness() as int,
                        px,
                        py,
                    ),
            ),
    {
        let t = self.thickness;
        self.stroke_line(start.x, start.y, end.x, end.y, t, color);
        Ok(())
    }

    /// Draws the outline of the rectangle whose bottom-left corner is `pos`.
    pub fn rect(&mut self, pos: &Vec2D<usize>, width: usize, height: usize, color: u32)
        requires
            old(self).wf(),
            pos.x + width <= MAX_COORD,
            pos.y + height <= MAX_COORD,
        ensures
            painted(
                *old(self),
                *final(self),
                color,
                |px: int, py: int|
                    rect_covers(
                        pos.x as int,
                        pos.y as int,
                        width as int,
                        height as int,
                        old(self).thickness() as int,
                        px,
                        py,
                    ),
            ),
    {
        let ghost before = *self;
        let ghost t = self.thickness() as int;
        let ghost (x, y, w, h) = (pos.x as int, pos.y as int, width as int, height as int);
        let sw: Vec2D<usize> = Vec2D::new(pos.x, pos.y);
        let se: Vec2D<usize> = Vec2D::new(pos.x + width, pos.y);
        let ne: Vec2D<usize> = Vec2D::new(pos.x + width, pos.y + height);
        let nw: Vec2D<usize> = Vec2D::new(pos.x, pos.y + height);
        let _ = self.draw_line(&sw, &se, color);
        let ghost c1 = *self;
        let _ = self.draw_line(&se, &ne, color);
        proof {
            lemma_paint_then(
                before,
                c1,
                *self,
                color,
                |px: int, py: int| line_covers(x, y, x + w, y, t, px, py),
                |px: int, py: int| line_covers(x + w, y, x + w, y + h, t, px, py),
                |px: int, py: int|
                    line_covers(x, y, x + w, y, t, px, py) || line_covers(
                        x + w,
                        y,
                        x + w,
                        y + h,
                        t,
                        px,
                        py,
                    ),
            );
        }
        let ghost c2 = *self;
        let _ = self.draw_line(&ne, &nw, color);
        proof {
            lemma_paint_then(
                before,
                c2,
                *self,
                color,
                |px: int, py: int|
                    line_covers(x, y, x + w, y, t, px, py) || line_covers(
                        x + w,
                        y,
                        x + w,
                        y + h,
                        t,
                        px,
                        py,
                    ),
                |px: int, py: int| line_covers(x + w, y + h, x, y + h, t, px, py),
                |px: int, py: int|
                    line_covers(x, y, x + w, y, t, px, py) || line_covers(
                        x + w,
                        y,
                        x + w,
                        y + h,
                        t,
                        px,
                        py,
                    ) || line_covers(x + w, y + h, x, y + h, t, px, py),
            );
        }
        let ghost c3 = *self;
        let _ = self.draw_line(&nw, &sw, color);
        proof {
            lemma_paint_then(
                before,
                c3,
                *self,
                color,
                |px: int, py: int|
                    line_covers(x, y, x + w, y, t, px, py) || line_covers(
                        x + w,
                        y,
                        x + w,
                        y + h,
                        t,
                        px,
                        py,
                    ) || line_covers(x + w, y + h, x, y + h, t, px, py),
                |px: int, py: int| line_covers(x, y + h, x, y, t, px, py),
                |px: int, py: int| rect_covers(x, y, w, h, t, px, py),
            );
        }
    }
}

/// The outline of the `w` by `h` rectangle with bottom-left corner `(x, y)`,
/// drawn with lines of thickness `t`, covers `(px, py)`.
pub open spec fn rect_covers(x: int, y: int, w: int, h: int, t: int, px: int, py: int) -> bool {
    line_covers(x, y, x + w, y, t, px, py) || line_covers(x + w, y, x + w, y + h, t, px, py)
        || line_covers(x + w, y + h, x, y + h, t, px, py) || line_covers(x, y + h, x, y, t, px, py)
}

/// Drawing the diagonal from `(0, 0)` to `(n, n)` with thickness 1 sets
/// exactly the `n + 1` pixels `(i, i)` with `i <= n` and leaves every other
/// pixel as it was.
pub proof fn lemma_diagonal_drawn(before: Ctx, after: Ctx, n: int, c: u32)
    requires
        n >= 0,
        painted(before, after, c, |px: int, py: int| line_covers(0, 0, n, n, 1, px, py)),
    ensures
        forall|px: int, py: int|
            in_bounds(after.width() as int, after.height() as int, px, py) ==> #[trigger] after.pixel(
                px,
                py,
            ) == (if 0 <= px <= n && py == px {
                c
            } else {
                before.pixel(px, py)
            }),
{
    lemma_diagonal_pixels(n);
}

} // verus!
