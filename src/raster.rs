use vstd::prelude::*;

verus! {

/// Absolute value of an integer.
pub open spec fn iabs(a: int) -> nat {
    if a < 0 {
        (-a) as nat
    } else {
        a as nat
    }
}

/// One unit from `a` toward `b` (for `a != b`).
pub open spec fn toward(a: int, b: int) -> int {
    if a < b {
        a + 1
    } else {
        a - 1
    }
}

/// The points visited by Bresenham's walk from `(x, y)` with error term `err`
/// toward `(x1, y1)`, where `dx = |x1 - x0|` and `ady = |y1 - y0|` for the
/// line's start `(x0, y0)`.  The walk stops once the end point is reached, or
/// once the error term asks for a step along an axis that is already done.
pub open spec fn raster_from(x: int, y: int, err: int, x1: int, y1: int, dx: nat, ady: nat) -> Seq<
    (int, int),
>
    decreases iabs(x1 - x) + iabs(y1 - y),
{
    let e2 = 2 * err;
    let step_x = e2 >= -ady;
    let step_y = e2 <= dx;
    if x == x1 && y == y1 {
        seq![(x, y)]
    } else if step_x && x == x1 {
        seq![(x, y)]
    } else if step_y && y == y1 {
        seq![(x, y)]
    } else {
        let nx = if step_x { toward(x, x1) } else { x };
        let ny = if step_y { toward(y, y1) } else { y };
        let nerr = err + (if step_x { -ady } else { 0 }) + (if step_y { dx as int } else { 0 });
        seq![(x, y)] + raster_from(nx, ny, nerr, x1, y1, dx, ady)
    }
}

/// The pixels of the line from `(x0, y0)` to `(x1, y1)`, in drawing order.
pub open spec fn raster_line(x0: int, y0: int, x1: int, y1: int) -> Seq<(int, int)> {
    let dx = iabs(x1 - x0);
    let ady = iabs(y1 - y0);
    raster_from(x0, y0, dx - ady, x1, y1, dx, ady)
}

/// The largest `f <= n` with `4 * f * f * d <= num` (0 when there is none).
/// For `num == k² a²` this is `floor(k |a| / (2 √d))`.
pub open spec fn root_floor(num: nat, d: nat, n: nat) -> nat
    decreases n,
{
    if n == 0 || 4 * n * n * d <= num {
        n
    } else {
        root_floor(num, d, (n - 1) as nat)
    }
}

/// `p + k * a / (2 √d)` rounded toward zero, computed exactly; `p` when `d == 0`.
/// With `d = dx² + dy²` and `a` one component of the line direction turned by
/// a quarter turn, this is a coordinate moved by `k / 2` pixels across the line.
pub open spec fn trunc_shift(p: int, k: nat, a: int, d: nat) -> int {
    if d == 0 {
        p
    } else {
        let num = k * k * (a * a);
        let f = root_floor(num as nat, d, k) as int;
        let exact = 4 * f * f * d == num;
        let lo = if a >= 0 {
            f
        } else if exact {
            -f
        } else {
            -f - 1
        };
        let hi = if a < 0 {
            -f
        } else if exact {
            f
        } else {
            f + 1
        };
        if p + lo >= 0 {
            p + lo
        } else {
            p + hi
        }
    }
}

/// Stroke `i` of a line of some thickness: stroke 0 is the line itself;
/// strokes `2k - 1` and `2k` are the line moved by `k / 2` pixels to its left
/// and to its right.
pub open spec fn stroke(x0: int, y0: int, x1: int, y1: int, i: int) -> (int, int, int, int) {
    if i <= 0 {
        (x0, y0, x1, y1)
    } else {
        let k = ((i + 1) / 2) as nat;
        let dx = x1 - x0;
        let dy = y1 - y0;
        let d = (dx * dx + dy * dy) as nat;
        let ax = if i % 2 == 1 { -dy } else { dy };
        let ay = if i % 2 == 1 { dx } else { -dx };
        (
            trunc_shift(x0, k, ax, d),
            trunc_shift(y0, k, ay, d),
            trunc_shift(x1, k, ax, d),
            trunc_shift(y1, k, ay, d),
        )
    }
}

/// How many strokes a line of thickness `t` is drawn with.
pub open spec fn stroke_count(t: int) -> int {
    if t > 1 {
        2 * t - 1
    } else {
        1
    }
}

/// Stroke `i` of the line passes through `(px, py)`.
pub open spec fn stroke_hits(x0: int, y0: int, x1: int, y1: int, i: int, px: int, py: int) -> bool {
    let s = stroke(x0, y0, x1, y1, i);
    raster_line(s.0, s.1, s.2, s.3).contains((px, py))
}

/// One of the first `n` strokes of the line passes through `(px, py)`.
pub open spec fn strokes_cover(x0: int, y0: int, x1: int, y1: int, n: int, px: int, py: int) -> bool {
    exists|i: int| 0 <= i < n && #[trigger] stroke_hits(x0, y0, x1, y1, i, px, py)
}

/// The line of thickness `t` from `(x0, y0)` to `(x1, y1)` covers `(px, py)`.
pub open spec fn line_covers(x0: int, y0: int, x1: int, y1: int, t: int, px: int, py: int) -> bool {
    strokes_cover(x0, y0, x1, y1, stroke_count(t), px, py)
}

/// Computes `trunc_shift(p, k, a, d)`.
pub fn shifted(p: i64, k: u64, a: i64, d: u128) -> (r: i64)
    requires
        -0x1_0000_0000 <= p <= 0x1_0000_0000,
        k <= 0x8000_0000,
        -0x1_0000_0000 <= a <= 0x1_0000_0000,
        d <= 0x8000_0000_0000_0000,
    ensures
        r == trunc_shift(p as int, k as nat, a as int, d as nat),
        p - k - 1 <= r <= p + k + 1,
{
    if d == 0 {
        return p;
    }
    let m: u128 = if a < 0 { (-a) as u128 } else { a as u128 };
    let kk: u128 = k as u128;
    proof {
        assert(kk * kk <= 0x4000_0000_0000_0000) by (nonlinear_arith)
            requires kk <= 0x8000_0000;
        assert(m * m <= 0x1_0000_0000_0000_0000) by (nonlinear_arith)
            requires m <= 0x1_0000_0000;
        assert((kk * kk) * (m * m) <= 0x4000_0000_0000_0000 * 0x1_0000_0000_0000_0000)
            by (nonlinear_arith)
            requires kk * kk <= 0x4000_0000_0000_0000, m * m <= 0x1_0000_0000_0000_0000;
        assert(m * m == a * a) by (nonlinear_arith)
            requires m == iabs(a as int);
    }
    let num: u128 = (kk * kk) * (m * m);
    assert(num == k * k * (a * a));
    let mut f: u128 = kk;
    loop
        invariant
            f <= kk,
            kk <= 0x8000_0000,
            d <= 0x8000_0000_0000_0000,
            root_floor(num as nat, d as nat, f as nat) == root_floor(num as nat, d as nat, kk as nat),
        ensures
            f <= kk,
            f == root_floor(num as nat, d as nat, kk as nat),
        decreases f,
    {
        proof {
            assert(f * f <= 0x4000_0000_0000_0000) by (nonlinear_arith)
                requires f <= 0x8000_0000;
            assert(4 * (f * f) * d <= 0x8000_0000_0000_0000_0000_0000_0000_0000) by (nonlinear_arith)
                requires f * f <= 0x4000_0000_0000_0000, d <= 0x8000_0000_0000_0000;
            assert(4 * (f * f) * d == 4 * f * f * d) by (nonlinear_arith);
        }
        let lhs: u128 = 4 * (f * f) * d;
        if f == 0 || lhs <= num {
            break;
        }
        f = f - 1;
    }
    proof {
        assert(f * f <= 0x4000_0000_0000_0000) by (nonlinear_arith)
            requires f <= 0x8000_0000;
        assert(4 * (f * f) * d <= 0x8000_0000_0000_0000_0000_0000_0000_0000) by (nonlinear_arith)
            requires f * f <= 0x4000_0000_0000_0000, d <= 0x8000_0000_0000_0000;
        assert(4 * (f * f) * d == 4 * f * f * d) by (nonlinear_arith);
    }
    let exact: bool = 4 * (f * f) * d == num;
    let fi: i64 = f as i64;
    let lo: i64 = if a >= 0 {
        fi
    } else if exact {
        -fi
    } else {
        -fi - 1
    };
    let hi: i64 = if a < 0 {
        -fi
    } else if exact {
        fi
    } else {
        fi + 1
    };
    if p + lo >= 0 {
        p + lo
    } else {
        p + hi
    }
}

proof fn lemma_diagonal_from(i: int, n: int)
    requires
        0 <= i <= n,
    ensures
        raster_from(i, i, 0, n, n, n as nat, n as nat) =~= Seq::new(
            (n - i + 1) as nat,
            |j: int| (i + j, i + j),
        ),
    decreases n - i,
{
    if i < n {
        lemma_diagonal_from(i + 1, n);
        assert(raster_from(i, i, 0, n, n, n as nat, n as nat) == seq![(i, i)] + raster_from(
            i + 1,
            i + 1,
            0,
            n,
            n,
            n as nat,
            n as nat,
        ));
    }
}

/// The diagonal line from `(0, 0)` to `(n, n)` is drawn one pixel per step:
/// exactly the `n + 1` pixels `(i, i)`, and, with thickness 1, no others.
pub proof fn lemma_diagonal_pixels(n: int)
    requires
        n >= 0,
    ensures
        raster_line(0, 0, n, n) =~= Seq::new((n + 1) as nat, |i: int| (i, i)),
        raster_line(0, 0, n, n).no_duplicates(),
        forall|px: int, py: int| #[trigger] line_covers(0, 0, n, n, 1, px, py) <==> (0 <= px <= n && py == px),
{
    lemma_diagonal_from(0, n);
    let s = raster_line(0, 0, n, n);
    assert(s =~= Seq::new((n + 1) as nat, |i: int| (i, i)));
    assert forall|px: int, py: int| #[trigger] line_covers(0, 0, n, n, 1, px, py) <==> (0 <= px <= n && py == px) by {
        assert(stroke(0, 0, n, n, 0) == (0int, 0int, n, n));
        if 0 <= px <= n && py == px {
            assert(s[px] == (px, py));
            assert(stroke_hits(0, 0, n, n, 0, px, py));
        }
        if line_covers(0, 0, n, n, 1, px, py) {
            let i = choose|i: int| 0 <= i < 1 && #[trigger] stroke_hits(0, 0, n, n, i, px, py);
            assert(i == 0);
            assert(s.contains((px, py)));
        }
    }
}

proof fn lemma_horizontal_from(i: int, n: int, y: int)
    requires
        0 < n,
        0 <= i <= n,
    ensures
        raster_from(i, y, n, n, y, n as nat, 0) =~= Seq::new((n - i + 1) as nat, |j: int| (i + j, y)),
    decreases n - i,
{
    if i < n {
        lemma_horizontal_from(i + 1, n, y);
        assert(raster_from(i, y, n, n, y, n as nat, 0) == seq![(i, y)] + raster_from(
            i + 1,
            y,
            n,
            n,
            y,
            n as nat,
            0,
        ));
    }
}

/// The horizontal line from `(0, y)` to `(n, y)` is the contiguous run of
/// the `n + 1` pixels `(i, y)`, and, with thickness 1, covers nothing else.
pub proof fn lemma_horizontal_pixels(n: int, y: int)
    requires
        n >= 0,
    ensures
        raster_line(0, y, n, y) =~= Seq::new((n + 1) as nat, |i: int| (i, y)),
        forall|px: int, py: int| #[trigger] line_covers(0, y, n, y, 1, px, py) <==> (0 <= px <= n && py == y),
{
    if n > 0 {
        lemma_horizontal_from(0, n, y);
    }
    let s = raster_line(0, y, n, y);
    assert(s =~= Seq::new((n + 1) as nat, |i: int| (i, y)));
    assert forall|px: int, py: int| #[trigger] line_covers(0, y, n, y, 1, px, py) <==> (0 <= px <= n && py == y) by {
        assert(stroke(0, y, n, y, 0) == (0int, y, n, y));
        if 0 <= px <= n && py == y {
            assert(s[px] == (px, py));
            assert(stroke_hits(0, y, n, y, 0, px, py));
        }
        if line_covers(0, y, n, y, 1, px, py) {
            let i = choose|i: int| 0 <= i < 1 && #[trigger] stroke_hits(0, y, n, y, i, px, py);
            assert(i == 0);
            assert(s.contains((px, py)));
        }
    }
}

/// `a` and `b` are distinct pixels that touch, sides or corners.
pub open spec fn adjacent(a: (int, int), b: (int, int)) -> bool {
    a != b && iabs(a.0 - b.0) <= 1 && iabs(a.1 - b.1) <= 1
}

proof fn lemma_walk(x0: int, y0: int, x1: int, y1: int, x: int, y: int, err: int)
    requires
        (x0 <= x <= x1) || (x1 <= x <= x0),
        (y0 <= y <= y1) || (y1 <= y <= y0),
        err == iabs(x1 - x0) * (iabs(y - y0) + 1) - iabs(y1 - y0) * (iabs(x - x0) + 1),
        iabs(x1 - x0) >= iabs(y1 - y0) ==> 2 * err >= -iabs(y1 - y0),
        iabs(x1 - x0) < iabs(y1 - y0) ==> 2 * err <= iabs(x1 - x0),
    ensures
        ({
            let dx = iabs(x1 - x0);
            let ady = iabs(y1 - y0);
            let s = raster_from(x, y, err, x1, y1, dx, ady);
            &&& s.len() == (if dx >= ady {
                dx - iabs(x - x0)
            } else {
                ady - iabs(y - y0)
            }) + 1
            &&& s[0] == (x, y)
            &&& s.last() == (x1, y1)
            &&& forall|k: int|
                0 <= k < s.len() ==> (if dx >= ady {
                    iabs(#[trigger] s[k].0 - x0) == iabs(x - x0) + k
                } else {
                    iabs(s[k].1 - y0) == iabs(y - y0) + k
                })
            &&& forall|k: int| 0 <= k < s.len() - 1 ==> adjacent(#[trigger] s[k], s[k + 1])
        }),
    decreases iabs(x1 - x) + iabs(y1 - y),
{
    let dx = iabs(x1 - x0);
    let ady = iabs(y1 - y0);
    let i = iabs(x - x0);
    let j = iabs(y - y0);
    let s = raster_from(x, y, err, x1, y1, dx, ady);
    let e2 = 2 * err;
    let step_x = e2 >= -ady;
    let step_y = e2 <= dx;
    if x == x1 && y == y1 {
        assert(s == seq![(x, y)]);
        return;
    }
    if x == x1 {
        assert(i == dx);
        assert(j < ady);
        assert(err <= -(ady as int)) by (nonlinear_arith)
            requires
                err == dx * (j + 1) - ady * (i + 1),
                i == dx,
                j + 1 <= ady,
                dx >= 0,
        ;
        assert(!step_x);
    }
    if y == y1 {
        assert(j == ady);
        assert(i < dx);
        assert(err >= dx) by (nonlinear_arith)
            requires
                err == dx * (j + 1) - ady * (i + 1),
                j == ady,
                i + 1 <= dx,
                ady >= 0,
        ;
        assert(!step_y);
    }
    let nx = if step_x { toward(x, x1) } else { x };
    let ny = if step_y { toward(y, y1) } else { y };
    let nerr = err + (if step_x { -ady } else { 0 }) + (if step_y { dx as int } else { 0 });
    let ni = iabs(nx - x0);
    let nj = iabs(ny - y0);
    assert(ni == i + (if step_x { 1int } else { 0int }));
    assert(nj == j + (if step_y { 1int } else { 0int }));
    assert(dx * (nj + 1) == dx * (j + 1) + dx * (nj - j)) by (nonlinear_arith);
    assert(ady * (ni + 1) == ady * (i + 1) + ady * (ni - i)) by (nonlinear_arith);
    assert(dx * (nj - j) == (if step_y { dx as int } else { 0int })) by (nonlinear_arith)
        requires
            nj - j == (if step_y { 1int } else { 0int }),
    ;
    assert(ady * (ni - i) == (if step_x { ady as int } else { 0int })) by (nonlinear_arith)
        requires
            ni - i == (if step_x { 1int } else { 0int }),
    ;
    lemma_walk(x0, y0, x1, y1, nx, ny, nerr);
    let rest = raster_from(nx, ny, nerr, x1, y1, dx, ady);
    assert(s == seq![(x, y)] + rest);
    assert forall|k: int| 0 <= k < s.len() - 1 implies adjacent(#[trigger] s[k], s[k + 1]) by {
        if k > 0 {
            assert(s[k] == rest[k - 1]);
            assert(s[k + 1] == rest[k]);
        }
    }
    assert forall|k: int| 0 <= k < s.len() implies (if dx >= ady {
        iabs(#[trigger] s[k].0 - x0) == iabs(x - x0) + k
    } else {
        iabs(s[k].1 - y0) == iabs(y - y0) + k
    }) by {
        if k > 0 {
            assert(s[k] == rest[k - 1]);
        }
    }
}

/// Bresenham's walk from `(x0, y0)` to `(x1, y1)` starts at the start and ends
/// at the end, takes one pixel per unit of the longer axis (`max(|dx|, |dy|) + 1`
/// pixels, the `k`-th of them `k` units along that axis from the start), and
/// each pixel touches the next; every pixel lies in the box the two ends span.
pub proof fn lemma_raster_line(x0: int, y0: int, x1: int, y1: int)
    ensures
        ({
            let dx = iabs(x1 - x0);
            let ady = iabs(y1 - y0);
            let s = raster_line(x0, y0, x1, y1);
            &&& s.len() == (if dx >= ady {
                dx
            } else {
                ady
            }) + 1
            &&& s[0] == (x0, y0)
            &&& s.last() == (x1, y1)
            &&& forall|k: int|
                0 <= k < s.len() ==> (if dx >= ady {
                    iabs(#[trigger] s[k].0 - x0) == k
                } else {
                    iabs(s[k].1 - y0) == k
                })
            &&& forall|k: int| 0 <= k < s.len() - 1 ==> adjacent(#[trigger] s[k], s[k + 1])
            &&& forall|k: int|
                0 <= k < s.len() ==> between(#[trigger] s[k].0, x0, x1) && between(s[k].1, y0, y1)
        }),
{
    let dx = iabs(x1 - x0);
    let ady = iabs(y1 - y0);
    assert(iabs(x0 - x0) == 0 && iabs(y0 - y0) == 0);
    assert(dx * (0int + 1) == dx && ady * (0int + 1) == ady) by (nonlinear_arith);
    lemma_walk(x0, y0, x1, y1, x0, y0, dx - ady);
    lemma_walk_box(x0, y0, dx - ady, x1, y1, dx, ady);
}

proof fn lemma_walk_box(x: int, y: int, err: int, x1: int, y1: int, dx: nat, ady: nat)
    ensures
        forall|k: int|
            0 <= k < raster_from(x, y, err, x1, y1, dx, ady).len() ==> between(
                #[trigger] raster_from(x, y, err, x1, y1, dx, ady)[k].0,
                x,
                x1,
            ) && between(raster_from(x, y, err, x1, y1, dx, ady)[k].1, y, y1),
    decreases iabs(x1 - x) + iabs(y1 - y),
{
    let s = raster_from(x, y, err, x1, y1, dx, ady);
    let e2 = 2 * err;
    let step_x = e2 >= -ady;
    let step_y = e2 <= dx;
    if !(x == x1 && y == y1) && !(step_x && x == x1) && !(step_y && y == y1) {
        let nx = if step_x { toward(x, x1) } else { x };
        let ny = if step_y { toward(y, y1) } else { y };
        let nerr = err + (if step_x { -ady } else { 0 }) + (if step_y { dx as int } else { 0 });
        lemma_walk_box(nx, ny, nerr, x1, y1, dx, ady);
        let rest = raster_from(nx, ny, nerr, x1, y1, dx, ady);
        assert(s == seq![(x, y)] + rest);
        assert forall|k: int| 0 <= k < s.len() implies between(#[trigger] s[k].0, x, x1) && between(
            s[k].1,
            y,
            y1,
        ) by {
            if k > 0 {
                assert(s[k] == rest[k - 1]);
            }
        }
    }
}

/// `v` lies between `a` and `b`, both included.
pub open spec fn between(v: int, a: int, b: int) -> bool {
    (a <= v <= b) || (b <= v <= a)
}

proof fn lemma_root_floor_le(num: nat, d: nat, n: nat)
    ensures
        root_floor(num, d, n) <= n,
    decreases n,
{
    if n > 0 && 4 * n * n * d > num {
        lemma_root_floor_le(num, d, (n - 1) as nat);
    }
}

proof fn lemma_trunc_shift_near(p: int, k: nat, a: int, d: nat)
    ensures
        p - k - 1 <= trunc_shift(p, k, a, d) <= p + k + 1,
{
    if d != 0 {
        lemma_root_floor_le((k * k * (a * a)) as nat, d, k);
    }
}

/// A line of thickness `t` from `(x0, y0)` to `(x1, y1)` reaches at most `t`
/// columns beyond its end points (none beyond them for `t <= 1`).
pub proof fn lemma_line_reach(x0: int, y0: int, x1: int, y1: int, t: int, px: int, py: int)
    requires
        line_covers(x0, y0, x1, y1, t, px, py),
    ensures
        ({
            let r = if t > 1 { t } else { 0 };
            &&& (if x0 <= x1 { x0 } else { x1 }) - r <= px
            &&& px <= (if x0 <= x1 { x1 } else { x0 }) + r
        }),
{
    let i = choose|i: int| 0 <= i < stroke_count(t) && #[trigger] stroke_hits(x0, y0, x1, y1, i, px, py);
    let st = stroke(x0, y0, x1, y1, i);
    lemma_raster_line(st.0, st.1, st.2, st.3);
    let line = raster_line(st.0, st.1, st.2, st.3);
    let k = choose|k: int| 0 <= k < line.len() && line[k] == (px, py);
    assert(between(line[k].0, st.0, st.2));
    if i > 0 {
        let k2 = ((i + 1) / 2) as nat;
        assert(k2 <= t - 1);
        let dx = x1 - x0;
        let dy = y1 - y0;
        let d = (dx * dx + dy * dy) as nat;
        let ax = if i % 2 == 1 { -dy } else { dy };
        lemma_trunc_shift_near(x0, k2, ax, d);
        lemma_trunc_shift_near(x1, k2, ax, d);
    }
}

} // verus!
