use vstd::prelude::*;

use crate::color::Color;
use crate::geometry::{
    cross, lemma_pixel_close, lemma_pixel_monotone, pixel, to_pixel, vertex_fits, Matrix, Vertex,
    NORMAL_LIMIT, SCALE,
};
use crate::gmath::{fits_norm, get_lighting, normalized, shade};
use crate::image::{in_frame, plot_frame, Frame, Image};
use crate::matrix::tdiv;
use crate::reflect::ReflectionValue;

verus! {

/// A segment whose endpoints have been put in drawing order (`x0 <= x1`,
/// and `y0 <= y1` when `x0 == x1`).
pub struct Segment {
    pub x0: int,
    pub y0: int,
    pub z0: int,
    pub x1: int,
    pub y1: int,
    pub z1: int,
}

/// Depth after `k` of `span` steps from `z0` towards `z1`, truncated towards
/// `z0`.
pub open spec fn interp(z0: int, z1: int, k: int, span: int) -> int {
    if span == 0 {
        z0
    } else if z1 >= z0 {
        z0 + ((z1 - z0) * k) / span
    } else {
        z0 - ((z0 - z1) * k) / span
    }
}

/// Both endpoints lie beyond the same edge of a `width` x `height` image.
pub open spec fn trivially_outside(
    width: int,
    height: int,
    x0: int,
    y0: int,
    x1: int,
    y1: int,
) -> bool {
    (x0 >= width && x1 >= width) || (y0 >= height && y1 >= height) || (x0 < 0 && x1 < 0) || (y0
        < 0 && y1 < 0)
}

/// Endpoint 0 comes after endpoint 1 in the order by `x`, then `y`, then
/// depth.
pub open spec fn after(x0: int, y0: int, z0: int, x1: int, y1: int, z1: int) -> bool {
    x0 > x1 || (x0 == x1 && (y0 > y1 || (y0 == y1 && z0 > z1)))
}

/// The endpoints swapped, if needed, so that the first comes first in the
/// order by `x`, then `y`, then depth: whichever end a line is given from,
/// it is drawn the same way.
pub open spec fn canonical(x0: int, y0: int, z0: int, x1: int, y1: int, z1: int) -> Segment {
    if after(x0, y0, z0, x1, y1, z1) {
        Segment { x0: x1, y0: y1, z0: z1, x1: x0, y1: y0, z1: z0 }
    } else {
        Segment { x0, y0, z0, x1, y1, z1 }
    }
}

/// Steep rising segment: `y` steps up by one, `x` follows the decision value.
pub open spec fn steep_up(s: Segment, x: int, y: int, d: int) -> Seq<(int, int, int)>
    decreases s.y1 + 1 - y,
{
    if y > s.y1 {
        seq![]
    } else {
        let a = 2 * (s.y1 - s.y0);
        let b = -2 * (s.x1 - s.x0);
        let p = (x, y, interp(s.z0, s.z1, y - s.y0, s.y1 - s.y0));
        if d < 0 {
            seq![p] + steep_up(s, x + 1, y + 1, d + a + b)
        } else {
            seq![p] + steep_up(s, x, y + 1, d + b)
        }
    }
}

/// Shallow rising segment: `x` steps right by one, `y` follows the decision
/// value.
pub open spec fn shallow_up(s: Segment, x: int, y: int, d: int) -> Seq<(int, int, int)>
    decreases s.x1 + 1 - x,
{
    if x > s.x1 {
        seq![]
    } else {
        let a = 2 * (s.y1 - s.y0);
        let b = -2 * (s.x1 - s.x0);
        let p = (x, y, interp(s.z0, s.z1, x - s.x0, s.x1 - s.x0));
        if d > 0 {
            seq![p] + shallow_up(s, x + 1, y + 1, d + b + a)
        } else {
            seq![p] + shallow_up(s, x + 1, y, d + a)
        }
    }
}

/// Steep falling segment: `y` steps down by one, `x` follows the decision
/// value.
pub open spec fn steep_down(s: Segment, x: int, y: int, d: int) -> Seq<(int, int, int)>
    decreases y - s.y1 + 1,
{
    if y < s.y1 {
        seq![]
    } else {
        let a = 2 * (s.y1 - s.y0);
        let b = 2 * (s.x1 - s.x0);
        let p = (x, y, interp(s.z0, s.z1, s.y0 - y, s.y0 - s.y1));
        if d < 0 {
            seq![p] + steep_down(s, x + 1, y - 1, d - a - b)
        } else {
            seq![p] + steep_down(s, x, y - 1, d - b)
        }
    }
}

/// Shallow falling segment: `x` steps right by one, `y` follows the decision
/// value downwards.
pub open spec fn shallow_down(s: Segment, x: int, y: int, d: int) -> Seq<(int, int, int)>
    decreases s.x1 + 1 - x,
{
    if x > s.x1 {
        seq![]
    } else {
        let a = 2 * (s.y1 - s.y0);
        let b = 2 * (s.x1 - s.x0);
        let p = (x, y, interp(s.z0, s.z1, x - s.x0, s.x1 - s.x0));
        if d > 0 {
            seq![p] + shallow_down(s, x + 1, y - 1, d - b - a)
        } else {
            seq![p] + shallow_down(s, x + 1, y, d - a)
        }
    }
}

/// The samples of a segment already in drawing order, chosen by its slope.
/// Each case starts its decision value at the midpoint between the two
/// candidate pixels of the first step.
pub open spec fn segment_points(s: Segment) -> Seq<(int, int, int)> {
    let dx = s.x1 - s.x0;
    let dy = s.y1 - s.y0;
    if dy > dx {
        steep_up(s, s.x0, s.y0, dy - 2 * dx)
    } else if dx > 0 && dy >= 0 {
        shallow_up(s, s.x0, s.y0, 2 * dy - dx)
    } else if dy < -dx {
        steep_down(s, s.x0, s.y0, -dy - 2 * dx)
    } else {
        shallow_down(s, s.x0, s.y0, -2 * dy - dx)
    }
}

/// The samples, pixel and depth, that drawing a line visits in order.
pub open spec fn line_points(
    width: int,
    height: int,
    x0: int,
    y0: int,
    z0: int,
    x1: int,
    y1: int,
    z1: int,
) -> Seq<(int, int, int)> {
    if trivially_outside(width, height, x0, y0, x1, y1) {
        seq![]
    } else {
        segment_points(canonical(x0, y0, z0, x1, y1, z1))
    }
}

/// Plots samples in order, stopping at the first one outside the frame.
pub open spec fn plot_run(f: Frame, pts: Seq<(int, int, int)>, c: Color) -> Frame
    decreases pts.len(),
{
    if pts.len() == 0 {
        f
    } else if !in_frame(f, pts[0].0, pts[0].1) {
        f
    } else {
        plot_run(plot_frame(f, pts[0].0, pts[0].1, pts[0].2 as i64, c), pts.drop_first(), c)
    }
}

/// One step of `plot_run`: the first sample, then the rest.
proof fn lemma_plot_run_step(f: Frame, p: (int, int, int), rest: Seq<(int, int, int)>, c: Color)
    ensures
        plot_run(f, seq![p] + rest, c) == (if in_frame(f, p.0, p.1) {
            plot_run(plot_frame(f, p.0, p.1, p.2 as i64, c), rest, c)
        } else {
            f
        }),
{
    assert((seq![p] + rest).drop_first() =~= rest);
    assert((seq![p] + rest)[0] == p);
}

/// Depth `k` of `span` steps along, computed without overflow.
fn interp_depth(z0: i64, z1: i64, k: i64, span: i64) -> (z: i64)
    requires
        0 <= k <= span,
        span <= 0x2_0000_0000,
    ensures
        z as int == interp(z0 as int, z1 as int, k as int, span as int),
{
    if span == 0 {
        return z0;
    }
    if z1 >= z0 {
        let diff: u128 = (z1 as i128 - z0 as i128) as u128;
        assert(diff * (k as u128) <= 0x1_0000_0000_0000_0000 * 0x2_0000_0000) by (nonlinear_arith)
            requires
                diff <= 0x1_0000_0000_0000_0000,
                k <= 0x2_0000_0000,
                0 <= k,
        ;
        let n: u128 = diff * (k as u128);
        let q: u128 = n / (span as u128);
        proof {
            lemma_scaled_quotient_bound(diff as int, k as int, span as int);
        }
        (z0 as i128 + q as i128) as i64
    } else {
        let diff: u128 = (z0 as i128 - z1 as i128) as u128;
        assert(diff * (k as u128) <= 0x1_0000_0000_0000_0000 * 0x2_0000_0000) by (nonlinear_arith)
            requires
                diff <= 0x1_0000_0000_0000_0000,
                k <= 0x2_0000_0000,
                0 <= k,
        ;
        let n: u128 = diff * (k as u128);
        let q: u128 = n / (span as u128);
        proof {
            lemma_scaled_quotient_bound(diff as int, k as int, span as int);
        }
        (z0 as i128 - q as i128) as i64
    }
}

proof fn lemma_scaled_quotient_bound(diff: int, k: int, span: int)
    requires
        0 <= diff,
        0 <= k <= span,
        0 < span,
    ensures
        0 <= (diff * k) / span <= diff,
{
    assert(0 <= diff * k <= diff * span) by (nonlinear_arith)
        requires
            0 <= diff,
            0 <= k <= span,
    ;
    vstd::arithmetic::div_mod::lemma_div_is_ordered(diff * k, diff * span, span);
    vstd::arithmetic::div_mod::lemma_div_by_multiple(diff, span);
    vstd::arithmetic::div_mod::lemma_div_pos_is_pos(diff * k, span);
}

/// Coordinates that any two `i32` values can take, with room for their
/// differences.
pub open spec fn coord_ok(v: int) -> bool {
    -0x8000_0000 <= v < 0x8000_0000
}

/// Drawing a line from either end visits the very same samples, depths
/// included, in the same order, and so leaves any frame in the same state.
pub proof fn lemma_line_symmetric(
    f: Frame,
    x0: int,
    y0: int,
    z0: int,
    x1: int,
    y1: int,
    z1: int,
    c: Color,
)
    ensures
        line_points(f.width as int, f.height as int, x0, y0, z0, x1, y1, z1) == line_points(
            f.width as int,
            f.height as int,
            x1,
            y1,
            z1,
            x0,
            y0,
            z0,
        ),
        plot_run(f, line_points(f.width as int, f.height as int, x0, y0, z0, x1, y1, z1), c)
            == plot_run(f, line_points(f.width as int, f.height as int, x1, y1, z1, x0, y0, z0), c),
{
    assert(canonical(x0, y0, z0, x1, y1, z1) == canonical(x1, y1, z1, x0, y0, z0));
}

/// With `|e| <= n`, `e == 2 * n * k` forces `k == 0`.
proof fn lemma_half_step(e: int, n: int, k: int)
    requires
        n > 0,
        e == 2 * n * k,
        -n <= e <= n,
    ensures
        k == 0,
{
    if k > 0 {
        assert(2 * n * k >= 2 * n) by (nonlinear_arith)
            requires
                n > 0,
                k >= 1,
        ;
    } else if k < 0 {
        assert(2 * n * k <= -2 * n) by (nonlinear_arith)
            requires
                n > 0,
                k <= -1,
        ;
    }
}

proof fn lemma_shallow_up_ends(s: Segment, x: int, y: int, d: int)
    requires
        s.x0 <= x <= s.x1,
        s.x0 < s.x1,
        0 <= s.y1 - s.y0 <= s.x1 - s.x0,
        d == 2 * (s.y1 - s.y0) * (x - s.x0) - 2 * (s.x1 - s.x0) * (y - s.y0) + 2 * (s.y1 - s.y0) - (s.x1 - s.x0),
        -(s.x1 - s.x0) <= 2 * (s.y1 - s.y0) * (x - s.x0) - 2 * (s.x1 - s.x0) * (y - s.y0) <= s.x1 - s.x0,
    ensures
        shallow_up(s, x, y, d).len() > 0,
        shallow_up(s, x, y, d).last().0 == s.x1,
        shallow_up(s, x, y, d).last().1 == s.y1,
    decreases s.x1 - x,
{
    let dx = s.x1 - s.x0;
    let dy = s.y1 - s.y0;
    let e = 2 * dy * (x - s.x0) - 2 * dx * (y - s.y0);
    let pts = shallow_up(s, x, y, d);
    if x == s.x1 {
        let rest = if d > 0 { shallow_up(s, x + 1, y + 1, d - 2 * dx + 2 * dy) } else { shallow_up(s, x + 1, y, d + 2 * dy) };
        assert(rest.len() == 0);
        assert(pts.last() == pts[0]);
        assert(e == 2 * dx * (s.y1 - y)) by (nonlinear_arith)
            requires
                e == 2 * dy * (x - s.x0) - 2 * dx * (y - s.y0),
                x - s.x0 == dx,
                dy == s.y1 - s.y0,
        ;
        lemma_half_step(e, dx, s.y1 - y);
    } else {
        assert(2 * dy * (x + 1 - s.x0) == 2 * dy * (x - s.x0) + 2 * dy) by (nonlinear_arith);
        assert(2 * dx * (y + 1 - s.y0) == 2 * dx * (y - s.y0) + 2 * dx) by (nonlinear_arith);
        if d > 0 {
            lemma_shallow_up_ends(s, x + 1, y + 1, d - 2 * dx + 2 * dy);
            assert(pts == seq![pts[0]] + shallow_up(s, x + 1, y + 1, d - 2 * dx + 2 * dy));
        } else {
            lemma_shallow_up_ends(s, x + 1, y, d + 2 * dy);
            assert(pts == seq![pts[0]] + shallow_up(s, x + 1, y, d + 2 * dy));
        }
    }
}

proof fn lemma_steep_up_ends(s: Segment, x: int, y: int, d: int)
    requires
        s.y0 <= y <= s.y1,
        0 <= s.x1 - s.x0 < s.y1 - s.y0,
        d == (s.y1 - s.y0) - 2 * (s.x1 - s.x0) - (2 * (s.x1 - s.x0) * (y - s.y0) - 2 * (s.y1 - s.y0) * (x - s.x0)),
        -(s.y1 - s.y0) <= 2 * (s.x1 - s.x0) * (y - s.y0) - 2 * (s.y1 - s.y0) * (x - s.x0) <= s.y1 - s.y0,
    ensures
        steep_up(s, x, y, d).len() > 0,
        steep_up(s, x, y, d).last().0 == s.x1,
        steep_up(s, x, y, d).last().1 == s.y1,
    decreases s.y1 - y,
{
    let dx = s.x1 - s.x0;
    let dy = s.y1 - s.y0;
    let f = 2 * dx * (y - s.y0) - 2 * dy * (x - s.x0);
    let pts = steep_up(s, x, y, d);
    if y == s.y1 {
        let rest = if d < 0 { steep_up(s, x + 1, y + 1, d + 2 * dy - 2 * dx) } else { steep_up(s, x, y + 1, d - 2 * dx) };
        assert(rest.len() == 0);
        assert(pts.last() == pts[0]);
        assert(f == 2 * dy * (s.x1 - x)) by (nonlinear_arith)
            requires
                f == 2 * dx * (y - s.y0) - 2 * dy * (x - s.x0),
                y - s.y0 == dy,
                dx == s.x1 - s.x0,
        ;
        lemma_half_step(f, dy, s.x1 - x);
    } else {
        assert(2 * dy * (x + 1 - s.x0) == 2 * dy * (x - s.x0) + 2 * dy) by (nonlinear_arith);
        assert(2 * dx * (y + 1 - s.y0) == 2 * dx * (y - s.y0) + 2 * dx) by (nonlinear_arith);
        if d < 0 {
            lemma_steep_up_ends(s, x + 1, y + 1, d + 2 * dy - 2 * dx);
            assert(pts == seq![pts[0]] + steep_up(s, x + 1, y + 1, d + 2 * dy - 2 * dx));
        } else {
            lemma_steep_up_ends(s, x, y + 1, d - 2 * dx);
            assert(pts == seq![pts[0]] + steep_up(s, x, y + 1, d - 2 * dx));
        }
    }
}

proof fn lemma_steep_down_ends(s: Segment, x: int, y: int, d: int)
    requires
        s.y1 <= y <= s.y0,
        0 <= s.x1 - s.x0 < s.y0 - s.y1,
        d == (s.y0 - s.y1) - 2 * (s.x1 - s.x0) - (2 * (s.x1 - s.x0) * (s.y0 - y) - 2 * (s.y0 - s.y1) * (x - s.x0)),
        -(s.y0 - s.y1) <= 2 * (s.x1 - s.x0) * (s.y0 - y) - 2 * (s.y0 - s.y1) * (x - s.x0) <= s.y0 - s.y1,
    ensures
        steep_down(s, x, y, d).len() > 0,
        steep_down(s, x, y, d).last().0 == s.x1,
        steep_down(s, x, y, d).last().1 == s.y1,
    decreases y - s.y1,
{
    let dx = s.x1 - s.x0;
    let m = s.y0 - s.y1;
    let g = 2 * dx * (s.y0 - y) - 2 * m * (x - s.x0);
    let pts = steep_down(s, x, y, d);
    if y == s.y1 {
        let rest = if d < 0 { steep_down(s, x + 1, y - 1, d + 2 * m - 2 * dx) } else { steep_down(s, x, y - 1, d - 2 * dx) };
        assert(rest.len() == 0);
        assert(pts.last() == pts[0]);
        assert(g == 2 * m * (s.x1 - x)) by (nonlinear_arith)
            requires
                g == 2 * dx * (s.y0 - y) - 2 * m * (x - s.x0),
                s.y0 - y == m,
                dx == s.x1 - s.x0,
        ;
        lemma_half_step(g, m, s.x1 - x);
    } else {
        assert(2 * m * (x + 1 - s.x0) == 2 * m * (x - s.x0) + 2 * m) by (nonlinear_arith);
        assert(2 * dx * (s.y0 - (y - 1)) == 2 * dx * (s.y0 - y) + 2 * dx) by (nonlinear_arith);
        if d < 0 {
            lemma_steep_down_ends(s, x + 1, y - 1, d + 2 * m - 2 * dx);
            assert(pts == seq![pts[0]] + steep_down(s, x + 1, y - 1, d + 2 * m - 2 * dx));
        } else {
            lemma_steep_down_ends(s, x, y - 1, d - 2 * dx);
            assert(pts == seq![pts[0]] + steep_down(s, x, y - 1, d - 2 * dx));
        }
    }
}

proof fn lemma_shallow_down_ends(s: Segment, x: int, y: int, d: int)
    requires
        s.x0 <= x <= s.x1,
        s.x0 < s.x1,
        0 <= s.y0 - s.y1 <= s.x1 - s.x0,
        d == 2 * (s.y0 - s.y1) * (x - s.x0) - 2 * (s.x1 - s.x0) * (s.y0 - y) + 2 * (s.y0 - s.y1) - (s.x1 - s.x0),
        -(s.x1 - s.x0) <= 2 * (s.y0 - s.y1) * (x - s.x0) - 2 * (s.x1 - s.x0) * (s.y0 - y) <= s.x1 - s.x0,
    ensures
        shallow_down(s, x, y, d).len() > 0,
        shallow_down(s, x, y, d).last().0 == s.x1,
        shallow_down(s, x, y, d).last().1 == s.y1,
    decreases s.x1 - x,
{
    let dx = s.x1 - s.x0;
    let m = s.y0 - s.y1;
    let e = 2 * m * (x - s.x0) - 2 * dx * (s.y0 - y);
    let pts = shallow_down(s, x, y, d);
    if x == s.x1 {
        let rest = if d > 0 { shallow_down(s, x + 1, y - 1, d - 2 * dx + 2 * m) } else { shallow_down(s, x + 1, y, d + 2 * m) };
        assert(rest.len() == 0);
        assert(pts.last() == pts[0]);
        assert(e == 2 * dx * (y - s.y1)) by (nonlinear_arith)
            requires
                e == 2 * m * (x - s.x0) - 2 * dx * (s.y0 - y),
                x - s.x0 == dx,
                m == s.y0 - s.y1,
        ;
        lemma_half_step(e, dx, y - s.y1);
    } else {
        assert(2 * m * (x + 1 - s.x0) == 2 * m * (x - s.x0) + 2 * m) by (nonlinear_arith);
        assert(2 * dx * (s.y0 - (y - 1)) == 2 * dx * (s.y0 - y) + 2 * dx) by (nonlinear_arith);
        if d > 0 {
            lemma_shallow_down_ends(s, x + 1, y - 1, d - 2 * dx + 2 * m);
            assert(pts == seq![pts[0]] + shallow_down(s, x + 1, y - 1, d - 2 * dx + 2 * m));
        } else {
            lemma_shallow_down_ends(s, x + 1, y, d + 2 * m);
            assert(pts == seq![pts[0]] + shallow_down(s, x + 1, y, d + 2 * m));
        }
    }
}

/// A line that is not skipped runs from one endpoint to the other: its
/// first sample is at the endpoint that comes first in drawing order, its
/// last sample at the other one.
pub proof fn lemma_line_ends(
    width: int,
    height: int,
    x0: int,
    y0: int,
    z0: int,
    x1: int,
    y1: int,
    z1: int,
)
    requires
        !trivially_outside(width, height, x0, y0, x1, y1),
    ensures
        ({
            let pts = line_points(width, height, x0, y0, z0, x1, y1, z1);
            let s = canonical(x0, y0, z0, x1, y1, z1);
            &&& pts.len() > 0
            &&& pts[0].0 == s.x0 && pts[0].1 == s.y0
            &&& pts.last().0 == s.x1 && pts.last().1 == s.y1
        }),
{
    let s = canonical(x0, y0, z0, x1, y1, z1);
    let dx = s.x1 - s.x0;
    let dy = s.y1 - s.y0;
    assert(dx >= 0);
    if dy > dx {
        lemma_steep_up_ends(s, s.x0, s.y0, dy - 2 * dx);
    } else if dx > 0 && dy >= 0 {
        lemma_shallow_up_ends(s, s.x0, s.y0, 2 * dy - dx);
    } else if dy < -dx {
        lemma_steep_down_ends(s, s.x0, s.y0, -dy - 2 * dx);
    } else if dx > 0 {
        lemma_shallow_down_ends(s, s.x0, s.y0, -2 * dy - dx);
    } else {
        assert(dx == 0 && dy == 0);
        let pts = shallow_down(s, s.x0, s.y0, 0);
        assert(shallow_down(s, s.x0 + 1, s.y0, 0).len() == 0);
        assert(pts.len() == 1);
        assert(pts.last() == pts[0]);
    }
}

proof fn lemma_plot_run_dims(f: Frame, pts: Seq<(int, int, int)>, c: Color)
    ensures
        plot_run(f, pts, c).width == f.width,
        plot_run(f, pts, c).height == f.height,
        crate::image::frame_ok(f) ==> crate::image::frame_ok(plot_run(f, pts, c)),
    decreases pts.len(),
{
    if pts.len() > 0 && in_frame(f, pts[0].0, pts[0].1) {
        crate::image::lemma_slot_in_range(f, pts[0].0, pts[0].1);
        lemma_plot_run_dims(plot_frame(f, pts[0].0, pts[0].1, pts[0].2 as i64, c), pts.drop_first(), c);
    }
}

/// Draws edges, two points at a time, from the first pair on; a trailing
/// unpaired point is ignored.
pub open spec fn lines_run(f: Frame, pts: Seq<Vertex>, c: Color) -> Frame
    decreases pts.len(),
{
    if pts.len() < 2 {
        f
    } else {
        let p = pts[0];
        let q = pts[1];
        lines_run(
            plot_run(
                f,
                line_points(
                    f.width as int,
                    f.height as int,
                    pixel(p.x as int),
                    pixel(p.y as int),
                    p.z as int,
                    pixel(q.x as int),
                    pixel(q.y as int),
                    q.z as int,
                ),
                c,
            ),
            pts.subrange(2, pts.len() as int),
            c,
        )
    }
}

/// Scan order of vertices: by pixel row, then pixel column, then depth.
pub open spec fn key_lt(a: Vertex, b: Vertex) -> bool {
    let ay = pixel(a.y as int);
    let by = pixel(b.y as int);
    let ax = pixel(a.x as int);
    let bx = pixel(b.x as int);
    let az = pixel(a.z as int);
    let bz = pixel(b.z as int);
    ay < by || (ay == by && (ax < bx || (ax == bx && az < bz)))
}

/// The three vertices in scan order; vertices with equal keys keep their
/// order.
pub open spec fn sort3(a: Vertex, b: Vertex, c: Vertex) -> (Vertex, Vertex, Vertex) {
    let (p, q) = if key_lt(b, a) {
        (b, a)
    } else {
        (a, b)
    };
    if key_lt(c, q) {
        if key_lt(c, p) {
            (c, p, q)
        } else {
            (p, c, q)
        }
    } else {
        (p, q, c)
    }
}

/// The top vertex lies less than one unit above or below the middle one.
pub open spec fn flat_top(m: Vertex, t: Vertex) -> bool {
    -SCALE < t.y - m.y < SCALE
}

/// The horizontal line drawn for row `k` above the bottom vertex `b` of a
/// triangle in scan order `(b, m, t)`: from the long edge `b`-`t` to the
/// short edge, `b`-`m` below the middle row and `m`-`t` from it on (unless
/// the top is flat). Returned as the arguments of `draw_line`.
pub open spec fn row_line(b: Vertex, m: Vertex, t: Vertex, k: int) -> (int, int, int, int, int, int) {
    let yb = pixel(b.y as int);
    let ym = pixel(m.y as int);
    let yt = pixel(t.y as int);
    let xl = interp(b.x as int, t.x as int, k, yt - yb + 1);
    let zl = interp(b.z as int, t.z as int, k, yt - yb + 1);
    let upper = !flat_top(m, t) && k >= ym - yb;
    let xs = if upper {
        interp(m.x as int, t.x as int, k - (ym - yb), yt - ym + 1)
    } else {
        interp(b.x as int, m.x as int, k, ym - yb + 1)
    };
    let zs = if upper {
        interp(m.z as int, t.z as int, k - (ym - yb), yt - ym + 1)
    } else {
        interp(b.z as int, m.z as int, k, ym - yb + 1)
    };
    (pixel(xl), yb + k, zl, pixel(xs), yb + k, zs)
}

/// Draws the rows of a triangle in scan order from row `k` to its top row.
pub open spec fn scan_run(f: Frame, b: Vertex, m: Vertex, t: Vertex, k: int, c: Color) -> Frame
    decreases pixel(t.y as int) - pixel(b.y as int) + 1 - k,
{
    if k < 0 || k > pixel(t.y as int) - pixel(b.y as int) {
        f
    } else {
        let r = row_line(b, m, t, k);
        scan_run(
            plot_run(f, line_points(f.width as int, f.height as int, r.0, r.1, r.2, r.3, r.4, r.5), c),
            b,
            m,
            t,
            k + 1,
            c,
        )
    }
}

/// A filled triangle: its rows, bottom to top.
pub open spec fn fill_triangle(f: Frame, v0: Vertex, v1: Vertex, v2: Vertex, c: Color) -> Frame {
    let s = sort3(v0, v1, v2);
    scan_run(f, s.0, s.1, s.2, 0, c)
}

/// Whether a triangle is drawn at all: its points are in range, and its
/// normal points towards the viewer (positive z).
pub open spec fn front_facing(a: Vertex, b: Vertex, c: Vertex) -> bool {
    vertex_fits(a) && vertex_fits(b) && vertex_fits(c) && cross(a, b, c).2 > 0
}

/// Fills the front-facing triangles of a list, three points at a time, each
/// in its own shade.
pub open spec fn polys_run(f: Frame, pts: Seq<Vertex>, shades: Seq<Color>) -> Frame
    decreases pts.len(),
{
    if pts.len() < 3 || shades.len() == 0 {
        f
    } else {
        let g = if front_facing(pts[0], pts[1], pts[2]) {
            fill_triangle(f, pts[0], pts[1], pts[2], shades[0])
        } else {
            f
        };
        polys_run(g, pts.subrange(3, pts.len() as int), shades.drop_first())
    }
}

proof fn lemma_polys_run_append(f: Frame, a: Seq<Vertex>, sa: Seq<Color>, b: Seq<Vertex>, sb: Seq<Color>)
    requires
        a.len() == 3 * sa.len(),
    ensures
        polys_run(f, a + b, sa + sb) == polys_run(polys_run(f, a, sa), b, sb),
    decreases a.len(),
{
    if a.len() == 0 {
        assert(a + b =~= b);
        assert(sa + sb =~= sb);
    } else {
        let g = if front_facing(a[0], a[1], a[2]) {
            fill_triangle(f, a[0], a[1], a[2], sa[0])
        } else {
            f
        };
        assert((a + b)[0] == a[0] && (a + b)[1] == a[1] && (a + b)[2] == a[2]);
        assert((sa + sb)[0] == sa[0]);
        assert((a + b).subrange(3, (a + b).len() as int) =~= a.subrange(3, a.len() as int) + b);
        assert((sa + sb).drop_first() =~= sa.drop_first() + sb);
        lemma_polys_run_append(g, a.subrange(3, a.len() as int), sa.drop_first(), b, sb);
    }
}

proof fn lemma_polys_run_culled(f: Frame, b: Seq<Vertex>, sb: Seq<Color>)
    requires
        forall|j: int|
            0 <= j && 3 * j + 2 < b.len() ==> !front_facing(#[trigger] b[3 * j], b[3 * j + 1], b[3 * j + 2]),
    ensures
        polys_run(f, b, sb) == f,
    decreases b.len(),
{
    if b.len() >= 3 && sb.len() > 0 {
        assert(!front_facing(b[3 * 0int], b[3 * 0int + 1], b[3 * 0int + 2]));
        let rest = b.subrange(3, b.len() as int);
        assert forall|j: int|
            0 <= j && 3 * j + 2 < rest.len() implies !front_facing(
            #[trigger] rest[3 * j],
            rest[3 * j + 1],
            rest[3 * j + 2],
        ) by {
            assert(rest[3 * j] == b[3 * (j + 1)]);
            assert(rest[3 * j + 1] == b[3 * (j + 1) + 1]);
            assert(rest[3 * j + 2] == b[3 * (j + 1) + 2]);
        }
        lemma_polys_run_culled(f, rest, sb.drop_first());
    }
}

/// Back-facing triangles touch no pixel: drawing a list of triangles
/// followed by triangles of which none faces the viewer leaves exactly the
/// frame that drawing the list alone leaves.
pub proof fn lemma_back_faces_touch_nothing(f: Frame, lighting: Lighting, a: Seq<Vertex>, b: Seq<Vertex>)
    requires
        a.len() % 3 == 0,
        forall|j: int|
            0 <= j && 3 * j + 2 < b.len() ==> !front_facing(#[trigger] b[3 * j], b[3 * j + 1], b[3 * j + 2]),
    ensures
        polys_run(f, a + b, polygon_shades(lighting, a + b)) == polys_run(f, a, polygon_shades(lighting, a)),
{
    let k = a.len() / 3;
    assert(a.len() == 3 * k);
    let sa = polygon_shades(lighting, a);
    let sb = polygon_shades(lighting, b);
    let ab = a + b;
    assert forall|j: int| 0 <= j < polygon_shades(lighting, ab).len() implies #[trigger] polygon_shades(lighting, ab)[j] == (sa + sb)[j] by {
        if j < k {
            assert(ab[3 * j] == a[3 * j]);
            assert(ab[3 * j + 1] == a[3 * j + 1]);
            assert(ab[3 * j + 2] == a[3 * j + 2]);
        } else {
            assert(ab[3 * j] == b[3 * (j - k)]);
            assert(ab[3 * j + 1] == b[3 * (j - k) + 1]);
            assert(ab[3 * j + 2] == b[3 * (j - k) + 2]);
        }
    }
    assert(polygon_shades(lighting, ab) =~= sa + sb);
    lemma_polys_run_append(f, a, sa, b, sb);
    lemma_polys_run_culled(polys_run(f, a, sa), b, sb);
}

proof fn lemma_scan_run_dims(f: Frame, b: Vertex, m: Vertex, t: Vertex, k: int, c: Color)
    ensures
        scan_run(f, b, m, t, k, c).width == f.width,
        scan_run(f, b, m, t, k, c).height == f.height,
        crate::image::frame_ok(f) ==> crate::image::frame_ok(scan_run(f, b, m, t, k, c)),
    decreases pixel(t.y as int) - pixel(b.y as int) + 1 - k,
{
    if !(k < 0 || k > pixel(t.y as int) - pixel(b.y as int)) {
        let r = row_line(b, m, t, k);
        let pts = line_points(f.width as int, f.height as int, r.0, r.1, r.2, r.3, r.4, r.5);
        lemma_plot_run_dims(f, pts, c);
        lemma_scan_run_dims(plot_run(f, pts, c), b, m, t, k + 1, c);
    }
}

impl Image {
    /// Plots the samples of a rising segment no steeper than one, stopping
    /// at the first one outside the image.
    fn run_shallow_up(&mut self, x0: i64, y0: i64, z0: i64, x1: i64, y1: i64, z1: i64, color: &Color)
        requires
            old(self).wf(),
            coord_ok(x0 as int),
            coord_ok(y0 as int),
            coord_ok(x1 as int),
            coord_ok(y1 as int),
            x1 - x0 > 0,
            0 <= y1 - y0 <= x1 - x0,
        ensures
            final(self).wf(),
            final(self)@ == plot_run(
                old(self)@,
                shallow_up(
                    Segment { x0: x0 as int, y0: y0 as int, z0: z0 as int, x1: x1 as int, y1: y1 as int, z1: z1 as int },
                    x0 as int,
                    y0 as int,
                    2 * (y1 - y0) - (x1 - x0),
                ),
                *color,
            ),
    {
        let ghost s = Segment { x0: x0 as int, y0: y0 as int, z0: z0 as int, x1: x1 as int, y1: y1 as int, z1: z1 as int };
        let dx = x1 - x0;
        let dy = y1 - y0;
        let a = 2 * dy;
        let b = -2 * dx;
        let mut x = x0;
        let mut y = y0;
        let mut d = a - dx;
        let mut go = true;
        let ghost target = plot_run(old(self)@, shallow_up(s, x0 as int, y0 as int, d as int), *color);
        while go && x <= x1
            invariant
                self.wf(),
                x0 <= x <= x1 + 1,
                y0 <= y <= y0 + (x - x0),
                -2 * dx <= d <= 2 * dy,
                dx == x1 - x0,
                dy == y1 - y0,
                a == 2 * dy,
                b == -2 * dx,
                0 <= dy <= dx,
                coord_ok(x0 as int),
                coord_ok(y0 as int),
                coord_ok(x1 as int),
                coord_ok(y1 as int),
                s == (Segment { x0: x0 as int, y0: y0 as int, z0: z0 as int, x1: x1 as int, y1: y1 as int, z1: z1 as int }),
                go ==> plot_run(self@, shallow_up(s, x as int, y as int, d as int), *color) == target,
                !go ==> self@ == target,
            decreases x1 + 1 - x + (if go { 1int } else { 0int }),
        {
            let z = interp_depth(z0, z1, x - x0, dx);
            let ghost p = (x as int, y as int, z as int);
            let ghost next = if d > 0 {
                shallow_up(s, x + 1, y + 1, d + b + a)
            } else {
                shallow_up(s, x + 1, y as int, d + a)
            };
            proof {
                assert(shallow_up(s, x as int, y as int, d as int) == seq![p] + next);
                lemma_plot_run_step(self@, p, next, *color);
            }
            if self.plot(x, y, z, color) {
                if d > 0 {
                    y = y + 1;
                    d = d + b;
                }
                x = x + 1;
                d = d + a;
            } else {
                go = false;
            }
        }
    }

    /// Plots the samples of a rising segment steeper than one, stopping at
    /// the first one outside the image.
    fn run_steep_up(&mut self, x0: i64, y0: i64, z0: i64, x1: i64, y1: i64, z1: i64, color: &Color)
        requires
            old(self).wf(),
            coord_ok(x0 as int),
            coord_ok(y0 as int),
            coord_ok(x1 as int),
            coord_ok(y1 as int),
            x1 - x0 >= 0,
            y1 - y0 > x1 - x0,
        ensures
            final(self).wf(),
            final(self)@ == plot_run(
                old(self)@,
                steep_up(
                    Segment { x0: x0 as int, y0: y0 as int, z0: z0 as int, x1: x1 as int, y1: y1 as int, z1: z1 as int },
                    x0 as int,
                    y0 as int,
                    (y1 - y0) - 2 * (x1 - x0),
                ),
                *color,
            ),
    {
        let ghost s = Segment { x0: x0 as int, y0: y0 as int, z0: z0 as int, x1: x1 as int, y1: y1 as int, z1: z1 as int };
        let dx = x1 - x0;
        let dy = y1 - y0;
        let a = 2 * dy;
        let b = -2 * dx;
        let mut x = x0;
        let mut y = y0;
        let mut d = dy + b;
        let mut go = true;
        let ghost target = plot_run(old(self)@, steep_up(s, x0 as int, y0 as int, d as int), *color);
        while go && y <= y1
            invariant
                self.wf(),
                y0 <= y <= y1 + 1,
                x0 <= x <= x0 + (y - y0),
                -2 * dx <= d <= 2 * dy,
                dx == x1 - x0,
                dy == y1 - y0,
                a == 2 * dy,
                b == -2 * dx,
                0 <= dx < dy,
                coord_ok(x0 as int),
                coord_ok(y0 as int),
                coord_ok(x1 as int),
                coord_ok(y1 as int),
                s == (Segment { x0: x0 as int, y0: y0 as int, z0: z0 as int, x1: x1 as int, y1: y1 as int, z1: z1 as int }),
                go ==> plot_run(self@, steep_up(s, x as int, y as int, d as int), *color) == target,
                !go ==> self@ == target,
            decreases y1 + 1 - y + (if go { 1int } else { 0int }),
        {
            let z = interp_depth(z0, z1, y - y0, dy);
            let ghost p = (x as int, y as int, z as int);
            let ghost next = if d < 0 {
                steep_up(s, x + 1, y + 1, d + a + b)
            } else {
                steep_up(s, x as int, y + 1, d + b)
            };
            proof {
                assert(steep_up(s, x as int, y as int, d as int) == seq![p] + next);
                lemma_plot_run_step(self@, p, next, *color);
            }
            if self.plot(x, y, z, color) {
                if d < 0 {
                    x = x + 1;
                    d = d + a;
                }
                y = y + 1;
                d = d + b;
            } else {
                go = false;
            }
        }
    }

    /// Plots the samples of a falling segment steeper than one, stopping at
    /// the first one outside the image.
    fn run_steep_down(&mut self, x0: i64, y0: i64, z0: i64, x1: i64, y1: i64, z1: i64, color: &Color)
        requires
            old(self).wf(),
            coord_ok(x0 as int),
            coord_ok(y0 as int),
            coord_ok(x1 as int),
            coord_ok(y1 as int),
            x1 - x0 >= 0,
            y1 - y0 < -(x1 - x0),
        ensures
            final(self).wf(),
            final(self)@ == plot_run(
                old(self)@,
                steep_down(
                    Segment { x0: x0 as int, y0: y0 as int, z0: z0 as int, x1: x1 as int, y1: y1 as int, z1: z1 as int },
                    x0 as int,
                    y0 as int,
                    -(y1 - y0) - 2 * (x1 - x0),
                ),
                *color,
            ),
    {
        let ghost s = Segment { x0: x0 as int, y0: y0 as int, z0: z0 as int, x1: x1 as int, y1: y1 as int, z1: z1 as int };
        let dx = x1 - x0;
        let dy = y1 - y0;
        let a = 2 * dy;
        let b = 2 * dx;
        let mut x = x0;
        let mut y = y0;
        let mut d = -dy - b;
        let mut go = true;
        let ghost target = plot_run(old(self)@, steep_down(s, x0 as int, y0 as int, d as int), *color);
        while go && y >= y1
            invariant
                self.wf(),
                y1 - 1 <= y <= y0,
                x0 <= x <= x0 + (y0 - y),
                -2 * dx <= d <= 2 * dx - 2 * dy,
                dx == x1 - x0,
                dy == y1 - y0,
                a == 2 * dy,
                b == 2 * dx,
                0 <= dx < -dy,
                coord_ok(x0 as int),
                coord_ok(y0 as int),
                coord_ok(x1 as int),
                coord_ok(y1 as int),
                s == (Segment { x0: x0 as int, y0: y0 as int, z0: z0 as int, x1: x1 as int, y1: y1 as int, z1: z1 as int }),
                go ==> plot_run(self@, steep_down(s, x as int, y as int, d as int), *color) == target,
                !go ==> self@ == target,
            decreases y - y1 + 1 + (if go { 1int } else { 0int }),
        {
            let z = interp_depth(z0, z1, y0 - y, -dy);
            let ghost p = (x as int, y as int, z as int);
            let ghost next = if d < 0 {
                steep_down(s, x + 1, y - 1, d - a - b)
            } else {
                steep_down(s, x as int, y - 1, d - b)
            };
            proof {
                assert(steep_down(s, x as int, y as int, d as int) == seq![p] + next);
                lemma_plot_run_step(self@, p, next, *color);
            }
            if self.plot(x, y, z, color) {
                if d < 0 {
                    x = x + 1;
                    d = d - a;
                }
                y = y - 1;
                d = d - b;
            } else {
                go = false;
            }
        }
    }

    /// Plots the samples of a falling (or single-point) segment no steeper
    /// than one, stopping at the first one outside the image.
    fn run_shallow_down(&mut self, x0: i64, y0: i64, z0: i64, x1: i64, y1: i64, z1: i64, color: &Color)
        requires
            old(self).wf(),
            coord_ok(x0 as int),
            coord_ok(y0 as int),
            coord_ok(x1 as int),
            coord_ok(y1 as int),
            x1 - x0 >= 0,
            -(x1 - x0) <= y1 - y0 <= 0,
        ensures
            final(self).wf(),
            final(self)@ == plot_run(
                old(self)@,
                shallow_down(
                    Segment { x0: x0 as int, y0: y0 as int, z0: z0 as int, x1: x1 as int, y1: y1 as int, z1: z1 as int },
                    x0 as int,
                    y0 as int,
                    -2 * (y1 - y0) - (x1 - x0),
                ),
                *color,
            ),
    {
        let ghost s = Segment { x0: x0 as int, y0: y0 as int, z0: z0 as int, x1: x1 as int, y1: y1 as int, z1: z1 as int };
        let dx = x1 - x0;
        let dy = y1 - y0;
        let a = 2 * dy;
        let b = 2 * dx;
        let mut x = x0;
        let mut y = y0;
        let mut d = -a - dx;
        let mut go = true;
        let ghost target = plot_run(old(self)@, shallow_down(s, x0 as int, y0 as int, d as int), *color);
        while go && x <= x1
            invariant
                self.wf(),
                x0 <= x <= x1 + 1,
                y0 - (x - x0) <= y <= y0,
                -2 * dx <= d <= -2 * dy,
                dx == x1 - x0,
                dy == y1 - y0,
                a == 2 * dy,
                b == 2 * dx,
                0 <= -dy <= dx,
                coord_ok(x0 as int),
                coord_ok(y0 as int),
                coord_ok(x1 as int),
                coord_ok(y1 as int),
                s == (Segment { x0: x0 as int, y0: y0 as int, z0: z0 as int, x1: x1 as int, y1: y1 as int, z1: z1 as int }),
                go ==> plot_run(self@, shallow_down(s, x as int, y as int, d as int), *color) == target,
                !go ==> self@ == target,
            decreases x1 + 1 - x + (if go { 1int } else { 0int }),
        {
            let z = interp_depth(z0, z1, x - x0, dx);
            let ghost p = (x as int, y as int, z as int);
            let ghost next = if d > 0 {
                shallow_down(s, x + 1, y - 1, d - b - a)
            } else {
                shallow_down(s, x + 1, y as int, d - a)
            };
            proof {
                assert(shallow_down(s, x as int, y as int, d as int) == seq![p] + next);
                lemma_plot_run_step(self@, p, next, *color);
            }
            if self.plot(x, y, z, color) {
                if d > 0 {
                    y = y - 1;
                    d = d - b;
                }
                x = x + 1;
                d = d - a;
            } else {
                go = false;
            }
        }
    }

    /// Draws a line between two pixels with Bresenham's algorithm,
    /// interpolating depth linearly from `z0` to `z1`.
    ///
    /// Nothing is drawn when both endpoints lie beyond the same edge of the
    /// image. The samples are plotted in order from the endpoint that comes
    /// first by `x`, then `y`, then depth (see `canonical`), so a line is
    /// drawn the same from either end; drawing stops at the first sample
    /// outside the image.
    pub fn draw_line(&mut self, x0: i32, y0: i32, z0: i64, x1: i32, y1: i32, z1: i64, color: &Color)
        requires
            old(self).wf(),
        ensures
            final(self).wf(),
            final(self).width == old(self).width,
            final(self).height == old(self).height,
            final(self)@ == plot_run(
                old(self)@,
                line_points(
                    old(self).width as int,
                    old(self).height as int,
                    x0 as int,
                    y0 as int,
                    z0 as int,
                    x1 as int,
                    y1 as int,
                    z1 as int,
                ),
                *color,
            ),
    {
        let w = self.width as u64;
        let h = self.height as u64;
        let right0 = x0 >= 0 && x0 as u64 >= w;
        let right1 = x1 >= 0 && x1 as u64 >= w;
        let top0 = y0 >= 0 && y0 as u64 >= h;
        let top1 = y1 >= 0 && y1 as u64 >= h;
        if (right0 && right1) || (top0 && top1) || (x0 < 0 && x1 < 0) || (y0 < 0 && y1 < 0) {
            return;
        }
        proof {
            lemma_plot_run_dims(
                self@,
                line_points(
                    self.width as int,
                    self.height as int,
                    x0 as int,
                    y0 as int,
                    z0 as int,
                    x1 as int,
                    y1 as int,
                    z1 as int,
                ),
                *color,
            );
        }
        let (ax, ay, az, bx, by, bz) = if x0 > x1 || (x0 == x1 && (y0 > y1 || (y0 == y1 && z0 > z1))) {
            (x1 as i64, y1 as i64, z1, x0 as i64, y0 as i64, z0)
        } else {
            (x0 as i64, y0 as i64, z0, x1 as i64, y1 as i64, z1)
        };
        let dx = bx - ax;
        let dy = by - ay;
        if dy > dx {
            self.run_steep_up(ax, ay, az, bx, by, bz, color);
        } else if dx > 0 && dy >= 0 {
            self.run_shallow_up(ax, ay, az, bx, by, bz, color);
        } else if dy < -dx {
            self.run_steep_down(ax, ay, az, bx, by, bz, color);
        } else {
            self.run_shallow_down(ax, ay, az, bx, by, bz, color);
        }
    }
}

/// Bound that normals are brought within before they are normalized.
pub const REDUCED_LIMIT: i128 = 0x100_0000_0000;

/// The lighting of a render: view direction, ambient light, one point
/// light, and the reflection coefficients of the material. Directions are
/// fixed-point vectors that need not have unit length.
pub struct Lighting {
    pub view: Vec<i64>,
    pub ambient_color: Color,
    pub point_light_vector: Vec<i64>,
    pub point_light_color: Color,
    pub ambient_reflect: ReflectionValue,
    pub diffuse_reflect: ReflectionValue,
    pub specular_reflect: ReflectionValue,
}

impl Lighting {
    pub open spec fn ok(&self) -> bool {
        &&& fits_norm(self.view@)
        &&& fits_norm(self.point_light_vector@)
        &&& self.point_light_vector@.len() >= 3
        &&& self.ambient_reflect.in_range()
        &&& self.diffuse_reflect.in_range()
        &&& self.specular_reflect.in_range()
    }
}

pub open spec fn abs(v: int) -> int {
    if v < 0 {
        -v
    } else {
        v
    }
}

/// A normal divided, truncating, by the least whole number that brings
/// every component below `REDUCED_LIMIT`; only its direction matters.
pub open spec fn reduced_normal(n: (int, int, int)) -> Seq<i64> {
    let m = if abs(n.0) >= abs(n.1) && abs(n.0) >= abs(n.2) {
        abs(n.0)
    } else if abs(n.1) >= abs(n.2) {
        abs(n.1)
    } else {
        abs(n.2)
    };
    let d = m / (REDUCED_LIMIT as int) + 1;
    seq![tdiv(n.0, d) as i64, tdiv(n.1, d) as i64, tdiv(n.2, d) as i64]
}

/// The flat shade of a triangle under `lighting`.
pub open spec fn triangle_shade(lighting: Lighting, a: Vertex, b: Vertex, c: Vertex) -> Color {
    shade(
        normalized(reduced_normal(cross(a, b, c))),
        normalized(lighting.view@),
        lighting.ambient_color,
        lighting.point_light_color,
        normalized(lighting.point_light_vector@),
        lighting.ambient_reflect,
        lighting.diffuse_reflect,
        lighting.specular_reflect,
    )
}

proof fn lemma_reduce_component(v: int, m: int, d: int)
    requires
        abs(v) <= m,
        d == m / (REDUCED_LIMIT as int) + 1,
        0 <= m,
    ensures
        -REDUCED_LIMIT <= tdiv(v, d) <= REDUCED_LIMIT,
{
    let l = REDUCED_LIMIT as int;
    vstd::arithmetic::div_mod::lemma_fundamental_div_mod(m, l);
    vstd::arithmetic::div_mod::lemma_mod_bound(m, l);
    assert(m < l * d) by (nonlinear_arith)
        requires
            m == l * (m / l) + m % l,
            m % l < l,
            d == m / l + 1,
    ;
    assert(abs(v) <= l * d);
    assert(l * d / d == l) by {
        vstd::arithmetic::div_mod::lemma_div_by_multiple(l, d);
        assert(l * d == d * l) by (nonlinear_arith);
    }
    vstd::arithmetic::div_mod::lemma_div_is_ordered(abs(v), l * d, d);
    vstd::arithmetic::div_mod::lemma_div_pos_is_pos(abs(v), d);
}

fn reduce_normal(n: (i128, i128, i128)) -> (r: Vec<i64>)
    requires
        -NORMAL_LIMIT <= n.0 <= NORMAL_LIMIT,
        -NORMAL_LIMIT <= n.1 <= NORMAL_LIMIT,
        -NORMAL_LIMIT <= n.2 <= NORMAL_LIMIT,
    ensures
        r@ == reduced_normal((n.0 as int, n.1 as int, n.2 as int)),
        fits_norm(r@),
{
    let a0 = if n.0 < 0 { -n.0 } else { n.0 };
    let a1 = if n.1 < 0 { -n.1 } else { n.1 };
    let a2 = if n.2 < 0 { -n.2 } else { n.2 };
    let m = if a0 >= a1 && a0 >= a2 {
        a0
    } else if a1 >= a2 {
        a1
    } else {
        a2
    };
    let d = m / REDUCED_LIMIT + 1;
    proof {
        lemma_reduce_component(n.0 as int, m as int, d as int);
        lemma_reduce_component(n.1 as int, m as int, d as int);
        lemma_reduce_component(n.2 as int, m as int, d as int);
    }
    let q0 = if n.0 >= 0 { n.0 / d } else { -((-n.0) / d) };
    let q1 = if n.1 >= 0 { n.1 / d } else { -((-n.1) / d) };
    let q2 = if n.2 >= 0 { n.2 / d } else { -((-n.2) / d) };
    let r: Vec<i64> = vec![q0 as i64, q1 as i64, q2 as i64];
    assert(r@ =~= reduced_normal((n.0 as int, n.1 as int, n.2 as int)));
    r
}

fn copy_vec(v: &Vec<i64>) -> (r: Vec<i64>)
    ensures
        r@ == v@,
{
    let mut out: Vec<i64> = Vec::new();
    let mut i: usize = 0;
    while i < v.len()
        invariant
            i <= v@.len(),
            out@ == v@.subrange(0, i as int),
        decreases v@.len() - i,
    {
        out.push(v[i]);
        i = i + 1;
    }
    assert(out@ =~= v@);
    out
}

/// The shade of each triangle of a list under `lighting`: its flat shade
/// when it faces the viewer, black otherwise.
pub open spec fn polygon_shades(lighting: Lighting, pts: Seq<Vertex>) -> Seq<Color> {
    Seq::new(
        pts.len() / 3,
        |j: int|
            if front_facing(pts[3 * j], pts[3 * j + 1], pts[3 * j + 2]) {
                triangle_shade(lighting, pts[3 * j], pts[3 * j + 1], pts[3 * j + 2])
            } else {
                Color { r: 0, g: 0, b: 0 }
            },
    )
}

/// The shade of each triangle of `polygons` under `lighting`: its flat
/// shade when it faces the viewer (see `front_facing`), black otherwise.
pub fn shade_polygons(polygons: &Matrix, lighting: &Lighting) -> (r: Vec<Color>)
    requires
        lighting.ok(),
    ensures
        r@ == polygon_shades(*lighting, polygons@),
{
    let n = polygons.points.len();
    let count = n / 3;
    let mut out: Vec<Color> = Vec::new();
    let mut j: usize = 0;
    while j < count
        invariant
            j <= count,
            count == polygons@.len() / 3,
            n == polygons@.len(),
            lighting.ok(),
            out@.len() == j,
            forall|k: int|
                0 <= k < j ==> #[trigger] out@[k] == (if front_facing(
                    polygons@[3 * k],
                    polygons@[3 * k + 1],
                    polygons@[3 * k + 2],
                ) {
                    triangle_shade(*lighting, polygons@[3 * k], polygons@[3 * k + 1], polygons@[3 * k + 2])
                } else {
                    Color { r: 0, g: 0, b: 0 }
                }),
        decreases count - j,
    {
        let i = 3 * j;
        let a = polygons.points[i];
        let b = polygons.points[i + 1];
        let c = polygons.points[i + 2];
        let mut col = Color::new();
        if a.fits() && b.fits() && c.fits() {
            let normal = polygons.calculate_normal(i);
            if normal.2 > 0 {
                let mut nv = reduce_normal(normal);
                let mut view = copy_vec(&lighting.view);
                let mut light = copy_vec(&lighting.point_light_vector);
                col = get_lighting(
                    &mut nv,
                    &mut view,
                    &lighting.ambient_color,
                    &lighting.point_light_color,
                    &mut light,
                    &lighting.ambient_reflect,
                    &lighting.diffuse_reflect,
                    &lighting.specular_reflect,
                );
            }
        }
        out.push(col);
        j = j + 1;
    }
    assert(out@ =~= polygon_shades(*lighting, polygons@));
    out
}

fn key_lt_exec(a: Vertex, b: Vertex) -> (r: bool)
    ensures
        r == key_lt(a, b),
{
    let ay = to_pixel(a.y);
    let by = to_pixel(b.y);
    let ax = to_pixel(a.x);
    let bx = to_pixel(b.x);
    let az = to_pixel(a.z);
    let bz = to_pixel(b.z);
    ay < by || (ay == by && (ax < bx || (ax == bx && az < bz)))
}

fn sort3_exec(a: Vertex, b: Vertex, c: Vertex) -> (r: (Vertex, Vertex, Vertex))
    ensures
        r == sort3(a, b, c),
        !key_lt(r.1, r.0),
        !key_lt(r.2, r.1),
{
    let (p, q) = if key_lt_exec(b, a) {
        (b, a)
    } else {
        (a, b)
    };
    if key_lt_exec(c, q) {
        if key_lt_exec(c, p) {
            (c, p, q)
        } else {
            (p, c, q)
        }
    } else {
        (p, q, c)
    }
}

impl Image {
    /// Draws every edge of `edges`, two points at a time, with `draw_line`;
    /// coordinates are truncated to pixels and depths are kept.
    pub fn draw_lines(&mut self, edges: &Matrix, color: &Color)
        requires
            old(self).wf(),
        ensures
            final(self).wf(),
            final(self)@ == lines_run(old(self)@, edges@, *color),
    {
        let n = edges.points.len();
        let ghost pts = edges@;
        let ghost target = lines_run(old(self)@, pts, *color);
        let mut i: usize = 0;
        assert(pts.subrange(0, n as int) =~= pts);
        while n - i >= 2
            invariant
                i <= n,
                n == pts.len(),
                pts == edges@,
                self.wf(),
                lines_run(self@, pts.subrange(i as int, n as int), *color) == target,
            decreases n - i,
        {
            let p = edges.points[i];
            let q = edges.points[i + 1];
            proof {
                let rest = pts.subrange(i as int, n as int);
                assert(rest[0] == p);
                assert(rest[1] == q);
                assert(rest.subrange(2, rest.len() as int) =~= pts.subrange(i + 2, n as int));
            }
            self.draw_line(to_pixel(p.x), to_pixel(p.y), p.z, to_pixel(q.x), to_pixel(q.y), q.z, color);
            i = i + 2;
        }
        assert(pts.subrange(i as int, n as int).len() < 2);
    }

    /// Fills a triangle row by row. The vertices are put in scan order
    /// `(b, m, t)`; each row from `b`'s up to `t`'s is a horizontal line from
    /// the long edge `b`-`t` to the short edge in effect on that row, with
    /// positions and depths interpolated along both edges.
    pub fn scanline_convert(&mut self, v0: Vertex, v1: Vertex, v2: Vertex, color: &Color)
        requires
            old(self).wf(),
        ensures
            final(self).wf(),
            final(self).width == old(self).width,
            final(self).height == old(self).height,
            final(self)@ == fill_triangle(old(self)@, v0, v1, v2, *color),
    {
        let (b, m, t) = sort3_exec(v0, v1, v2);
        let yb = to_pixel(b.y);
        let ym = to_pixel(m.y);
        let yt = to_pixel(t.y);
        let diff: i128 = t.y as i128 - m.y as i128;
        let flat = -(SCALE as i128) < diff && diff < SCALE as i128;
        proof {
            if flat {
                if t.y >= m.y {
                    lemma_pixel_close(m.y as int, t.y as int);
                } else {
                    lemma_pixel_monotone(t.y as int, m.y as int);
                }
            }
        }
        let rows: i64 = yt as i64 - yb as i64;
        let k1: i64 = ym as i64 - yb as i64;
        let d0: i64 = rows + 1;
        let d1: i64 = k1 + 1;
        let d2: i64 = yt as i64 - ym as i64 + 1;
        let ghost target = scan_run(old(self)@, b, m, t, 0, *color);
        let mut k: i64 = 0;
        while k <= rows
            invariant
                0 <= k <= rows + 1,
                rows == yt - yb,
                k1 == ym - yb,
                d0 == rows + 1,
                d1 == k1 + 1,
                d2 == yt - ym + 1,
                0 <= k1 <= rows,
                yb as int == pixel(b.y as int),
                ym as int == pixel(m.y as int),
                yt as int == pixel(t.y as int),
                flat == flat_top(m, t),
                flat ==> rows <= d1,
                self.wf(),
                self.width == old(self).width,
                self.height == old(self).height,
                scan_run(self@, b, m, t, k as int, *color) == target,
            decreases rows + 1 - k,
        {
            let xl = interp_depth(b.x, t.x, k, d0);
            let zl = interp_depth(b.z, t.z, k, d0);
            let upper = !flat && k >= k1;
            let (xs, zs) = if upper {
                (interp_depth(m.x, t.x, k - k1, d2), interp_depth(m.z, t.z, k - k1, d2))
            } else {
                (interp_depth(b.x, m.x, k, d1), interp_depth(b.z, m.z, k, d1))
            };
            let y: i32 = (yb as i64 + k) as i32;
            proof {
                lemma_plot_run_dims(
                    self@,
                    line_points(
                        self.width as int,
                        self.height as int,
                        pixel(xl as int),
                        y as int,
                        zl as int,
                        pixel(xs as int),
                        y as int,
                        zs as int,
                    ),
                    *color,
                );
            }
            self.draw_line(to_pixel(xl), y, zl, to_pixel(xs), y, zs, color);
            k = k + 1;
        }
        proof {
            lemma_scan_run_dims(old(self)@, b, m, t, 0, *color);
        }
    }

    /// Fills each front-facing triangle of `polygons` (three points at a
    /// time) in its own shade from `shades`; the others are culled. A
    /// triangle faces the viewer when the z component of its normal is
    /// positive; one with a coordinate beyond `FIT_LIMIT` is not drawn.
    pub fn fill_polygons(&mut self, polygons: &Matrix, shades: &Vec<Color>)
        requires
            old(self).wf(),
            shades@.len() == polygons@.len() / 3,
        ensures
            final(self).wf(),
            final(self)@ == polys_run(old(self)@, polygons@, shades@),
    {
        let n = polygons.points.len();
        let ns = shades.len();
        let ghost pts = polygons@;
        let ghost target = polys_run(old(self)@, pts, shades@);
        let mut i: usize = 0;
        let mut j: usize = 0;
        assert(pts.subrange(0, n as int) =~= pts);
        assert(shades@.subrange(0, ns as int) =~= shades@);
        while n - i >= 3
            invariant
                i <= n,
                i == 3 * j,
                n == pts.len(),
                ns == shades@.len(),
                ns == n / 3,
                pts == polygons@,
                self.wf(),
                polys_run(self@, pts.subrange(i as int, n as int), shades@.subrange(j as int, ns as int))
                    == target,
            decreases n - i,
        {
            let a = polygons.points[i];
            let b = polygons.points[i + 1];
            let c = polygons.points[i + 2];
            proof {
                let rest = pts.subrange(i as int, n as int);
                assert(rest[0] == a && rest[1] == b && rest[2] == c);
                assert(rest.subrange(3, rest.len() as int) =~= pts.subrange(i + 3, n as int));
                assert(shades@.subrange(j as int, ns as int).drop_first() =~= shades@.subrange(
                    j + 1,
                    ns as int,
                ));
            }
            if a.fits() && b.fits() && c.fits() {
                let normal = polygons.calculate_normal(i);
                if normal.2 > 0 {
                    self.scanline_convert(a, b, c, &shades[j]);
                }
            }
            i = i + 3;
            j = j + 1;
        }
        assert(pts.subrange(i as int, n as int).len() < 3);
    }

    /// Shades each triangle of `polygons` under `lighting` and fills the
    /// front-facing ones; back-facing triangles are culled and touch no
    /// pixel.
    pub fn draw_polygons(&mut self, polygons: &Matrix, lighting: &Lighting)
        requires
            old(self).wf(),
            lighting.ok(),
        ensures
            final(self).wf(),
            final(self)@ == polys_run(old(self)@, polygons@, polygon_shades(*lighting, polygons@)),
    {
        let shades = shade_polygons(polygons, lighting);
        self.fill_polygons(polygons, &shades);
    }
}

} // verus!
