use vstd::prelude::*;

use crate::geometry::{Matrix, Vertex, SCALE};

verus! {

/// `n / d` truncated towards zero, for `d > 0`.
pub open spec fn tdiv(n: int, d: int) -> int {
    if n >= 0 {
        n / d
    } else {
        -((-n) / d)
    }
}

/// A value held to the range of `i64`.
pub open spec fn clamp64(v: int) -> int {
    if v < i64::MIN {
        i64::MIN as int
    } else if v > i64::MAX {
        i64::MAX as int
    } else {
        v
    }
}

/// The product of two fixed-point numbers, truncated towards zero.
pub open spec fn fmul(a: int, b: int) -> int {
    tdiv(a * b, SCALE as int)
}

/// Entry `(r, c)` of a row-major 4 x 4 grid.
pub open spec fn cell(m: Seq<i64>, r: int, c: int) -> int {
    m[4 * r + c] as int
}

/// Entry `(r, c)` of the product `a * b` of two transforms.
pub open spec fn product_cell(a: Seq<i64>, b: Seq<i64>, r: int, c: int) -> int {
    clamp64(
        fmul(cell(a, r, 0), cell(b, 0, c)) + fmul(cell(a, r, 1), cell(b, 1, c)) + fmul(
            cell(a, r, 2),
            cell(b, 2, c),
        ) + fmul(cell(a, r, 3), cell(b, 3, c)),
    )
}

/// Row `r` of a transform applied to a point whose homogeneous coordinate
/// is one.
pub open spec fn apply_row(m: Seq<i64>, r: int, p: Vertex) -> int {
    clamp64(
        fmul(cell(m, r, 0), p.x as int) + fmul(cell(m, r, 1), p.y as int) + fmul(
            cell(m, r, 2),
            p.z as int,
        ) + cell(m, r, 3),
    )
}

/// A point moved by a transform.
pub open spec fn apply(m: Seq<i64>, p: Vertex) -> Vertex {
    Vertex { x: apply_row(m, 0, p) as i64, y: apply_row(m, 1, p) as i64, z: apply_row(m, 2, p) as i64 }
}

/// The fixed-point identity transform, as a row-major grid.
pub open spec fn identity_cells() -> Seq<i64> {
    Seq::new(16, |i: int| if i % 5 == 0 { SCALE } else { 0i64 })
}

/// The cubic Bezier basis, row by row.
pub open spec fn bezier_basis() -> Seq<i64> {
    seq![-1i64, 3i64, -3i64, 1i64, 3i64, -6i64, 3i64, 0i64, -3i64, 3i64, 0i64, 0i64, 1i64, 0i64, 0i64, 0i64]
}

/// The cubic Hermite basis, row by row.
pub open spec fn hermite_basis() -> Seq<i64> {
    seq![2i64, -2i64, 1i64, 1i64, -3i64, 3i64, -2i64, -1i64, 0i64, 0i64, 1i64, 0i64, 1i64, 0i64, 0i64, 0i64]
}

/// Row `r` of a basis times the column `(p0, p1, p2, p3)`.
pub open spec fn basis_row(m: Seq<i64>, r: int, p0: int, p1: int, p2: int, p3: int) -> int {
    cell(m, r, 0) * p0 + cell(m, r, 1) * p1 + cell(m, r, 2) * p2 + cell(m, r, 3) * p3
}

pub open spec fn basis_of(t: CurveType) -> Seq<i64> {
    match t {
        CurveType::Bezier => bezier_basis(),
        CurveType::Hermite => hermite_basis(),
    }
}

/// The value at `t = k / step` of `a t^3 + b t^2 + c t + d`, truncated
/// towards zero and held to the range of `i64`.
pub open spec fn cubic_at(a: int, b: int, c: int, d: int, k: int, step: int) -> int {
    clamp64(
        tdiv(
            a * k * k * k + b * k * k * step + c * k * step * step + d * step * step * step,
            step * step * step,
        ),
    )
}

/// The points a curve is sampled at: `k` from 0 to `step`.
pub open spec fn curve_point(
    xs: (int, int, int, int),
    ys: (int, int, int, int),
    k: int,
    step: int,
) -> Vertex {
    Vertex {
        x: cubic_at(xs.0, xs.1, xs.2, xs.3, k, step) as i64,
        y: cubic_at(ys.0, ys.1, ys.2, ys.3, k, step) as i64,
        z: 0,
    }
}

/// The edges a sampled curve adds: sample `k` joined to the one before it,
/// the first joined to the start `(x0, y0)`.
pub open spec fn curve_edges(
    x0: i64,
    y0: i64,
    xs: (int, int, int, int),
    ys: (int, int, int, int),
    step: int,
) -> Seq<Vertex> {
    Seq::new(
        (2 * (step + 1)) as nat,
        |i: int|
            if i % 2 == 1 {
                curve_point(xs, ys, i / 2, step)
            } else if i == 0 {
                Vertex { x: x0, y: y0, z: 0 }
            } else {
                curve_point(xs, ys, i / 2 - 1, step)
            },
    )
}

/// The coefficients `(a, b, c, d)` of the cubic through the control values.
pub open spec fn curve_coefs(p0: int, p1: int, p2: int, p3: int, t: CurveType) -> (
    int,
    int,
    int,
    int,
) {
    let m = basis_of(t);
    (
        basis_row(m, 0, p0, p1, p2, p3),
        basis_row(m, 1, p0, p1, p2, p3),
        basis_row(m, 2, p0, p1, p2, p3),
        basis_row(m, 3, p0, p1, p2, p3),
    )
}

/// A 4 x 4 affine transform on homogeneous points, stored row by row; each
/// entry is a fixed-point number, so `SCALE` stands for one.
pub struct Transform {
    pub cells: Vec<i64>,
}

impl View for Transform {
    type V = Seq<i64>;

    open spec fn view(&self) -> Seq<i64> {
        self.cells@
    }
}

/// Which cubic basis turns four control values into polynomial coefficients.
#[derive(Clone, Copy, Debug, PartialEq, Eq, Structural)]
pub enum CurveType {
    /// Two endpoints and two control points.
    Bezier,
    /// Two endpoints and the tangents at them.
    Hermite,
}

/// Truncating division of a fixed-point product, computed without overflow.
pub(crate) fn fmul_exec(a: i64, b: i64) -> (r: i128)
    ensures
        r as int == fmul(a as int, b as int),
        -0x2_0000_0000_0000_0000_0000_0000_0000 <= r <= 0x2_0000_0000_0000_0000_0000_0000_0000,
{
    proof {
        assert(-0x4000_0000_0000_0000_0000_0000_0000_0000 <= a * b <= 0x4000_0000_0000_0000_0000_0000_0000_0000)
            by (nonlinear_arith)
            requires
                i64::MIN <= a <= i64::MAX,
                i64::MIN <= b <= i64::MAX,
        ;
    }
    let p: i128 = a as i128 * b as i128;
    let q: i128 = if p >= 0 {
        p / 10000
    } else {
        -((-p) / 10000)
    };
    proof {
        if p >= 0 {
            vstd::arithmetic::div_mod::lemma_div_is_ordered(p as int, 0x4000_0000_0000_0000_0000_0000_0000_0000, 10000);
        } else {
            vstd::arithmetic::div_mod::lemma_div_is_ordered(-p, 0x4000_0000_0000_0000_0000_0000_0000_0000, 10000);
        }
    }
    q
}

/// A value held to the range of `i64`.
pub(crate) fn clamp_exec(v: i128) -> (r: i64)
    ensures
        r as int == clamp64(v as int),
{
    if v < i64::MIN as i128 {
        i64::MIN
    } else if v > i64::MAX as i128 {
        i64::MAX
    } else {
        v as i64
    }
}

impl Transform {
    pub open spec fn wf(&self) -> bool {
        self@.len() == 16
    }

    /// The identity transform.
    pub fn identity() -> (t: Transform)
        ensures
            t.wf(),
            t@ == identity_cells(),
    {
        let mut cells: Vec<i64> = Vec::new();
        let mut i: usize = 0;
        while i < 16
            invariant
                i <= 16,
                cells@.len() == i,
                forall|j: int| 0 <= j < i ==> cells@[j] == identity_cells()[j],
            decreases 16 - i,
        {
            if i % 5 == 0 {
                cells.push(SCALE);
            } else {
                cells.push(0);
            }
            i = i + 1;
        }
        assert(cells@ =~= identity_cells());
        Transform { cells }
    }

    /// A translation by `(x, y, z)`.
    pub fn make_translate(x: i64, y: i64, z: i64) -> (t: Transform)
        ensures
            t.wf(),
            t@ == identity_cells().update(3, x).update(7, y).update(11, z),
    {
        Transform::make_translate_with_scale(x, y, z, SCALE)
    }

    /// A translation by `(x, y, z)`, each first multiplied by `scale`.
    pub fn make_translate_with_scale(x: i64, y: i64, z: i64, scale: i64) -> (t: Transform)
        ensures
            t.wf(),
            t@ == identity_cells().update(3, clamp64(fmul(x as int, scale as int)) as i64).update(
                7,
                clamp64(fmul(y as int, scale as int)) as i64,
            ).update(11, clamp64(fmul(z as int, scale as int)) as i64),
    {
        let mut t = Transform::identity();
        t.cells.set(3, clamp_exec(fmul_exec(x, scale)));
        t.cells.set(7, clamp_exec(fmul_exec(y, scale)));
        t.cells.set(11, clamp_exec(fmul_exec(z, scale)));
        proof {
            if scale == SCALE {
                lemma_fmul_one(x as int);
                lemma_fmul_one(y as int);
                lemma_fmul_one(z as int);
            }
        }
        t
    }

    /// A scaling by `(x, y, z)`.
    pub fn make_scale(x: i64, y: i64, z: i64) -> (t: Transform)
        ensures
            t.wf(),
            t@ == identity_cells().update(0, x).update(5, y).update(10, z),
    {
        Transform::make_scale_with_scale(x, y, z, SCALE)
    }

    /// A scaling by `(x, y, z)`, each first multiplied by `scale`.
    pub fn make_scale_with_scale(x: i64, y: i64, z: i64, scale: i64) -> (t: Transform)
        ensures
            t.wf(),
            t@ == identity_cells().update(0, clamp64(fmul(x as int, scale as int)) as i64).update(
                5,
                clamp64(fmul(y as int, scale as int)) as i64,
            ).update(10, clamp64(fmul(z as int, scale as int)) as i64),
    {
        let mut t = Transform::identity();
        t.cells.set(0, clamp_exec(fmul_exec(x, scale)));
        t.cells.set(5, clamp_exec(fmul_exec(y, scale)));
        t.cells.set(10, clamp_exec(fmul_exec(z, scale)));
        proof {
            if scale == SCALE {
                lemma_fmul_one(x as int);
                lemma_fmul_one(y as int);
                lemma_fmul_one(z as int);
            }
        }
        t
    }

    /// A right-handed rotation about the x axis by the angle whose cosine
    /// and sine are `cos` and `sin` (fixed-point).
    pub fn make_rot_x(cos: i64, sin: i64) -> (t: Transform)
        requires
            sin > i64::MIN,
        ensures
            t.wf(),
            t@ == identity_cells().update(5, cos).update(6, -sin as i64).update(9, sin).update(10, cos),
    {
        let mut t = Transform::identity();
        t.cells.set(5, cos);
        t.cells.set(6, -sin);
        t.cells.set(9, sin);
        t.cells.set(10, cos);
        t
    }

    /// A right-handed rotation about the y axis.
    pub fn make_rot_y(cos: i64, sin: i64) -> (t: Transform)
        requires
            sin > i64::MIN,
        ensures
            t.wf(),
            t@ == identity_cells().update(0, cos).update(2, sin).update(8, -sin as i64).update(10, cos),
    {
        let mut t = Transform::identity();
        t.cells.set(0, cos);
        t.cells.set(2, sin);
        t.cells.set(8, -sin);
        t.cells.set(10, cos);
        t
    }

    /// A right-handed rotation about the z axis.
    pub fn make_rot_z(cos: i64, sin: i64) -> (t: Transform)
        requires
            sin > i64::MIN,
        ensures
            t.wf(),
            t@ == identity_cells().update(0, cos).update(1, -sin as i64).update(4, sin).update(5, cos),
    {
        let mut t = Transform::identity();
        t.cells.set(0, cos);
        t.cells.set(1, -sin);
        t.cells.set(4, sin);
        t.cells.set(5, cos);
        t
    }

    /// Multiplies every entry by the fixed-point number `multiply_by`.
    pub fn multiply_by_num(&mut self, multiply_by: i64)
        requires
            old(self).wf(),
        ensures
            final(self).wf(),
            final(self)@ == old(self)@.map_values(|v: i64| clamp64(fmul(v as int, multiply_by as int)) as i64),
    {
        let mut i: usize = 0;
        while i < 16
            invariant
                i <= 16,
                self.wf(),
                forall|j: int| 0 <= j < i ==> self@[j] == clamp64(fmul(old(self)@[j] as int, multiply_by as int)) as i64,
                forall|j: int| i <= j < 16 ==> self@[j] == old(self)@[j],
            decreases 16 - i,
        {
            let v = clamp_exec(fmul_exec(self.cells[i], multiply_by));
            self.cells.set(i, v);
            i = i + 1;
        }
        assert(self@ =~= old(self)@.map_values(|v: i64| clamp64(fmul(v as int, multiply_by as int)) as i64));
    }

    /// Replaces this transform with `m1 * self`: `m1` is applied after it.
    pub fn multiply_matrixes(&mut self, m1: &Transform)
        requires
            old(self).wf(),
            m1.wf(),
        ensures
            final(self).wf(),
            final(self)@ == Seq::new(16, |i: int| product_cell(m1@, old(self)@, i / 4, i % 4) as i64),
    {
        let mut cells: Vec<i64> = Vec::new();
        let mut i: usize = 0;
        while i < 16
            invariant
                i <= 16,
                self.wf(),
                m1.wf(),
                self@ == old(self)@,
                cells@.len() == i,
                forall|j: int|
                    0 <= j < i ==> cells@[j] == product_cell(m1@, self@, j / 4, j % 4) as i64,
            decreases 16 - i,
        {
            let r = i / 4;
            let c = i % 4;
            let s = fmul_exec(m1.cells[4 * r], self.cells[c]) + fmul_exec(m1.cells[4 * r + 1], self.cells[4 + c])
                + fmul_exec(m1.cells[4 * r + 2], self.cells[8 + c]) + fmul_exec(m1.cells[4 * r + 3], self.cells[12 + c]);
            cells.push(clamp_exec(s));
            i = i + 1;
        }
        assert(cells@ =~= Seq::new(16, |i: int| product_cell(m1@, old(self)@, i / 4, i % 4) as i64));
        self.cells = cells;
    }
}

/// The cubic Bezier basis.
pub fn make_bezier() -> (m: Vec<i64>)
    ensures
        m@ == bezier_basis(),
{
    let m: Vec<i64> = vec![-1, 3, -3, 1, 3, -6, 3, 0, -3, 3, 0, 0, 1, 0, 0, 0];
    assert(m@ =~= bezier_basis());
    m
}

/// The cubic Hermite basis.
pub fn make_hermite() -> (m: Vec<i64>)
    ensures
        m@ == hermite_basis(),
{
    let m: Vec<i64> = vec![2, -2, 1, 1, -3, 3, -2, -1, 0, 0, 1, 0, 1, 0, 0, 0];
    assert(m@ =~= hermite_basis());
    m
}

/// The coefficients `(a, b, c, d)` of `a t^3 + b t^2 + c t + d` for the
/// curve given by `p0` to `p3`: the endpoints and control points of a Bezier
/// curve, or the endpoints and tangents of a Hermite curve.
pub fn generate_curve_coefs(p0: i64, p1: i64, p2: i64, p3: i64, t: &CurveType) -> (r: (
    i128,
    i128,
    i128,
    i128,
))
    ensures
        (r.0 as int, r.1 as int, r.2 as int, r.3 as int) == curve_coefs(
            p0 as int,
            p1 as int,
            p2 as int,
            p3 as int,
            *t,
        ),
        -0x10_0000_0000_0000_0000 <= r.0 <= 0x10_0000_0000_0000_0000,
        -0x10_0000_0000_0000_0000 <= r.1 <= 0x10_0000_0000_0000_0000,
        -0x10_0000_0000_0000_0000 <= r.2 <= 0x10_0000_0000_0000_0000,
        -0x10_0000_0000_0000_0000 <= r.3 <= 0x10_0000_0000_0000_0000,
{
    let m = match t {
        CurveType::Bezier => make_bezier(),
        CurveType::Hermite => make_hermite(),
    };
    assert(forall|j: int| 0 <= j < 16 ==> -6 <= #[trigger] m@[j] <= 6);
    let mut out: Vec<i128> = Vec::new();
    let mut r: usize = 0;
    while r < 4
        invariant
            r <= 4,
            m@ == basis_of(*t),
            m@.len() == 16,
            forall|j: int| 0 <= j < 16 ==> -6 <= #[trigger] m@[j] <= 6,
            out@.len() == r,
            forall|j: int|
                0 <= j < r ==> out@[j] as int == basis_row(
                    m@,
                    j,
                    p0 as int,
                    p1 as int,
                    p2 as int,
                    p3 as int,
                ),
            forall|j: int|
                0 <= j < r ==> -0x10_0000_0000_0000_0000 <= #[trigger] out@[j] <= 0x10_0000_0000_0000_0000,
        decreases 4 - r,
    {
        let e0 = m[4 * r];
        let e1 = m[4 * r + 1];
        let e2 = m[4 * r + 2];
        let e3 = m[4 * r + 3];
        proof {
            lemma_basis_term(e0 as int, p0 as int);
            lemma_basis_term(e1 as int, p1 as int);
            lemma_basis_term(e2 as int, p2 as int);
            lemma_basis_term(e3 as int, p3 as int);
        }
        let v = e0 as i128 * p0 as i128 + e1 as i128 * p1 as i128 + e2 as i128 * p2 as i128 + e3 as i128
            * p3 as i128;
        out.push(v);
        r = r + 1;
    }
    (out[0], out[1], out[2], out[3])
}

/// `a t^3 + b t^2 + c t + d` at `t = k / step`, without overflow.
fn cubic_exec(a: i128, b: i128, c: i128, d: i128, k: i128, step: i128) -> (r: i64)
    requires
        -0x10_0000_0000_0000_0000 <= a <= 0x10_0000_0000_0000_0000,
        -0x10_0000_0000_0000_0000 <= b <= 0x10_0000_0000_0000_0000,
        -0x10_0000_0000_0000_0000 <= c <= 0x10_0000_0000_0000_0000,
        -0x10_0000_0000_0000_0000 <= d <= 0x10_0000_0000_0000_0000,
        0 <= k <= step,
        1 <= step <= 0x1_0000,
    ensures
        r as int == cubic_at(a as int, b as int, c as int, d as int, k as int, step as int),
{
    proof {
        lemma_cubic_terms(a as int, b as int, c as int, d as int, k as int, step as int);
    }
    let k3: i128 = k * k * k;
    let k2s: i128 = k * k * step;
    let ks2: i128 = k * step * step;
    let den: i128 = step * step * step;
    let n: i128 = a * k3 + b * k2s + c * ks2 + d * den;
    let q: i128 = if n >= 0 {
        n / den
    } else {
        -((-n) / den)
    };
    proof {
        if n >= 0 {
            vstd::arithmetic::div_mod::lemma_div_is_ordered(n as int, 0x40_0000_0000_0000_0000_0000_0000_0000, den as int);
            vstd::arithmetic::div_mod::lemma_div_is_ordered_by_denominator(0x40_0000_0000_0000_0000_0000_0000_0000, 1, den as int);
        } else {
            vstd::arithmetic::div_mod::lemma_div_is_ordered(-n, 0x40_0000_0000_0000_0000_0000_0000_0000, den as int);
            vstd::arithmetic::div_mod::lemma_div_is_ordered_by_denominator(0x40_0000_0000_0000_0000_0000_0000_0000, 1, den as int);
        }
    }
    clamp_exec(q)
}

proof fn lemma_cubic_terms(a: int, b: int, c: int, d: int, k: int, step: int)
    requires
        -0x10_0000_0000_0000_0000 <= a <= 0x10_0000_0000_0000_0000,
        -0x10_0000_0000_0000_0000 <= b <= 0x10_0000_0000_0000_0000,
        -0x10_0000_0000_0000_0000 <= c <= 0x10_0000_0000_0000_0000,
        -0x10_0000_0000_0000_0000 <= d <= 0x10_0000_0000_0000_0000,
        0 <= k <= step,
        1 <= step <= 0x1_0000,
    ensures
        0 <= k * k <= 0x1_0000_0000,
        0 <= k * step <= 0x1_0000_0000,
        0 < step * step <= 0x1_0000_0000,
        0 < step * step * step <= 0x1_0000_0000_0000,
        0 <= k * k * k <= 0x1_0000_0000_0000,
        0 <= k * k * step <= 0x1_0000_0000_0000,
        0 <= k * step * step <= 0x1_0000_0000_0000,
        -0x40_0000_0000_0000_0000_0000_0000_0000 <= a * k * k * k + b * k * k * step + c * k * step * step + d * step * step * step <= 0x40_0000_0000_0000_0000_0000_0000_0000,
        a * k * k * k == a * (k * k * k),
        b * k * k * step == b * (k * k * step),
        c * k * step * step == c * (k * step * step),
        d * step * step * step == d * (step * step * step),
        -0x10_0000_0000_0000_0000_0000_0000_0000 <= a * (k * k * k) <= 0x10_0000_0000_0000_0000_0000_0000_0000,
        -0x10_0000_0000_0000_0000_0000_0000_0000 <= b * (k * k * step) <= 0x10_0000_0000_0000_0000_0000_0000_0000,
        -0x10_0000_0000_0000_0000_0000_0000_0000 <= c * (k * step * step) <= 0x10_0000_0000_0000_0000_0000_0000_0000,
        -0x10_0000_0000_0000_0000_0000_0000_0000 <= d * (step * step * step) <= 0x10_0000_0000_0000_0000_0000_0000_0000,
        -0x10_0000_0000_0000_0000_0000_0000_0000 <= a * k * k * k <= 0x10_0000_0000_0000_0000_0000_0000_0000,
        -0x10_0000_0000_0000_0000_0000_0000_0000 <= b * k * k * step <= 0x10_0000_0000_0000_0000_0000_0000_0000,
        -0x10_0000_0000_0000_0000_0000_0000_0000 <= c * k * step * step <= 0x10_0000_0000_0000_0000_0000_0000_0000,
        -0x10_0000_0000_0000_0000_0000_0000_0000 <= d * step * step * step <= 0x10_0000_0000_0000_0000_0000_0000_0000,
{
    assert(0 < step * step * step <= 0x1_0000_0000_0000) by (nonlinear_arith)
        requires
            1 <= step <= 0x1_0000,
    ;
    assert(0 <= k * k <= 0x1_0000_0000) by (nonlinear_arith)
        requires
            0 <= k <= 0x1_0000,
    ;
    assert(0 <= k * step <= 0x1_0000_0000) by (nonlinear_arith)
        requires
            0 <= k <= 0x1_0000,
            1 <= step <= 0x1_0000,
    ;
    assert(0 < step * step <= 0x1_0000_0000) by (nonlinear_arith)
        requires
            1 <= step <= 0x1_0000,
    ;
    assert(0 <= k * k * k <= 0x1_0000_0000_0000) by (nonlinear_arith)
        requires
            0 <= k <= 0x1_0000,
    ;
    assert(0 <= k * k * step <= 0x1_0000_0000_0000) by (nonlinear_arith)
        requires
            0 <= k <= 0x1_0000,
            1 <= step <= 0x1_0000,
    ;
    assert(0 <= k * step * step <= 0x1_0000_0000_0000) by (nonlinear_arith)
        requires
            0 <= k <= 0x1_0000,
            1 <= step <= 0x1_0000,
    ;
    lemma_scaled_term(a, k * k * k);
    lemma_scaled_term(b, k * k * step);
    lemma_scaled_term(c, k * step * step);
    lemma_scaled_term(d, step * step * step);
    assert(a * k * k * k == a * (k * k * k)) by (nonlinear_arith);
    assert(b * k * k * step == b * (k * k * step)) by (nonlinear_arith);
    assert(c * k * step * step == c * (k * step * step)) by (nonlinear_arith);
    assert(d * step * step * step == d * (step * step * step)) by (nonlinear_arith);
}

proof fn lemma_basis_term(e: int, p: int)
    requires
        -6 <= e <= 6,
        i64::MIN <= p <= i64::MAX,
    ensures
        -0x3_0000_0000_0000_0000 <= e * p <= 0x3_0000_0000_0000_0000,
{
    assert(-0x3_0000_0000_0000_0000 <= e * p <= 0x3_0000_0000_0000_0000) by (nonlinear_arith)
        requires
            -6 <= e <= 6,
            i64::MIN <= p <= i64::MAX,
    ;
}

proof fn lemma_scaled_term(a: int, w: int)
    requires
        -0x10_0000_0000_0000_0000 <= a <= 0x10_0000_0000_0000_0000,
        0 <= w <= 0x1_0000_0000_0000,
    ensures
        -0x10_0000_0000_0000_0000_0000_0000_0000 <= a * w <= 0x10_0000_0000_0000_0000_0000_0000_0000,
{
    assert(-0x10_0000_0000_0000_0000_0000_0000_0000 <= a * w <= 0x10_0000_0000_0000_0000_0000_0000_0000)
        by (nonlinear_arith)
        requires
            -0x10_0000_0000_0000_0000 <= a <= 0x10_0000_0000_0000_0000,
            0 <= w <= 0x1_0000_0000_0000,
    ;
}

impl Matrix {
    /// Moves every point by `t`.
    pub fn multiply_matrixes(&mut self, t: &Transform)
        requires
            t.wf(),
        ensures
            final(self)@ == old(self)@.map_values(|p: Vertex| apply(t@, p)),
    {
        let n = self.points.len();
        let mut i: usize = 0;
        while i < n
            invariant
                i <= n,
                t.wf(),
                n == self@.len(),
                n == old(self)@.len(),
                forall|j: int| 0 <= j < i ==> self@[j] == apply(t@, old(self)@[j]),
                forall|j: int| i <= j < n ==> self@[j] == old(self)@[j],
            decreases n - i,
        {
            let p = self.points[i];
            let x = clamp_exec(
                fmul_exec(t.cells[0], p.x) + fmul_exec(t.cells[1], p.y) + fmul_exec(t.cells[2], p.z)
                    + t.cells[3] as i128,
            );
            let y = clamp_exec(
                fmul_exec(t.cells[4], p.x) + fmul_exec(t.cells[5], p.y) + fmul_exec(t.cells[6], p.z)
                    + t.cells[7] as i128,
            );
            let z = clamp_exec(
                fmul_exec(t.cells[8], p.x) + fmul_exec(t.cells[9], p.y) + fmul_exec(t.cells[10], p.z)
                    + t.cells[11] as i128,
            );
            self.points.set(i, Vertex { x, y, z });
            i = i + 1;
        }
        assert(self@ =~= old(self)@.map_values(|p: Vertex| apply(t@, p)));
    }

    /// Samples a cubic curve at `step + 1` evenly spaced parameters from 0
    /// to 1 and appends an edge from each sample to the one before it (the
    /// first from `(x0, y0)`), all at depth 0.
    pub fn add_curve(
        &mut self,
        x0: i64,
        y0: i64,
        x1: i64,
        y1: i64,
        x2: i64,
        y2: i64,
        x3: i64,
        y3: i64,
        step: usize,
        curve_type: &CurveType,
    )
        requires
            1 <= step <= 0x1_0000,
        ensures
            final(self)@ == old(self)@ + curve_edges(
                x0,
                y0,
                curve_coefs(x0 as int, x1 as int, x2 as int, x3 as int, *curve_type),
                curve_coefs(y0 as int, y1 as int, y2 as int, y3 as int, *curve_type),
                step as int,
            ),
    {
        let cx = generate_curve_coefs(x0, x1, x2, x3, curve_type);
        let cy = generate_curve_coefs(y0, y1, y2, y3, curve_type);
        let ghost xs = (cx.0 as int, cx.1 as int, cx.2 as int, cx.3 as int);
        let ghost ys = (cy.0 as int, cy.1 as int, cy.2 as int, cy.3 as int);
        let ghost edges = curve_edges(x0, y0, xs, ys, step as int);
        let mut prev_x = x0;
        let mut prev_y = y0;
        let mut k: usize = 0;
        while k <= step
            invariant
                k <= step + 1,
                1 <= step <= 0x1_0000,
                xs == (cx.0 as int, cx.1 as int, cx.2 as int, cx.3 as int),
                ys == (cy.0 as int, cy.1 as int, cy.2 as int, cy.3 as int),
                -0x10_0000_0000_0000_0000 <= cx.0 <= 0x10_0000_0000_0000_0000,
                -0x10_0000_0000_0000_0000 <= cx.1 <= 0x10_0000_0000_0000_0000,
                -0x10_0000_0000_0000_0000 <= cx.2 <= 0x10_0000_0000_0000_0000,
                -0x10_0000_0000_0000_0000 <= cx.3 <= 0x10_0000_0000_0000_0000,
                -0x10_0000_0000_0000_0000 <= cy.0 <= 0x10_0000_0000_0000_0000,
                -0x10_0000_0000_0000_0000 <= cy.1 <= 0x10_0000_0000_0000_0000,
                -0x10_0000_0000_0000_0000 <= cy.2 <= 0x10_0000_0000_0000_0000,
                -0x10_0000_0000_0000_0000 <= cy.3 <= 0x10_0000_0000_0000_0000,
                edges == curve_edges(x0, y0, xs, ys, step as int),
                self@ == old(self)@ + edges.subrange(0, 2 * k),
                k == 0 ==> prev_x == x0 && prev_y == y0,
                k > 0 ==> (Vertex { x: prev_x, y: prev_y, z: 0 }) == curve_point(xs, ys, k - 1, step as int),
            decreases step + 1 - k,
        {
            let x = cubic_exec(cx.0, cx.1, cx.2, cx.3, k as i128, step as i128);
            let y = cubic_exec(cy.0, cy.1, cy.2, cy.3, k as i128, step as i128);
            let ghost before = self@;
            self.add_edge(prev_x, prev_y, 0, x, y, 0);
            proof {
                assert(edges[2 * k] == (Vertex { x: prev_x, y: prev_y, z: 0 }));
                assert(edges[2 * k + 1] == (Vertex { x, y, z: 0 }));
                assert(self@ =~= old(self)@ + edges.subrange(0, 2 * k + 2));
            }
            prev_x = x;
            prev_y = y;
            k = k + 1;
        }
        assert(edges.subrange(0, 2 * (step + 1)) =~= edges);
    }
}

/// A rotation whose cosine is one and sine is zero, that is by a whole
/// number of turns, is the identity, about each of the three axes.
pub proof fn lemma_rotation_by_zero_is_identity()
    ensures
        identity_cells().update(0, SCALE).update(1, 0).update(4, 0).update(5, SCALE) == identity_cells(),
        identity_cells().update(5, SCALE).update(6, 0).update(9, 0).update(10, SCALE) == identity_cells(),
        identity_cells().update(0, SCALE).update(2, 0).update(8, 0).update(10, SCALE) == identity_cells(),
{
    assert(identity_cells().update(0, SCALE).update(1, 0).update(4, 0).update(5, SCALE) =~= identity_cells());
    assert(identity_cells().update(5, SCALE).update(6, 0).update(9, 0).update(10, SCALE) =~= identity_cells());
    assert(identity_cells().update(0, SCALE).update(2, 0).update(8, 0).update(10, SCALE) =~= identity_cells());
}

/// The identity transform leaves every point where it is.
pub proof fn lemma_identity_apply(p: Vertex)
    ensures
        apply(identity_cells(), p) == p,
{
    lemma_fmul_unit(p.x as int);
    lemma_fmul_unit(p.y as int);
    lemma_fmul_unit(p.z as int);
    lemma_fmul_zero(p.x as int);
    lemma_fmul_zero(p.y as int);
    lemma_fmul_zero(p.z as int);
}

/// Composing with the identity on the left changes no entry.
pub proof fn lemma_identity_compose(m: Seq<i64>)
    requires
        m.len() == 16,
    ensures
        Seq::new(16, |i: int| product_cell(identity_cells(), m, i / 4, i % 4) as i64) == m,
{
    assert forall|i: int| 0 <= i < 16 implies product_cell(identity_cells(), m, i / 4, i % 4) as i64
        == m[i] by {
        let c = i % 4;
        lemma_fmul_unit(cell(m, 0, c));
        lemma_fmul_unit(cell(m, 1, c));
        lemma_fmul_unit(cell(m, 2, c));
        lemma_fmul_unit(cell(m, 3, c));
        lemma_fmul_zero(cell(m, 0, c));
        lemma_fmul_zero(cell(m, 1, c));
        lemma_fmul_zero(cell(m, 2, c));
        lemma_fmul_zero(cell(m, 3, c));
    }
    assert(Seq::new(16, |i: int| product_cell(identity_cells(), m, i / 4, i % 4) as i64) =~= m);
}

proof fn lemma_fmul_unit(v: int)
    ensures
        fmul(SCALE as int, v) == v,
{
    if v >= 0 {
        vstd::arithmetic::div_mod::lemma_div_by_multiple(v, 10000);
        assert(10000 * v == v * 10000) by (nonlinear_arith);
    } else {
        vstd::arithmetic::div_mod::lemma_div_by_multiple(-v, 10000);
        assert(-(10000 * v) == (-v) * 10000) by (nonlinear_arith);
    }
}

proof fn lemma_fmul_zero(v: int)
    ensures
        fmul(0, v) == 0,
{
}

/// The product `parent * local` of two transforms, as a grid.
pub open spec fn product(parent: Seq<i64>, local: Seq<i64>) -> Seq<i64> {
    Seq::new(16, |i: int| product_cell(parent, local, i / 4, i % 4) as i64)
}

impl Transform {
    /// A transform with the same entries.
    pub fn copy(&self) -> (t: Transform)
        ensures
            t@ == self@,
    {
        let mut cells: Vec<i64> = Vec::new();
        let mut i: usize = 0;
        while i < self.cells.len()
            invariant
                i <= self@.len(),
                cells@ == self@.subrange(0, i as int),
            decreases self@.len() - i,
        {
            cells.push(self.cells[i]);
            i = i + 1;
        }
        assert(cells@ =~= self@);
        Transform { cells }
    }
}

/// The stack of cumulative transforms of a scene. It starts as the identity
/// alone and is never empty; the top is the transform in effect.
pub struct TransformStack {
    pub stack: Vec<Transform>,
}

impl View for TransformStack {
    type V = Seq<Seq<i64>>;

    open spec fn view(&self) -> Seq<Seq<i64>> {
        self.stack@.map_values(|t: Transform| t@)
    }
}

impl TransformStack {
    pub open spec fn wf(&self) -> bool {
        &&& self@.len() >= 1
        &&& forall|i: int| 0 <= i < self@.len() ==> (#[trigger] self@[i]).len() == 16
    }

    /// A stack holding only the identity.
    pub fn new() -> (s: TransformStack)
        ensures
            s.wf(),
            s@ == seq![identity_cells()],
    {
        let mut stack: Vec<Transform> = Vec::new();
        stack.push(Transform::identity());
        let s = TransformStack { stack };
        assert(s@ =~= seq![identity_cells()]);
        s
    }

    /// The transform in effect.
    pub fn top(&self) -> (t: &Transform)
        requires
            self.wf(),
        ensures
            t@ == self@.last(),
            t.wf(),
    {
        let n = self.stack.len();
        assert(self@[n - 1] == self.stack@[n - 1]@);
        &self.stack[n - 1]
    }

    /// Pushes a copy of the top.
    pub fn push_copy(&mut self)
        requires
            old(self).wf(),
        ensures
            final(self).wf(),
            final(self)@ == old(self)@.push(old(self)@.last()),
    {
        let n = self.stack.len();
        assert(self@[n - 1] == self.stack@[n - 1]@);
        let t = self.stack[n - 1].copy();
        self.stack.push(t);
        assert(self@ =~= old(self)@.push(old(self)@.last()));
    }

    /// Removes the top, unless it is the only transform left; returns
    /// whether it did.
    pub fn pop(&mut self) -> (popped: bool)
        requires
            old(self).wf(),
        ensures
            final(self).wf(),
            popped == (old(self)@.len() > 1),
            final(self)@ == (if popped {
                old(self)@.drop_last()
            } else {
                old(self)@
            }),
    {
        if self.stack.len() > 1 {
            self.stack.pop();
            assert(self@ =~= old(self)@.drop_last());
            true
        } else {
            false
        }
    }

    /// Replaces the top `parent` with `parent * local`: `local` then takes
    /// effect inside everything already on the stack.
    pub fn compose(&mut self, local: &Transform)
        requires
            old(self).wf(),
            local.wf(),
        ensures
            final(self).wf(),
            final(self)@ == old(self)@.drop_last().push(product(old(self)@.last(), local@)),
    {
        let n = self.stack.len();
        assert(self@[n - 1] == self.stack@[n - 1]@);
        let mut t = local.copy();
        t.multiply_matrixes(&self.stack[n - 1]);
        self.stack.set(n - 1, t);
        assert(self@ =~= old(self)@.drop_last().push(product(old(self)@.last(), local@)));
    }
}

proof fn lemma_fmul_one(v: int)
    requires
        i64::MIN <= v <= i64::MAX,
    ensures
        clamp64(fmul(v, SCALE as int)) == v,
{
    if v >= 0 {
        vstd::arithmetic::div_mod::lemma_div_by_multiple(v, 10000);
    } else {
        vstd::arithmetic::div_mod::lemma_div_by_multiple(-v, 10000);
        assert(-(v * 10000) == (-v) * 10000) by (nonlinear_arith);
    }
}

} // verus!
