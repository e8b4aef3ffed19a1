use vstd::prelude::*;

use crate::color::{sat_add, Color};
use crate::geometry::SCALE;
use crate::matrix::{clamp64, fmul, tdiv};
use crate::reflect::ReflectionValue;

verus! {

/// Largest component magnitude that `normalize` accepts.
pub const NORM_LIMIT: i64 = 0x2000_0000_0000_0000;

/// The sum of the squares of the components.
pub open spec fn sum_sq(v: Seq<i64>) -> int
    decreases v.len(),
{
    if v.len() == 0 {
        0
    } else {
        sum_sq(v.drop_last()) + v.last() * v.last()
    }
}

/// `m` is the square root of `n`, rounded down.
pub open spec fn is_isqrt(m: int, n: int) -> bool {
    0 <= m && m * m <= n < (m + 1) * (m + 1)
}

/// The length of a vector of fixed-point components, in the same units,
/// rounded down.
pub open spec fn magnitude(v: Seq<i64>) -> int {
    choose|m: int| is_isqrt(m, sum_sq(v))
}

/// The vector scaled to unit length (one is `SCALE`), each component
/// truncated towards zero; a zero vector is left as it is.
pub open spec fn normalized(v: Seq<i64>) -> Seq<i64> {
    let m = magnitude(v);
    if m == 0 {
        v
    } else {
        Seq::new(v.len(), |i: int| tdiv(v[i] * SCALE, m) as i64)
    }
}

/// The sum of the fixed-point products of the first `n` components.
pub open spec fn dot_prefix(a: Seq<i64>, b: Seq<i64>, n: int) -> int
    decreases n,
{
    if n <= 0 {
        0
    } else {
        dot_prefix(a, b, n - 1) + fmul(a[n - 1] as int, b[n - 1] as int)
    }
}

/// The dot product over the shorter of the two lengths, held to the range
/// of `i64`.
pub open spec fn dot(a: Seq<i64>, b: Seq<i64>) -> int {
    let n = if a.len() <= b.len() {
        a.len()
    } else {
        b.len()
    };
    clamp64(dot_prefix(a, b, n as int))
}

pub open spec fn fits_norm(v: Seq<i64>) -> bool {
    v.len() <= 16 && forall|i: int| 0 <= i < v.len() ==> -NORM_LIMIT <= #[trigger] v[i] <= NORM_LIMIT
}

proof fn lemma_square_monotone(a: int, b: int)
    requires
        0 <= a <= b,
    ensures
        a * a <= b * b,
{
    assert(a * a <= b * b) by (nonlinear_arith)
        requires
            0 <= a <= b,
    ;
}

proof fn lemma_sum_sq_covers(v: Seq<i64>)
    ensures
        sum_sq(v) >= 0,
        forall|k: int| 0 <= k < v.len() ==> (#[trigger] v[k]) * v[k] <= sum_sq(v),
    decreases v.len(),
{
    if v.len() > 0 {
        let u = v.drop_last();
        lemma_sum_sq_covers(u);
        let c = v.last() as int;
        assert(0 <= c * c) by (nonlinear_arith);
        assert forall|k: int| 0 <= k < v.len() implies (#[trigger] v[k]) * v[k] <= sum_sq(v) by {
            if k < v.len() - 1 {
                assert(v[k] == u[k]);
            }
        }
    }
}

proof fn lemma_isqrt_unique(m: int, k: int, n: int)
    requires
        is_isqrt(m, n),
        is_isqrt(k, n),
    ensures
        m == k,
{
    if m < k {
        lemma_square_monotone(m + 1, k);
    } else if k < m {
        lemma_square_monotone(k + 1, m);
    }
}

/// The square root of `n`, rounded down.
pub fn isqrt(n: u128) -> (r: u64)
    ensures
        is_isqrt(r as int, n as int),
{
    let mut lo: u128 = 0;
    let mut hi: u128 = 0x1_0000_0000_0000_0000;
    assert(hi * hi > n) by (nonlinear_arith)
        requires
            hi == 0x1_0000_0000_0000_0000,
            n <= u128::MAX,
    ;
    while hi - lo > 1
        invariant
            lo < hi <= 0x1_0000_0000_0000_0000,
            lo * lo <= n,
            n < hi * hi,
        decreases hi - lo,
    {
        let mid = lo + (hi - lo) / 2;
        assert(mid * mid <= 0xffff_ffff_ffff_ffff * 0xffff_ffff_ffff_ffff) by (nonlinear_arith)
            requires
                mid < 0x1_0000_0000_0000_0000,
        ;
        if mid * mid <= n {
            lo = mid;
        } else {
            hi = mid;
        }
    }
    assert(hi == lo + 1);
    lo as u64
}

/// Scales `vector` in place to unit length; a zero vector is left as it is.
pub fn normalize(vector: &mut Vec<i64>)
    requires
        fits_norm(old(vector)@),
    ensures
        final(vector)@ == normalized(old(vector)@),
        fits_norm(final(vector)@),
        forall|i: int|
            0 <= i < final(vector)@.len() && magnitude(old(vector)@) != 0 ==> -SCALE
                <= #[trigger] final(vector)@[i] <= SCALE,
{
    let n = vector.len();
    let mut total: u128 = 0;
    let mut i: usize = 0;
    while i < n
        invariant
            i <= n,
            n == vector@.len(),
            n <= 16,
            fits_norm(vector@),
            total as int == sum_sq(vector@.subrange(0, i as int)),
            total <= i * 0x400_0000_0000_0000_0000_0000_0000_0000,
        decreases n - i,
    {
        let c = vector[i];
        proof {
            assert(c * c <= 0x400_0000_0000_0000_0000_0000_0000_0000) by (nonlinear_arith)
                requires
                    -NORM_LIMIT <= c <= NORM_LIMIT,
            ;
            assert(0 <= c * c) by (nonlinear_arith);
            let s = vector@.subrange(0, i + 1);
            assert(s.drop_last() =~= vector@.subrange(0, i as int));
            assert(s.last() == c);
        }
        let c2: u128 = (c as i128 * c as i128) as u128;
        total = total + c2;
        i = i + 1;
    }
    assert(vector@.subrange(0, n as int) =~= vector@);
    let m = isqrt(total);
    proof {
        let w = choose|k: int| is_isqrt(k, sum_sq(vector@));
        assert(is_isqrt(m as int, sum_sq(vector@)));
        lemma_isqrt_unique(w, m as int, sum_sq(vector@));
    }
    if m == 0 {
        return;
    }
    let ghost orig = vector@;
    proof {
        lemma_sum_sq_covers(orig);
    }
    let mut j: usize = 0;
    while j < n
        invariant
            j <= n,
            n == vector@.len(),
            n == orig.len(),
            n <= 16,
            m as int == magnitude(orig),
            is_isqrt(m as int, sum_sq(orig)),
            m > 0,
            fits_norm(orig),
            forall|k: int| 0 <= k < n ==> (#[trigger] orig[k]) * orig[k] <= sum_sq(orig),
            forall|k: int| 0 <= k < j ==> vector@[k] == tdiv(orig[k] * SCALE, m as int) as i64,
            forall|k: int| 0 <= k < j ==> -SCALE <= #[trigger] vector@[k] <= SCALE,
            forall|k: int| j <= k < n ==> vector@[k] == orig[k],
        decreases n - j,
    {
        let c = vector[j];
        proof {
            assert(c == orig[j as int]);
            lemma_component_bound(c as int, m as int, sum_sq(orig));
        }
        let scaled: i128 = c as i128 * 10000;
        let q: i128 = if scaled >= 0 {
            scaled / (m as i128)
        } else {
            -((-scaled) / (m as i128))
        };
        vector.set(j, q as i64);
        j = j + 1;
    }
    assert(vector@ =~= normalized(orig));
}

/// A component no longer than the vector stays within one unit after
/// scaling.
proof fn lemma_component_bound(c: int, m: int, s: int)
    requires
        c * c <= s,
        is_isqrt(m, s),
        m > 0,
    ensures
        -SCALE <= tdiv(c * SCALE, m) <= SCALE,
{
    let a = if c >= 0 { c } else { -c };
    assert(a * a == c * c) by (nonlinear_arith)
        requires
            a == c || a == -c,
    ;
    if a > m {
        lemma_square_monotone(m + 1, a);
    }
    assert(a <= m);
    assert(a * SCALE <= m * SCALE) by (nonlinear_arith)
        requires
            0 <= a <= m,
    ;
    vstd::arithmetic::div_mod::lemma_div_is_ordered(a * SCALE, m * SCALE, m);
    vstd::arithmetic::div_mod::lemma_div_by_multiple(SCALE as int, m);
    assert(SCALE * m == m * SCALE) by (nonlinear_arith);
    vstd::arithmetic::div_mod::lemma_div_pos_is_pos(a * SCALE, m);
    if c < 0 {
        assert(-(c * SCALE) == a * SCALE) by (nonlinear_arith)
            requires
                a == -c,
        ;
    }
}

/// Each component multiplied by a fixed-point scalar.
pub open spec fn scaled(v: Seq<i64>, k: int) -> Seq<i64> {
    Seq::new(v.len(), |i: int| clamp64(fmul(v[i] as int, k)) as i64)
}

/// `a - b` component by component, over the length of `a`.
pub open spec fn difference(a: Seq<i64>, b: Seq<i64>) -> Seq<i64> {
    Seq::new(a.len(), |i: int| clamp64(a[i] - b[i]) as i64)
}

/// The light direction `l` mirrored about the normal `n`: `2 (n . l) n - l`.
pub open spec fn reflected(n: Seq<i64>, l: Seq<i64>) -> Seq<i64> {
    difference(scaled(n, clamp64(2 * dot(n, l))), l)
}

/// One channel of a lighting term: intensity `k` times the light's channel
/// times the coefficient, truncated, and held between 0 and 255 (a negative
/// contribution is no light).
pub open spec fn channel(k: int, light: u8, reflect: i64) -> u8 {
    let v = tdiv(k * light * reflect, SCALE * SCALE);
    if v < 0 {
        0
    } else if v > 255 {
        255
    } else {
        v as u8
    }
}

pub open spec fn lit(k: int, light: Color, reflect: ReflectionValue) -> Color {
    Color {
        r: channel(k, light.r, reflect.r),
        g: channel(k, light.g, reflect.g),
        b: channel(k, light.b, reflect.b),
    }
}

pub open spec fn color_sum(a: Color, b: Color) -> Color {
    Color { r: sat_add(a.r, b.r), g: sat_add(a.g, b.g), b: sat_add(a.b, b.b) }
}

/// The color of a surface with unit normal `n`, seen along unit `view`, lit
/// by an ambient light and by one point light in unit direction `l`: the
/// saturating sum of the ambient, diffuse and specular terms.
pub open spec fn shade(
    n: Seq<i64>,
    view: Seq<i64>,
    ambient_light: Color,
    light_color: Color,
    l: Seq<i64>,
    ambient_reflect: ReflectionValue,
    diffuse_reflect: ReflectionValue,
    specular_reflect: ReflectionValue,
) -> Color {
    color_sum(
        color_sum(
            lit(SCALE as int, ambient_light, ambient_reflect),
            lit(dot(n, l), light_color, diffuse_reflect),
        ),
        lit(dot(reflected(n, l), view), light_color, specular_reflect),
    )
}

/// The dot product over the shorter length, each product a fixed-point one.
pub fn dot_product(lhs: &Vec<i64>, rhs: &Vec<i64>) -> (r: i64)
    requires
        lhs@.len() <= 0x1000 || rhs@.len() <= 0x1000,
    ensures
        r as int == dot(lhs@, rhs@),
{
    let n = if lhs.len() <= rhs.len() {
        lhs.len()
    } else {
        rhs.len()
    };
    let mut total: i128 = 0;
    let mut i: usize = 0;
    while i < n
        invariant
            i <= n,
            n <= lhs@.len(),
            n <= rhs@.len(),
            n <= 0x1000,
            n == (if lhs@.len() <= rhs@.len() { lhs@.len() } else { rhs@.len() }),
            total as int == dot_prefix(lhs@, rhs@, i as int),
            -(i as int) * 0x2_0000_0000_0000_0000_0000_0000_0000 <= total <= (i as int) * 0x2_0000_0000_0000_0000_0000_0000_0000,
        decreases n - i,
    {
        let p = fmul_i64(lhs[i], rhs[i]);
        total = total + p;
        i = i + 1;
    }
    if total < i64::MIN as i128 {
        i64::MIN
    } else if total > i64::MAX as i128 {
        i64::MAX
    } else {
        total as i64
    }
}

/// Fixed-point product of two `i64`, truncated towards zero.
fn fmul_i64(a: i64, b: i64) -> (r: i128)
    ensures
        r as int == fmul(a as int, b as int),
        -0x2_0000_0000_0000_0000_0000_0000_0000 <= r <= 0x2_0000_0000_0000_0000_0000_0000_0000,
{
    crate::matrix::fmul_exec(a, b)
}

/// Each component multiplied by the fixed-point `scalar`.
pub fn vector_times_scalar(vector: &Vec<i64>, scalar: i64) -> (r: Vec<i64>)
    ensures
        r@ == scaled(vector@, scalar as int),
{
    let n = vector.len();
    let mut out: Vec<i64> = Vec::new();
    let mut i: usize = 0;
    while i < n
        invariant
            i <= n,
            n == vector@.len(),
            out@.len() == i,
            forall|k: int| 0 <= k < i ==> out@[k] == clamp64(fmul(vector@[k] as int, scalar as int)) as i64,
        decreases n - i,
    {
        let p = fmul_i64(vector[i], scalar);
        out.push(crate::matrix::clamp_exec(p));
        i = i + 1;
    }
    assert(out@ =~= scaled(vector@, scalar as int));
    out
}

/// `lhs - rhs` component by component, over the length of `lhs`.
pub fn vector_subtraction(lhs: &Vec<i64>, rhs: &Vec<i64>) -> (r: Vec<i64>)
    requires
        rhs@.len() >= lhs@.len(),
    ensures
        r@ == difference(lhs@, rhs@),
{
    let n = lhs.len();
    let mut out: Vec<i64> = Vec::new();
    let mut i: usize = 0;
    while i < n
        invariant
            i <= n,
            n == lhs@.len(),
            rhs@.len() >= n,
            out@.len() == i,
            forall|k: int| 0 <= k < i ==> out@[k] == clamp64(lhs@[k] - rhs@[k]) as i64,
        decreases n - i,
    {
        out.push(crate::matrix::clamp_exec(lhs[i] as i128 - rhs[i] as i128));
        i = i + 1;
    }
    assert(out@ =~= difference(lhs@, rhs@));
    out
}

fn channel_exec(k: i64, light: u8, reflect: i64) -> (c: u8)
    requires
        -crate::reflect::REFLECT_LIMIT <= reflect <= crate::reflect::REFLECT_LIMIT,
    ensures
        c == channel(k as int, light, reflect),
{
    proof {
        assert(-0x80_0000_0000_0000_0000 <= k * light <= 0x80_0000_0000_0000_0000) by (nonlinear_arith)
            requires
                i64::MIN <= k <= i64::MAX,
                0 <= light <= 255,
        ;
        assert(-0x8000_0000_0000_0000_0000_0000_0000 <= (k * light) * reflect <= 0x8000_0000_0000_0000_0000_0000_0000) by (nonlinear_arith)
            requires
                -0x80_0000_0000_0000_0000 <= k * light <= 0x80_0000_0000_0000_0000,
                -0x100_0000_0000 <= reflect <= 0x100_0000_0000,
        ;
    }
    let p: i128 = k as i128 * light as i128 * reflect as i128;
    let v: i128 = if p >= 0 {
        p / 100000000
    } else {
        -((-p) / 100000000)
    };
    if v < 0 {
        0
    } else if v > 255 {
        255
    } else {
        v as u8
    }
}

impl Color {
    /// A lighting term: intensity `constant` times the light's color times
    /// the reflection coefficients, channel by channel, held between 0 and
    /// 255.
    pub fn color_with_lighting(constant: i64, light_color: &Color, reflect: &ReflectionValue) -> (c: Color)
        requires
            reflect.in_range(),
        ensures
            c == lit(constant as int, *light_color, *reflect),
    {
        Color {
            r: channel_exec(constant, light_color.r, reflect.r),
            g: channel_exec(constant, light_color.g, reflect.g),
            b: channel_exec(constant, light_color.b, reflect.b),
        }
    }
}

/// The ambient term: the ambient light scaled by the ambient coefficients.
pub fn calculate_ambient(ambient_light: &Color, ambient_reflect: &ReflectionValue) -> (c: Color)
    requires
        ambient_reflect.in_range(),
    ensures
        c == lit(SCALE as int, *ambient_light, *ambient_reflect),
{
    Color::color_with_lighting(SCALE, ambient_light, ambient_reflect)
}

/// The diffuse term: the light scaled by how directly the surface faces it.
pub fn calculate_diffuse(
    normalized_diffuse_light_vector: &Vec<i64>,
    diffuse_light_color: &Color,
    diffuse_reflect: &ReflectionValue,
    normalized_normal: &Vec<i64>,
) -> (c: Color)
    requires
        diffuse_reflect.in_range(),
        normalized_normal@.len() <= 16,
    ensures
        c == lit(dot(normalized_normal@, normalized_diffuse_light_vector@), *diffuse_light_color, *diffuse_reflect),
{
    let k = dot_product(normalized_normal, normalized_diffuse_light_vector);
    Color::color_with_lighting(k, diffuse_light_color, diffuse_reflect)
}

/// The specular term: the light scaled by how closely its reflection about
/// the normal points along the view, after normalizing `view` in place.
pub fn calculate_specular(
    normalized_specular_light_vector: &Vec<i64>,
    specular_light_color: &Color,
    specular_reflect: &ReflectionValue,
    view: &mut Vec<i64>,
    normalized_normal: &Vec<i64>,
) -> (c: Color)
    requires
        specular_reflect.in_range(),
        normalized_normal@.len() <= 16,
        normalized_specular_light_vector@.len() >= normalized_normal@.len(),
        fits_norm(old(view)@),
    ensures
        final(view)@ == normalized(old(view)@),
        c == lit(
            dot(reflected(normalized_normal@, normalized_specular_light_vector@), final(view)@),
            *specular_light_color,
            *specular_reflect,
        ),
{
    let d = dot_product(normalized_normal, normalized_specular_light_vector);
    let twice = crate::matrix::clamp_exec(2 * d as i128);
    let along = vector_times_scalar(normalized_normal, twice);
    let r = vector_subtraction(&along, normalized_specular_light_vector);
    normalize(view);
    let k = dot_product(&r, view);
    Color::color_with_lighting(k, specular_light_color, specular_reflect)
}

/// The color of a surface under the lighting model. Normalizes `normal`,
/// `point_light_vector` and `view` in place, then sums the ambient, diffuse
/// and specular terms with saturation.
pub fn get_lighting(
    normal: &mut Vec<i64>,
    view: &mut Vec<i64>,
    ambient_light: &Color,
    point_light_color: &Color,
    point_light_vector: &mut Vec<i64>,
    ambient_reflect: &ReflectionValue,
    diffuse_reflect: &ReflectionValue,
    specular_reflect: &ReflectionValue,
) -> (c: Color)
    requires
        fits_norm(old(normal)@),
        fits_norm(old(view)@),
        fits_norm(old(point_light_vector)@),
        old(point_light_vector)@.len() >= old(normal)@.len(),
        ambient_reflect.in_range(),
        diffuse_reflect.in_range(),
        specular_reflect.in_range(),
    ensures
        final(normal)@ == normalized(old(normal)@),
        final(view)@ == normalized(old(view)@),
        final(point_light_vector)@ == normalized(old(point_light_vector)@),
        c == shade(
            final(normal)@,
            final(view)@,
            *ambient_light,
            *point_light_color,
            final(point_light_vector)@,
            *ambient_reflect,
            *diffuse_reflect,
            *specular_reflect,
        ),
{
    normalize(normal);
    normalize(point_light_vector);
    let ambient_color = calculate_ambient(ambient_light, ambient_reflect);
    let diffuse_color = calculate_diffuse(point_light_vector, point_light_color, diffuse_reflect, normal);
    let specular_color = calculate_specular(
        point_light_vector,
        point_light_color,
        specular_reflect,
        view,
        normal,
    );
    ambient_color.add(diffuse_color).add(specular_color)
}

} // verus!
