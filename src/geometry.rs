use vstd::prelude::*;

use crate::matrix::{clamp64, clamp_exec, fmul, fmul_exec};

verus! {

/// Fixed-point coordinates count this many parts of one unit (one pixel).
pub const SCALE: i64 = 10000;

/// A point in object or screen space, each coordinate a fixed-point number
/// (see `SCALE`). Its homogeneous coordinate is always one.
#[derive(Clone, Copy, Debug, PartialEq, Eq, Structural)]
pub struct Vertex {
    pub x: i64,
    pub y: i64,
    pub z: i64,
}

/// A fixed-point value truncated towards zero to whole units.
pub open spec fn snap(v: int) -> int {
    if v >= 0 {
        v / (SCALE as int)
    } else {
        -((-v) / (SCALE as int))
    }
}

/// The pixel coordinate of a fixed-point value: truncated towards zero, then
/// held to the range of `i32`.
pub open spec fn pixel(v: int) -> int {
    let s = snap(v);
    if s < i32::MIN {
        i32::MIN as int
    } else if s > i32::MAX {
        i32::MAX as int
    } else {
        s
    }
}

/// The whole-unit position of a vertex.
pub open spec fn snapped(v: Vertex) -> (int, int, int) {
    (snap(v.x as int), snap(v.y as int), snap(v.z as int))
}

/// A fixed-point value truncated towards zero to whole units.
pub fn snap_exec(v: i64) -> (r: i64)
    ensures
        r as int == snap(v as int),
{
    if v >= 0 {
        v / SCALE
    } else {
        let m: u64 = (-(v as i128)) as u64;
        let q: u64 = m / (SCALE as u64);
        proof {
            vstd::arithmetic::div_mod::lemma_div_is_ordered(m as int, 0x8000_0000_0000_0000, 10000);
        }
        -(q as i64)
    }
}

/// The pixel coordinate of a fixed-point value.
pub fn to_pixel(v: i64) -> (r: i32)
    ensures
        r as int == pixel(v as int),
{
    let s = snap_exec(v);
    if s < i32::MIN as i64 {
        i32::MIN
    } else if s > i32::MAX as i64 {
        i32::MAX
    } else {
        s as i32
    }
}

/// A list of points. Read two at a time it is a list of edges; three at a
/// time, a list of triangles.
pub struct Matrix {
    pub points: Vec<Vertex>,
}

impl View for Matrix {
    type V = Seq<Vertex>;

    open spec fn view(&self) -> Seq<Vertex> {
        self.points@
    }
}

/// Three vertices that stay apart when truncated to whole units.
pub open spec fn distinct_snapped(a: Vertex, b: Vertex, c: Vertex) -> bool {
    snapped(a) != snapped(b) && snapped(a) != snapped(c) && snapped(b) != snapped(c)
}

/// Largest coordinate magnitude for which normals are computed exactly.
pub const FIT_LIMIT: i64 = 0x2000_0000_0000_0000;

/// Bound on each component of the normal of a triangle whose points fit.
pub const NORMAL_LIMIT: i128 = 0x2000_0000_0000_0000_0000_0000_0000_0000;

pub open spec fn vertex_fits(v: Vertex) -> bool {
    -FIT_LIMIT <= v.x <= FIT_LIMIT && -FIT_LIMIT <= v.y <= FIT_LIMIT && -FIT_LIMIT <= v.z
        <= FIT_LIMIT
}

/// The cross product `(b - a) x (c - a)`: a normal of the triangle, not
/// normalized, in squared fixed-point units.
pub open spec fn cross(a: Vertex, b: Vertex, c: Vertex) -> (int, int, int) {
    let ax = b.x - a.x;
    let ay = b.y - a.y;
    let az = b.z - a.z;
    let bx = c.x - a.x;
    let by = c.y - a.y;
    let bz = c.z - a.z;
    (ay * bz - az * by, az * bx - ax * bz, ax * by - ay * bx)
}

/// The list after offering it one triangle: kept unless degenerate.
pub open spec fn push_tri(s: Seq<Vertex>, t: (Vertex, Vertex, Vertex)) -> Seq<Vertex> {
    if distinct_snapped(t.0, t.1, t.2) {
        s.push(t.0).push(t.1).push(t.2)
    } else {
        s
    }
}

/// The list after offering it triangles in order.
pub open spec fn push_tris(s: Seq<Vertex>, tris: Seq<(Vertex, Vertex, Vertex)>) -> Seq<Vertex>
    decreases tris.len(),
{
    if tris.len() == 0 {
        s
    } else {
        push_tris(push_tri(s, tris[0]), tris.drop_first())
    }
}

pub open spec fn vx(x: int, y: int, z: int) -> Vertex {
    Vertex { x: x as i64, y: y as i64, z: z as i64 }
}

/// The twelve triangles of a box, two per face, each wound so that its
/// normal points out of the box. `(x, y, z)` is the upper left front corner;
/// the box extends `width` along x, `height` down y and `depth` back along z.
pub open spec fn box_tris(x: int, y: int, z: int, width: int, height: int, depth: int) -> Seq<
    (Vertex, Vertex, Vertex),
> {
    let x1 = x + width;
    let y1 = y - height;
    let z1 = z - depth;
    seq![
        (vx(x1, y1, z), vx(x1, y, z), vx(x, y, z)),
        (vx(x1, y1, z), vx(x, y, z), vx(x, y1, z)),
        (vx(x1, y, z), vx(x1, y1, z1), vx(x1, y, z1)),
        (vx(x1, y1, z), vx(x1, y1, z1), vx(x1, y, z)),
        (vx(x1, y1, z1), vx(x, y1, z1), vx(x1, y, z1)),
        (vx(x, y1, z1), vx(x, y, z1), vx(x1, y, z1)),
        (vx(x, y1, z1), vx(x, y, z), vx(x, y, z1)),
        (vx(x, y1, z1), vx(x, y1, z), vx(x, y, z)),
        (vx(x, y, z1), vx(x, y, z), vx(x1, y, z)),
        (vx(x1, y, z), vx(x1, y, z1), vx(x, y, z1)),
        (vx(x, y1, z), vx(x, y1, z1), vx(x1, y1, z1)),
        (vx(x, y1, z), vx(x1, y1, z1), vx(x1, y1, z)),
    ]
}

/// The two triangles that a surface grid contributes at `(lat, longt)`.
/// Grid indices wrap around the number of points `n`, which closes the seam.
pub open spec fn sphere_pair(grid: Seq<Vertex>, step: int, lat: int, longt: int) -> Seq<
    (Vertex, Vertex, Vertex),
> {
    let n = grid.len() as int;
    let i = lat * step + longt;
    seq![
        (grid[i % n], grid[(i + 1) % n], grid[(i + step + 1) % n]),
        (grid[i % n], grid[(i + step + 1) % n], grid[(i + step) % n]),
    ]
}

/// The two triangles that a torus grid contributes at `(lat, longt)`.
pub open spec fn torus_pair(grid: Seq<Vertex>, step: int, lat: int, longt: int) -> Seq<
    (Vertex, Vertex, Vertex),
> {
    let n = grid.len() as int;
    let i = lat * step + longt;
    seq![
        (grid[i], grid[i + 1], grid[(i + step + 1) % n]),
        (grid[(i + step + 1) % n], grid[i + 1], grid[(i + step + 2) % n]),
    ]
}

/// The triangles a surface grid yields from `(lat, longt)` on, walking
/// `longt` fastest, both from 0 to `step`.
pub open spec fn surface_tris(
    grid: Seq<Vertex>,
    step: int,
    torus: bool,
    lat: int,
    longt: int,
) -> Seq<(Vertex, Vertex, Vertex)>
    decreases step + 1 - lat, step + 2 - longt,
{
    if lat > step || step < 0 {
        seq![]
    } else if longt > step {
        surface_tris(grid, step, torus, lat + 1, 0)
    } else {
        (if torus {
            torus_pair(grid, step, lat, longt)
        } else {
            sphere_pair(grid, step, lat, longt)
        }) + surface_tris(grid, step, torus, lat, longt + 1)
    }
}

proof fn lemma_push_tris_step(s: Seq<Vertex>, tris: Seq<(Vertex, Vertex, Vertex)>, k: int)
    requires
        0 <= k < tris.len(),
    ensures
        push_tris(s, tris.subrange(k, tris.len() as int)) == push_tris(
            push_tri(s, tris[k]),
            tris.subrange(k + 1, tris.len() as int),
        ),
{
    assert(tris.subrange(k, tris.len() as int).drop_first() =~= tris.subrange(
        k + 1,
        tris.len() as int,
    ));
}

/// Offering triangles to a list keeps the points it held and appends only
/// whole triangles, each with its three vertices apart in whole units. So
/// every triangle that a shape builder adds is non-degenerate.
pub proof fn lemma_push_tris_keeps_only_proper(s: Seq<Vertex>, tris: Seq<(Vertex, Vertex, Vertex)>)
    ensures
        s.len() <= push_tris(s, tris).len() <= s.len() + 3 * tris.len(),
        (push_tris(s, tris).len() - s.len()) % 3 == 0,
        push_tris(s, tris).subrange(0, s.len() as int) == s,
        forall|i: int|
            s.len() <= i && i + 2 < push_tris(s, tris).len() && (i - s.len()) % 3 == 0
                ==> distinct_snapped(
                #[trigger] push_tris(s, tris)[i],
                push_tris(s, tris)[i + 1],
                push_tris(s, tris)[i + 2],
            ),
    decreases tris.len(),
{
    let r = push_tris(s, tris);
    if tris.len() == 0 {
        assert(r.subrange(0, s.len() as int) =~= s);
    } else {
        let s2 = push_tri(s, tris[0]);
        lemma_push_tris_keeps_only_proper(s2, tris.drop_first());
        assert(r == push_tris(s2, tris.drop_first()));
        assert(s2.subrange(0, s.len() as int) =~= s);
        assert(r.subrange(0, s.len() as int) =~= r.subrange(0, s2.len() as int).subrange(0, s.len() as int));
        assert forall|i: int|
            s.len() <= i && i + 2 < r.len() && (i - s.len()) % 3 == 0 implies distinct_snapped(
            #[trigger] r[i],
            r[i + 1],
            r[i + 2],
        ) by {
            if s2.len() == s.len() + 3 && i == s.len() {
                assert(r[i] == r.subrange(0, s2.len() as int)[i]);
                assert(r[i + 1] == r.subrange(0, s2.len() as int)[i + 1]);
                assert(r[i + 2] == r.subrange(0, s2.len() as int)[i + 2]);
            } else if s2.len() == s.len() + 3 {
                assert(i >= s.len() + 3);
                assert((i - s2.len()) % 3 == 0);
            }
        }
    }
}

proof fn lemma_surface_tris_len(grid: Seq<Vertex>, step: int, torus: bool, lat: int, longt: int)
    requires
        0 <= step,
        0 <= lat <= step + 1,
        0 <= longt <= step + 1,
    ensures
        surface_tris(grid, step, torus, lat, longt).len() == if lat > step {
            0
        } else {
            2 * ((step - lat) * (step + 1) + (step + 1 - longt))
        },
    decreases step + 1 - lat, step + 2 - longt,
{
    if lat > step {
    } else if longt > step {
        lemma_surface_tris_len(grid, step, torus, lat + 1, 0);
        assert((step - lat) * (step + 1) == (step - (lat + 1)) * (step + 1) + (step + 1)) by (nonlinear_arith);
    } else {
        lemma_surface_tris_len(grid, step, torus, lat, longt + 1);
        let pair = if torus {
            torus_pair(grid, step, lat, longt)
        } else {
            sphere_pair(grid, step, lat, longt)
        };
        assert(pair.len() == 2);
        assert(surface_tris(grid, step, torus, lat, longt) == pair + surface_tris(grid, step, torus, lat, longt + 1));
    }
}

/// A sphere stitched from a grid of `(step + 1)^2` points adds whole
/// triangles, at most two per grid point, and every one of them has its
/// three vertices apart in whole units: the triangles that collapse at the
/// poles are left out.
pub proof fn lemma_sphere_triangles(s: Seq<Vertex>, grid: Seq<Vertex>, step: int)
    requires
        0 <= step,
        grid.len() == (step + 1) * (step + 1),
    ensures
        ({
            let r = push_tris(s, surface_tris(grid, step, false, 0, 0));
            &&& r.subrange(0, s.len() as int) == s
            &&& (r.len() - s.len()) % 3 == 0
            &&& r.len() - s.len() <= 6 * (step + 1) * (step + 1)
            &&& forall|i: int|
                s.len() <= i && i + 2 < r.len() && (i - s.len()) % 3 == 0 ==> distinct_snapped(
                    #[trigger] r[i],
                    r[i + 1],
                    r[i + 2],
                )
        }),
{
    let tris = surface_tris(grid, step, false, 0, 0);
    lemma_surface_tris_len(grid, step, false, 0, 0);
    assert(tris.len() == 2 * (step + 1) * (step + 1)) by (nonlinear_arith)
        requires
            tris.len() == 2 * ((step - 0) * (step + 1) + (step + 1 - 0)),
    ;
    assert(3 * tris.len() == 6 * (step + 1) * (step + 1)) by (nonlinear_arith)
        requires
            tris.len() == 2 * (step + 1) * (step + 1),
    ;
    lemma_push_tris_keeps_only_proper(s, tris);
}

proof fn lemma_mul_bound(a: int, b: int)
    requires
        -0x4000_0000_0000_0000 <= a <= 0x4000_0000_0000_0000,
        -0x4000_0000_0000_0000 <= b <= 0x4000_0000_0000_0000,
    ensures
        -0x1000_0000_0000_0000_0000_0000_0000_0000 <= a * b <= 0x1000_0000_0000_0000_0000_0000_0000_0000,
{
    assert(-0x1000_0000_0000_0000_0000_0000_0000_0000 <= a * b <= 0x1000_0000_0000_0000_0000_0000_0000_0000) by (nonlinear_arith)
        requires
            -0x4000_0000_0000_0000 <= a <= 0x4000_0000_0000_0000,
            -0x4000_0000_0000_0000 <= b <= 0x4000_0000_0000_0000,
    ;
}

proof fn lemma_grid_index(lat: int, longt: int, step: int)
    requires
        0 <= lat <= step,
        0 <= longt <= step,
    ensures
        0 <= lat * step + longt,
        lat * step + longt + step + 2 <= (step + 1) * (step + 1) + 1,
        step >= 1 ==> lat * step + longt + 1 < (step + 1) * (step + 1),
{
    assert(0 <= lat * step <= step * step) by (nonlinear_arith)
        requires
            0 <= lat <= step,
    ;
    assert((step + 1) * (step + 1) == step * step + 2 * step + 1) by (nonlinear_arith);
}

/// Truncation moves a value by less than one unit, towards zero.
proof fn lemma_snap_bounds(v: int)
    ensures
        SCALE * snap(v) - SCALE < v < SCALE * snap(v) + SCALE,
        v >= 0 ==> SCALE * snap(v) <= v,
        v < 0 ==> v <= SCALE * snap(v),
{
    if v >= 0 {
        vstd::arithmetic::div_mod::lemma_fundamental_div_mod(v, SCALE as int);
        vstd::arithmetic::div_mod::lemma_mod_bound(v, SCALE as int);
    } else {
        vstd::arithmetic::div_mod::lemma_fundamental_div_mod(-v, SCALE as int);
        vstd::arithmetic::div_mod::lemma_mod_bound(-v, SCALE as int);
    }
}

/// Values less than one unit apart have pixel coordinates at most one apart,
/// in the same order.
pub proof fn lemma_pixel_close(a: int, b: int)
    requires
        a <= b,
        b - a < SCALE,
    ensures
        pixel(a) <= pixel(b) <= pixel(a) + 1,
{
    lemma_snap_bounds(a);
    lemma_snap_bounds(b);
    let sa = snap(a);
    let sb = snap(b);
    if b >= 0 && a >= 0 {
        assert(SCALE * sa <= a <= b < SCALE * sb + SCALE);
        assert(SCALE * sb <= b < a + SCALE < SCALE * sa + 2 * SCALE);
    } else if b < 0 && a < 0 {
        assert(SCALE * sa - SCALE < a <= b <= SCALE * sb);
        assert(SCALE * sb - SCALE < b);
    } else {
        assert(a < 0 <= b);
        assert(-SCALE < a);
        assert(sa == 0) by {
            assert(SCALE * sa - SCALE < a <= SCALE * sa);
        }
        assert(b < SCALE);
        assert(sb == 0) by {
            assert(SCALE * sb <= b < SCALE * sb + SCALE);
        }
    }
}

/// Pixel coordinates keep the order of the values.
pub proof fn lemma_pixel_monotone(a: int, b: int)
    requires
        a <= b,
    ensures
        pixel(a) <= pixel(b),
{
    lemma_snap_bounds(a);
    lemma_snap_bounds(b);
    if a >= 0 {
        vstd::arithmetic::div_mod::lemma_div_is_ordered(a, b, SCALE as int);
    } else if b < 0 {
        vstd::arithmetic::div_mod::lemma_div_is_ordered(-b, -a, SCALE as int);
    } else {
        vstd::arithmetic::div_mod::lemma_div_pos_is_pos(b, SCALE as int);
        vstd::arithmetic::div_mod::lemma_div_pos_is_pos(-a, SCALE as int);
    }
}

/// A table of fixed-point `(cos, sin)` pairs, one for each of `step + 1`
/// evenly spaced angles, every value within one unit.
pub open spec fn table_ok(t: Seq<(i64, i64)>, step: int) -> bool {
    &&& t.len() == step + 1
    &&& forall|k: int| 0 <= k < t.len() ==> -SCALE <= (#[trigger] t[k]).0 <= SCALE && -SCALE <= t[k].1 <= SCALE
}

/// A point of a sphere of radius `r` about `(cx, cy, cz)`: `half` holds the
/// cosine and sine of the angle along the half circle, `full` those of the
/// angle the half circle is turned by about the x axis.
pub open spec fn sphere_point(cx: i64, cy: i64, cz: i64, r: i64, half: (i64, i64), full: (i64, i64)) -> Vertex {
    let rs = clamp64(fmul(r as int, half.1 as int));
    Vertex {
        x: clamp64(fmul(r as int, half.0 as int) + cx) as i64,
        y: clamp64(fmul(rs, full.0 as int) + cy) as i64,
        z: clamp64(fmul(rs, full.1 as int) + cz) as i64,
    }
}

/// A point of a torus about `(cx, cy, cz)` with tube radius
/// `circle_radius` and ring radius `torus_radius`: `phi` holds the cosine and
/// sine of the angle about the y axis, `theta` those of the angle around the
/// tube.
pub open spec fn torus_point(
    cx: i64,
    cy: i64,
    cz: i64,
    circle_radius: i64,
    torus_radius: i64,
    phi: (i64, i64),
    theta: (i64, i64),
) -> Vertex {
    let ring = clamp64(fmul(circle_radius as int, theta.0 as int) + torus_radius);
    Vertex {
        x: clamp64(fmul(phi.0 as int, ring) + cx) as i64,
        y: clamp64(fmul(circle_radius as int, theta.1 as int) + cy) as i64,
        z: clamp64(fmul(phi.1 as int, ring) + cz) as i64,
    }
}

/// Point `t` of a circle of radius `r` about `(cx, cy)` in the plane
/// `z = cz`, from its table entry.
pub open spec fn circle_point(cx: i64, cy: i64, cz: i64, r: i64, a: (i64, i64)) -> Vertex {
    Vertex {
        x: clamp64(fmul(r as int, a.0 as int) + cx) as i64,
        y: clamp64(fmul(r as int, a.1 as int) + cy) as i64,
        z: cz,
    }
}

/// The edges of a sampled circle: sample `t` joined to the one before it,
/// the first joined to the point at angle zero, `(cx + r, cy)`.
pub open spec fn circle_edges(cx: i64, cy: i64, cz: i64, r: i64, table: Seq<(i64, i64)>) -> Seq<Vertex> {
    Seq::new(
        (2 * table.len()) as nat,
        |i: int|
            if i % 2 == 1 {
                circle_point(cx, cy, cz, r, table[i / 2])
            } else if i == 0 {
                Vertex { x: clamp64(r + cx) as i64, y: cy, z: cz }
            } else {
                circle_point(cx, cy, cz, r, table[i / 2 - 1])
            },
    )
}

proof fn lemma_grid_slot(j: int, row: int, col: int, w: int)
    requires
        0 <= col < w,
        0 <= row,
        j == row * w + col,
    ensures
        j / w == row,
        j % w == col,
{
    vstd::arithmetic::div_mod::lemma_fundamental_div_mod_converse(j, w, row, col);
}

impl Vertex {
    /// Whether the vertex lies within `FIT_LIMIT` on every axis.
    pub fn fits(&self) -> (r: bool)
        ensures
            r == vertex_fits(*self),
    {
        -FIT_LIMIT <= self.x && self.x <= FIT_LIMIT && -FIT_LIMIT <= self.y && self.y <= FIT_LIMIT
            && -FIT_LIMIT <= self.z && self.z <= FIT_LIMIT
    }
}

impl Matrix {
    /// An empty list.
    pub fn new() -> (m: Matrix)
        ensures
            m@ == Seq::<Vertex>::empty(),
    {
        Matrix { points: Vec::new() }
    }

    /// Appends one point.
    pub fn add_point(&mut self, x: i64, y: i64, z: i64)
        ensures
            final(self)@ == old(self)@.push(Vertex { x, y, z }),
    {
        self.points.push(Vertex { x, y, z });
    }

    /// Appends an edge: its two endpoints.
    pub fn add_edge(&mut self, x0: i64, y0: i64, z0: i64, x1: i64, y1: i64, z1: i64)
        ensures
            final(self)@ == old(self)@.push(Vertex { x: x0, y: y0, z: z0 }).push(
                Vertex { x: x1, y: y1, z: z1 },
            ),
    {
        self.add_point(x0, y0, z0);
        self.add_point(x1, y1, z1);
    }

    /// Appends an edge given in whole units.
    pub fn add_edge_int(&mut self, x0: i32, y0: i32, z0: i32, x1: i32, y1: i32, z1: i32)
        ensures
            final(self)@ == old(self)@.push(
                Vertex {
                    x: (x0 * SCALE) as i64,
                    y: (y0 * SCALE) as i64,
                    z: (z0 * SCALE) as i64,
                },
            ).push(
                Vertex {
                    x: (x1 * SCALE) as i64,
                    y: (y1 * SCALE) as i64,
                    z: (z1 * SCALE) as i64,
                },
            ),
    {
        self.add_edge(
            x0 as i64 * SCALE,
            y0 as i64 * SCALE,
            z0 as i64 * SCALE,
            x1 as i64 * SCALE,
            y1 as i64 * SCALE,
            z1 as i64 * SCALE,
        );
    }

    /// Appends a triangle, unless two of its vertices coincide once truncated
    /// to whole units: such a degenerate triangle is dropped.
    pub fn add_polygon(
        &mut self,
        x0: i64,
        y0: i64,
        z0: i64,
        x1: i64,
        y1: i64,
        z1: i64,
        x2: i64,
        y2: i64,
        z2: i64,
    )
        ensures
            ({
                let a = Vertex { x: x0, y: y0, z: z0 };
                let b = Vertex { x: x1, y: y1, z: z1 };
                let c = Vertex { x: x2, y: y2, z: z2 };
                final(self)@ == if distinct_snapped(a, b, c) {
                    old(self)@.push(a).push(b).push(c)
                } else {
                    old(self)@
                }
            }),
    {
        let (sx0, sy0, sz0) = (snap_exec(x0), snap_exec(y0), snap_exec(z0));
        let (sx1, sy1, sz1) = (snap_exec(x1), snap_exec(y1), snap_exec(z1));
        let (sx2, sy2, sz2) = (snap_exec(x2), snap_exec(y2), snap_exec(z2));
        let same01 = sx0 == sx1 && sy0 == sy1 && sz0 == sz1;
        let same02 = sx0 == sx2 && sy0 == sy2 && sz0 == sz2;
        let same12 = sx1 == sx2 && sy1 == sy2 && sz1 == sz2;
        if !same01 && !same02 && !same12 {
            self.add_point(x0, y0, z0);
            self.add_point(x1, y1, z1);
            self.add_point(x2, y2, z2);
        }
    }

    /// Whether every point lies within `FIT_LIMIT` on every axis.
    pub fn all_fit(&self) -> (r: bool)
        ensures
            r == forall|i: int| 0 <= i < self@.len() ==> vertex_fits(#[trigger] self@[i]),
    {
        let n = self.points.len();
        let mut i: usize = 0;
        while i < n
            invariant
                i <= n,
                n == self@.len(),
                forall|j: int| 0 <= j < i ==> vertex_fits(#[trigger] self@[j]),
            decreases n - i,
        {
            if !self.points[i].fits() {
                return false;
            }
            i = i + 1;
        }
        true
    }

    /// The surface normal `(v1 - v0) x (v2 - v0)` of the triangle whose
    /// first vertex is point `i`; not normalized.
    pub fn calculate_normal(&self, i: usize) -> (n: (i128, i128, i128))
        requires
            i + 2 < self@.len(),
            vertex_fits(self@[i as int]),
            vertex_fits(self@[i + 1]),
            vertex_fits(self@[i + 2]),
        ensures
            (n.0 as int, n.1 as int, n.2 as int) == cross(self@[i as int], self@[i + 1], self@[i + 2]),
            -NORMAL_LIMIT <= n.0 <= NORMAL_LIMIT,
            -NORMAL_LIMIT <= n.1 <= NORMAL_LIMIT,
            -NORMAL_LIMIT <= n.2 <= NORMAL_LIMIT,
    {
        let _len = self.points.len();
        let p0 = self.points[i];
        let p1 = self.points[i + 1];
        let p2 = self.points[i + 2];
        let ax = p1.x as i128 - p0.x as i128;
        let ay = p1.y as i128 - p0.y as i128;
        let az = p1.z as i128 - p0.z as i128;
        let bx = p2.x as i128 - p0.x as i128;
        let by = p2.y as i128 - p0.y as i128;
        let bz = p2.z as i128 - p0.z as i128;
        proof {
            lemma_mul_bound(ay as int, bz as int);
            lemma_mul_bound(az as int, by as int);
            lemma_mul_bound(az as int, bx as int);
            lemma_mul_bound(ax as int, bz as int);
            lemma_mul_bound(ax as int, by as int);
            lemma_mul_bound(ay as int, bx as int);
        }
        (ay * bz - az * by, az * bx - ax * bz, ax * by - ay * bx)
    }

    /// Points on a sphere, `step + 1` half circles of `step + 1` points each:
    /// point `j` lies on half circle `j / (step + 1)`, at position
    /// `j % (step + 1)` along it. `half_turn` gives the angles along a half
    /// circle, `full_turn` those of the half circles about the x axis.
    pub fn generate_sphere(
        cx: i64,
        cy: i64,
        cz: i64,
        r: i64,
        step: usize,
        half_turn: &Vec<(i64, i64)>,
        full_turn: &Vec<(i64, i64)>,
    ) -> (m: Matrix)
        requires
            table_ok(half_turn@, step as int),
            table_ok(full_turn@, step as int),
        ensures
            m@.len() == (step + 1) * (step + 1),
            forall|j: int|
                0 <= j < m@.len() ==> #[trigger] m@[j] == sphere_point(
                    cx,
                    cy,
                    cz,
                    r,
                    half_turn@[j % (step + 1)],
                    full_turn@[j / (step + 1)],
                ),
    {
        let w = full_turn.len();
        let mut m = Matrix::new();
        let mut rot: usize = 0;
        while rot < w
            invariant
                w == step + 1,
                rot <= w,
                half_turn@.len() == w,
                full_turn@.len() == w,
                m@.len() == rot * w,
                forall|j: int|
                    0 <= j < m@.len() ==> #[trigger] m@[j] == sphere_point(
                        cx,
                        cy,
                        cz,
                        r,
                        half_turn@[j % w as int],
                        full_turn@[j / w as int],
                    ),
            decreases w - rot,
        {
            let mut cir: usize = 0;
            while cir < w
                invariant
                    w == step + 1,
                    rot < w,
                    cir <= w,
                    half_turn@.len() == w,
                    full_turn@.len() == w,
                    m@.len() == rot * w + cir,
                    forall|j: int|
                        0 <= j < m@.len() ==> #[trigger] m@[j] == sphere_point(
                            cx,
                            cy,
                            cz,
                            r,
                            half_turn@[j % w as int],
                            full_turn@[j / w as int],
                        ),
                decreases w - cir,
            {
                let (hc, hs) = half_turn[cir];
                let (fc, fs) = full_turn[rot];
                let rs = clamp_exec(fmul_exec(r, hs));
                let x = clamp_exec(fmul_exec(r, hc) + cx as i128);
                let y = clamp_exec(fmul_exec(rs, fc) + cy as i128);
                let z = clamp_exec(fmul_exec(rs, fs) + cz as i128);
                proof {
                    lemma_grid_slot(m@.len() as int, rot as int, cir as int, w as int);
                }
                m.add_point(x, y, z);
                cir = cir + 1;
            }
            proof {
                assert(m@.len() == (rot + 1) * w) by (nonlinear_arith)
                    requires
                        m@.len() == rot * w + w,
                ;
            }
            rot = rot + 1;
        }
        m
    }

    /// Points on a torus, `step + 1` circles of `step + 1` points each:
    /// point `j` lies on circle `j / (step + 1)` (turned about the y axis),
    /// at position `j % (step + 1)` around it. `full_turn` gives the angles
    /// of both turns.
    pub fn generate_torus(
        cx: i64,
        cy: i64,
        cz: i64,
        circle_radius: i64,
        torus_radius: i64,
        step: usize,
        full_turn: &Vec<(i64, i64)>,
    ) -> (m: Matrix)
        requires
            table_ok(full_turn@, step as int),
        ensures
            m@.len() == (step + 1) * (step + 1),
            forall|j: int|
                0 <= j < m@.len() ==> #[trigger] m@[j] == torus_point(
                    cx,
                    cy,
                    cz,
                    circle_radius,
                    torus_radius,
                    full_turn@[j / (step + 1)],
                    full_turn@[j % (step + 1)],
                ),
    {
        let w = full_turn.len();
        let mut m = Matrix::new();
        let mut phi: usize = 0;
        while phi < w
            invariant
                w == step + 1,
                phi <= w,
                full_turn@.len() == w,
                m@.len() == phi * w,
                forall|j: int|
                    0 <= j < m@.len() ==> #[trigger] m@[j] == torus_point(
                        cx,
                        cy,
                        cz,
                        circle_radius,
                        torus_radius,
                        full_turn@[j / w as int],
                        full_turn@[j % w as int],
                    ),
            decreases w - phi,
        {
            let mut theta: usize = 0;
            while theta < w
                invariant
                    w == step + 1,
                    phi < w,
                    theta <= w,
                    full_turn@.len() == w,
                    m@.len() == phi * w + theta,
                    forall|j: int|
                        0 <= j < m@.len() ==> #[trigger] m@[j] == torus_point(
                            cx,
                            cy,
                            cz,
                            circle_radius,
                            torus_radius,
                            full_turn@[j / w as int],
                            full_turn@[j % w as int],
                        ),
                decreases w - theta,
            {
                let (pc, ps) = full_turn[phi];
                let (tc, ts) = full_turn[theta];
                let ring = clamp_exec(fmul_exec(circle_radius, tc) + torus_radius as i128);
                let x = clamp_exec(fmul_exec(pc, ring) + cx as i128);
                let y = clamp_exec(fmul_exec(circle_radius, ts) + cy as i128);
                let z = clamp_exec(fmul_exec(ps, ring) + cz as i128);
                proof {
                    lemma_grid_slot(m@.len() as int, phi as int, theta as int, w as int);
                }
                m.add_point(x, y, z);
                theta = theta + 1;
            }
            proof {
                assert(m@.len() == (phi + 1) * w) by (nonlinear_arith)
                    requires
                        m@.len() == phi * w + w,
                ;
            }
            phi = phi + 1;
        }
        m
    }

    /// Appends `step + 1` edges sampling a circle of radius `r` about
    /// `(cx, cy)` at depth `cz`, each joined to the sample before it (the
    /// first to the point at angle zero). `full_turn` gives the angles.
    pub fn add_circle(&mut self, cx: i64, cy: i64, cz: i64, r: i64, step: usize, full_turn: &Vec<(i64, i64)>)
        requires
            table_ok(full_turn@, step as int),
        ensures
            final(self)@ == old(self)@ + circle_edges(cx, cy, cz, r, full_turn@),
    {
        let ghost edges = circle_edges(cx, cy, cz, r, full_turn@);
        let mut prev_x = clamp_exec(r as i128 + cx as i128);
        let mut prev_y = cy;
        let n = full_turn.len();
        let mut t: usize = 0;
        while t < n
            invariant
                n == step + 1,
                t <= step + 1,
                full_turn@.len() == step + 1,
                edges == circle_edges(cx, cy, cz, r, full_turn@),
                self@ == old(self)@ + edges.subrange(0, 2 * t),
                t == 0 ==> prev_x == clamp64(r + cx) && prev_y == cy,
                t > 0 ==> (Vertex { x: prev_x, y: prev_y, z: cz }) == circle_point(cx, cy, cz, r, full_turn@[t - 1]),
            decreases step + 1 - t,
        {
            let (c, s) = full_turn[t];
            let x = clamp_exec(fmul_exec(r, c) + cx as i128);
            let y = clamp_exec(fmul_exec(r, s) + cy as i128);
            self.add_edge(prev_x, prev_y, cz, x, y, cz);
            proof {
                assert(edges[2 * t] == (Vertex { x: prev_x, y: prev_y, z: cz }));
                assert(edges[2 * t + 1] == (Vertex { x, y, z: cz }));
                assert(self@ =~= old(self)@ + edges.subrange(0, 2 * t + 2));
            }
            prev_x = x;
            prev_y = y;
            t = t + 1;
        }
        assert(edges.subrange(0, 2 * (step + 1)) =~= edges);
    }

    /// Offers each triangle of `tris` to `add_polygon`, in order.
    fn add_triangles(&mut self, tris: &Vec<(Vertex, Vertex, Vertex)>)
        ensures
            final(self)@ == push_tris(old(self)@, tris@),
    {
        let n = tris.len();
        let mut k: usize = 0;
        let ghost target = push_tris(old(self)@, tris@);
        assert(tris@.subrange(0, n as int) =~= tris@);
        while k < n
            invariant
                k <= n,
                n == tris@.len(),
                push_tris(self@, tris@.subrange(k as int, n as int)) == target,
            decreases n - k,
        {
            let (a, b, c) = tris[k];
            proof {
                lemma_push_tris_step(self@, tris@, k as int);
            }
            self.add_polygon(a.x, a.y, a.z, b.x, b.y, b.z, c.x, c.y, c.z);
            k = k + 1;
        }
        assert(tris@.subrange(n as int, n as int) =~= Seq::<(Vertex, Vertex, Vertex)>::empty());
    }

    /// The triangles that stitch a `(step + 1)` x `(step + 1)` surface grid.
    fn surface_triangles(grid: &Matrix, step: usize, torus: bool) -> (r: Vec<(Vertex, Vertex, Vertex)>)
        requires
            grid@.len() == (step + 1) * (step + 1),
            torus ==> step >= 1,
        ensures
            r@ == surface_tris(grid@, step as int, torus, 0, 0),
    {
        let n = grid.points.len();
        let ghost full = surface_tris(grid@, step as int, torus, 0, 0);
        let mut tris: Vec<(Vertex, Vertex, Vertex)> = Vec::new();
        let mut lat: usize = 0;
        assert(tris@ + full =~= full);
        while lat <= step
            invariant
                lat <= step + 1,
                n == grid@.len(),
                n == (step + 1) * (step + 1),
                torus ==> step >= 1,
                full == surface_tris(grid@, step as int, torus, 0, 0),
                tris@ + surface_tris(grid@, step as int, torus, lat as int, 0) == full,
            decreases step + 1 - lat,
        {
            let mut longt: usize = 0;
            while longt <= step
                invariant
                    lat <= step,
                    longt <= step + 1,
                    n == grid@.len(),
                    n == (step + 1) * (step + 1),
                    torus ==> step >= 1,
                    full == surface_tris(grid@, step as int, torus, 0, 0),
                    tris@ + surface_tris(grid@, step as int, torus, lat as int, longt as int) == full,
                decreases step + 1 - longt,
            {
                proof {
                    lemma_grid_index(lat as int, longt as int, step as int);
                }
                let i = lat * step + longt;
                let ghost before = tris@;
                let ghost pair = if torus {
                    torus_pair(grid@, step as int, lat as int, longt as int)
                } else {
                    sphere_pair(grid@, step as int, lat as int, longt as int)
                };
                if torus {
                    tris.push((grid.points[i], grid.points[i + 1], grid.points[(i + step + 1) % n]));
                    let k = i + step + 1;
                    let after = if k >= n - 1 { k - (n - 1) } else { k + 1 };
                    proof {
                        if k >= n - 1 {
                            let t = k + 1 - n;
                            vstd::arithmetic::div_mod::lemma_mod_add_multiples_vanish(t, n as int);
                            vstd::arithmetic::div_mod::lemma_small_mod(t as nat, n as nat);
                            assert(n + t == i + step + 2);
                        } else {
                            vstd::arithmetic::div_mod::lemma_small_mod((k + 1) as nat, n as nat);
                        }
                    }
                    tris.push((grid.points[k % n], grid.points[i + 1], grid.points[after]));
                } else {
                    tris.push((grid.points[i % n], grid.points[(i + 1) % n], grid.points[(i + step + 1) % n]));
                    tris.push((grid.points[i % n], grid.points[(i + step + 1) % n], grid.points[(i + step) % n]));
                }
                proof {
                    assert(tris@ =~= before + pair);
                    assert(surface_tris(grid@, step as int, torus, lat as int, longt as int) == pair
                        + surface_tris(grid@, step as int, torus, lat as int, longt + 1));
                    assert(tris@ + surface_tris(grid@, step as int, torus, lat as int, longt + 1) =~= before
                        + surface_tris(grid@, step as int, torus, lat as int, longt as int));
                }
                longt = longt + 1;
            }
            assert(surface_tris(grid@, step as int, torus, lat as int, longt as int) == surface_tris(
                grid@,
                step as int,
                torus,
                lat + 1,
                0,
            ));
            lat = lat + 1;
        }
        assert(tris@ =~= full);
        tris
    }

    /// Stitches a sphere's surface grid of `(step + 1)` x `(step + 1)` points
    /// into two triangles per grid cell, wrapping indices around the number
    /// of points to close the seam. Triangles that collapse at the poles are
    /// dropped by `add_polygon`.
    pub fn add_sphere(&mut self, grid: &Matrix, step: usize)
        requires
            grid@.len() == (step + 1) * (step + 1),
        ensures
            final(self)@ == push_tris(old(self)@, surface_tris(grid@, step as int, false, 0, 0)),
    {
        let tris = Matrix::surface_triangles(grid, step, false);
        self.add_triangles(&tris);
    }

    /// Stitches a torus's surface grid of `(step + 1)` x `(step + 1)` points
    /// into two triangles per grid cell.
    pub fn add_torus(&mut self, grid: &Matrix, step: usize)
        requires
            grid@.len() == (step + 1) * (step + 1),
            step >= 1,
        ensures
            final(self)@ == push_tris(old(self)@, surface_tris(grid@, step as int, true, 0, 0)),
    {
        let tris = Matrix::surface_triangles(grid, step, true);
        self.add_triangles(&tris);
    }

    /// Appends the twelve triangles of a box (see `box_tris`), dropping any
    /// that are degenerate.
    pub fn add_box(&mut self, x: i64, y: i64, z: i64, width: i64, height: i64, depth: i64)
        requires
            i64::MIN <= x + width <= i64::MAX,
            i64::MIN <= y - height <= i64::MAX,
            i64::MIN <= z - depth <= i64::MAX,
        ensures
            final(self)@ == push_tris(
                old(self)@,
                box_tris(x as int, y as int, z as int, width as int, height as int, depth as int),
            ),
    {
        let x1 = x + width;
        let y1 = y - height;
        let z1 = z - depth;
        let v = |a: i64, b: i64, c: i64| -> (r: Vertex)
            ensures
                r == (Vertex { x: a, y: b, z: c }),
            { Vertex { x: a, y: b, z: c } };
        let tris: Vec<(Vertex, Vertex, Vertex)> = vec![
            (v(x1, y1, z), v(x1, y, z), v(x, y, z)),
            (v(x1, y1, z), v(x, y, z), v(x, y1, z)),
            (v(x1, y, z), v(x1, y1, z1), v(x1, y, z1)),
            (v(x1, y1, z), v(x1, y1, z1), v(x1, y, z)),
            (v(x1, y1, z1), v(x, y1, z1), v(x1, y, z1)),
            (v(x, y1, z1), v(x, y, z1), v(x1, y, z1)),
            (v(x, y1, z1), v(x, y, z), v(x, y, z1)),
            (v(x, y1, z1), v(x, y1, z), v(x, y, z)),
            (v(x, y, z1), v(x, y, z), v(x1, y, z)),
            (v(x1, y, z), v(x1, y, z1), v(x, y, z1)),
            (v(x, y1, z), v(x, y1, z1), v(x1, y1, z1)),
            (v(x, y1, z), v(x1, y1, z1), v(x1, y1, z)),
        ];
        assert(tris@ =~= box_tris(x as int, y as int, z as int, width as int, height as int, depth as int));
        self.add_triangles(&tris);
    }
}

} // verus!
