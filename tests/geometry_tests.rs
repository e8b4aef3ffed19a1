use render3d::color::Color;
use render3d::geometry::{snap_exec, to_pixel, Matrix, Vertex, SCALE};
use render3d::image::Image;
use render3d::matrix::Transform;

fn fixed(v: f64) -> i64 {
    (v * SCALE as f64).round() as i64
}

fn snapped(p: &Vertex) -> (i64, i64, i64) {
    (snap_exec(p.x), snap_exec(p.y), snap_exec(p.z))
}

fn table(turn: f64, step: usize) -> Vec<(i64, i64)> {
    (0..=step).map(|k| {
        let t = turn * k as f64 / step as f64;
        (fixed(t.cos()), fixed(t.sin()))
    }).collect()
}

fn sphere_grid(cx: f64, cy: f64, cz: f64, r: f64, step: usize) -> Matrix {
    let pi = std::f64::consts::PI;
    Matrix::generate_sphere(fixed(cx), fixed(cy), fixed(cz), fixed(r), step, &table(pi, step), &table(2.0 * pi, step))
}

#[test]
fn snapping_truncates_towards_zero() {
    assert_eq!(snap_exec(25000), 2);
    assert_eq!(snap_exec(-25000), -2);
    assert_eq!(snap_exec(-9999), 0);
    assert_eq!(snap_exec(i64::MIN), i64::MIN / SCALE);
    assert_eq!(to_pixel(i64::MAX), i32::MAX);
    assert_eq!(to_pixel(-123456), -12);
}

#[test]
fn add_polygon_keeps_a_proper_triangle() {
    let mut m = Matrix::new();
    m.add_polygon(0, 0, 0, 10 * SCALE, 0, 0, 0, 10 * SCALE, 0);
    assert_eq!(m.points.len(), 3);
    assert_eq!(m.points[1], Vertex { x: 10 * SCALE, y: 0, z: 0 });
}

#[test]
fn add_polygon_drops_a_degenerate_triangle() {
    let mut m = Matrix::new();
    m.add_polygon(5000, 5000, 0, 2000, 9000, 0, 30000, 0, 0);
    assert_eq!(m.points.len(), 0);
    m.add_polygon(0, 0, 0, 10 * SCALE, 0, 0, 10 * SCALE + 1, 0, 0);
    assert_eq!(m.points.len(), 0);
}

#[test]
fn add_edge_int_scales_whole_units() {
    let mut m = Matrix::new();
    m.add_edge_int(1, 2, 3, -4, 5, 6);
    assert_eq!(m.points, vec![
        Vertex { x: SCALE, y: 2 * SCALE, z: 3 * SCALE },
        Vertex { x: -4 * SCALE, y: 5 * SCALE, z: 6 * SCALE },
    ]);
}

#[test]
fn normal_is_the_unnormalized_cross_product() {
    let mut m = Matrix::new();
    m.add_point(0, 0, 0);
    m.add_point(2, 0, 0);
    m.add_point(0, 3, 0);
    assert_eq!(m.calculate_normal(0), (0, 0, 6));
    let mut m = Matrix::new();
    m.add_point(1, 2, 3);
    m.add_point(4, 6, 8);
    m.add_point(-1, 0, 5);
    assert_eq!(m.calculate_normal(0), (18, -16, 2));
}

#[test]
fn box_has_twelve_triangles_two_facing_the_viewer() {
    let mut m = Matrix::new();
    m.add_box(0, 0, 0, 10 * SCALE, 10 * SCALE, 10 * SCALE);
    assert_eq!(m.points.len(), 36);
    let front = (0..12).filter(|t| m.calculate_normal(3 * t).2 > 0).count();
    assert_eq!(front, 2);
}

#[test]
fn box_through_identity_draws_only_its_front_face() {
    let mut m = Matrix::new();
    m.add_box(0, 0, 0, 10 * SCALE, 10 * SCALE, 10 * SCALE);
    m.multiply_matrixes(&Transform::identity());
    let shades: Vec<Color> = (0..12u8).map(|i| Color::new_color(10 + i, 100, 200)).collect();
    let mut img = Image::new(500, 500);
    img.fill_polygons(&m, &shades);
    let mut seen = Vec::new();
    for y in 0..500 {
        for x in 0..500 {
            let c = img.get_pixel(x, y).unwrap();
            if c != Color::new() {
                seen.push((x, y, c));
            }
        }
    }
    assert_eq!(seen.len(), 11);
    assert!(seen.iter().all(|p| p.1 == 0 && p.0 <= 10));
    assert_eq!(img.get_pixel(5, 0), Some(shades[0]));
    assert_eq!(img.get_pixel(0, 0), Some(shades[1]));
}

#[test]
fn sphere_grid_has_step_plus_one_squared_points() {
    let grid = sphere_grid(0.0, 0.0, 0.0, 1.0, 4);
    assert_eq!(grid.points.len(), 25);
}

#[test]
fn sphere_keeps_no_degenerate_triangle() {
    let grid = sphere_grid(0.0, 0.0, 0.0, 1.0, 4);
    let mut m = Matrix::new();
    m.add_sphere(&grid, 4);
    assert_eq!(m.points.len() % 3, 0);
    assert!(m.points.len() < 150);
    for t in m.points.chunks(3) {
        let (a, b, c) = (snapped(&t[0]), snapped(&t[1]), snapped(&t[2]));
        assert!(a != b && a != c && b != c);
    }
}

#[test]
fn large_sphere_keeps_most_triangles() {
    let grid = sphere_grid(250.0, 250.0, 0.0, 100.0, 10);
    let mut m = Matrix::new();
    m.add_sphere(&grid, 10);
    let kept = m.points.len() / 3;
    assert!(kept > 150 && kept < 2 * 11 * 11);
}

#[test]
fn sphere_points_follow_the_parametric_formula() {
    let grid = sphere_grid(0.0, 0.0, 0.0, 1.0, 4);
    assert_eq!(grid.points[0], Vertex { x: SCALE, y: 0, z: 0 });
    assert_eq!(grid.points[2], Vertex { x: 0, y: SCALE, z: 0 });
    assert_eq!(grid.points[5 + 2], Vertex { x: 0, y: 0, z: SCALE });
    assert_eq!(grid.points[4], Vertex { x: -SCALE, y: 0, z: 0 });
}

#[test]
fn torus_stitches_two_triangles_per_cell() {
    let step = 6usize;
    let pi = std::f64::consts::PI;
    let grid = Matrix::generate_torus(0, 0, 0, fixed(20.0), fixed(100.0), step, &table(2.0 * pi, step));
    assert_eq!(grid.points.len(), 49);
    assert_eq!(grid.points[0], Vertex { x: fixed(120.0), y: 0, z: 0 });
    let mut m = Matrix::new();
    m.add_torus(&grid, step);
    assert_eq!(m.points.len() % 3, 0);
    assert!(m.points.len() / 3 > 2 * step * step);
    assert!(m.points.len() / 3 <= 2 * (step + 1) * (step + 1));
}

#[test]
fn circle_is_sampled_into_connected_edges() {
    let pi = std::f64::consts::PI;
    let mut m = Matrix::new();
    m.add_circle(fixed(5.0), fixed(5.0), 0, fixed(2.0), 4, &table(2.0 * pi, 4));
    assert_eq!(m.points.len(), 10);
    assert_eq!(m.points[0], Vertex { x: fixed(7.0), y: fixed(5.0), z: 0 });
    assert_eq!(m.points[3], Vertex { x: fixed(5.0), y: fixed(7.0), z: 0 });
    assert_eq!(m.points[9], Vertex { x: fixed(7.0), y: fixed(5.0), z: 0 });
}

#[test]
fn all_fit_checks_every_point() {
    let mut m = Matrix::new();
    m.add_point(1, 2, 3);
    assert!(m.all_fit());
    m.add_point(i64::MAX, 0, 0);
    assert!(!m.all_fit());
    assert!(!m.points[1].fits());
}
