use render3d::geometry::{Matrix, Vertex, SCALE};
use render3d::matrix::{generate_curve_coefs, make_bezier, make_hermite, CurveType, Transform, TransformStack};

fn fixed_cos_sin(degrees: f64) -> (i64, i64) {
    let t = degrees.to_radians();
    ((t.cos() * SCALE as f64).round() as i64, (t.sin() * SCALE as f64).round() as i64)
}

fn identity_cells() -> Vec<i64> {
    (0..16).map(|i| if i % 5 == 0 { SCALE } else { 0 }).collect()
}

#[test]
fn identity_has_ones_on_the_diagonal() {
    assert_eq!(Transform::identity().cells, identity_cells());
}

#[test]
fn rotation_by_zero_or_a_full_turn_is_identity() {
    for deg in [0.0, 360.0] {
        let (c, s) = fixed_cos_sin(deg);
        assert_eq!(Transform::make_rot_z(c, s).cells, identity_cells());
        assert_eq!(Transform::make_rot_x(c, s).cells, identity_cells());
        assert_eq!(Transform::make_rot_y(c, s).cells, identity_cells());
    }
}

#[test]
fn rotation_about_z_turns_x_into_y() {
    let (c, s) = fixed_cos_sin(90.0);
    let mut m = Matrix::new();
    m.add_point(5 * SCALE, 0, 0);
    m.multiply_matrixes(&Transform::make_rot_z(c, s));
    assert_eq!(m.points[0], Vertex { x: 0, y: 5 * SCALE, z: 0 });
}

#[test]
fn rotation_about_x_has_the_right_hand_signs() {
    let t = Transform::make_rot_x(6000, 8000);
    assert_eq!((t.cells[5], t.cells[6], t.cells[9], t.cells[10]), (6000, -8000, 8000, 6000));
    let t = Transform::make_rot_y(6000, 8000);
    assert_eq!((t.cells[0], t.cells[2], t.cells[8], t.cells[10]), (6000, 8000, -8000, 6000));
}

#[test]
fn translate_moves_points() {
    let mut m = Matrix::new();
    m.add_point(SCALE, 2 * SCALE, 3 * SCALE);
    m.multiply_matrixes(&Transform::make_translate(10 * SCALE, -20 * SCALE, 5));
    assert_eq!(m.points[0], Vertex { x: 11 * SCALE, y: -18 * SCALE, z: 3 * SCALE + 5 });
}

#[test]
fn scale_with_scale_multiplies_in_fixed_point() {
    let t = Transform::make_scale_with_scale(20000, 30000, -40000, 5000);
    assert_eq!((t.cells[0], t.cells[5], t.cells[10]), (10000, 15000, -20000));
    let t = Transform::make_translate_with_scale(3, 20000, 7, 5000);
    assert_eq!((t.cells[3], t.cells[7], t.cells[11]), (1, 10000, 3));
}

#[test]
fn multiply_applies_the_argument_after() {
    let mut t = Transform::make_scale(2 * SCALE, 2 * SCALE, 2 * SCALE);
    t.multiply_matrixes(&Transform::make_translate(SCALE, 0, 0));
    let mut m = Matrix::new();
    m.add_point(3 * SCALE, 0, 0);
    m.multiply_matrixes(&t);
    assert_eq!(m.points[0].x, 7 * SCALE);
    let mut u = Transform::identity();
    u.multiply_matrixes(&Transform::identity());
    assert_eq!(u.cells, identity_cells());
}

#[test]
fn curve_bases_are_the_standard_ones() {
    assert_eq!(make_bezier(), vec![-1, 3, -3, 1, 3, -6, 3, 0, -3, 3, 0, 0, 1, 0, 0, 0]);
    assert_eq!(make_hermite(), vec![2, -2, 1, 1, -3, 3, -2, -1, 0, 0, 1, 0, 1, 0, 0, 0]);
}

#[test]
fn curve_coefficients() {
    assert_eq!(generate_curve_coefs(0, 10, 20, 30, &CurveType::Bezier), (0, 0, 30, 0));
    assert_eq!(generate_curve_coefs(1, 2, 5, 3, &CurveType::Bezier), (-7, 6, 3, 1));
    assert_eq!(generate_curve_coefs(0, 10, 5, 5, &CurveType::Hermite), (-10, 15, 5, 0));
}

#[test]
fn curve_is_sampled_into_connected_edges() {
    let mut m = Matrix::new();
    m.add_curve(0, 0, 10 * SCALE, 0, 20 * SCALE, 0, 30 * SCALE, 0, 2, &CurveType::Bezier);
    let xs: Vec<i64> = m.points.iter().map(|p| p.x).collect();
    assert_eq!(xs, vec![0, 0, 0, 15 * SCALE, 15 * SCALE, 30 * SCALE]);
    assert!(m.points.iter().all(|p| p.y == 0 && p.z == 0));
}

#[test]
fn hermite_curve_ends_at_its_endpoint() {
    let mut m = Matrix::new();
    m.add_curve(0, 0, 100, 50, 40, 0, 0, 40, 4, &CurveType::Hermite);
    let last = m.points[m.points.len() - 1];
    assert_eq!((last.x, last.y), (100, 50));
    assert_eq!(m.points.len(), 10);
}

#[test]
fn stack_starts_with_identity_and_never_empties() {
    let mut s = TransformStack::new();
    assert_eq!(s.top().cells, identity_cells());
    assert!(!s.pop());
    assert_eq!(s.stack.len(), 1);
}

#[test]
fn stack_compose_push_and_pop() {
    let mut s = TransformStack::new();
    s.compose(&Transform::make_translate(SCALE, 0, 0));
    s.push_copy();
    s.compose(&Transform::make_scale(2 * SCALE, 2 * SCALE, 2 * SCALE));
    let mut m = Matrix::new();
    m.add_point(3 * SCALE, 0, 0);
    m.multiply_matrixes(s.top());
    assert_eq!(m.points[0].x, 7 * SCALE);
    assert!(s.pop());
    let mut m = Matrix::new();
    m.add_point(3 * SCALE, 0, 0);
    m.multiply_matrixes(s.top());
    assert_eq!(m.points[0].x, 4 * SCALE);
}

#[test]
fn multiply_by_num_scales_every_entry() {
    let mut t = Transform::identity();
    t.multiply_by_num(25000);
    assert_eq!(t.cells[0], 25000);
    assert_eq!(t.cells[1], 0);
    assert_eq!(t.cells[15], 25000);
}
