use render3d::color::Color;
use render3d::geometry::{Matrix, Vertex, SCALE};
use render3d::image::Image;

fn green() -> Color {
    Color::new_color(0, 255, 0)
}

fn drawn(img: &Image) -> Vec<(i64, i64)> {
    let mut out = Vec::new();
    for y in 0..img.height as i64 {
        for x in 0..img.width as i64 {
            if img.get_pixel(x, y) != Some(Color::new()) {
                out.push((x, y));
            }
        }
    }
    out
}

fn v(x: i64, y: i64, z: i64) -> Vertex {
    Vertex { x: x * SCALE, y: y * SCALE, z: z * SCALE }
}

#[test]
fn diagonal_line_plots_eleven_points_at_depth_zero() {
    let mut img = Image::new(500, 500);
    img.draw_line(0, 0, 0, 10, 10, 0, &green());
    let pts = drawn(&img);
    assert_eq!(pts.len(), 11);
    for i in 0..=10 {
        assert_eq!(img.get_pixel(i, i), Some(green()));
        assert_eq!(img.get_depth(i, i), Some(0));
    }
}

#[test]
fn line_is_the_same_from_either_end() {
    let cases = [(2, 3, 17, 9), (1, 20, 6, 2), (4, 4, 30, 1), (3, 1, 5, 25), (8, 2, 8, 14), (5, 5, 5, 5)];
    for (x0, y0, x1, y1) in cases {
        let mut a = Image::new(40, 40);
        let mut b = Image::new(40, 40);
        a.draw_line(x0, y0, 0, x1, y1, 0, &green());
        b.draw_line(x1, y1, 0, x0, y0, 0, &green());
        assert_eq!(drawn(&a), drawn(&b));
        assert!(!drawn(&a).is_empty());
    }
}

#[test]
fn vertical_line_covers_every_row() {
    let mut img = Image::new(20, 20);
    img.draw_line(7, 15, 0, 7, 3, 0, &green());
    let pts = drawn(&img);
    assert_eq!(pts.len(), 13);
    assert!(pts.iter().all(|p| p.0 == 7 && p.1 >= 3 && p.1 <= 15));
}

#[test]
fn steep_line_plots_one_point_per_row() {
    let mut img = Image::new(20, 20);
    img.draw_line(0, 0, 0, 3, 10, 0, &green());
    let pts = drawn(&img);
    assert_eq!(pts.len(), 11);
    for y in 0..=10 {
        assert_eq!(pts.iter().filter(|p| p.1 == y).count(), 1);
    }
}

#[test]
fn falling_lines_plot_one_point_per_step() {
    let mut img = Image::new(30, 30);
    img.draw_line(0, 20, 0, 10, 15, 0, &green());
    assert_eq!(drawn(&img).len(), 11);
    let mut img = Image::new(30, 30);
    img.draw_line(0, 20, 0, 4, 2, 0, &green());
    assert_eq!(drawn(&img).len(), 19);
}

#[test]
fn depth_is_interpolated_along_the_line() {
    let mut img = Image::new(20, 20);
    img.draw_line(0, 0, 0, 10, 0, 100000, &green());
    assert_eq!(img.get_depth(5, 0), Some(50000));
    assert_eq!(img.get_depth(10, 0), Some(100000));
    assert_eq!(img.get_depth(3, 0), Some(30000));
}

#[test]
fn line_stops_at_the_first_sample_outside() {
    let mut img = Image::new(20, 20);
    img.draw_line(-5, 0, 0, 10, 0, 0, &green());
    assert!(drawn(&img).is_empty());
    img.draw_line(10, 5, 0, 25, 5, 0, &green());
    assert_eq!(drawn(&img).len(), 10);
}

#[test]
fn line_beyond_one_edge_is_skipped() {
    let mut img = Image::new(20, 20);
    img.draw_line(20, 0, 0, 30, 10, 0, &green());
    img.draw_line(0, -1, 0, 10, -8, 0, &green());
    assert!(drawn(&img).is_empty());
}

#[test]
fn draw_lines_draws_each_pair() {
    let mut edges = Matrix::new();
    edges.add_edge_int(0, 0, 0, 4, 0, 0);
    edges.add_edge_int(0, 2, 0, 0, 5, 0);
    let mut img = Image::new(10, 10);
    img.draw_lines(&edges, &green());
    assert_eq!(drawn(&img).len(), 5 + 4);
}

#[test]
fn scanline_fills_a_triangle() {
    let mut img = Image::new(20, 20);
    img.scanline_convert(v(0, 0, 0), v(10, 0, 0), v(0, 10, 0), &green());
    assert_eq!(img.get_pixel(2, 2), Some(green()));
    assert_eq!(img.get_pixel(0, 10), Some(green()));
    assert_eq!(img.get_pixel(9, 9), Some(Color::new()));
    let pts = drawn(&img);
    assert!(pts.iter().all(|p| p.0 + p.1 <= 10));
    assert_eq!(pts.iter().filter(|p| p.1 == 0).count(), 11);
}

#[test]
fn scanline_result_ignores_vertex_order() {
    let mut a = Image::new(20, 20);
    let mut b = Image::new(20, 20);
    a.scanline_convert(v(1, 2, 0), v(15, 6, 0), v(6, 17, 0), &green());
    b.scanline_convert(v(6, 17, 0), v(1, 2, 0), v(15, 6, 0), &green());
    assert_eq!(drawn(&a), drawn(&b));
}

#[test]
fn back_facing_triangles_are_culled() {
    let mut front = Matrix::new();
    front.add_polygon(0, 0, 0, 10 * SCALE, 0, 0, 0, 10 * SCALE, 0);
    let mut back = Matrix::new();
    back.add_polygon(0, 0, 0, 0, 10 * SCALE, 0, 10 * SCALE, 0, 0);
    let mut a = Image::new(20, 20);
    a.fill_polygons(&front, &vec![green()]);
    let mut b = Image::new(20, 20);
    b.fill_polygons(&back, &vec![green()]);
    assert!(!drawn(&a).is_empty());
    assert!(drawn(&b).is_empty());
}

#[test]
fn nearer_triangle_hides_the_farther_one() {
    let red = Color::new_color(255, 0, 0);
    let mut tris = Matrix::new();
    tris.add_polygon(0, 0, 5 * SCALE, 10 * SCALE, 0, 5 * SCALE, 0, 10 * SCALE, 5 * SCALE);
    tris.add_polygon(0, 0, 0, 10 * SCALE, 0, 0, 0, 10 * SCALE, 0);
    let mut img = Image::new(20, 20);
    img.fill_polygons(&tris, &vec![red, green()]);
    assert_eq!(img.get_pixel(2, 2), Some(red));
}

#[test]
fn falling_diagonal_is_the_diagonal() {
    let mut img = Image::new(500, 500);
    img.draw_line(0, 10, 0, 10, 0, 0, &green());
    let mut expected: Vec<(i64, i64)> = (0..=10).map(|i| (i, 10 - i)).collect();
    expected.sort_by_key(|p| (p.1, p.0));
    assert_eq!(drawn(&img), expected);
}

#[test]
fn falling_lines_reach_their_end_point() {
    let mut img = Image::new(50, 50);
    img.draw_line(0, 5, 0, 10, 0, 0, &green());
    assert_eq!(img.get_pixel(10, 0), Some(green()));
    assert_eq!(img.get_pixel(0, 5), Some(green()));
    assert_eq!(drawn(&img).len(), 11);
    let mut img = Image::new(50, 50);
    img.draw_line(0, 20, 0, 4, 2, 0, &green());
    assert_eq!(img.get_pixel(4, 2), Some(green()));
    assert_eq!(img.get_pixel(0, 20), Some(green()));
}

#[test]
fn rising_lines_reach_their_end_point() {
    let mut img = Image::new(50, 50);
    img.draw_line(0, 0, 0, 10, 5, 0, &green());
    assert_eq!(img.get_pixel(10, 5), Some(green()));
    let mut img = Image::new(50, 50);
    img.draw_line(0, 0, 0, 3, 10, 0, &green());
    assert_eq!(img.get_pixel(3, 10), Some(green()));
}

#[test]
fn vertical_line_over_existing_depth_is_the_same_from_either_end() {
    let red = Color::new_color(255, 0, 0);
    let mut a = Image::new(1, 3);
    let mut b = Image::new(1, 3);
    a.plot(0, 1, 1, &red);
    b.plot(0, 1, 1, &red);
    a.draw_line(0, 0, 0, 0, 2, 1, &green());
    b.draw_line(0, 2, 1, 0, 0, 0, &green());
    assert_eq!(a.screen, b.screen);
    assert_eq!(a.z_buffer, b.z_buffer);
}

#[test]
fn single_point_line_keeps_the_same_depth_from_either_end() {
    let mut a = Image::new(4, 4);
    let mut b = Image::new(4, 4);
    a.draw_line(2, 2, 5, 2, 2, 9, &green());
    b.draw_line(2, 2, 9, 2, 2, 5, &green());
    assert_eq!(a.z_buffer, b.z_buffer);
}
