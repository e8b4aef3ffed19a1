use render3d::color::Color;
use render3d::draw::{shade_polygons, Lighting};
use render3d::geometry::{Matrix, SCALE};
use render3d::gmath::{
    calculate_ambient, calculate_diffuse, calculate_specular, dot_product, get_lighting, isqrt,
    normalize, vector_subtraction, vector_times_scalar,
};
use render3d::image::Image;
use render3d::matrix::Transform;
use render3d::reflect::ReflectionValue;

fn lighting() -> Lighting {
    Lighting {
        view: vec![0, 0, SCALE],
        ambient_color: Color::new_color(50, 50, 50),
        point_light_vector: vec![5000, 7500, 10000],
        point_light_color: Color::new_color(255, 255, 255),
        ambient_reflect: ReflectionValue::new_values(1000, 1000, 1000),
        diffuse_reflect: ReflectionValue::new_values(5000, 5000, 5000),
        specular_reflect: ReflectionValue::new_values(5000, 5000, 5000),
    }
}

#[test]
fn isqrt_rounds_down() {
    assert_eq!(isqrt(0), 0);
    assert_eq!(isqrt(15), 3);
    assert_eq!(isqrt(16), 4);
    assert_eq!(isqrt(181250000), 13462);
    assert_eq!(isqrt(u128::MAX), u64::MAX);
}

#[test]
fn normalize_scales_to_unit_length() {
    let mut v = vec![3 * SCALE, 4 * SCALE, 0];
    normalize(&mut v);
    assert_eq!(v, vec![6000, 8000, 0]);
    let mut w = vec![5000, 7500, 10000];
    normalize(&mut w);
    assert_eq!(w, vec![3714, 5571, 7428]);
}

#[test]
fn normalize_leaves_a_zero_vector() {
    let mut v = vec![0, 0, 0];
    normalize(&mut v);
    assert_eq!(v, vec![0, 0, 0]);
}

#[test]
fn dot_product_uses_the_shorter_length() {
    assert_eq!(dot_product(&vec![SCALE, 2 * SCALE, 3 * SCALE], &vec![SCALE, SCALE]), 3 * SCALE);
    assert_eq!(dot_product(&vec![5000, -5000], &vec![5000, 5000]), 0);
    assert_eq!(dot_product(&vec![], &vec![SCALE]), 0);
}

#[test]
fn vector_helpers() {
    assert_eq!(vector_times_scalar(&vec![SCALE, -2 * SCALE, 3], 2 * SCALE), vec![2 * SCALE, -4 * SCALE, 6]);
    assert_eq!(vector_subtraction(&vec![5, 7], &vec![1, 10, 99]), vec![4, -3]);
}

#[test]
fn lighting_terms_are_clamped_to_channel_range() {
    let white = Color::new_color(255, 255, 255);
    let half = ReflectionValue::new_values(5000, 5000, 5000);
    assert_eq!(Color::color_with_lighting(SCALE, &white, &half), Color::new_color(127, 127, 127));
    assert_eq!(Color::color_with_lighting(-SCALE, &white, &half), Color::new());
    assert_eq!(Color::color_with_lighting(10 * SCALE, &white, &half), white);
    assert_eq!(
        calculate_ambient(&Color::new_color(50, 100, 200), &ReflectionValue::new_values(1000, 1000, 20000)),
        Color::new_color(5, 10, 255)
    );
}

#[test]
fn diffuse_and_specular_terms() {
    let white = Color::new_color(255, 255, 255);
    let half = ReflectionValue::new_values(5000, 5000, 5000);
    let n = vec![0, 0, SCALE];
    let l = vec![3714, 5571, 7428];
    assert_eq!(calculate_diffuse(&l, &white, &half, &n), Color::new_color(94, 94, 94));
    let mut view = vec![0, 0, 3 * SCALE];
    assert_eq!(calculate_specular(&l, &white, &half, &mut view, &n), Color::new_color(94, 94, 94));
    assert_eq!(view, vec![0, 0, SCALE]);
}

#[test]
fn get_lighting_sums_the_three_terms() {
    let l = lighting();
    let mut normal = vec![0, 0, 7 * SCALE];
    let mut view = l.view.clone();
    let mut light = l.point_light_vector.clone();
    let c = get_lighting(
        &mut normal,
        &mut view,
        &l.ambient_color,
        &l.point_light_color,
        &mut light,
        &l.ambient_reflect,
        &l.diffuse_reflect,
        &l.specular_reflect,
    );
    assert_eq!(c, Color::new_color(193, 193, 193));
    assert_eq!(normal, vec![0, 0, SCALE]);
    assert_eq!(light, vec![3714, 5571, 7428]);
}

#[test]
fn shade_polygons_lights_front_faces_only() {
    let mut m = Matrix::new();
    m.add_box(0, 0, 0, 10 * SCALE, 10 * SCALE, 10 * SCALE);
    let shades = shade_polygons(&m, &lighting());
    assert_eq!(shades.len(), 12);
    assert_eq!(shades[0], Color::new_color(193, 193, 193));
    assert_eq!(shades[1], Color::new_color(193, 193, 193));
    assert!(shades[2..].iter().all(|c| *c == Color::new()));
}

#[test]
fn box_through_identity_is_lit_on_its_front_face_only() {
    let mut m = Matrix::new();
    m.add_box(0, 0, 0, 10 * SCALE, 10 * SCALE, 10 * SCALE);
    m.multiply_matrixes(&Transform::identity());
    let mut img = Image::new(500, 500);
    img.draw_polygons(&m, &lighting());
    let lit = Color::new_color(193, 193, 193);
    let mut seen = Vec::new();
    for y in 0..500 {
        for x in 0..500 {
            if img.get_pixel(x, y) != Some(Color::new()) {
                seen.push((x, y));
                assert_eq!(img.get_pixel(x, y), Some(lit));
                assert_eq!(img.get_depth(x, y), Some(0));
            }
        }
    }
    let expected: Vec<(i64, i64)> = (0..=10).map(|x| (x, 0)).collect();
    assert_eq!(seen, expected);
    let mut front = Matrix::new();
    for p in &m.points[..6] {
        front.add_point(p.x, p.y, p.z);
    }
    let mut only_front = Image::new(500, 500);
    only_front.draw_polygons(&front, &lighting());
    assert_eq!(img.screen, only_front.screen);
    assert_eq!(img.z_buffer, only_front.z_buffer);
}
