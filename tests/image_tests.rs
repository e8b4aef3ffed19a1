use render3d::color::Color;
use render3d::image::{Image, EMPTY_DEPTH};

fn red() -> Color {
    Color::new_color(255, 0, 0)
}

fn blue() -> Color {
    Color::new_color(0, 0, 255)
}

#[test]
fn new_image_is_blank() {
    let img = Image::new(3, 2);
    assert_eq!(img.screen.len(), 6);
    assert_eq!(img.get_pixel(2, 1), Some(Color::new()));
    assert_eq!(img.get_depth(0, 0), Some(EMPTY_DEPTH));
}

#[test]
fn plot_inside_draws_and_reports_success() {
    let mut img = Image::new(4, 4);
    assert!(img.plot(1, 2, 7, &red()));
    assert_eq!(img.get_pixel(1, 2), Some(red()));
    assert_eq!(img.get_depth(1, 2), Some(7));
}

#[test]
fn plot_outside_reports_failure() {
    let mut img = Image::new(4, 4);
    assert!(!img.plot(4, 0, 0, &red()));
    assert!(!img.plot(0, -1, 0, &red()));
    assert!(!img.plot(-1, 3, 0, &red()));
    assert!(img.screen.iter().all(|c| *c == Color::new()));
}

#[test]
fn row_zero_is_the_bottom_row() {
    let mut img = Image::new(2, 3);
    img.plot(0, 0, 0, &red());
    assert_eq!(img.screen[4], red());
}

#[test]
fn depth_test_keeps_the_nearer_fragment() {
    let mut img = Image::new(2, 2);
    img.plot(0, 0, 50000, &red());
    img.plot(0, 0, 30000, &blue());
    assert_eq!(img.get_pixel(0, 0), Some(red()));
    assert_eq!(img.get_depth(0, 0), Some(50000));
}

#[test]
fn depth_test_lets_the_larger_depth_win_either_order() {
    let mut img = Image::new(2, 2);
    img.plot(1, 1, 30000, &red());
    img.plot(1, 1, 50000, &blue());
    assert_eq!(img.get_pixel(1, 1), Some(blue()));
    assert_eq!(img.get_depth(1, 1), Some(50000));
}

#[test]
fn depth_test_tie_goes_to_the_later_fragment() {
    let mut img = Image::new(2, 2);
    img.plot(1, 0, -20000, &red());
    img.plot(1, 0, -20000, &blue());
    assert_eq!(img.get_pixel(1, 0), Some(blue()));
}

#[test]
fn clear_resets_pixels_and_depths() {
    let mut img = Image::new(3, 3);
    img.plot(1, 1, 5, &red());
    img.clear();
    assert_eq!(img.get_pixel(1, 1), Some(Color::new()));
    assert_eq!(img.get_depth(1, 1), Some(EMPTY_DEPTH));
}

#[test]
fn create_data_writes_top_row_first() {
    let mut img = Image::new(2, 2);
    img.plot(1, 1, 0, &red());
    let text = String::from_utf8(img.create_data()).unwrap();
    assert_eq!(text, "P3\n2 2\n255\n0 0 0  255 0 0  \n0 0 0  0 0 0  \n");
}

#[test]
fn create_data_writes_multi_digit_sizes_and_channels() {
    let mut img = Image::new(12, 1);
    img.plot(11, 0, 0, &Color::new_color(7, 42, 128));
    let text = String::from_utf8(img.create_data()).unwrap();
    assert!(text.starts_with("P3\n12 1\n255\n"));
    assert!(text.ends_with("7 42 128  \n"));
}

#[test]
fn create_data_has_header_and_one_triple_per_pixel() {
    let (w, h) = (7usize, 5usize);
    let mut img = Image::new(w, h);
    img.plot(3, 4, 0, &red());
    let text = String::from_utf8(img.create_data()).unwrap();
    let tokens: Vec<&str> = text.split_whitespace().collect();
    assert_eq!(&tokens[..4], &["P3", "7", "5", "255"]);
    assert_eq!(tokens.len() - 4, w * h * 3);
    assert_eq!(text.lines().count(), 3 + h);
    assert!(tokens[4..].iter().all(|t| t.parse::<u8>().is_ok()));
}
