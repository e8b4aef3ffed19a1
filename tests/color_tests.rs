use render3d::color::Color;

#[test]
fn new_color_is_black() {
    let c = Color::new();
    assert_eq!((c.r, c.g, c.b), (0, 0, 0));
}

#[test]
fn new_color_keeps_channels() {
    let c = Color::new_color(1, 2, 3);
    assert_eq!((c.r, c.g, c.b), (1, 2, 3));
}

#[test]
fn plot_color_copies_every_channel() {
    let mut c = Color::new_color(9, 9, 9);
    c.plot_color(&Color::new_color(10, 20, 30));
    assert_eq!(c, Color::new_color(10, 20, 30));
}

#[test]
fn reset_color_makes_black() {
    let mut c = Color::new_color(200, 100, 50);
    c.reset_color();
    assert_eq!(c, Color::new());
}

#[test]
fn add_sums_channels() {
    let c = Color::new_color(10, 20, 30).add(Color::new_color(1, 2, 3));
    assert_eq!(c, Color::new_color(11, 22, 33));
}

#[test]
fn add_saturates_at_255() {
    let c = Color::new_color(200, 255, 128).add(Color::new_color(100, 1, 127));
    assert_eq!(c, Color::new_color(255, 255, 255));
}
