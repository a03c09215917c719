use colors::color::{color_distance, Color};

#[test]
fn color_new_keeps_channels() {
    let c = Color::new(12, 34, 56);
    assert_eq!(c.r, 12);
    assert_eq!(c.g, 34);
    assert_eq!(c.b, 56);
}

#[test]
fn distance_zero_for_equal_colors() {
    let a = Color::new(10, 200, 99);
    let b = Color::new(10, 200, 99);
    assert_eq!(color_distance(&a, &b), 0);
}

#[test]
fn distance_black_white_is_maximal() {
    let black = Color::new(0, 0, 0);
    let white = Color::new(255, 255, 255);
    assert_eq!(color_distance(&black, &white), 195075);
    assert_eq!(color_distance(&black, &white), colors::color::MAX_COLOR_DISTANCE);
}

#[test]
fn distance_exact_value() {
    let a = Color::new(10, 20, 30);
    let b = Color::new(13, 24, 30);
    // 3*3 + 4*4 + 0*0
    assert_eq!(color_distance(&a, &b), 25);
}

#[test]
fn distance_is_symmetric() {
    let a = Color::new(1, 2, 3);
    let b = Color::new(200, 100, 50);
    assert_eq!(color_distance(&a, &b), color_distance(&b, &a));
}
