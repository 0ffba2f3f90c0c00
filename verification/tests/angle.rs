//! Hue angles, held against the color library.
use base16::angle::{
    check_hue, difference_degrees, drag_hue, rotates_forward, sanitize_degrees,
};
use base16::binary64::{tenths, Binary64};
use material_colors::utils::math;

fn b(x: f64) -> Binary64 {
    Binary64 { bits: x.to_bits() }
}

fn f(x: Binary64) -> f64 {
    f64::from_bits(x.bits)
}

fn hues() -> Vec<f64> {
    let mut hues = vec![0.0, 10.0, 25.0, 90.0, 118.0, 179.9999, 180.0, 180.0001, 270.0, 360.0];
    let mut x = 0.123456789;
    while x < 360.0 {
        hues.push(x);
        x += 13.37133713371337;
    }
    hues
}

#[test]
fn differences_are_those_of_the_color_library() {
    for &x in &hues() {
        for &y in &hues() {
            assert_eq!(f(difference_degrees(b(x), b(y))), math::difference_degrees(x, y));
        }
    }
    assert_eq!(f(difference_degrees(b(350.0), b(10.0))), 20.0);
    assert_eq!(f(difference_degrees(b(90.0), b(270.0))), 180.0);
}

#[test]
fn differences_are_symmetric_and_zero_to_oneself() {
    for &x in &hues() {
        assert_eq!(f(difference_degrees(b(x), b(x))), 0.0);
        for &y in &hues() {
            assert_eq!(difference_degrees(b(x), b(y)), difference_degrees(b(y), b(x)));
        }
    }
}

#[test]
fn directions_are_those_of_the_color_library() {
    for &x in &hues() {
        for &y in &hues() {
            assert_eq!(rotates_forward(b(x), b(y)), math::rotate_direction(x, y) > 0.0);
        }
    }
    assert!(rotates_forward(b(350.0), b(10.0)));
    assert!(!rotates_forward(b(10.0), b(350.0)));
    assert!(rotates_forward(b(0.0), b(180.0)));
}

#[test]
fn angles_are_brought_into_the_circle() {
    for x in [-360.0, -359.99, -180.0, -10.0, -0.0, 0.0, 359.5, 360.0, 420.25, 719.99] {
        assert_eq!(f(sanitize_degrees(b(x))), math::sanitize_degrees_double(x), "{x}");
    }
}

#[test]
fn hues_are_dragged_by_a_fraction_of_the_way() {
    for &x in &hues() {
        for y in [25.0, 118.0] {
            let way = math::difference_degrees(x, y);
            let direction = math::rotate_direction(x, y) * 0.8;
            let expected = math::sanitize_degrees_double(way.mul_add(direction, x));
            assert_eq!(f(drag_hue(b(x), b(y), tenths(8))), expected);
        }
    }
    assert_eq!(f(drag_hue(b(125.0), b(25.0), tenths(5))), 75.0);
    assert_eq!(f(drag_hue(b(350.0), b(30.0), tenths(10))), 30.0);
}

#[test]
fn hues_are_told_from_other_numbers() {
    assert!(check_hue(b(0.0)) && check_hue(b(360.0)) && check_hue(b(12.5)));
    assert!(!check_hue(b(-0.1)) && !check_hue(b(360.1)) && !check_hue(b(f64::NAN)));
}
