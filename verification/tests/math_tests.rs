use rtrt::fx::SCALE;
use rtrt::math::{
    color_multiply, cross, dot, minus, norm, normalize, plus, scale, Color, Vec3,
};

/// A real number as a 16.16 fixed-point value.
fn fx(x: f64) -> i64 {
    (x * 65536.0) as i64
}

fn v(x: f64, y: f64, z: f64) -> Vec3 {
    Vec3 { x: fx(x), y: fx(y), z: fx(z) }
}

#[test]
fn plus_minus_are_exact() {
    let a = v(1.5, -2.0, 3.25);
    let b = v(0.5, 4.0, -1.25);
    assert_eq!(plus(a, b), v(2.0, 2.0, 2.0));
    assert_eq!(minus(a, b), v(1.0, -6.0, 4.5));
}

#[test]
fn scale_truncates_toward_zero() {
    let a = v(1.0, -1.0, 0.0);
    let s = scale(a, fx(0.5));
    assert_eq!(s, Vec3 { x: 32768, y: -32768, z: 0 });
    // 1/3 of one unit rounds toward zero from both sides.
    let t = scale(a, 21845);
    assert_eq!(t.x, 21845);
    assert_eq!(t.y, -21845);
}

#[test]
fn norm_of_pythagorean_triple_is_exact() {
    assert_eq!(norm(v(3.0, 4.0, 0.0)), fx(5.0));
    assert_eq!(norm(v(1.0, 2.0, 2.0)), fx(3.0));
    assert_eq!(norm(v(0.0, 0.0, 0.0)), 0);
}

#[test]
fn normalize_axis_is_exact() {
    assert_eq!(normalize(v(5.0, 0.0, 0.0)), Vec3 { x: SCALE, y: 0, z: 0 });
    assert_eq!(normalize(v(0.0, -7.0, 0.0)), Vec3 { x: 0, y: -SCALE, z: 0 });
}

#[test]
fn normalize_has_unit_length() {
    // |normalize(v)| is one unit up to fixed-point rounding, for any
    // direction of at least unit length.
    for (a, b, c) in [(3.0, 4.0, 12.0), (1.0, 1.0, 1.0), (-2.5, 0.3, 7.1), (100.0, -50.0, 3.0)] {
        let n = norm(normalize(v(a, b, c)));
        assert!(SCALE - 4 <= n && n <= SCALE + 5, "length {n} not within rounding of one unit");
    }
}

#[test]
fn dot_and_cross_are_exact_on_whole_units() {
    let a = v(1.0, 2.0, 3.0);
    let b = v(4.0, 5.0, 6.0);
    assert_eq!(dot(a, b), fx(32.0));
    let x = v(1.0, 0.0, 0.0);
    let y = v(0.0, 1.0, 0.0);
    assert_eq!(cross(x, y), v(0.0, 0.0, 1.0));
    assert_eq!(cross(y, x), v(0.0, 0.0, -1.0));
}

#[test]
fn color_multiply_by_one_is_identity() {
    let c = Color { r: 17, g: 200, b: 255, a: 255 };
    assert_eq!(color_multiply(c, SCALE), c);
}

#[test]
fn color_multiply_by_zero_blacks_out_rgb() {
    let c = Color { r: 17, g: 200, b: 255, a: 123 };
    assert_eq!(color_multiply(c, 0), Color { r: 0, g: 0, b: 0, a: 123 });
}

#[test]
fn color_multiply_truncates_and_saturates() {
    let c = Color { r: 101, g: 0, b: 255, a: 255 };
    // 101 * 0.5 = 50.5 truncates to 50.
    assert_eq!(color_multiply(c, fx(0.5)).r, 50);
    // An intensity above one saturates a bright channel at 255.
    assert_eq!(color_multiply(c, fx(2.0)).b, 255);
    // A negative intensity saturates at zero.
    assert_eq!(color_multiply(c, fx(-1.0)).r, 0);
}
