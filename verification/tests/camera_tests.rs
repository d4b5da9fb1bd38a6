use rtrt::camera::{new_camera, pan, raycast, rotate, zoom, Camera};
use rtrt::fx::SCALE;
use rtrt::math::{plus, scale, Vec3};

fn fx(x: f64) -> i64 {
    (x * 65536.0) as i64
}

fn v(x: f64, y: f64, z: f64) -> Vec3 {
    Vec3 { x: fx(x), y: fx(y), z: fx(z) }
}

/// The demo pose: nine units back on the z axis, looking at the origin,
/// with a field of view of sixty degrees (the tangent of the half-angle
/// is supplied in fixed point; the trigonometry happens outside the
/// library).
fn demo_camera() -> Camera {
    let tan_fov = (std::f64::consts::FRAC_PI_3.tan() * 65536.0) as i64;
    new_camera(v(0.0, 0.0, 9.0), v(0.0, 0.0, 0.0), v(0.0, 1.0, 0.0), tan_fov, 320, 240)
}

#[test]
fn new_camera_computes_the_basis() {
    let cam = demo_camera();
    // The gaze runs along -z, exactly one unit long.
    assert_eq!(cam.view_dir, Vec3 { x: 0, y: 0, z: -SCALE });
    // The right vector is the cross of gaze and up, along +x here; the
    // up vector points along +y; both are stretched by the field of view.
    assert!(cam.view_right.x > 0);
    assert_eq!(cam.view_right.y, 0);
    assert_eq!(cam.view_right.z, 0);
    assert!(cam.view_up.y > 0);
}

#[test]
fn raycast_center_pixel_aligns_with_gaze() {
    let cam = demo_camera();
    // The raster center: both offsets vanish and the ray direction is
    // exactly the normalized gaze.
    let (origin, dir) = raycast(&cam, fx(160.0), fx(120.0));
    assert_eq!(origin, cam.eye);
    assert_eq!(dir, Vec3 { x: 0, y: 0, z: -SCALE });
}

#[test]
fn raycast_corner_pixel_leans_away_from_gaze() {
    let cam = demo_camera();
    let (_, dir) = raycast(&cam, fx(0.0), fx(0.0));
    // The top-left corner ray leans right-negative-offset and up-negative
    // offset; it must differ from the gaze and stay unit length.
    assert_ne!(dir, Vec3 { x: 0, y: 0, z: -SCALE });
    let n = rtrt::math::norm(dir);
    assert!(SCALE - 4 <= n && n <= SCALE + 5);
}

#[test]
fn pan_round_trip_restores_the_pose() {
    let mut cam = demo_camera();
    let eye0 = cam.eye;
    let look0 = cam.look_at;
    let d = fx(0.1);
    pan(&mut cam, d, 0);
    assert_ne!(cam.eye, eye0);
    pan(&mut cam, -d, 0);
    assert_eq!(cam.eye, eye0);
    assert_eq!(cam.look_at, look0);
    // The same holds on the vertical axis.
    pan(&mut cam, 0, d);
    pan(&mut cam, 0, -d);
    assert_eq!(cam.eye, eye0);
    assert_eq!(cam.look_at, look0);
}

#[test]
fn pan_strafes_without_changing_facing() {
    let mut cam = demo_camera();
    let dir0 = cam.view_dir;
    let right0 = cam.view_right;
    pan(&mut cam, fx(0.1), fx(-0.2));
    assert_eq!(cam.view_dir, dir0);
    assert_eq!(cam.view_right, right0);
}

#[test]
fn zoom_dollies_along_the_gaze() {
    let mut cam = demo_camera();
    let d = fx(0.1);
    zoom(&mut cam, d);
    // The gaze is exactly (0, 0, -1), so the dolly moves z by exactly -d.
    assert_eq!(cam.eye, Vec3 { x: 0, y: 0, z: fx(9.0) - d });
    assert_eq!(cam.look_at, Vec3 { x: 0, y: 0, z: -d });
    assert_eq!(cam.view_dir, Vec3 { x: 0, y: 0, z: -SCALE });
}

#[test]
fn rotate_reaims_one_unit_ahead() {
    let mut cam = demo_camera();
    let before = cam;
    let d = fx(0.02);
    rotate(&mut cam, d, 0);
    let expected = plus(
        plus(plus(before.eye, before.view_dir), scale(before.view_right, d)),
        scale(before.view_up, 0),
    );
    assert_eq!(cam.look_at, expected);
    assert_eq!(cam.eye, before.eye);
}
