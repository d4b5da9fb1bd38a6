use rtrt::camera::new_camera;
use rtrt::fx::SCALE;
use rtrt::math::{Color, Vec3};
use rtrt::scene::{
    distance_to_shape, move_shape, new_scene, shape_color, shape_normal, sphere_trace, Config,
    Scene, Shape,
};

fn fx(x: f64) -> i64 {
    (x * 65536.0) as i64
}

fn v(x: f64, y: f64, z: f64) -> Vec3 {
    Vec3 { x: fx(x), y: fx(y), z: fx(z) }
}

const TERRACOTTA: Color = Color { r: 0xFF, g: 0xB3, b: 0x87, a: 0xFF };
const SALMON: Color = Color { r: 0xFA, g: 0x80, b: 0x72, a: 0xFF };
const BLACK: Color = Color { r: 0x00, g: 0x00, b: 0x00, a: 0xFF };

fn sphere(cx: f64, cy: f64, cz: f64, r: f64, color: Color) -> Shape {
    Shape::Sphere { center: v(cx, cy, cz), radius: fx(r), color }
}

fn looking_at(eye: Vec3, target: Vec3, w: usize, h: usize) -> rtrt::camera::Camera {
    let tan_fov = (std::f64::consts::FRAC_PI_3.tan() * 65536.0) as i64;
    new_camera(eye, target, v(0.0, 1.0, 0.0), tan_fov, w, h)
}

#[test]
fn config_default_matches_the_classic_tuning() {
    let c = Config::default();
    assert_eq!(c.trace_depth, 20);
    assert_eq!(c.hit_eps, 655); // 0.01 units
    assert_eq!(c.ambient, 26214); // 0.4
    assert_eq!(c.normal_eps, 655);
}

#[test]
fn sphere_distance_at_center_is_minus_radius() {
    let s = sphere(0.0, 0.0, 0.0, 1.5, TERRACOTTA);
    assert_eq!(distance_to_shape(&s, v(0.0, 0.0, 0.0)), -fx(1.5));
}

#[test]
fn sphere_distance_on_surface_is_zero() {
    let s = sphere(0.0, 0.0, 0.0, 1.5, TERRACOTTA);
    assert_eq!(distance_to_shape(&s, v(1.5, 0.0, 0.0)), 0);
    assert_eq!(distance_to_shape(&s, v(3.0, 0.0, 0.0)), fx(1.5));
}

#[test]
fn sphere_distance_on_surface_along_any_direction() {
    // center + radius * normalize(d) lies on the surface up to rounding.
    let s = sphere(2.0, -1.0, 0.5, 1.5, TERRACOTTA);
    for (a, b, c) in [(1.0, 2.0, 2.0), (-3.0, 0.2, 1.0), (0.1, 0.1, -5.0)] {
        let u = rtrt::math::normalize(v(a, b, c));
        let p = rtrt::math::plus(v(2.0, -1.0, 0.5), rtrt::math::scale(u, fx(1.5)));
        let d = distance_to_shape(&s, p);
        assert!(d.abs() <= 16, "distance {d} too far from the surface");
    }
}

#[test]
fn box_distance_vanishes_on_face_centers() {
    let b = Shape::Box { center: v(0.0, 0.0, 0.0), size: v(2.0, 4.0, 6.0), color: SALMON };
    assert_eq!(distance_to_shape(&b, v(1.0, 0.0, 0.0)), 0);
    assert_eq!(distance_to_shape(&b, v(-1.0, 0.0, 0.0)), 0);
    assert_eq!(distance_to_shape(&b, v(0.0, 2.0, 0.0)), 0);
    assert_eq!(distance_to_shape(&b, v(0.0, -2.0, 0.0)), 0);
    assert_eq!(distance_to_shape(&b, v(0.0, 0.0, 3.0)), 0);
    assert_eq!(distance_to_shape(&b, v(0.0, 0.0, -3.0)), 0);
}

#[test]
fn box_distance_decreases_toward_the_face() {
    let b = Shape::Box { center: v(0.0, 0.0, 0.0), size: v(2.0, 2.0, 2.0), color: SALMON };
    let far = distance_to_shape(&b, v(5.0, 0.0, 0.0));
    let near = distance_to_shape(&b, v(2.0, 0.0, 0.0));
    assert_eq!(far, fx(4.0));
    assert_eq!(near, fx(1.0));
    assert!(near < far);
}

#[test]
fn box_corner_distance_is_euclidean() {
    let b = Shape::Box { center: v(0.0, 0.0, 0.0), size: v(2.0, 2.0, 2.0), color: SALMON };
    // One unit past the corner on two axes: distance sqrt(2).
    let d = distance_to_shape(&b, v(2.0, 2.0, 0.0));
    assert!((d - 92681).abs() <= 2, "corner distance {d}");
}

#[test]
fn shape_normal_points_outward_on_a_sphere() {
    let s = sphere(0.0, 0.0, 0.0, 1.5, TERRACOTTA);
    let n = shape_normal(&s, v(1.5, 0.0, 0.0), 655);
    assert!(n.x > 60000, "normal x {} should be close to one unit", n.x);
    assert!(n.y.abs() < 4000 && n.z.abs() < 4000);
}

#[test]
fn shape_color_and_move_shape() {
    let mut s = sphere(0.0, 0.0, 0.0, 1.5, TERRACOTTA);
    assert_eq!(shape_color(&s), TERRACOTTA);
    move_shape(&mut s, fx(1.0), fx(2.0), fx(3.0));
    match s {
        Shape::Sphere { center, radius, color } => {
            assert_eq!(center, v(1.0, 2.0, 3.0));
            assert_eq!(radius, fx(1.5));
            assert_eq!(color, TERRACOTTA);
        },
        _ => unreachable!(),
    }
}

#[test]
fn trace_hits_a_sphere_head_on() {
    // A ray from (0,0,9) toward the origin against a sphere of radius 1.5
    // hits within the step budget, exactly on the surface here.
    let shapes = vec![(0usize, sphere(0.0, 0.0, 0.0, 1.5, TERRACOTTA))];
    let cfg = Config::default();
    let hit = sphere_trace(v(0.0, 0.0, 9.0), Vec3 { x: 0, y: 0, z: -SCALE }, &shapes, &cfg);
    match hit {
        Some((shape, p)) => {
            assert_eq!(shape_color(&shape), TERRACOTTA);
            assert_eq!(p, v(0.0, 0.0, 1.5));
        },
        None => panic!("expected a hit"),
    }
}

#[test]
fn trace_misses_when_aimed_away() {
    let shapes = vec![(0usize, sphere(0.0, 0.0, 0.0, 1.5, TERRACOTTA))];
    let cfg = Config::default();
    let hit = sphere_trace(v(0.0, 0.0, 9.0), Vec3 { x: 0, y: 0, z: SCALE }, &shapes, &cfg);
    assert!(hit.is_none());
}

#[test]
fn trace_misses_a_tangential_ray() {
    // The ray passes 2.5 units above the sphere's surface: farther than
    // the hit threshold at every one of the twenty steps.
    let shapes = vec![(0usize, sphere(0.0, 0.0, 0.0, 1.5, TERRACOTTA))];
    let cfg = Config::default();
    let hit = sphere_trace(v(0.0, 4.0, 9.0), Vec3 { x: 0, y: 0, z: -SCALE }, &shapes, &cfg);
    assert!(hit.is_none());
}

#[test]
fn trace_of_an_empty_scene_misses() {
    let shapes: Vec<(usize, Shape)> = Vec::new();
    let cfg = Config::default();
    assert!(sphere_trace(v(0.0, 0.0, 9.0), Vec3 { x: 0, y: 0, z: -SCALE }, &shapes, &cfg)
        .is_none());
}

#[test]
fn trace_ties_go_to_the_earliest_shape() {
    // Two coinciding spheres: the first one stored wins the tie.
    let shapes = vec![
        (7usize, sphere(0.0, 0.0, 0.0, 1.5, TERRACOTTA)),
        (3usize, sphere(0.0, 0.0, 0.0, 1.5, SALMON)),
    ];
    let cfg = Config::default();
    let hit = sphere_trace(v(0.0, 0.0, 9.0), Vec3 { x: 0, y: 0, z: -SCALE }, &shapes, &cfg);
    match hit {
        Some((shape, _)) => assert_eq!(shape_color(&shape), TERRACOTTA),
        None => panic!("expected a hit"),
    }
}

fn pixel(frame: &[u8], width: usize, x: usize, y: usize) -> [u8; 4] {
    let i = (y * width + x) * 4;
    [frame[i], frame[i + 1], frame[i + 2], frame[i + 3]]
}

#[test]
fn draw_renders_the_offset_sphere_scene() {
    // The end-to-end scenario: a sphere one unit above the gaze axis.
    // The center pixel's ray passes under it and stays background black;
    // re-aiming the camera at the sphere shades the center terracotta with
    // at least the ambient intensity.
    let cam = looking_at(v(0.0, 0.0, 9.0), v(0.0, 0.0, 0.0), 320, 240);
    let mut scene = new_scene(cam, Config::default());
    scene.add_shape(0, sphere(0.0, 1.0, 0.0, 0.7, TERRACOTTA));
    let mut frame = vec![0u8; 320 * 240 * 4];
    scene.draw(&mut frame, 320, BLACK);
    assert_eq!(pixel(&frame, 320, 160, 120), [0, 0, 0, 255]);

    let cam2 = looking_at(v(0.0, 0.0, 9.0), v(0.0, 1.0, 0.0), 320, 240);
    let mut scene2 = new_scene(cam2, Config::default());
    scene2.add_shape(0, sphere(0.0, 1.0, 0.0, 0.7, TERRACOTTA));
    let mut frame2 = vec![0u8; 320 * 240 * 4];
    scene2.draw(&mut frame2, 320, BLACK);
    let [r, g, b, a] = pixel(&frame2, 320, 160, 120);
    // intensity >= ambient 0.4, truncating: floor of 0.4 * each channel.
    assert!(r >= 101, "red {r} below the ambient floor");
    assert!(g >= 71, "green {g} below the ambient floor");
    assert!(b >= 53, "blue {b} below the ambient floor");
    assert_eq!(a, 255);
}

#[test]
fn draw_sees_shapes_move_and_overwrite() {
    let cam = looking_at(v(0.0, 0.0, 9.0), v(0.0, 0.0, 0.0), 8, 8);
    let mut scene = new_scene(cam, Config::default());
    scene.add_shape(0, sphere(0.0, 0.0, 0.0, 1.5, TERRACOTTA));
    let mut frame = vec![0u8; 8 * 8 * 4];
    scene.draw(&mut frame, 8, BLACK);
    assert_ne!(pixel(&frame, 8, 4, 4), [0, 0, 0, 255], "the sphere should cover the center");

    // Moving it far off-axis empties the view.
    scene.move_shape(0, fx(400.0), 0, 0);
    scene.draw(&mut frame, 8, BLACK);
    assert_eq!(pixel(&frame, 8, 4, 4), [0, 0, 0, 255]);

    // Moving an unknown id is a silent no-op.
    scene.move_shape(99, 0, 0, 0);
    scene.draw(&mut frame, 8, BLACK);
    assert_eq!(pixel(&frame, 8, 4, 4), [0, 0, 0, 255]);

    // Overwriting the id brings the sphere back into view.
    scene.add_shape(0, sphere(0.0, 0.0, 0.0, 1.5, SALMON));
    scene.draw(&mut frame, 8, BLACK);
    assert_ne!(pixel(&frame, 8, 4, 4), [0, 0, 0, 255]);
}

#[test]
fn draw_shades_a_box_face_head_on() {
    let cam = looking_at(v(0.0, 0.0, 9.0), v(0.0, 0.0, 0.0), 16, 16);
    let mut scene = new_scene(cam, Config::default());
    let gray = Color { r: 0x87, g: 0x87, b: 0x87, a: 0xFF };
    scene.add_shape(0, Shape::Box { center: v(0.0, 0.0, 0.0), size: v(4.0, 4.0, 2.0), color: gray });
    let mut frame = vec![0u8; 16 * 16 * 4];
    scene.draw(&mut frame, 16, BLACK);
    let [r, g, b, a] = pixel(&frame, 16, 8, 8);
    // The face normal points at the camera; at least the ambient floor of
    // the gray must come through.
    assert!(r >= 53 && g >= 53 && b >= 53, "box face too dark: {r} {g} {b}");
    assert_eq!(a, 255);
}

#[test]
fn draw_preserves_trailing_bytes() {
    let cam = looking_at(v(0.0, 0.0, 9.0), v(0.0, 0.0, 0.0), 2, 2);
    let scene = new_scene(cam, Config::default());
    // Two whole pixels and three stray bytes.
    let mut frame = vec![9u8; 2 * 4 + 3];
    scene.draw(&mut frame, 2, BLACK);
    assert_eq!(&frame[8..], &[9, 9, 9]);
    assert_eq!(pixel(&frame, 2, 0, 0), [0, 0, 0, 255]);
}
