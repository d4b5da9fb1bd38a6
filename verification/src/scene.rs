//! Shapes with their signed distance fields, the sphere-tracing search,
//! and the scene that shades every pixel of a frame.

use vstd::prelude::*;
use vstd::arithmetic::div_mod::{
    lemma_div_is_ordered, lemma_div_multiples_vanish, lemma_fundamental_div_mod,
    lemma_multiply_divide_lt,
};
use vstd::arithmetic::mul::lemma_mul_is_associative;
use crate::fx::{
    isqrt, lemma_isqrt_mono, lemma_isqrt_square, lemma_tdiv_rem, lemma_tdiv_shrinks, tdiv, HALF,
    SCALE,
};
use crate::fx::div_fx;
use crate::math::{
    bounded, cmul, normsq, vadd, vdot, vnorm, vnormalize, vscale, vsub, Color, Vec3, V3,
    lemma_normsq_parts, lemma_vdot_le, lemma_vnorm_le, lemma_vscale_unit_le, MAX_COORD,
};
use crate::math::{color_multiply, dot, minus, norm, normalize, plus, scale};
use crate::camera::{ray_pre, raycast, Camera};

verus! {

/// Points reached while tracing stay inside this bound.
pub const TRACE_MAX: i64 = 0x400_0000_0000_0000;

/// Distance queries accept points up to this bound (one normal-probe step
/// beyond `TRACE_MAX`).
pub const DIST_MAX: i64 = 0x800_0000_0000_0000;

/// An implicit-surface primitive with a flat color.
#[derive(Clone, Copy, PartialEq, Eq, Structural, Debug)]
pub enum Shape {
    Sphere { center: Vec3, radius: i64, color: Color },
    Box { center: Vec3, size: Vec3, color: Color },
}

/// A shape the scene accepts: positive extents, inside the world cube.
pub open spec fn shape_wf(s: Shape) -> bool {
    match s {
        Shape::Sphere { center, radius, .. } => {
            &&& bounded(center@, MAX_COORD as int)
            &&& 0 < radius <= MAX_COORD
        },
        Shape::Box { center, size, .. } => {
            &&& bounded(center@, MAX_COORD as int)
            &&& 0 < size.x <= MAX_COORD
            &&& 0 < size.y <= MAX_COORD
            &&& 0 < size.z <= MAX_COORD
        },
    }
}

pub open spec fn sabs(a: int) -> int {
    if a < 0 {
        -a
    } else {
        a
    }
}

pub open spec fn pos_part(a: int) -> int {
    if a < 0 {
        0
    } else {
        a
    }
}

/// The signed distance from `p` to the surface of `s`: negative inside.
/// For a box the value is exact outside and a safe lower bound inside.
pub open spec fn sdist(s: Shape, p: V3) -> int {
    match s {
        Shape::Sphere { center, radius, .. } => vnorm(vsub(p, center@)) - radius,
        Shape::Box { center, size, .. } => {
            let d = vsub(p, center@);
            vnorm(
                V3 {
                    x: pos_part(sabs(d.x) - tdiv(size@.x, 2)),
                    y: pos_part(sabs(d.y) - tdiv(size@.y, 2)),
                    z: pos_part(sabs(d.z) - tdiv(size@.z, 2)),
                },
            )
        },
    }
}

pub open spec fn scolor(s: Shape) -> Color {
    match s {
        Shape::Sphere { color, .. } => color,
        Shape::Box { color, .. } => color,
    }
}

/// The same shape placed with its center at the absolute point `(x, y, z)`.
pub open spec fn stranslate(s: Shape, x: i64, y: i64, z: i64) -> Shape {
    match s {
        Shape::Sphere { center: _, radius, color } => Shape::Sphere {
            center: Vec3 { x, y, z },
            radius,
            color,
        },
        Shape::Box { center: _, size, color } => Shape::Box {
            center: Vec3 { x, y, z },
            size,
            color,
        },
    }
}

/// A signed distance is never below `-MAX_COORD` and grows at most
/// linearly with the point's bound.
pub proof fn lemma_sdist_le(s: Shape, p: V3, b: int)
    requires
        shape_wf(s),
        bounded(p, b),
        MAX_COORD as int <= b,
    ensures
        -(MAX_COORD as int) <= sdist(s, p) <= 2 * (b + MAX_COORD as int),
{
    match s {
        Shape::Sphere { center, radius, .. } => {
            lemma_vnorm_le(vsub(p, center@), b + MAX_COORD as int);
        },
        Shape::Box { center, size, .. } => {
            lemma_tdiv_shrinks(size@.x, 2);
            lemma_tdiv_shrinks(size@.y, 2);
            lemma_tdiv_shrinks(size@.z, 2);
            let d = vsub(p, center@);
            lemma_vnorm_le(
                V3 {
                    x: pos_part(sabs(d.x) - tdiv(size@.x, 2)),
                    y: pos_part(sabs(d.y) - tdiv(size@.y, 2)),
                    z: pos_part(sabs(d.z) - tdiv(size@.z, 2)),
                },
                b + MAX_COORD as int,
            );
        },
    }
}

/// The flat base color of a shape.
pub fn shape_color(shape: &Shape) -> (c: Color)
    ensures
        c == scolor(*shape),
{
    match shape {
        Shape::Sphere { color, .. } => *color,
        Shape::Box { color, .. } => *color,
    }
}

/// Place a shape's center at the absolute point `(x, y, z)`.
pub fn move_shape(shape: &mut Shape, x: i64, y: i64, z: i64)
    ensures
        *final(shape) == stranslate(*old(shape), x, y, z),
{
    match shape {
        Shape::Sphere { center, .. } => {
            center.x = x;
            center.y = y;
            center.z = z;
        },
        Shape::Box { center, .. } => {
            center.x = x;
            center.y = y;
            center.z = z;
        },
    }
}

/// The signed distance from `p` to the surface of `shape`.
pub fn distance_to_shape(shape: &Shape, p: Vec3) -> (r: i64)
    requires
        shape_wf(*shape),
        bounded(p@, DIST_MAX as int),
    ensures
        r as int == sdist(*shape, p@),
{
    match shape {
        Shape::Sphere { center, radius, .. } => {
            let d = minus(p, *center);
            proof {
                lemma_vnorm_le(d@, DIST_MAX as int + MAX_COORD as int);
            }
            let n = norm(d);
            n - *radius
        },
        Shape::Box { center, size, .. } => {
            let d = minus(p, *center);
            let hx = div_fx(size.x, 2);
            let hy = div_fx(size.y, 2);
            let hz = div_fx(size.z, 2);
            proof {
                lemma_tdiv_shrinks(size@.x, 2);
                lemma_tdiv_shrinks(size@.y, 2);
                lemma_tdiv_shrinks(size@.z, 2);
            }
            let ax = if d.x < 0 {
                -d.x
            } else {
                d.x
            };
            let ay = if d.y < 0 {
                -d.y
            } else {
                d.y
            };
            let az = if d.z < 0 {
                -d.z
            } else {
                d.z
            };
            let qx0 = ax - hx;
            let qy0 = ay - hy;
            let qz0 = az - hz;
            let q = Vec3 {
                x: if qx0 < 0 {
                    0
                } else {
                    qx0
                },
                y: if qy0 < 0 {
                    0
                } else {
                    qy0
                },
                z: if qz0 < 0 {
                    0
                } else {
                    qz0
                },
            };
            norm(q)
        },
    }
}

/// The gradient probe of the distance field at `p`, with step `eps`:
/// central differences along each axis, normalized (the constant `2 eps`
/// factor drops out under normalization).  Where the probe degenerates to
/// the zero vector (possible deep inside a box, where the field is flat),
/// the zero vector is returned and shading falls back to the ambient
/// floor.
pub open spec fn snormal(s: Shape, p: V3, eps: int) -> V3 {
    let g = V3 {
        x: sdist(s, vadd(p, V3 { x: eps, y: 0, z: 0 })) - sdist(
            s,
            vadd(p, V3 { x: -eps, y: 0, z: 0 }),
        ),
        y: sdist(s, vadd(p, V3 { x: 0, y: eps, z: 0 })) - sdist(
            s,
            vadd(p, V3 { x: 0, y: -eps, z: 0 }),
        ),
        z: sdist(s, vadd(p, V3 { x: 0, y: 0, z: eps })) - sdist(
            s,
            vadd(p, V3 { x: 0, y: 0, z: -eps }),
        ),
    };
    if normsq(g) == 0 {
        V3 { x: 0, y: 0, z: 0 }
    } else {
        vnormalize(g)
    }
}

/// The surface normal of `shape` near `p`, from the distance field.
pub fn shape_normal(shape: &Shape, p: Vec3, eps: i64) -> (r: Vec3)
    requires
        shape_wf(*shape),
        bounded(p@, TRACE_MAX as int),
        0 < eps <= SCALE,
    ensures
        r@ == snormal(*shape, p@, eps as int),
        bounded(r@, SCALE as int),
{
    let pxa = plus(p, Vec3 { x: eps, y: 0, z: 0 });
    let pxb = plus(p, Vec3 { x: -eps, y: 0, z: 0 });
    let pya = plus(p, Vec3 { x: 0, y: eps, z: 0 });
    let pyb = plus(p, Vec3 { x: 0, y: -eps, z: 0 });
    let pza = plus(p, Vec3 { x: 0, y: 0, z: eps });
    let pzb = plus(p, Vec3 { x: 0, y: 0, z: -eps });
    let dxa = distance_to_shape(shape, pxa);
    let dxb = distance_to_shape(shape, pxb);
    let dya = distance_to_shape(shape, pya);
    let dyb = distance_to_shape(shape, pyb);
    let dza = distance_to_shape(shape, pza);
    let dzb = distance_to_shape(shape, pzb);
    proof {
        lemma_sdist_le(*shape, pxa@, TRACE_MAX as int + SCALE as int);
        lemma_sdist_le(*shape, pxb@, TRACE_MAX as int + SCALE as int);
        lemma_sdist_le(*shape, pya@, TRACE_MAX as int + SCALE as int);
        lemma_sdist_le(*shape, pyb@, TRACE_MAX as int + SCALE as int);
        lemma_sdist_le(*shape, pza@, TRACE_MAX as int + SCALE as int);
        lemma_sdist_le(*shape, pzb@, TRACE_MAX as int + SCALE as int);
    }
    let g = Vec3 { x: dxa - dxb, y: dya - dyb, z: dza - dzb };
    if g.x == 0 && g.y == 0 && g.z == 0 {
        proof {
            assert(normsq(g@) == 0);
        }
        Vec3 { x: 0, y: 0, z: 0 }
    } else {
        proof {
            assert(normsq(g@) > 0) by (nonlinear_arith)
                requires
                    !(g@.x == 0 && g@.y == 0 && g@.z == 0),
                    normsq(g@) == g@.x * g@.x + g@.y * g@.y + g@.z * g@.z,
            ;
        }
        normalize(g)
    }
}

/// The tracer's and shader's tuning constants, all in fixed point.
#[derive(Clone, Copy, PartialEq, Eq, Structural, Debug)]
pub struct Config {
    /// How many marching steps a ray is given.
    pub trace_depth: usize,
    /// A surface closer than this counts as hit (defaults to 0.01 units).
    pub hit_eps: i64,
    /// The ambient shading floor (defaults to 0.4).
    pub ambient: i64,
    /// The step of the normal's gradient probe (defaults to 0.01 units).
    pub normal_eps: i64,
}

impl Config {
    pub open spec fn wf(self) -> bool {
        &&& self.trace_depth <= 20
        &&& 0 < self.hit_eps <= SCALE
        &&& 0 <= self.ambient <= SCALE
        &&& 0 < self.normal_eps <= SCALE
    }
}

pub open spec fn default_config() -> Config {
    Config { trace_depth: 20, hit_eps: 655, ambient: 26214, normal_eps: 655 }
}

impl Default for Config {
    /// Twenty steps, a hit threshold and probe step of 0.01 units and an
    /// ambient floor of 0.4, truncated to fixed point.
    fn default() -> (c: Self)
        ensures
            c == default_config(),
            c.wf(),
    {
        Config { trace_depth: 20, hit_eps: 655, ambient: 26214, normal_eps: 655 }
    }
}

/// The index of the shape nearest to `p` among the first `n`, ties going
/// to the earliest (the order the scene stores them in).
pub open spec fn best_of(shapes: Seq<(usize, Shape)>, p: V3, n: nat) -> nat
    decreases n,
{
    if n <= 1 {
        0
    } else {
        let b = best_of(shapes, p, (n - 1) as nat);
        if sdist(shapes[n - 1].1, p) < sdist(shapes[b as int].1, p) {
            (n - 1) as nat
        } else {
            b
        }
    }
}

pub proof fn lemma_best_of_range(shapes: Seq<(usize, Shape)>, p: V3, n: nat)
    requires
        1 <= n,
    ensures
        best_of(shapes, p, n) < n,
    decreases n,
{
    if n > 1 {
        lemma_best_of_range(shapes, p, (n - 1) as nat);
    }
}

/// The shape `best_of` picks is genuinely the nearest: no shape among the
/// first `n` is strictly closer.
pub proof fn lemma_best_of_min(shapes: Seq<(usize, Shape)>, p: V3, n: nat, i: int)
    requires
        1 <= n <= shapes.len(),
        0 <= i < n,
    ensures
        sdist(shapes[best_of(shapes, p, n) as int].1, p) <= sdist(shapes[i].1, p),
    decreases n,
{
    if n > 1 && i < n - 1 {
        lemma_best_of_min(shapes, p, (n - 1) as nat, i);
    }
}

/// The smallest signed distance from `p` to any shape (for a non-empty
/// sequence).
pub open spec fn min_sdist(shapes: Seq<(usize, Shape)>, p: V3) -> int {
    sdist(shapes[best_of(shapes, p, shapes.len()) as int].1, p)
}

/// `min_sdist` is a lower bound on every shape's distance.
pub proof fn lemma_min_sdist_le(shapes: Seq<(usize, Shape)>, p: V3, i: int)
    requires
        0 <= i < shapes.len(),
    ensures
        min_sdist(shapes, p) <= sdist(shapes[i].1, p),
{
    lemma_best_of_min(shapes, p, shapes.len(), i);
}

/// What sphere tracing computes: march from `p` along `dir`; at each of at
/// most `fuel` steps, report the nearest shape if it is closer than `eps`,
/// else advance by the minimal distance.  An empty scene is always a miss.
pub open spec fn strace(
    shapes: Seq<(usize, Shape)>,
    p: V3,
    dir: V3,
    fuel: nat,
    eps: int,
) -> Option<(Shape, V3)>
    decreases fuel,
{
    if fuel == 0 || shapes.len() == 0 {
        None
    } else {
        let m = min_sdist(shapes, p);
        if m < eps {
            Some((shapes[best_of(shapes, p, shapes.len()) as int].1, p))
        } else {
            strace(shapes, vadd(p, vscale(dir, m)), dir, (fuel - 1) as nat, eps)
        }
    }
}

/// Relates an executable trace result to the specification's.
pub open spec fn hit_matches(r: Option<(Shape, Vec3)>, s: Option<(Shape, V3)>) -> bool {
    match r {
        Some(h) => s == Some((h.0, h.1@)),
        None => s is None,
    }
}

/// The bound a traced point satisfies after `k` steps: each step at most
/// triples the distance from the origin (plus a world-sized constant).
pub open spec fn tb(k: nat) -> int
    decreases k,
{
    if k == 0 {
        MAX_COORD as int
    } else {
        3 * tb((k - 1) as nat) + 2 * (MAX_COORD as int)
    }
}

pub proof fn lemma_tb_pos(k: nat)
    ensures
        MAX_COORD as int <= tb(k),
    decreases k,
{
    if k > 0 {
        lemma_tb_pos((k - 1) as nat);
    }
}

pub proof fn lemma_tb_mono(j: nat, k: nat)
    requires
        j <= k,
    ensures
        tb(j) <= tb(k),
    decreases k,
{
    if j < k {
        lemma_tb_mono(j, (k - 1) as nat);
        lemma_tb_pos((k - 1) as nat);
    }
}

pub proof fn lemma_tb_le(k: nat)
    requires
        k <= 20,
    ensures
        tb(k) <= TRACE_MAX as int,
{
    lemma_tb_mono(k, 20);
    reveal_with_fuel(tb, 21);
    assert(tb(20) == 0x33f_506e_4200_0000);
}

/// March a ray against the shapes: the result is exactly what `strace`
/// specifies, and any hit point stays inside the tracing bound.
pub fn sphere_trace(orig: Vec3, dir: Vec3, shapes: &Vec<(usize, Shape)>, cfg: &Config) -> (r:
    Option<(Shape, Vec3)>)
    requires
        bounded(orig@, MAX_COORD as int),
        bounded(dir@, SCALE as int),
        forall|i: int| 0 <= i < shapes@.len() ==> shape_wf(#[trigger] shapes@[i].1),
        cfg.wf(),
    ensures
        hit_matches(r, strace(shapes@, orig@, dir@, cfg.trace_depth as nat, cfg.hit_eps as int)),
        (match r {
            Some(h) => bounded(h.1@, TRACE_MAX as int),
            None => true,
        }),
{
    if shapes.len() == 0 {
        return None;
    }
    let depth = cfg.trace_depth;
    let mut p = orig;
    let mut k: usize = 0;
    proof {
        lemma_tb_pos(0);
    }
    while k < depth
        invariant
            k <= depth,
            depth == cfg.trace_depth,
            depth <= 20,
            0 < cfg.hit_eps <= SCALE,
            shapes@.len() > 0,
            forall|i: int| 0 <= i < shapes@.len() ==> shape_wf(#[trigger] shapes@[i].1),
            bounded(dir@, SCALE as int),
            bounded(p@, tb(k as nat)),
            strace(shapes@, orig@, dir@, depth as nat, cfg.hit_eps as int) == strace(
                shapes@,
                p@,
                dir@,
                (depth - k) as nat,
                cfg.hit_eps as int,
            ),
        decreases depth - k,
    {
        proof {
            lemma_tb_le(k as nat);
            lemma_tb_pos(k as nat);
        }
        let mut min_d = distance_to_shape(&shapes[0].1, p);
        let mut best: usize = 0;
        let mut j: usize = 1;
        while j < shapes.len()
            invariant
                1 <= j <= shapes@.len(),
                best < j,
                forall|i: int| 0 <= i < shapes@.len() ==> shape_wf(#[trigger] shapes@[i].1),
                bounded(p@, tb(k as nat)),
                tb(k as nat) <= TRACE_MAX as int,
                best as nat == best_of(shapes@, p@, j as nat),
                min_d as int == sdist(shapes@[best as int].1, p@),
            decreases shapes@.len() - j,
        {
            let d = distance_to_shape(&shapes[j].1, p);
            if d < min_d {
                min_d = d;
                best = j;
            }
            j += 1;
        }
        proof {
            lemma_best_of_range(shapes@, p@, shapes@.len());
        }
        if min_d < cfg.hit_eps {
            return Some((shapes[best].1, p));
        }
        proof {
            lemma_sdist_le(shapes@[best as int].1, p@, tb(k as nat));
            lemma_vscale_unit_le(
                dir@,
                min_d as int,
                2 * (tb(k as nat) + MAX_COORD as int),
            );
        }
        let sv = scale(dir, min_d);
        p = plus(p, sv);
        k += 1;
        proof {
            lemma_tb_pos(k as nat);
        }
    }
    None
}

/// A traced hit always reports one of the scene's own shapes.
pub proof fn lemma_strace_shape(shapes: Seq<(usize, Shape)>, p: V3, dir: V3, fuel: nat, eps: int)
    ensures
        (match strace(shapes, p, dir, fuel, eps) {
            Some(h) => exists|i: int| 0 <= i < shapes.len() && h.0 == #[trigger] shapes[i].1,
            None => true,
        }),
    decreases fuel,
{
    if fuel == 0 || shapes.len() == 0 {
    } else {
        let m = min_sdist(shapes, p);
        if m < eps {
            lemma_best_of_range(shapes, p, shapes.len());
            let b = best_of(shapes, p, shapes.len()) as int;
            assert(0 <= b < shapes.len() && strace(shapes, p, dir, fuel, eps).unwrap().0
                == shapes[b].1);
        } else {
            lemma_strace_shape(shapes, vadd(p, vscale(dir, m)), dir, (fuel - 1) as nat, eps);
        }
    }
}

/// The index of the shape stored under `id`, or `-1` if there is none;
/// earliest first.
pub open spec fn find_id(shapes: Seq<(usize, Shape)>, id: usize) -> int
    decreases shapes.len(),
{
    if shapes.len() == 0 {
        -1
    } else if shapes[0].0 == id {
        0
    } else {
        let r = find_id(shapes.drop_first(), id);
        if r == -1 {
            -1
        } else {
            r + 1
        }
    }
}

/// `find_id` points at the earliest pair carrying `id`, and fails exactly
/// when no pair carries it.
pub proof fn lemma_find_id_spec(shapes: Seq<(usize, Shape)>, id: usize)
    ensures
        find_id(shapes, id) == -1 ==> forall|i: int|
            0 <= i < shapes.len() ==> (#[trigger] shapes[i]).0 != id,
        find_id(shapes, id) != -1 ==> 0 <= find_id(shapes, id) < shapes.len() && shapes[find_id(
            shapes,
            id,
        )].0 == id && forall|i: int| 0 <= i < find_id(shapes, id) ==> (#[trigger] shapes[i]).0
            != id,
    decreases shapes.len(),
{
    if shapes.len() == 0 {
    } else if shapes[0].0 == id {
    } else {
        lemma_find_id_spec(shapes.drop_first(), id);
        let r = find_id(shapes.drop_first(), id);
        if r == -1 {
            assert forall|i: int| 0 <= i < shapes.len() implies (#[trigger] shapes[i]).0
                != id by {
                if i > 0 {
                    assert(shapes.drop_first()[i - 1] == shapes[i]);
                }
            }
        } else {
            assert(shapes.drop_first()[r] == shapes[r + 1]);
            assert forall|i: int| 0 <= i < find_id(shapes, id) implies (#[trigger] shapes[i]).0
                != id by {
                if i > 0 {
                    assert(shapes.drop_first()[i - 1] == shapes[i]);
                }
            }
        }
    }
}

/// The fixed light direction the shader uses, normalized from
/// `(1/2, -1, 1/2)`.
pub open spec fn light_dir() -> V3 {
    vnormalize(V3 { x: HALF as int, y: -(SCALE as int), z: HALF as int })
}

/// The color of a hit: Lambertian intensity against the fixed light with
/// an ambient floor, applied to the shape's flat color.
pub open spec fn shade(s: Shape, hp: V3, cfg: Config) -> Color {
    let n = snormal(s, hp, cfg.normal_eps as int);
    let ind = vdot(n, light_dir());
    let inten = if ind < cfg.ambient as int {
        cfg.ambient as int
    } else {
        ind
    };
    cmul(scolor(s), inten)
}

/// One camera and the shapes it looks at, keyed by caller-assigned ids.
pub struct Scene {
    pub camera: Camera,
    pub shapes: Vec<(usize, Shape)>,
    pub config: Config,
}

impl Scene {
    /// The stored shapes, in insertion order (the tracer's tie-break order).
    pub open spec fn shapes_seq(self) -> Seq<(usize, Shape)> {
        self.shapes@
    }

    pub open spec fn cfg(self) -> Config {
        self.config
    }

    /// Well-formed: camera and constants accepted, every shape accepted,
    /// ids unique.
    pub open spec fn wf(self) -> bool {
        &&& self.camera.wf()
        &&& self.cfg().wf()
        &&& forall|i: int|
            0 <= i < self.shapes_seq().len() ==> shape_wf(#[trigger] self.shapes_seq()[i].1)
        &&& forall|i: int, j: int|
            0 <= i < j < self.shapes_seq().len() ==> (#[trigger] self.shapes_seq()[i]).0 != (
            #[trigger] self.shapes_seq()[j]).0
    }

    /// Pixel `i`'s ray does not degenerate to the zero vector (a
    /// precondition of drawing, inherited from `raycast`).
    pub open spec fn pixel_ray_ok(self, i: int, width: int) -> bool {
        normsq(
            ray_pre(
                self.camera,
                (i % width) * (SCALE as int),
                (i / width) * (SCALE as int),
            ),
        ) > 0
    }

    /// The color of pixel `i` of a row-major frame of the given width:
    /// trace the pixel's ray and shade the hit, or fall back to `bg`.
    pub open spec fn pixel_at(self, i: int, width: int, bg: Color) -> Color {
        let x = (i % width) * (SCALE as int);
        let y = (i / width) * (SCALE as int);
        let dir = vnormalize(ray_pre(self.camera, x, y));
        match strace(
            self.shapes_seq(),
            self.camera.eye@,
            dir,
            self.cfg().trace_depth as nat,
            self.cfg().hit_eps as int,
        ) {
            Some(h) => shade(h.0, h.1, self.cfg()),
            None => bg,
        }
    }
}

/// An empty scene around a camera.
pub fn new_scene(camera: Camera, config: Config) -> (s: Scene)
    requires
        camera.wf(),
        config.wf(),
    ensures
        s.wf(),
        s.camera == camera,
        s.cfg() == config,
        s.shapes_seq().len() == 0,
{
    Scene { camera, shapes: Vec::new(), config }
}

impl Scene {
    /// Store `shape` under `id`, replacing whatever was there.
    pub fn add_shape(&mut self, id: usize, shape: Shape)
        requires
            old(self).wf(),
            shape_wf(shape),
        ensures
            final(self).wf(),
            final(self).camera == old(self).camera,
            final(self).cfg() == old(self).cfg(),
            (if find_id(old(self).shapes_seq(), id) >= 0 {
                final(self).shapes_seq() == old(self).shapes_seq().update(
                    find_id(old(self).shapes_seq(), id),
                    (id, shape),
                )
            } else {
                final(self).shapes_seq() == old(self).shapes_seq().push((id, shape))
            }),
    {
        proof {
            lemma_find_id_spec(old(self).shapes_seq(), id);
        }
        let mut j: usize = 0;
        while j < self.shapes.len()
            invariant
                *self == *old(self),
                old(self).wf(),
                shape_wf(shape),
                j <= self.shapes@.len(),
                forall|i: int| 0 <= i < j ==> (#[trigger] self.shapes@[i]).0 != id,
            decreases self.shapes@.len() - j,
        {
            if self.shapes[j].0 == id {
                proof {
                    lemma_find_id_at(self.shapes@, id, j as int);
                }
                let _ = self.shapes.remove(j);
                self.shapes.insert(j, (id, shape));
                proof {
                    assert(self.shapes@ =~= old(self).shapes_seq().update(
                        j as int,
                        (id, shape),
                    ));
                    assert forall|i: int| 0 <= i < self.shapes@.len() implies shape_wf(
                        (#[trigger] self.shapes@[i]).1,
                    ) by {
                        if i != j as int {
                            assert(shape_wf(old(self).shapes_seq()[i].1));
                            assert(self.shapes@[i].1 == old(self).shapes_seq()[i].1);
                        }
                    }
                    assert forall|i: int, k: int|
                        0 <= i < k < self.shapes@.len() implies (#[trigger] self.shapes@[i]).0
                        != (#[trigger] self.shapes@[k]).0 by {
                        assert(old(self).shapes_seq()[i].0 != old(self).shapes_seq()[k].0);
                        assert(self.shapes@[i].0 == old(self).shapes_seq()[i].0);
                        assert(self.shapes@[k].0 == old(self).shapes_seq()[k].0);
                    }
                }
                return ;
            }
            j += 1;
        }
        proof {
            lemma_find_id_none(self.shapes@, id);
        }
        self.shapes.push((id, shape));
    }

    /// Re-place the shape stored under `shape_id` at the absolute point
    /// `(x, y, z)`; unknown ids are silently ignored.
    pub fn move_shape(&mut self, shape_id: usize, x: i64, y: i64, z: i64)
        requires
            old(self).wf(),
            -MAX_COORD <= x <= MAX_COORD,
            -MAX_COORD <= y <= MAX_COORD,
            -MAX_COORD <= z <= MAX_COORD,
        ensures
            final(self).wf(),
            final(self).camera == old(self).camera,
            final(self).cfg() == old(self).cfg(),
            (if find_id(old(self).shapes_seq(), shape_id) >= 0 {
                final(self).shapes_seq() == old(self).shapes_seq().update(
                    find_id(old(self).shapes_seq(), shape_id),
                    (
                        shape_id,
                        stranslate(
                            old(self).shapes_seq()[find_id(old(self).shapes_seq(), shape_id)].1,
                            x,
                            y,
                            z,
                        ),
                    ),
                )
            } else {
                final(self).shapes_seq() == old(self).shapes_seq()
            }),
    {
        let mut j: usize = 0;
        while j < self.shapes.len()
            invariant
                *self == *old(self),
                old(self).wf(),
                -MAX_COORD <= x <= MAX_COORD,
                -MAX_COORD <= y <= MAX_COORD,
                -MAX_COORD <= z <= MAX_COORD,
                j <= self.shapes@.len(),
                forall|i: int| 0 <= i < j ==> (#[trigger] self.shapes@[i]).0 != shape_id,
            decreases self.shapes@.len() - j,
        {
            if self.shapes[j].0 == shape_id {
                proof {
                    lemma_find_id_at(self.shapes@, shape_id, j as int);
                }
                let pair = self.shapes.remove(j);
                let mut sh = pair.1;
                move_shape(&mut sh, x, y, z);
                self.shapes.insert(j, (shape_id, sh));
                proof {
                    assert(self.shapes@ =~= old(self).shapes_seq().update(
                        j as int,
                        (shape_id, stranslate(old(self).shapes_seq()[j as int].1, x, y, z)),
                    ));
                    assert(shape_wf(old(self).shapes_seq()[j as int].1));
                    assert(shape_wf(sh));
                    assert forall|i: int| 0 <= i < self.shapes@.len() implies shape_wf(
                        (#[trigger] self.shapes@[i]).1,
                    ) by {
                        if i != j as int {
                            assert(shape_wf(old(self).shapes_seq()[i].1));
                            assert(self.shapes@[i].1 == old(self).shapes_seq()[i].1);
                        }
                    }
                    assert forall|i: int, k: int|
                        0 <= i < k < self.shapes@.len() implies (#[trigger] self.shapes@[i]).0
                        != (#[trigger] self.shapes@[k]).0 by {
                        assert(old(self).shapes_seq()[i].0 != old(self).shapes_seq()[k].0);
                        assert(self.shapes@[i].0 == old(self).shapes_seq()[i].0);
                        assert(self.shapes@[k].0 == old(self).shapes_seq()[k].0);
                    }
                }
                return ;
            }
            j += 1;
        }
        proof {
            lemma_find_id_none(self.shapes@, shape_id);
        }
    }
}

impl Scene {
    /// Render a whole frame: `frame` holds `len / 4` RGBA pixels in
    /// row-major order; each is replaced by its traced, shaded color (or
    /// the background), and any trailing bytes beyond the last whole pixel
    /// stay as they were.
    pub fn draw(&self, frame: &mut Vec<u8>, width: usize, bg: Color)
        requires
            self.wf(),
            1 <= width <= 65536,
            old(frame)@.len() <= 4 * width * 65536,
            forall|t: int|
                0 <= t < old(frame)@.len() as int / 4 ==> self.pixel_ray_ok(t, width as int),
        ensures
            final(frame)@.len() == old(frame)@.len(),
            forall|k: int|
                0 <= k < old(frame)@.len() as int / 4 ==> final(frame)@[4 * k] == (
                #[trigger] self.pixel_at(k, width as int, bg)).r && final(frame)@[4 * k + 1]
                    == self.pixel_at(k, width as int, bg).g && final(frame)@[4 * k + 2]
                    == self.pixel_at(k, width as int, bg).b && final(frame)@[4 * k + 3]
                    == self.pixel_at(k, width as int, bg).a,
            forall|u: int|
                4 * (old(frame)@.len() as int / 4) <= u < old(frame)@.len() ==> final(frame)@[u]
                    == old(frame)@[u],
    {
        let npix = frame.len() / 4;
        proof {
            lemma_div_is_ordered(
                old(frame)@.len() as int,
                4 * (width as int) * 65536,
                4,
            );
            lemma_mul_is_associative(4, width as int, 65536);
            lemma_div_multiples_vanish((width as int) * 65536, 4);
            lemma_fundamental_div_mod(old(frame)@.len() as int, 4);
            assert(32768 * 32768 + (-65536) * (-65536) + 32768 * 32768 > 0) by (nonlinear_arith);
        }
        let light = normalize(Vec3 { x: HALF, y: -SCALE, z: HALF });
        let mut out: Vec<u8> = Vec::new();
        let mut i: usize = 0;
        while i < npix
            invariant
                self.wf(),
                1 <= width <= 65536,
                npix == old(frame)@.len() as int / 4,
                npix <= width * 65536,
                frame@ == old(frame)@,
                i <= npix,
                out@.len() == 4 * i,
                light@ == light_dir(),
                bounded(light@, SCALE as int),
                forall|t: int| 0 <= t < npix ==> self.pixel_ray_ok(t, width as int),
                forall|k: int|
                    0 <= k < i ==> out@[4 * k] == (#[trigger] self.pixel_at(
                        k,
                        width as int,
                        bg,
                    )).r && out@[4 * k + 1] == self.pixel_at(k, width as int, bg).g && out@[4 * k
                        + 2] == self.pixel_at(k, width as int, bg).b && out@[4 * k + 3]
                        == self.pixel_at(k, width as int, bg).a,
            decreases npix - i,
        {
            let x = i % width;
            let y = i / width;
            proof {
                lemma_multiply_divide_lt(i as int, width as int, 65536);
            }
            let xf: i64 = (x as i64) * 65536;
            let yf: i64 = (y as i64) * 65536;
            proof {
                assert(self.pixel_ray_ok(i as int, width as int));
                assert(normsq(ray_pre(self.camera, xf as int, yf as int)) > 0);
                assert forall|q: int| 0 <= q < self.shapes@.len() implies shape_wf(
                    (#[trigger] self.shapes@[q]).1,
                ) by {
                    assert(shape_wf(self.shapes_seq()[q].1));
                }
            }
            let (eye, dirv) = raycast(&self.camera, xf, yf);
            let hit = sphere_trace(eye, dirv, &self.shapes, &self.config);
            proof {
                lemma_strace_shape(
                    self.shapes@,
                    self.camera.eye@,
                    dirv@,
                    self.config.trace_depth as nat,
                    self.config.hit_eps as int,
                );
            }
            let c: Color = match hit {
                Some((sh, hp)) => {
                    let n = shape_normal(&sh, hp, self.config.normal_eps);
                    let ind = dot(n, light);
                    proof {
                        lemma_vdot_le(n@, light@, 65536);
                    }
                    let inten = if ind < self.config.ambient {
                        self.config.ambient
                    } else {
                        ind
                    };
                    color_multiply(shape_color(&sh), inten)
                },
                None => bg,
            };
            proof {
                assert(c == self.pixel_at(i as int, width as int, bg));
            }
            out.push(c.r);
            out.push(c.g);
            out.push(c.b);
            out.push(c.a);
            i += 1;
        }
        let total = frame.len();
        let mut t: usize = npix * 4;
        while t < total
            invariant
                total == frame@.len(),
                frame@ == old(frame)@,
                npix == old(frame)@.len() as int / 4,
                4 * npix <= t <= total,
                out@.len() == t,
                forall|k: int|
                    0 <= k < npix ==> out@[4 * k] == (#[trigger] self.pixel_at(
                        k,
                        width as int,
                        bg,
                    )).r && out@[4 * k + 1] == self.pixel_at(k, width as int, bg).g && out@[4 * k
                        + 2] == self.pixel_at(k, width as int, bg).b && out@[4 * k + 3]
                        == self.pixel_at(k, width as int, bg).a,
                forall|u: int| 4 * npix <= u < t ==> out@[u] == old(frame)@[u],
            decreases total - t,
        {
            let b = frame[t];
            out.push(b);
            t += 1;
        }
        *frame = out;
    }
}

/// A sphere's distance field at its own center is minus the radius.
pub proof fn lemma_sphere_distance_center(center: Vec3, radius: i64, color: Color)
    ensures
        sdist(Shape::Sphere { center, radius, color }, center@) == -radius,
{
    let d = vsub(center@, center@);
    assert(d == V3 { x: 0, y: 0, z: 0 });
    assert(normsq(d) == 0) by (nonlinear_arith)
        requires
            d == (V3 { x: 0, y: 0, z: 0 }),
    ;
    assert(isqrt(0) == 0);
}

/// A sphere's distance field vanishes on its surface: at every point one
/// radius from the center along an axis, in either direction.  (Between
/// the axes the surface falls between fixed-point grid points, so there
/// the field is only near zero; `normalize` fixes its rounding to within
/// a few 1/65536-s.)
pub proof fn lemma_sphere_distance_surface(center: Vec3, radius: i64, color: Color)
    requires
        0 <= radius,
    ensures
        sdist(
            Shape::Sphere { center, radius, color },
            vadd(center@, V3 { x: radius as int, y: 0, z: 0 }),
        ) == 0,
        sdist(
            Shape::Sphere { center, radius, color },
            vadd(center@, V3 { x: -(radius as int), y: 0, z: 0 }),
        ) == 0,
        sdist(
            Shape::Sphere { center, radius, color },
            vadd(center@, V3 { x: 0, y: radius as int, z: 0 }),
        ) == 0,
        sdist(
            Shape::Sphere { center, radius, color },
            vadd(center@, V3 { x: 0, y: -(radius as int), z: 0 }),
        ) == 0,
        sdist(
            Shape::Sphere { center, radius, color },
            vadd(center@, V3 { x: 0, y: 0, z: radius as int }),
        ) == 0,
        sdist(
            Shape::Sphere { center, radius, color },
            vadd(center@, V3 { x: 0, y: 0, z: -(radius as int) }),
        ) == 0,
{
    let r = radius as int;
    assert(r * r == (-r) * (-r) && 0 * 0 == 0) by (nonlinear_arith);
    lemma_isqrt_square(radius as nat);
}

/// A sphere's distance field vanishes on its surface in every direction,
/// up to fixed-point rounding: at `center + radius * normalize(d)` its
/// magnitude stays below a tolerance of a few 1/65536-s of the radius.
pub proof fn lemma_sphere_distance_surface_any(center: Vec3, radius: i64, color: Color, d: V3)
    requires
        0 < radius,
        normsq(d) >= (SCALE as int) * (SCALE as int),
    ensures
        ({
            let q = vadd(center@, vscale(vnormalize(d), radius as int));
            let tol = tdiv(11 * radius as int, SCALE as int) + 7;
            -tol <= sdist(Shape::Sphere { center, radius, color }, q) <= tol
        }),
{
    let r = radius as int;
    let u = vnormalize(d);
    let w = vscale(u, r);
    let q = vadd(center@, w);
    assert(vsub(q, center@) == w);
    crate::math::lemma_normalize_unit_length(d);
    crate::math::lemma_vnormalize_bounded(d);
    lemma_tdiv_rem(u.x * r, 65536);
    lemma_tdiv_rem(u.y * r, 65536);
    lemma_tdiv_rem(u.z * r, 65536);
    lemma_sphere_comp(u.x, w.x, r);
    lemma_sphere_comp(u.y, w.y, r);
    lemma_sphere_comp(u.z, w.z, r);
    let nq = normsq(w);
    assert((65536 * w.x) * (65536 * w.x) == 4294967296 * (w.x * w.x)) by (nonlinear_arith);
    assert((65536 * w.y) * (65536 * w.y) == 4294967296 * (w.y * w.y)) by (nonlinear_arith);
    assert((65536 * w.z) * (65536 * w.z) == 4294967296 * (w.z * w.z)) by (nonlinear_arith);
    assert(4294967296 * nq == 4294967296 * (w.x * w.x) + 4294967296 * (w.y * w.y) + 4294967296
        * (w.z * w.z)) by (nonlinear_arith)
        requires
            nq == w.x * w.x + w.y * w.y + w.z * w.z,
    ;
    assert(u.x * u.x * (r * r) + u.y * u.y * (r * r) + u.z * u.z * (r * r) == normsq(u) * (r
        * r)) by (nonlinear_arith)
        requires
            normsq(u) == u.x * u.x + u.y * u.y + u.z * u.z,
    ;
    assert(normsq(u) * (r * r) <= 65541 * 65541 * (r * r) && normsq(u) * (r * r) >= 65532 * 65532
        * (r * r)) by (nonlinear_arith)
        requires
            65532 * 65532 <= normsq(u) <= 65541 * 65541,
            r >= 1,
    ;
    let t = tdiv(11 * r, 65536);
    lemma_tdiv_rem(11 * r, 65536);
    lemma_tdiv_shrinks(11 * r, 65536);
    let tol = t + 7;
    assert(65536 * tol >= 11 * r + 6 * 65536);
    assert(tol >= 7);
    // Upper bound: the squared length stays below (r + tol)^2.
    assert((65536 * (r + tol)) * (65536 * (r + tol)) >= 65541 * 65541 * (r * r) + 6 * 4294967296
        * r + 3 * 4294967296) by (nonlinear_arith)
        requires
            65536 * tol >= 11 * r + 6 * 65536,
            r >= 1,
            tol >= 7,
    ;
    assert((65536 * (r + tol)) * (65536 * (r + tol)) == 4294967296 * ((r + tol) * (r + tol)))
        by (nonlinear_arith);
    assert(4294967296 * nq <= 4294967296 * ((r + tol) * (r + tol))) by (nonlinear_arith)
        requires
            4294967296 * nq == 4294967296 * (w.x * w.x) + 4294967296 * (w.y * w.y) + 4294967296
                * (w.z * w.z),
            (65536 * w.x) * (65536 * w.x) == 4294967296 * (w.x * w.x),
            (65536 * w.y) * (65536 * w.y) == 4294967296 * (w.y * w.y),
            (65536 * w.z) * (65536 * w.z) == 4294967296 * (w.z * w.z),
            (65536 * w.x) * (65536 * w.x) <= u.x * u.x * (r * r) + 2 * 4294967296 * r
                + 4294967296,
            (65536 * w.y) * (65536 * w.y) <= u.y * u.y * (r * r) + 2 * 4294967296 * r
                + 4294967296,
            (65536 * w.z) * (65536 * w.z) <= u.z * u.z * (r * r) + 2 * 4294967296 * r
                + 4294967296,
            u.x * u.x * (r * r) + u.y * u.y * (r * r) + u.z * u.z * (r * r) == normsq(u) * (r
                * r),
            normsq(u) * (r * r) <= 65541 * 65541 * (r * r),
            (65536 * (r + tol)) * (65536 * (r + tol)) >= 65541 * 65541 * (r * r) + 6 * 4294967296
                * r + 3 * 4294967296,
            (65536 * (r + tol)) * (65536 * (r + tol)) == 4294967296 * ((r + tol) * (r + tol)),
    ;
    assert(nq <= (r + tol) * (r + tol));
    lemma_normsq_parts(w);
    lemma_isqrt_mono(nq as nat, ((r + tol) * (r + tol)) as nat);
    lemma_isqrt_square((r + tol) as nat);
    // Lower bound: either the tolerance covers the whole radius, or the
    // squared length stays above (r - tol)^2.
    if r > tol {
        assert((65536 * (r - tol)) * (65536 * (r - tol)) <= 65532 * 65532 * (r * r) - 6
            * 4294967296 * r) by (nonlinear_arith)
            requires
                65536 * tol >= 11 * r + 6 * 65536,
                7 <= tol < r,
        ;
        assert((65536 * (r - tol)) * (65536 * (r - tol)) == 4294967296 * ((r - tol) * (r - tol)))
            by (nonlinear_arith);
        assert(4294967296 * ((r - tol) * (r - tol)) <= 4294967296 * nq) by (nonlinear_arith)
            requires
                4294967296 * nq == 4294967296 * (w.x * w.x) + 4294967296 * (w.y * w.y)
                    + 4294967296 * (w.z * w.z),
                (65536 * w.x) * (65536 * w.x) == 4294967296 * (w.x * w.x),
                (65536 * w.y) * (65536 * w.y) == 4294967296 * (w.y * w.y),
                (65536 * w.z) * (65536 * w.z) == 4294967296 * (w.z * w.z),
                (65536 * w.x) * (65536 * w.x) >= u.x * u.x * (r * r) - 2 * 4294967296 * r,
                (65536 * w.y) * (65536 * w.y) >= u.y * u.y * (r * r) - 2 * 4294967296 * r,
                (65536 * w.z) * (65536 * w.z) >= u.z * u.z * (r * r) - 2 * 4294967296 * r,
                u.x * u.x * (r * r) + u.y * u.y * (r * r) + u.z * u.z * (r * r) == normsq(u) * (
                r * r),
                normsq(u) * (r * r) >= 65532 * 65532 * (r * r),
                (65536 * (r - tol)) * (65536 * (r - tol)) <= 65532 * 65532 * (r * r) - 6
                    * 4294967296 * r,
                (65536 * (r - tol)) * (65536 * (r - tol)) == 4294967296 * ((r - tol) * (r
                    - tol)),
        ;
        assert((r - tol) * (r - tol) <= nq);
        lemma_isqrt_mono(((r - tol) * (r - tol)) as nat, nq as nat);
        lemma_isqrt_square((r - tol) as nat);
    }
}

/// One component of the rescaled surface point: its square, times the
/// squared scale, stays within the exact value's square plus the
/// truncation slack.
proof fn lemma_sphere_comp(uc: int, wc: int, r: int)
    requires
        -65536 <= uc <= 65536,
        r >= 1,
        -(65536 - 1) <= uc * r - 65536 * wc <= 65536 - 1,
    ensures
        (65536 * wc) * (65536 * wc) <= uc * uc * (r * r) + 2 * 4294967296 * r + 4294967296,
        (65536 * wc) * (65536 * wc) >= uc * uc * (r * r) - 2 * 4294967296 * r,
{
    assert((65536 * wc) * (65536 * wc) <= uc * uc * (r * r) + 2 * 4294967296 * r + 4294967296
        && (65536 * wc) * (65536 * wc) >= uc * uc * (r * r) - 2 * 4294967296 * r)
        by (nonlinear_arith)
        requires
            -65536 <= uc <= 65536,
            r >= 1,
            -(65536 - 1) <= uc * r - 65536 * wc <= 65536 - 1,
    ;
}

/// A box's distance field vanishes at the center of each of its six faces.
pub proof fn lemma_box_face_centers(center: Vec3, size: Vec3, color: Color)
    requires
        shape_wf(Shape::Box { center, size, color }),
    ensures
        sdist(
            Shape::Box { center, size, color },
            vadd(center@, V3 { x: tdiv(size@.x, 2), y: 0, z: 0 }),
        ) == 0,
        sdist(
            Shape::Box { center, size, color },
            vadd(center@, V3 { x: -tdiv(size@.x, 2), y: 0, z: 0 }),
        ) == 0,
        sdist(
            Shape::Box { center, size, color },
            vadd(center@, V3 { x: 0, y: tdiv(size@.y, 2), z: 0 }),
        ) == 0,
        sdist(
            Shape::Box { center, size, color },
            vadd(center@, V3 { x: 0, y: -tdiv(size@.y, 2), z: 0 }),
        ) == 0,
        sdist(
            Shape::Box { center, size, color },
            vadd(center@, V3 { x: 0, y: 0, z: tdiv(size@.z, 2) }),
        ) == 0,
        sdist(
            Shape::Box { center, size, color },
            vadd(center@, V3 { x: 0, y: 0, z: -tdiv(size@.z, 2) }),
        ) == 0,
{
    lemma_tdiv_shrinks(size@.x, 2);
    lemma_tdiv_shrinks(size@.y, 2);
    lemma_tdiv_shrinks(size@.z, 2);
    assert(normsq(V3 { x: 0, y: 0, z: 0 }) == 0) by (nonlinear_arith);
    assert(isqrt(0) == 0);
}

/// Outside a box, the distance field strictly decreases as a point moves
/// in from far away toward a face along that face's normal.
pub proof fn lemma_box_distance_monotone(
    center: Vec3,
    size: Vec3,
    color: Color,
    t1: int,
    t2: int,
)
    requires
        shape_wf(Shape::Box { center, size, color }),
        tdiv(size@.x, 2) <= t1 < t2,
    ensures
        sdist(Shape::Box { center, size, color }, vadd(center@, V3 { x: t1, y: 0, z: 0 }))
            < sdist(Shape::Box { center, size, color }, vadd(center@, V3 { x: t2, y: 0, z: 0 })),
{
    lemma_tdiv_shrinks(size@.x, 2);
    lemma_tdiv_shrinks(size@.y, 2);
    lemma_tdiv_shrinks(size@.z, 2);
    let hx = tdiv(size@.x, 2);
    assert(normsq(V3 { x: t1 - hx, y: 0, z: 0 }) == (t1 - hx) * (t1 - hx)) by (nonlinear_arith);
    assert(normsq(V3 { x: t2 - hx, y: 0, z: 0 }) == (t2 - hx) * (t2 - hx)) by (nonlinear_arith);
    lemma_isqrt_square((t1 - hx) as nat);
    lemma_isqrt_square((t2 - hx) as nat);
}

/// `find_id` finds exactly the first matching index.
proof fn lemma_find_id_at(shapes: Seq<(usize, Shape)>, id: usize, j: int)
    requires
        0 <= j < shapes.len(),
        shapes[j].0 == id,
        forall|i: int| 0 <= i < j ==> (#[trigger] shapes[i]).0 != id,
    ensures
        find_id(shapes, id) == j,
    decreases shapes.len(),
{
    if j > 0 {
        lemma_find_id_at(shapes.drop_first(), id, j - 1);
        assert(forall|i: int|
            0 <= i < shapes.drop_first().len() ==> #[trigger] shapes.drop_first()[i] == shapes[
                i + 1
            ]);
    }
}

/// `find_id` fails when no pair carries the id.
proof fn lemma_find_id_none(shapes: Seq<(usize, Shape)>, id: usize)
    requires
        forall|i: int| 0 <= i < shapes.len() ==> (#[trigger] shapes[i]).0 != id,
    ensures
        find_id(shapes, id) == -1,
    decreases shapes.len(),
{
    if shapes.len() > 0 {
        assert(forall|i: int|
            0 <= i < shapes.drop_first().len() ==> #[trigger] shapes.drop_first()[i] == shapes[
                i + 1
            ]);
        lemma_find_id_none(shapes.drop_first(), id);
    }
}

} // verus!
