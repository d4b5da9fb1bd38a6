//! Vectors of three fixed-point components, RGBA colors, and the exact
//! integer models of every operation on them.

use vstd::prelude::*;
use crate::fx::{
    fxm, isqrt, lemma_abs_le_of_sq, lemma_isqrt_bounds, lemma_isqrt_mono, lemma_isqrt_square,
    lemma_tdiv_exact, lemma_tdiv_le, lemma_tdiv_rem, lemma_tdiv_zero, tdiv, SCALE,
};
use crate::fx::{div_fx, isqrt_u128, mul_fx, rescale_by_scale};

verus! {

/// Shapes, cameras and scenes fit inside a cube of this half-width
/// (512 whole units), which keeps every trace step inside `i64`.
pub const MAX_COORD: i64 = 0x200_0000;

/// A point or direction; each component is a 16.16 fixed-point value.
#[derive(Clone, Copy, PartialEq, Eq, Structural, Debug)]
pub struct Vec3 {
    pub x: i64,
    pub y: i64,
    pub z: i64,
}

/// The mathematical value of a `Vec3`: a vector of unbounded integers.
pub ghost struct V3 {
    pub x: int,
    pub y: int,
    pub z: int,
}

impl View for Vec3 {
    type V = V3;

    open spec fn view(&self) -> V3 {
        V3 { x: self.x as int, y: self.y as int, z: self.z as int }
    }
}

/// An RGBA color; the alpha channel stays opaque throughout the renderer.
#[derive(Clone, Copy, PartialEq, Eq, Structural, Debug)]
pub struct Color {
    pub r: u8,
    pub g: u8,
    pub b: u8,
    pub a: u8,
}

pub open spec fn vadd(a: V3, b: V3) -> V3 {
    V3 { x: a.x + b.x, y: a.y + b.y, z: a.z + b.z }
}

pub open spec fn vsub(a: V3, b: V3) -> V3 {
    V3 { x: a.x - b.x, y: a.y - b.y, z: a.z - b.z }
}

pub open spec fn vscale(v: V3, s: int) -> V3 {
    V3 { x: fxm(v.x, s), y: fxm(v.y, s), z: fxm(v.z, s) }
}

pub open spec fn vdot(a: V3, b: V3) -> int {
    tdiv(a.x * b.x + a.y * b.y + a.z * b.z, SCALE as int)
}

pub open spec fn vcross(a: V3, b: V3) -> V3 {
    V3 {
        x: tdiv(a.y * b.z - a.z * b.y, SCALE as int),
        y: tdiv(a.z * b.x - a.x * b.z, SCALE as int),
        z: tdiv(a.x * b.y - a.y * b.x, SCALE as int),
    }
}

/// The squared Euclidean length, exact (no rescaling).
pub open spec fn normsq(v: V3) -> int {
    v.x * v.x + v.y * v.y + v.z * v.z
}

/// The Euclidean length, rounded down to an integer.
pub open spec fn vnorm(v: V3) -> int {
    isqrt(normsq(v) as nat) as int
}

/// Each component divided by the length; meaningful only for `normsq > 0`.
pub open spec fn vnormalize(v: V3) -> V3 {
    let n = vnorm(v);
    V3 {
        x: tdiv(v.x * SCALE as int, n),
        y: tdiv(v.y * SCALE as int, n),
        z: tdiv(v.z * SCALE as int, n),
    }
}

pub open spec fn bounded(v: V3, b: int) -> bool {
    &&& -b <= v.x <= b
    &&& -b <= v.y <= b
    &&& -b <= v.z <= b
}

/// One shaded channel: the fixed-point product of a channel and an
/// intensity, saturated into `0 ..= 255` the way Rust's numeric casts
/// from a wider value saturate.
pub open spec fn cmul_chan(c: int, s: int) -> int {
    let v = tdiv(c * s, SCALE as int);
    if v < 0 {
        0
    } else if v > 255 {
        255
    } else {
        v
    }
}

pub open spec fn cmul(c: Color, s: int) -> Color {
    Color {
        r: cmul_chan(c.r as int, s) as u8,
        g: cmul_chan(c.g as int, s) as u8,
        b: cmul_chan(c.b as int, s) as u8,
        a: c.a,
    }
}

pub proof fn lemma_normsq_parts(v: V3)
    ensures
        0 <= normsq(v),
        v.x * v.x <= normsq(v),
        v.y * v.y <= normsq(v),
        v.z * v.z <= normsq(v),
{
    assert(0 <= v.x * v.x && 0 <= v.y * v.y && 0 <= v.z * v.z) by (nonlinear_arith);
}

/// A componentwise bound gives a length bound: `|v| <= 2 * m`.
pub proof fn lemma_vnorm_le(v: V3, m: int)
    requires
        bounded(v, m),
        0 <= m,
    ensures
        0 <= vnorm(v) <= 2 * m,
{
    lemma_normsq_parts(v);
    assert(normsq(v) <= (2 * m) * (2 * m)) by (nonlinear_arith)
        requires
            bounded(v, m),
            0 <= m,
    ;
    lemma_isqrt_mono(normsq(v) as nat, ((2 * m) * (2 * m)) as nat);
    lemma_isqrt_square((2 * m) as nat);
}

/// A normalized vector has components of at most one unit, and the length
/// it was divided by is at least 1.
pub proof fn lemma_vnormalize_bounded(v: V3)
    requires
        normsq(v) > 0,
    ensures
        1 <= vnorm(v),
        bounded(vnormalize(v), SCALE as int),
{
    let n = vnorm(v);
    lemma_isqrt_bounds(normsq(v) as nat);
    if n == 0 {
        assert((n + 1) * (n + 1) == 1) by (nonlinear_arith)
            requires
                n == 0,
        ;
    }
    lemma_normsq_parts(v);
    lemma_abs_le_of_sq(v.x, n);
    lemma_abs_le_of_sq(v.y, n);
    lemma_abs_le_of_sq(v.z, n);
    assert(-(65536 * n) <= v.x * 65536 <= 65536 * n && -(65536 * n) <= v.y * 65536 <= 65536 * n
        && -(65536 * n) <= v.z * 65536 <= 65536 * n) by (nonlinear_arith)
        requires
            -n <= v.x <= n,
            -n <= v.y <= n,
            -n <= v.z <= n,
    ;
    lemma_tdiv_le(v.x * SCALE as int, n, SCALE as int);
    lemma_tdiv_le(v.y * SCALE as int, n, SCALE as int);
    lemma_tdiv_le(v.z * SCALE as int, n, SCALE as int);
}

/// Scaling a vector bounded by `kv` with a scalar bounded by `ks` lands
/// within any `m` that covers the rescaled product.
pub proof fn lemma_vscale_within(v: V3, s: int, kv: int, ks: int, m: int)
    requires
        bounded(v, kv),
        -ks <= s <= ks,
        0 <= kv,
        0 <= ks,
        0 <= m,
        kv * ks <= m * 65536,
    ensures
        bounded(vscale(v, s), m),
{
    assert(-(m * 65536) <= v.x * s <= m * 65536 && -(m * 65536) <= v.y * s <= m * 65536
        && -(m * 65536) <= v.z * s <= m * 65536) by (nonlinear_arith)
        requires
            bounded(v, kv),
            -ks <= s <= ks,
            0 <= kv,
            0 <= ks,
            0 <= m,
            kv * ks <= m * 65536,
    ;
    lemma_tdiv_le(v.x * s, SCALE as int, m);
    lemma_tdiv_le(v.y * s, SCALE as int, m);
    lemma_tdiv_le(v.z * s, SCALE as int, m);
}

/// Scaling a vector of components of at most one unit moves each component
/// by no more than the scalar itself.
pub proof fn lemma_vscale_unit_le(v: V3, s: int, m: int)
    requires
        bounded(v, SCALE as int),
        -m <= s <= m,
        0 <= m,
    ensures
        bounded(vscale(v, s), m),
{
    assert(-(m * 65536) <= v.x * s <= m * 65536 && -(m * 65536) <= v.y * s <= m * 65536
        && -(m * 65536) <= v.z * s <= m * 65536) by (nonlinear_arith)
        requires
            bounded(v, 65536),
            -m <= s <= m,
            0 <= m,
    ;
    lemma_tdiv_le(v.x * s, SCALE as int, m);
    lemma_tdiv_le(v.y * s, SCALE as int, m);
    lemma_tdiv_le(v.z * s, SCALE as int, m);
}

/// A bound on the rescaled dot product of two boxed vectors.
pub proof fn lemma_vdot_le(a: V3, b: V3, k: int)
    requires
        bounded(a, k),
        bounded(b, k),
        0 <= k,
    ensures
        -(3 * k * k) <= vdot(a, b) <= 3 * k * k,
{
    let s = a.x * b.x + a.y * b.y + a.z * b.z;
    assert(-(3 * k * k * 65536) <= a.x * b.x + a.y * b.y + a.z * b.z <= 3 * k * k * 65536
        && 0 <= 3 * k * k) by (nonlinear_arith)
        requires
            bounded(a, k),
            bounded(b, k),
            0 <= k,
    ;
    lemma_tdiv_le(s, SCALE as int, 3 * k * k);
}

/// Componentwise sum.
pub fn plus(v1: Vec3, v2: Vec3) -> (r: Vec3)
    requires
        bounded(v1@, 0x3fff_ffff_ffff_ffff),
        bounded(v2@, 0x3fff_ffff_ffff_ffff),
    ensures
        r@ == vadd(v1@, v2@),
{
    Vec3 { x: v1.x + v2.x, y: v1.y + v2.y, z: v1.z + v2.z }
}

/// Componentwise difference.
pub fn minus(v1: Vec3, v2: Vec3) -> (r: Vec3)
    requires
        bounded(v1@, 0x3fff_ffff_ffff_ffff),
        bounded(v2@, 0x3fff_ffff_ffff_ffff),
    ensures
        r@ == vsub(v1@, v2@),
{
    Vec3 { x: v1.x - v2.x, y: v1.y - v2.y, z: v1.z - v2.z }
}

/// Each component multiplied by the fixed-point scalar `s`.
pub fn scale(v: Vec3, s: i64) -> (r: Vec3)
    requires
        -0x4000_0000_0000_0000 <= fxm(v@.x, s as int) <= 0x4000_0000_0000_0000,
        -0x4000_0000_0000_0000 <= fxm(v@.y, s as int) <= 0x4000_0000_0000_0000,
        -0x4000_0000_0000_0000 <= fxm(v@.z, s as int) <= 0x4000_0000_0000_0000,
    ensures
        r@ == vscale(v@, s as int),
{
    Vec3 { x: mul_fx(v.x, s), y: mul_fx(v.y, s), z: mul_fx(v.z, s) }
}

/// The Euclidean length, rounded down.
pub fn norm(v: Vec3) -> (r: i64)
    requires
        bounded(v@, 0x2000_0000_0000_0000),
    ensures
        r as int == vnorm(v@),
        0 <= r,
{
    proof {
        assert(0 <= v@.x * v@.x <= 0x400_0000_0000_0000_0000_0000_0000_0000
            && 0 <= v@.y * v@.y <= 0x400_0000_0000_0000_0000_0000_0000_0000
            && 0 <= v@.z * v@.z <= 0x400_0000_0000_0000_0000_0000_0000_0000) by (nonlinear_arith)
            requires
                bounded(v@, 0x2000_0000_0000_0000),
        ;
    }
    let sx: i128 = (v.x as i128) * (v.x as i128);
    let sy: i128 = (v.y as i128) * (v.y as i128);
    let sz: i128 = (v.z as i128) * (v.z as i128);
    let s: i128 = sx + sy + sz;
    let r64: u64 = isqrt_u128(s as u128);
    proof {
        assert((0x4000_0000_0000_0000 as nat) * (0x4000_0000_0000_0000 as nat)
            == 0x1000_0000_0000_0000_0000_0000_0000_0000 as nat);
        lemma_isqrt_square(0x4000_0000_0000_0000 as nat);
        lemma_isqrt_mono(s as nat, 0x1000_0000_0000_0000_0000_0000_0000_0000 as nat);
    }
    r64 as i64
}

/// One normalized component: `a * SCALE / n`, for `|a| <= n`.
fn div_scaled(a: i64, n: i64) -> (r: i64)
    requires
        1 <= n,
        -n <= a <= n,
    ensures
        r as int == tdiv(a as int * SCALE as int, n as int),
        -SCALE <= r <= SCALE,
{
    proof {
        assert(-(65536 * n as int) <= a as int * 65536 <= 65536 * n as int) by (nonlinear_arith)
            requires
                -(n as int) <= a as int <= n as int,
        ;
        lemma_tdiv_le(a as int * SCALE as int, n as int, SCALE as int);
    }
    let p: i128 = (a as i128) * 65536;
    if p >= 0 {
        ((p as u128) / (n as u128)) as i64
    } else {
        let q: u128 = ((-p) as u128) / (n as u128);
        -(q as i64)
    }
}

/// The unit vector along `v`; the caller keeps the zero vector out.
pub fn normalize(v: Vec3) -> (r: Vec3)
    requires
        bounded(v@, 0x2000_0000_0000_0000),
        normsq(v@) > 0,
    ensures
        r@ == vnormalize(v@),
        bounded(r@, SCALE as int),
{
    let n = norm(v);
    proof {
        lemma_vnormalize_bounded(v@);
        lemma_isqrt_bounds(normsq(v@) as nat);
        lemma_normsq_parts(v@);
        lemma_abs_le_of_sq(v@.x, n as int);
        lemma_abs_le_of_sq(v@.y, n as int);
        lemma_abs_le_of_sq(v@.z, n as int);
    }
    Vec3 { x: div_scaled(v.x, n), y: div_scaled(v.y, n), z: div_scaled(v.z, n) }
}

/// The rescaled dot product.
pub fn dot(v1: Vec3, v2: Vec3) -> (r: i64)
    requires
        bounded(v1@, 0x40_0000_0000),
        bounded(v2@, 0x40_0000_0000),
    ensures
        r as int == vdot(v1@, v2@),
{
    let s = a_dot_sum(v1, v2);
    proof {
        lemma_tdiv_le(s as int, SCALE as int, 0x4000_0000_0000_0000);
    }
    crate::fx::rescale_by_scale(s)
}

/// The rescaled cross product.
pub fn cross(v1: Vec3, v2: Vec3) -> (r: Vec3)
    requires
        bounded(v1@, 0x4000_0000),
        bounded(v2@, 0x4000_0000),
    ensures
        r@ == vcross(v1@, v2@),
        bounded(r@, 0x2000_0000_0000),
{
    proof {
        assert(-0x1000_0000_0000_0000 <= v1@.y * v2@.z <= 0x1000_0000_0000_0000
            && -0x1000_0000_0000_0000 <= v1@.z * v2@.y <= 0x1000_0000_0000_0000
            && -0x1000_0000_0000_0000 <= v1@.z * v2@.x <= 0x1000_0000_0000_0000
            && -0x1000_0000_0000_0000 <= v1@.x * v2@.z <= 0x1000_0000_0000_0000
            && -0x1000_0000_0000_0000 <= v1@.x * v2@.y <= 0x1000_0000_0000_0000
            && -0x1000_0000_0000_0000 <= v1@.y * v2@.x <= 0x1000_0000_0000_0000)
            by (nonlinear_arith)
            requires
                bounded(v1@, 0x4000_0000),
                bounded(v2@, 0x4000_0000),
        ;
        lemma_tdiv_le(v1@.y * v2@.z - v1@.z * v2@.y, SCALE as int, 0x2000_0000_0000);
        lemma_tdiv_le(v1@.z * v2@.x - v1@.x * v2@.z, SCALE as int, 0x2000_0000_0000);
        lemma_tdiv_le(v1@.x * v2@.y - v1@.y * v2@.x, SCALE as int, 0x2000_0000_0000);
    }
    let cx: i128 = (v1.y as i128) * (v2.z as i128) - (v1.z as i128) * (v2.y as i128);
    let cy: i128 = (v1.z as i128) * (v2.x as i128) - (v1.x as i128) * (v2.z as i128);
    let cz: i128 = (v1.x as i128) * (v2.y as i128) - (v1.y as i128) * (v2.x as i128);
    Vec3 {
        x: crate::fx::rescale_by_scale(cx),
        y: crate::fx::rescale_by_scale(cy),
        z: crate::fx::rescale_by_scale(cz),
    }
}

/// The three products of a dot product, summed exactly in 128 bits.
fn a_dot_sum(v1: Vec3, v2: Vec3) -> (s: i128)
    requires
        bounded(v1@, 0x40_0000_0000),
        bounded(v2@, 0x40_0000_0000),
    ensures
        s as int == v1@.x * v2@.x + v1@.y * v2@.y + v1@.z * v2@.z,
        -0x3000_0000_0000_0000_0000 <= s as int <= 0x3000_0000_0000_0000_0000,
{
    proof {
        assert(-0x1000_0000_0000_0000_0000 <= v1@.x * v2@.x <= 0x1000_0000_0000_0000_0000
            && -0x1000_0000_0000_0000_0000 <= v1@.y * v2@.y <= 0x1000_0000_0000_0000_0000
            && -0x1000_0000_0000_0000_0000 <= v1@.z * v2@.z <= 0x1000_0000_0000_0000_0000)
            by (nonlinear_arith)
            requires
                bounded(v1@, 0x40_0000_0000),
                bounded(v2@, 0x40_0000_0000),
        ;
    }
    (v1.x as i128) * (v2.x as i128) + (v1.y as i128) * (v2.y as i128) + (v1.z as i128) * (v2.z
        as i128)
}

/// Shade a color by a fixed-point intensity; each of R, G, B is rescaled
/// and saturated, alpha passes through unchanged.
pub fn color_multiply(c: Color, s: i64) -> (r: Color)
    requires
        -0x100_0000_0000 <= s <= 0x100_0000_0000,
    ensures
        r == cmul(c, s as int),
{
    Color { r: mul_chan(c.r, s), g: mul_chan(c.g, s), b: mul_chan(c.b, s), a: c.a }
}

fn mul_chan(c: u8, s: i64) -> (r: u8)
    requires
        -0x100_0000_0000 <= s <= 0x100_0000_0000,
    ensures
        r as int == cmul_chan(c as int, s as int),
{
    proof {
        assert(-0xff00_0000_0000 <= (c as int) * (s as int) <= 0xff00_0000_0000)
            by (nonlinear_arith)
            requires
                0 <= c as int <= 255,
                -0x100_0000_0000 <= s as int <= 0x100_0000_0000,
        ;
    }
    let p: i64 = (c as i64) * s;
    let q: i64 = div_fx(p, SCALE);
    if q < 0 {
        0
    } else if q > 255 {
        255
    } else {
        q as u8
    }
}

/// Normalizing any vector of at least unit length yields a unit vector,
/// up to fixed-point rounding: its squared length lies within a few
/// 1/65536-s of one squared unit.
pub proof fn lemma_normalize_unit_length(v: V3)
    requires
        normsq(v) >= (SCALE as int) * (SCALE as int),
    ensures
        (SCALE as int - 4) * (SCALE as int - 4) <= normsq(vnormalize(v)),
        normsq(vnormalize(v)) <= (SCALE as int + 5) * (SCALE as int + 5),
{
    let n = vnorm(v);
    let w = vnormalize(v);
    lemma_isqrt_bounds(normsq(v) as nat);
    lemma_isqrt_square(65536nat);
    lemma_isqrt_mono((65536 * 65536) as nat, normsq(v) as nat);
    assert(n >= 65536);
    lemma_normsq_parts(v);
    lemma_abs_le_of_sq(v.x, n);
    lemma_abs_le_of_sq(v.y, n);
    lemma_abs_le_of_sq(v.z, n);
    lemma_tdiv_rem(v.x * 65536, n);
    lemma_tdiv_rem(v.y * 65536, n);
    lemma_tdiv_rem(v.z * 65536, n);
    lemma_normalize_unit_comp(v.x, w.x, n);
    lemma_normalize_unit_comp(v.y, w.y, n);
    lemma_normalize_unit_comp(v.z, w.z, n);
    assert((n * w.x) * (n * w.x) == n * n * (w.x * w.x)) by (nonlinear_arith);
    assert((n * w.y) * (n * w.y) == n * n * (w.y * w.y)) by (nonlinear_arith);
    assert((n * w.z) * (n * w.z) == n * n * (w.z * w.z)) by (nonlinear_arith);
    assert(n * n * normsq(w) == n * n * (w.x * w.x) + n * n * (w.y * w.y) + n * n * (w.z
        * w.z)) by (nonlinear_arith)
        requires
            normsq(w) == w.x * w.x + w.y * w.y + w.z * w.z,
    ;
    assert(n * n * normsq(w) <= 65541 * 65541 * (n * n)) by (nonlinear_arith)
        requires
            n >= 65536,
            normsq(v) < (n + 1) * (n + 1),
            n * n * normsq(w) == (n * w.x) * (n * w.x) + (n * w.y) * (n * w.y) + (n * w.z) * (n
                * w.z),
            (n * w.x) * (n * w.x) <= v.x * v.x * 4294967296 + 2 * 65536 * n * n + n * n,
            (n * w.y) * (n * w.y) <= v.y * v.y * 4294967296 + 2 * 65536 * n * n + n * n,
            (n * w.z) * (n * w.z) <= v.z * v.z * 4294967296 + 2 * 65536 * n * n + n * n,
            normsq(v) == v.x * v.x + v.y * v.y + v.z * v.z,
    ;
    assert(65532 * 65532 * (n * n) <= n * n * normsq(w)) by (nonlinear_arith)
        requires
            n >= 65536,
            normsq(v) >= n * n,
            n * n * normsq(w) == (n * w.x) * (n * w.x) + (n * w.y) * (n * w.y) + (n * w.z) * (n
                * w.z),
            (n * w.x) * (n * w.x) >= v.x * v.x * 4294967296 - 2 * 65536 * n * n,
            (n * w.y) * (n * w.y) >= v.y * v.y * 4294967296 - 2 * 65536 * n * n,
            (n * w.z) * (n * w.z) >= v.z * v.z * 4294967296 - 2 * 65536 * n * n,
            normsq(v) == v.x * v.x + v.y * v.y + v.z * v.z,
    ;
    assert(65532 * 65532 <= normsq(w) <= 65541 * 65541) by (nonlinear_arith)
        requires
            n >= 1,
            n * n * normsq(w) <= 65541 * 65541 * (n * n),
            65532 * 65532 * (n * n) <= n * n * normsq(w),
    ;
}

/// The squared rescaled component `n * w` stays within the square of the
/// exact value `v * SCALE`, give or take the truncation remainder.
proof fn lemma_normalize_unit_comp(vc: int, wc: int, n: int)
    requires
        65536 <= n,
        -n <= vc <= n,
        -(n - 1) <= vc * 65536 - n * wc <= n - 1,
    ensures
        (n * wc) * (n * wc) <= vc * vc * 4294967296 + 2 * 65536 * n * n + n * n,
        (n * wc) * (n * wc) >= vc * vc * 4294967296 - 2 * 65536 * n * n,
{
    assert((n * wc) * (n * wc) <= vc * vc * 4294967296 + 2 * 65536 * n * n + n * n
        && (n * wc) * (n * wc) >= vc * vc * 4294967296 - 2 * 65536 * n * n) by (nonlinear_arith)
        requires
            65536 <= n,
            -n <= vc <= n,
            -(n - 1) <= vc * 65536 - n * wc <= n - 1,
    ;
}

/// Shading by full intensity returns the color unchanged.
pub proof fn lemma_color_multiply_one(c: Color)
    ensures
        cmul(c, SCALE as int) == c,
{
    lemma_tdiv_exact(c.r as int, SCALE as int);
    lemma_tdiv_exact(c.g as int, SCALE as int);
    lemma_tdiv_exact(c.b as int, SCALE as int);
}

/// Shading by zero intensity blacks out R, G and B and keeps alpha.
pub proof fn lemma_color_multiply_zero(c: Color)
    ensures
        cmul(c, 0) == (Color { r: 0, g: 0, b: 0, a: c.a }),
{
    assert(c.r as int * 0 == 0 && c.g as int * 0 == 0 && c.b as int * 0 == 0) by (nonlinear_arith);
    lemma_tdiv_zero(SCALE as int);
}

} // verus!
