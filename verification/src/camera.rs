//! The camera: a viewpoint pose together with its cached ray basis, the
//! pixel-to-ray mapping, and the interactive pose mutations.
//!
//! The cached basis is recomputed on every pose change, so `raycast` is a
//! pure function of the current fields.  The field of view enters as the
//! tangent of its half-angle, already in fixed point: the trigonometry is
//! the caller's business, the geometry is verified here.

use vstd::prelude::*;
use vstd::arithmetic::div_mod::{lemma_div_multiples_vanish, lemma_fundamental_div_mod};
use crate::fx::{lemma_tdiv_exact, lemma_tdiv_le, lemma_tdiv_neg, lemma_tdiv_zero, tdiv, HALF, SCALE};
use crate::fx::div_fx;
use crate::math::{
    bounded, normsq, vadd, vcross, vnormalize, vscale, vsub, Vec3, V3,
    lemma_vnormalize_bounded, lemma_vscale_unit_le, lemma_vscale_within, MAX_COORD,
};
use crate::math::{cross, minus, normalize, plus, scale};

verus! {

/// The widest accepted field of view: a half-angle tangent of 16 units.
pub const TAN_MAX: i64 = 0x10_0000;

/// The widest accepted raster dimension: 65536 pixels, in fixed point.
pub const RASTER_MAX: i64 = 0x1_0000_0000;

#[derive(Clone, Copy, PartialEq, Eq, Structural, Debug)]
pub struct Camera {
    pub eye: Vec3,
    pub look_at: Vec3,
    pub up: Vec3,
    /// The tangent of the half-angle field of view, in fixed point.
    pub tan_fov: i64,
    /// Raster dimensions in fixed point (whole pixels, so multiples of `SCALE`).
    pub raster_width: i64,
    pub raster_height: i64,
    // The cached view basis, recomputed on every pose change.
    pub view_dir: Vec3,
    pub view_right: Vec3,
    pub view_up: Vec3,
}

/// The unit vector from the eye toward the look-at point.
pub open spec fn basis_dir(eye: V3, look_at: V3) -> V3 {
    vnormalize(vsub(look_at, eye))
}

/// The unit vector to the right of the gaze.
pub open spec fn basis_right_n(eye: V3, look_at: V3, up: V3) -> V3 {
    vnormalize(vcross(basis_dir(eye, look_at), up))
}

/// The unit vector above the gaze.
pub open spec fn basis_up_n(eye: V3, look_at: V3, up: V3) -> V3 {
    vnormalize(vcross(basis_right_n(eye, look_at, up), basis_dir(eye, look_at)))
}

/// The aspect ratio times the field-of-view tangent, in fixed point.
pub open spec fn aspect_tan(rw: int, rh: int, tan_fov: int) -> int {
    tdiv(rw * tan_fov, rh)
}

/// The cached right vector: the right unit vector stretched so that raster
/// offsets in `[-1/2, 1/2]` sweep the horizontal field of view.
pub open spec fn basis_right(eye: V3, look_at: V3, up: V3, tan_fov: int, rw: int, rh: int) -> V3 {
    vscale(basis_right_n(eye, look_at, up), aspect_tan(rw, rh, tan_fov))
}

/// The cached up vector, stretched by the field-of-view tangent.
pub open spec fn basis_up(eye: V3, look_at: V3, up: V3, tan_fov: int) -> V3 {
    vscale(basis_up_n(eye, look_at, up), tan_fov)
}

/// A pose the camera accepts: everything inside the world cube, whole-pixel
/// raster dimensions, and no degenerate vector anywhere in the basis
/// construction (gaze non-zero, up not collinear with the gaze).
pub open spec fn pose_ok(eye: V3, look_at: V3, up: V3, tan_fov: int, rw: int, rh: int) -> bool {
    &&& bounded(eye, MAX_COORD as int)
    &&& bounded(look_at, MAX_COORD as int)
    &&& bounded(up, MAX_COORD as int)
    &&& 0 < tan_fov <= TAN_MAX as int
    &&& SCALE as int <= rw <= RASTER_MAX as int
    &&& SCALE as int <= rh <= RASTER_MAX as int
    &&& rw % (SCALE as int) == 0
    &&& rh % (SCALE as int) == 0
    &&& normsq(vsub(look_at, eye)) > 0
    &&& normsq(vcross(basis_dir(eye, look_at), up)) > 0
    &&& normsq(vcross(basis_right_n(eye, look_at, up), basis_dir(eye, look_at))) > 0
}

impl Camera {
    /// Well-formed: an accepted pose whose cached basis is current.
    pub open spec fn wf(self) -> bool {
        &&& pose_ok(
            self.eye@,
            self.look_at@,
            self.up@,
            self.tan_fov as int,
            self.raster_width as int,
            self.raster_height as int,
        )
        &&& self.view_dir@ == basis_dir(self.eye@, self.look_at@)
        &&& self.view_right@ == basis_right(
            self.eye@,
            self.look_at@,
            self.up@,
            self.tan_fov as int,
            self.raster_width as int,
            self.raster_height as int,
        )
        &&& self.view_up@ == basis_up(self.eye@, self.look_at@, self.up@, self.tan_fov as int)
    }
}

/// The bounds an accepted pose forces on the basis vectors.
pub proof fn lemma_basis_bounds(eye: V3, look_at: V3, up: V3, tan_fov: int, rw: int, rh: int)
    requires
        pose_ok(eye, look_at, up, tan_fov, rw, rh),
    ensures
        bounded(basis_dir(eye, look_at), SCALE as int),
        bounded(basis_right_n(eye, look_at, up), SCALE as int),
        bounded(basis_up_n(eye, look_at, up), SCALE as int),
        0 <= aspect_tan(rw, rh, tan_fov) <= 0x10_0000_0000,
        bounded(basis_right(eye, look_at, up, tan_fov, rw, rh), 0x10_0000_0000),
        bounded(basis_up(eye, look_at, up, tan_fov), TAN_MAX as int),
{
    lemma_vnormalize_bounded(vsub(look_at, eye));
    lemma_vnormalize_bounded(vcross(basis_dir(eye, look_at), up));
    lemma_vnormalize_bounded(vcross(basis_right_n(eye, look_at, up), basis_dir(eye, look_at)));
    assert(0 <= rw * tan_fov <= 0x10_0000_0000 * rh) by (nonlinear_arith)
        requires
            0 < tan_fov <= 0x10_0000,
            65536 <= rw <= 0x1_0000_0000,
            65536 <= rh,
    ;
    lemma_tdiv_le(rw * tan_fov, rh, 0x10_0000_0000);
    lemma_vscale_unit_le(
        basis_right_n(eye, look_at, up),
        aspect_tan(rw, rh, tan_fov),
        0x10_0000_0000,
    );
    lemma_vscale_unit_le(basis_up_n(eye, look_at, up), tan_fov, TAN_MAX as int);
}

/// Recompute the cached basis from the current pose.
pub fn recalculate_view(cam: &mut Camera)
    requires
        pose_ok(
            old(cam).eye@,
            old(cam).look_at@,
            old(cam).up@,
            old(cam).tan_fov as int,
            old(cam).raster_width as int,
            old(cam).raster_height as int,
        ),
    ensures
        final(cam).eye == old(cam).eye,
        final(cam).look_at == old(cam).look_at,
        final(cam).up == old(cam).up,
        final(cam).tan_fov == old(cam).tan_fov,
        final(cam).raster_width == old(cam).raster_width,
        final(cam).raster_height == old(cam).raster_height,
        final(cam).wf(),
{
    proof {
        lemma_basis_bounds(
            old(cam).eye@,
            old(cam).look_at@,
            old(cam).up@,
            old(cam).tan_fov as int,
            old(cam).raster_width as int,
            old(cam).raster_height as int,
        );
    }
    let d = normalize(minus(cam.look_at, cam.eye));
    let rn = normalize(cross(d, cam.up));
    let un = normalize(cross(rn, d));
    proof {
        assert(-0x7fff_ffff_ffff_ffff < cam.raster_width as int * cam.tan_fov as int
            <= 0x10_0000_0000 * 65536) by (nonlinear_arith)
            requires
                0 < cam.tan_fov as int <= 0x10_0000,
                65536 <= cam.raster_width as int <= 0x1_0000_0000,
        ;
    }
    let a_t = div_fx(cam.raster_width * cam.tan_fov, cam.raster_height);
    proof {
        lemma_vscale_unit_le(rn@, a_t as int, 0x10_0000_0000);
        lemma_vscale_unit_le(un@, cam.tan_fov as int, TAN_MAX as int);
    }
    let right = scale(rn, a_t);
    let up2 = scale(un, cam.tan_fov);
    cam.view_dir = d;
    cam.view_right = right;
    cam.view_up = up2;
}

/// Build a camera; the basis is computed before it is returned.
pub fn new_camera(eye: Vec3, look_at: Vec3, up: Vec3, tan_fov: i64, w: usize, h: usize) -> (cam:
    Camera)
    requires
        pose_ok(eye@, look_at@, up@, tan_fov as int, w as int * 65536, h as int * 65536),
    ensures
        cam.wf(),
        cam.eye == eye,
        cam.look_at == look_at,
        cam.up == up,
        cam.tan_fov == tan_fov,
        cam.raster_width as int == w as int * 65536,
        cam.raster_height as int == h as int * 65536,
{
    let mut cam = Camera {
        eye,
        look_at,
        up,
        tan_fov,
        raster_width: (w as i64) * 65536,
        raster_height: (h as i64) * 65536,
        view_dir: Vec3 { x: 0, y: 0, z: 0 },
        view_right: Vec3 { x: 0, y: 0, z: 0 },
        view_up: Vec3 { x: 0, y: 0, z: 0 },
    };
    recalculate_view(&mut cam);
    cam
}

/// The raster offset of a fixed-point pixel coordinate: the coordinate as a
/// fraction of the raster dimension, recentered around zero.
pub open spec fn ray_offset(p: int, raster: int) -> int {
    tdiv(p * SCALE as int, raster) - HALF as int
}

/// The ray direction before normalization: the gaze plus the two offset
/// basis vectors.
pub open spec fn ray_pre(c: Camera, x: int, y: int) -> V3 {
    vadd(
        vadd(c.view_dir@, vscale(c.view_right@, ray_offset(x, c.raster_width as int))),
        vscale(c.view_up@, ray_offset(y, c.raster_height as int)),
    )
}

/// The ray through the (possibly fractional, fixed-point) pixel coordinate
/// `(x, y)`: its origin is the eye, its direction the normalized sum of the
/// gaze and the offset basis vectors.
pub fn raycast(cam: &Camera, x: i64, y: i64) -> (r: (Vec3, Vec3))
    requires
        cam.wf(),
        -0x1_0000_0000 <= x <= 0x1_0000_0000,
        -0x1_0000_0000 <= y <= 0x1_0000_0000,
        normsq(ray_pre(*cam, x as int, y as int)) > 0,
    ensures
        r.0 == cam.eye,
        r.1@ == vnormalize(ray_pre(*cam, x as int, y as int)),
        bounded(r.1@, SCALE as int),
{
    proof {
        lemma_basis_bounds(
            cam.eye@,
            cam.look_at@,
            cam.up@,
            cam.tan_fov as int,
            cam.raster_width as int,
            cam.raster_height as int,
        );
        lemma_tdiv_le(x as int * 65536, cam.raster_width as int, 0x1_0000_0000);
        lemma_tdiv_le(y as int * 65536, cam.raster_height as int, 0x1_0000_0000);
    }
    let xo = div_fx(x * 65536, cam.raster_width) - HALF;
    let yo = div_fx(y * 65536, cam.raster_height) - HALF;
    proof {
        lemma_vscale_within(
            cam.view_right@,
            xo as int,
            0x10_0000_0000,
            0x1_0000_8000,
            0x20_0000_0000_0000,
        );
        lemma_vscale_within(
            cam.view_up@,
            yo as int,
            0x10_0000,
            0x1_0000_8000,
            0x20_0000_0000_0000,
        );
    }
    let rx = scale(cam.view_right, xo);
    let ry = scale(cam.view_up, yo);
    let d1 = plus(cam.view_dir, rx);
    let d2 = plus(d1, ry);
    let dn = normalize(d2);
    (cam.eye, dn)
}

/// How a pan moves the eye and the look-at point: `dx` along the cached
/// right vector plus `dy` along the cached up vector.
pub open spec fn pan_delta(right: V3, up: V3, dx: int, dy: int) -> V3 {
    vadd(vscale(right, dx), vscale(up, dy))
}

/// Strafe: translate eye and look-at together, keeping the facing.
pub fn pan(cam: &mut Camera, dx: i64, dy: i64)
    requires
        old(cam).wf(),
        -MAX_COORD <= dx <= MAX_COORD,
        -MAX_COORD <= dy <= MAX_COORD,
        bounded(
            vadd(
                old(cam).eye@,
                pan_delta(old(cam).view_right@, old(cam).view_up@, dx as int, dy as int),
            ),
            MAX_COORD as int,
        ),
        bounded(
            vadd(
                old(cam).look_at@,
                pan_delta(old(cam).view_right@, old(cam).view_up@, dx as int, dy as int),
            ),
            MAX_COORD as int,
        ),
    ensures
        final(cam).wf(),
        final(cam).eye@ == vadd(
            old(cam).eye@,
            pan_delta(old(cam).view_right@, old(cam).view_up@, dx as int, dy as int),
        ),
        final(cam).look_at@ == vadd(
            old(cam).look_at@,
            pan_delta(old(cam).view_right@, old(cam).view_up@, dx as int, dy as int),
        ),
        final(cam).up == old(cam).up,
        final(cam).tan_fov == old(cam).tan_fov,
        final(cam).raster_width == old(cam).raster_width,
        final(cam).raster_height == old(cam).raster_height,
        final(cam).view_dir == old(cam).view_dir,
        final(cam).view_right == old(cam).view_right,
        final(cam).view_up == old(cam).view_up,
{
    proof {
        lemma_basis_bounds(
            old(cam).eye@,
            old(cam).look_at@,
            old(cam).up@,
            old(cam).tan_fov as int,
            old(cam).raster_width as int,
            old(cam).raster_height as int,
        );
        lemma_vscale_within(
            old(cam).view_right@,
            dx as int,
            0x10_0000_0000,
            MAX_COORD as int,
            0x2000_0000_0000_0000,
        );
        lemma_vscale_within(
            old(cam).view_up@,
            dy as int,
            0x10_0000,
            MAX_COORD as int,
            0x2000_0000_0000_0000,
        );
    }
    let r = scale(cam.view_right, dx);
    let u = scale(cam.view_up, dy);
    let e1 = plus(cam.eye, r);
    let e2 = plus(e1, u);
    let l1 = plus(cam.look_at, r);
    let l2 = plus(l1, u);
    cam.eye = e2;
    cam.look_at = l2;
    proof {
        assert(vsub(cam.look_at@, cam.eye@) == vsub(old(cam).look_at@, old(cam).eye@));
    }
    recalculate_view(cam);
    proof {
        assert(cam.view_dir == old(cam).view_dir);
        assert(cam.view_right == old(cam).view_right);
        assert(cam.view_up == old(cam).view_up);
    }
}

/// How a zoom moves the eye and the look-at point: `dz` along the gaze.
pub open spec fn zoom_delta(dir: V3, dz: int) -> V3 {
    vscale(dir, dz)
}

/// Dolly: translate eye and look-at together along the gaze.
pub fn zoom(cam: &mut Camera, dz: i64)
    requires
        old(cam).wf(),
        -MAX_COORD <= dz <= MAX_COORD,
        bounded(
            vadd(old(cam).eye@, zoom_delta(old(cam).view_dir@, dz as int)),
            MAX_COORD as int,
        ),
        bounded(
            vadd(old(cam).look_at@, zoom_delta(old(cam).view_dir@, dz as int)),
            MAX_COORD as int,
        ),
    ensures
        final(cam).wf(),
        final(cam).eye@ == vadd(old(cam).eye@, zoom_delta(old(cam).view_dir@, dz as int)),
        final(cam).look_at@ == vadd(old(cam).look_at@, zoom_delta(old(cam).view_dir@, dz as int)),
        final(cam).up == old(cam).up,
        final(cam).tan_fov == old(cam).tan_fov,
        final(cam).raster_width == old(cam).raster_width,
        final(cam).raster_height == old(cam).raster_height,
        final(cam).view_dir == old(cam).view_dir,
        final(cam).view_right == old(cam).view_right,
        final(cam).view_up == old(cam).view_up,
{
    proof {
        lemma_basis_bounds(
            old(cam).eye@,
            old(cam).look_at@,
            old(cam).up@,
            old(cam).tan_fov as int,
            old(cam).raster_width as int,
            old(cam).raster_height as int,
        );
        lemma_vscale_unit_le(old(cam).view_dir@, dz as int, MAX_COORD as int);
    }
    let d = scale(cam.view_dir, dz);
    let e1 = plus(cam.eye, d);
    let l1 = plus(cam.look_at, d);
    cam.eye = e1;
    cam.look_at = l1;
    proof {
        assert(vsub(cam.look_at@, cam.eye@) == vsub(old(cam).look_at@, old(cam).eye@));
    }
    recalculate_view(cam);
    proof {
        assert(cam.view_dir == old(cam).view_dir);
        assert(cam.view_right == old(cam).view_right);
        assert(cam.view_up == old(cam).view_up);
    }
}

/// Where a rotation re-aims the look-at point: one gaze unit ahead of the
/// eye, offset by `dx` right and `dy` up.
pub open spec fn rotate_target(eye: V3, dir: V3, right: V3, up: V3, dx: int, dy: int) -> V3 {
    vadd(vadd(vadd(eye, dir), vscale(right, dx)), vscale(up, dy))
}

/// First-person look: the eye stays, the look-at point is re-aimed.
pub fn rotate(cam: &mut Camera, dx: i64, dy: i64)
    requires
        old(cam).wf(),
        -MAX_COORD <= dx <= MAX_COORD,
        -MAX_COORD <= dy <= MAX_COORD,
        pose_ok(
            old(cam).eye@,
            rotate_target(
                old(cam).eye@,
                old(cam).view_dir@,
                old(cam).view_right@,
                old(cam).view_up@,
                dx as int,
                dy as int,
            ),
            old(cam).up@,
            old(cam).tan_fov as int,
            old(cam).raster_width as int,
            old(cam).raster_height as int,
        ),
    ensures
        final(cam).wf(),
        final(cam).look_at@ == rotate_target(
            old(cam).eye@,
            old(cam).view_dir@,
            old(cam).view_right@,
            old(cam).view_up@,
            dx as int,
            dy as int,
        ),
        final(cam).eye == old(cam).eye,
        final(cam).up == old(cam).up,
        final(cam).tan_fov == old(cam).tan_fov,
        final(cam).raster_width == old(cam).raster_width,
        final(cam).raster_height == old(cam).raster_height,
{
    proof {
        lemma_basis_bounds(
            old(cam).eye@,
            old(cam).look_at@,
            old(cam).up@,
            old(cam).tan_fov as int,
            old(cam).raster_width as int,
            old(cam).raster_height as int,
        );
        lemma_vscale_within(
            old(cam).view_right@,
            dx as int,
            0x10_0000_0000,
            MAX_COORD as int,
            0x2000_0000_0000_0000,
        );
        lemma_vscale_within(
            old(cam).view_up@,
            dy as int,
            0x10_0000,
            MAX_COORD as int,
            0x2000_0000_0000_0000,
        );
    }
    let r = scale(cam.view_right, dx);
    let u = scale(cam.view_up, dy);
    let l1 = plus(cam.eye, cam.view_dir);
    let l2 = plus(l1, r);
    let l3 = plus(l2, u);
    cam.look_at = l3;
    recalculate_view(cam);
}

/// The center ray looks along the gaze: at the raster midpoint both
/// offsets vanish exactly, so the un-normalized ray direction is the
/// cached gaze vector itself.
pub proof fn lemma_raycast_center(cam: Camera)
    requires
        cam.wf(),
    ensures
        ray_pre(cam, cam.raster_width as int / 2, cam.raster_height as int / 2) == cam.view_dir@,
{
    lemma_center_offset_zero(cam.raster_width as int);
    lemma_center_offset_zero(cam.raster_height as int);
    lemma_vscale_zero(cam.view_right@);
    lemma_vscale_zero(cam.view_up@);
}

/// At the midpoint of a whole-pixel raster dimension the offset is zero.
proof fn lemma_center_offset_zero(rw: int)
    requires
        65536 <= rw,
        rw % 65536 == 0,
    ensures
        ray_offset(rw / 2, rw) == 0,
{
    lemma_fundamental_div_mod(rw, 65536);
    let q = rw / 65536;
    assert(rw == 2 * (32768 * q)) by (nonlinear_arith)
        requires
            rw == 65536 * q,
    ;
    lemma_div_multiples_vanish(32768 * q, 2);
    assert((32768 * q) * 65536 == 32768 * rw) by (nonlinear_arith)
        requires
            rw == 65536 * q,
    ;
    lemma_tdiv_exact(32768, rw);
}

/// Scaling by zero gives the zero vector.
proof fn lemma_vscale_zero(v: V3)
    ensures
        vscale(v, 0) == (V3 { x: 0, y: 0, z: 0 }),
{
    lemma_tdiv_zero(SCALE as int);
}

/// Panning by `(d, 0)` and then by `(-d, 0)` restores any point that was
/// translated with the camera — in particular the eye and the look-at
/// point, since a pan leaves the basis vectors unchanged.
pub proof fn lemma_pan_round_trip(p: V3, right: V3, up: V3, dx: int)
    ensures
        vadd(vadd(p, pan_delta(right, up, dx, 0)), pan_delta(right, up, -dx, 0)) == p,
{
    lemma_vscale_zero(up);
    assert(right.x * -dx == -(right.x * dx) && right.y * -dx == -(right.y * dx)
        && right.z * -dx == -(right.z * dx)) by (nonlinear_arith);
    lemma_tdiv_neg(right.x * dx, SCALE as int);
    lemma_tdiv_neg(right.y * dx, SCALE as int);
    lemma_tdiv_neg(right.z * dx, SCALE as int);
}

} // verus!
