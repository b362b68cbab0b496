use vstd::prelude::*;
use crate::common::PARAM_SCALE;
use crate::geometry::bounding_box_3::Bounds3f;
use crate::geometry::ray::Ray;
use crate::geometry::vector::{Point3, Vector3};
use crate::interaction::interaction::Interaction;
use crate::interaction::surface_interaction::SurfaceInteraction;
use crate::shape::shape::Shape;

verus! {

/// The square of a number.
pub open spec fn sq(x: int) -> int {
    x * x
}

/// The offset along `axis` of the point at the fixed-point parameter `t` of
/// the line from `o` along `d` from the point `c`, times `PARAM_SCALE`.
pub open spec fn gap(c: Point3, o: Point3, d: Vector3, axis: int, t: int) -> int {
    PARAM_SCALE * (o.coord(axis) - c.coord(axis)) + t * d.coord(axis)
}

/// The square of the distance of the point at parameter `t` from `c`, times
/// the square of `PARAM_SCALE`.
pub open spec fn dist_sq(c: Point3, o: Point3, d: Vector3, t: int) -> int {
    sq(gap(c, o, d, 0, t)) + sq(gap(c, o, d, 1, t)) + sq(gap(c, o, d, 2, t))
}

/// By how much the squared distance grows from the parameter `t` to the next.
pub open spec fn rise(c: Point3, o: Point3, d: Vector3, t: int) -> int {
    dist_sq(c, o, d, t + 1) - dist_sq(c, o, d, t)
}

/// Along one axis the square of the offset grows from step to step by more
/// and more.
pub proof fn lemma_axis_rise_grows(c: Point3, o: Point3, d: Vector3, axis: int, t: int)
    ensures
        sq(gap(c, o, d, axis, t + 2)) - sq(gap(c, o, d, axis, t + 1)) >= sq(
            gap(c, o, d, axis, t + 1),
        ) - sq(gap(c, o, d, axis, t)),
{
    let x = gap(c, o, d, axis, t);
    let e = d.coord(axis);
    assert(gap(c, o, d, axis, t + 1) == x + e && gap(c, o, d, axis, t + 2) == x + 2 * e)
        by (nonlinear_arith)
        requires
            x == PARAM_SCALE * (o.coord(axis) - c.coord(axis)) + t * e,
            gap(c, o, d, axis, t + 1) == PARAM_SCALE * (o.coord(axis) - c.coord(axis)) + (t + 1)
                * e,
            gap(c, o, d, axis, t + 2) == PARAM_SCALE * (o.coord(axis) - c.coord(axis)) + (t + 2)
                * e,
    ;
    assert((x + 2 * e) * (x + 2 * e) - (x + e) * (x + e) >= (x + e) * (x + e) - x * x)
        by (nonlinear_arith);
}

/// The growth of the squared distance never shrinks.
pub proof fn lemma_rise_grows(c: Point3, o: Point3, d: Vector3, t: int)
    ensures
        rise(c, o, d, t) <= rise(c, o, d, t + 1),
{
    lemma_axis_rise_grows(c, o, d, 0, t);
    lemma_axis_rise_grows(c, o, d, 1, t);
    lemma_axis_rise_grows(c, o, d, 2, t);
}

/// The growth of the squared distance at a later parameter is not below the
/// growth at an earlier one.
pub proof fn lemma_rise_monotone(c: Point3, o: Point3, d: Vector3, t: int, u: int)
    requires
        t <= u,
    ensures
        rise(c, o, d, t) <= rise(c, o, d, u),
    decreases u - t,
{
    if t < u {
        lemma_rise_monotone(c, o, d, t, u - 1);
        lemma_rise_grows(c, o, d, u - 1);
    }
}

/// Once the distance grows it keeps growing.
pub proof fn lemma_rising(c: Point3, o: Point3, d: Vector3, t: int, u: int)
    requires
        rise(c, o, d, t) >= 0,
        t <= u,
    ensures
        dist_sq(c, o, d, t) <= dist_sq(c, o, d, u),
    decreases u - t,
{
    if t < u {
        lemma_rising(c, o, d, t, u - 1);
        lemma_rise_monotone(c, o, d, t, u - 1);
    }
}

/// As long as the distance shrinks it has been shrinking.
pub proof fn lemma_falling(c: Point3, o: Point3, d: Vector3, t: int, u: int)
    requires
        rise(c, o, d, u - 1) <= 0,
        t <= u,
    ensures
        dist_sq(c, o, d, t) >= dist_sq(c, o, d, u),
    decreases u - t,
{
    if t < u {
        lemma_rise_grows(c, o, d, u - 2);
        lemma_falling(c, o, d, t, u - 1);
    }
}

/// Between two parameters the distance is never above both ends.
pub proof fn lemma_between(c: Point3, o: Point3, d: Vector3, u: int, v: int, w: int)
    requires
        u <= v <= w,
    ensures
        dist_sq(c, o, d, v) <= dist_sq(c, o, d, u) || dist_sq(c, o, d, v) <= dist_sq(c, o, d, w),
{
    if u < v && v < w {
        if rise(c, o, d, v - 1) <= 0 {
            lemma_falling(c, o, d, u, v);
        } else {
            lemma_rise_grows(c, o, d, v - 1);
            lemma_rising(c, o, d, v, w);
        }
    }
}

/// A sphere on the lattice: the points within `radius` of `center`.
///
/// A ray that starts outside hits the sphere at the first fixed-point
/// parameter whose point is within the sphere; a ray that starts inside hits
/// it at the last.
#[derive(Clone, Copy, Debug)]
pub struct Sphere {
    id: u64,
    center: Point3,
    radius: i32,
    reverse_orientation: bool,
    transform_swaps_handedness: bool,
}

impl Sphere {
    /// The centre.
    pub closed spec fn center_of(&self) -> Point3 {
        self.center
    }

    /// The radius.
    pub closed spec fn radius_of(&self) -> int {
        self.radius as int
    }

    /// The identity under which records name the sphere.
    pub closed spec fn ident_of(&self) -> u64 {
        self.id
    }

    /// The orientation of the surface was reversed by whoever made the
    /// sphere.
    pub closed spec fn reversed_of(&self) -> bool {
        self.reverse_orientation
    }

    /// The placement of the sphere in the world turns right hands into left
    /// hands. A sphere of the lattice is only moved, never mirrored.
    pub closed spec fn mirrored_of(&self) -> bool {
        self.transform_swaps_handedness
    }

    /// The normal points inwards: the orientation is reversed or the
    /// placement mirrors, and not both.
    pub open spec fn flipped(&self) -> bool {
        self.reversed_of() != self.mirrored_of()
    }

    /// The box from minus the radius to the radius on every axis. A radius
    /// below zero counts as zero.
    pub open spec fn own_box(&self) -> Bounds3f {
        let r = if self.radius_of() < 0 { 0 } else { self.radius_of() };
        Bounds3f {
            p_min: Point3 { x: (-r) as i32, y: (-r) as i32, z: (-r) as i32 },
            p_max: Point3 { x: r as i32, y: r as i32, z: r as i32 },
        }
    }

    /// The sphere lies on the lattice with all its points.
    pub open spec fn fits(&self) -> bool {
        &&& self.radius_of() >= 0
        &&& i32::MIN <= self.center_of().x - self.radius_of()
        &&& self.center_of().x + self.radius_of() <= i32::MAX
        &&& i32::MIN <= self.center_of().y - self.radius_of()
        &&& self.center_of().y + self.radius_of() <= i32::MAX
        &&& i32::MIN <= self.center_of().z - self.radius_of()
        &&& self.center_of().z + self.radius_of() <= i32::MAX
    }

    /// The box from `center - radius` to `center + radius`.
    pub open spec fn box_of(&self) -> Bounds3f {
        Bounds3f {
            p_min: Point3 {
                x: (self.center_of().x - self.radius_of()) as i32,
                y: (self.center_of().y - self.radius_of()) as i32,
                z: (self.center_of().z - self.radius_of()) as i32,
            },
            p_max: Point3 {
                x: (self.center_of().x + self.radius_of()) as i32,
                y: (self.center_of().y + self.radius_of()) as i32,
                z: (self.center_of().z + self.radius_of()) as i32,
            },
        }
    }

    /// The point at the fixed-point parameter `t` of the line from `o` along
    /// `d` is within the sphere, in exact arithmetic.
    pub open spec fn within(&self, o: Point3, d: Vector3, t: int) -> bool {
        dist_sq(self.center_of(), o, d, t) <= sq(self.radius_of() * PARAM_SCALE)
    }

    /// `t` is the parameter at which a line that starts outside enters the
    /// sphere: it lies ahead of the origin, its point is within the sphere
    /// and the point before it is not.
    pub open spec fn enters_at(&self, o: Point3, d: Vector3, t: int) -> bool {
        t >= 1 && self.within(o, d, t) && !self.within(o, d, t - 1)
    }

    /// `t` is the parameter at which a line that starts inside leaves the
    /// sphere: it lies ahead of the origin, its point is within the sphere
    /// and the point after it is not.
    pub open spec fn leaves_at(&self, o: Point3, d: Vector3, t: int) -> bool {
        t >= 1 && self.within(o, d, t) && !self.within(o, d, t + 1)
    }

    /// Where the line from `o` along `d` first meets the sphere: where it
    /// enters, if it starts outside, and where it leaves, if it starts
    /// inside. A sphere without a radius and a line without a direction meet
    /// nowhere.
    pub open spec fn meeting(&self, o: Point3, d: Vector3) -> Option<i64> {
        if self.radius_of() <= 0 || (d.x == 0 && d.y == 0 && d.z == 0) {
            None
        } else if !self.within(o, d, 0) {
            if exists|t: int| self.enters_at(o, d, t) {
                Some((choose|t: int| self.enters_at(o, d, t)) as i64)
            } else {
                None
            }
        } else {
            if exists|t: int| self.leaves_at(o, d, t) {
                Some((choose|t: int| self.leaves_at(o, d, t)) as i64)
            } else {
                None
            }
        }
    }

    /// A line enters the sphere at one parameter only, and no point before
    /// that parameter is within the sphere.
    pub proof fn lemma_enters_once(&self, o: Point3, d: Vector3, t: int, u: int)
        requires
            !self.within(o, d, 0),
            self.enters_at(o, d, t),
        ensures
            self.enters_at(o, d, u) ==> u == t,
            0 <= u < t ==> !self.within(o, d, u),
    {
        let c = self.center_of();
        if self.enters_at(o, d, u) && u != t {
            if u < t {
                lemma_between(c, o, d, u, t - 1, t);
            } else {
                lemma_between(c, o, d, t, u - 1, u);
            }
        }
        if 0 <= u < t && self.within(o, d, u) {
            lemma_between(c, o, d, u, t - 1, t);
        }
    }

    /// A line leaves the sphere at one parameter only, and no point after
    /// that parameter is within the sphere.
    pub proof fn lemma_leaves_once(&self, o: Point3, d: Vector3, t: int, u: int)
        requires
            self.leaves_at(o, d, t),
        ensures
            self.leaves_at(o, d, u) ==> u == t,
            u > t ==> !self.within(o, d, u),
    {
        let c = self.center_of();
        if self.leaves_at(o, d, u) && u != t {
            if u < t {
                lemma_between(c, o, d, u, u + 1, t);
            } else {
                lemma_between(c, o, d, t, t + 1, u);
            }
        }
        if u > t && self.within(o, d, u) {
            lemma_between(c, o, d, t, t + 1, u);
        }
    }

    /// A point within the sphere is in its box.
    pub proof fn lemma_within_box(&self, o: Point3, d: Vector3, t: int)
        requires
            self.fits(),
            self.within(o, d, t),
        ensures
            self.box_of().holds_at(o, d, t),
    {
        let c = self.center_of();
        let r = self.radius_of();
        let lim = r * PARAM_SCALE;
        assert forall|axis: int| 0 <= axis < 3 implies -lim <= #[trigger] gap(c, o, d, axis, t)
            <= lim by {
            let g0 = gap(c, o, d, 0, t);
            let g1 = gap(c, o, d, 1, t);
            let g2 = gap(c, o, d, 2, t);
            let g = gap(c, o, d, axis, t);
            assert(-lim <= g <= lim) by (nonlinear_arith)
                requires
                    g0 * g0 + g1 * g1 + g2 * g2 <= lim * lim,
                    g == g0 || g == g1 || g == g2,
                    lim >= 0,
            ;
        }
        assert(-lim <= gap(c, o, d, 0, t) <= lim);
        assert(-lim <= gap(c, o, d, 1, t) <= lim);
        assert(-lim <= gap(c, o, d, 2, t) <= lim);
        assert forall|axis: int| 0 <= axis < 3 implies self.box_of().axis_holds(axis, o, d, t) by {
            let g = gap(c, o, d, axis, t);
            assert(-lim <= g <= lim);
            let oc = o.coord(axis);
            let cc = c.coord(axis);
            let td = t * d.coord(axis);
            assert((cc - r) * 65536 <= oc * 65536 + td <= (cc + r) * 65536) by (nonlinear_arith)
                requires
                    g == 65536 * (oc - cc) + td,
                    lim == r * 65536,
                    -lim <= g <= lim,
            ;
        }
    }
}

/// The largest magnitude of a direction component for which a line can meet
/// a sphere of the lattice at a parameter other than zero.
pub const DIRECTION_LIMIT: i128 = 0x4_0000_0000_0000;

/// A point far along the line is outside the sphere: where one component of
/// the step `t * d` is beyond `DIRECTION_LIMIT`, the point at `t` is not
/// within the sphere.
pub proof fn lemma_far_outside(s: Sphere, o: Point3, d: Vector3, t: int, axis: int)
    requires
        s.fits(),
        0 <= axis < 3,
        t * d.coord(axis) > DIRECTION_LIMIT || t * d.coord(axis) < -DIRECTION_LIMIT,
    ensures
        !s.within(o, d, t),
{
    let c = s.center_of();
    let r = s.radius_of();
    let g0 = gap(c, o, d, 0, t);
    let g1 = gap(c, o, d, 1, t);
    let g2 = gap(c, o, d, 2, t);
    let g = gap(c, o, d, axis, t);
    let w = o.coord(axis) - c.coord(axis);
    let td = t * d.coord(axis);
    let lim = r * PARAM_SCALE;
    assert(g == 65536 * w + td);
    assert(g > lim || g < -lim);
    assert(g0 * g0 + g1 * g1 + g2 * g2 > lim * lim) by (nonlinear_arith)
        requires
            g == g0 || g == g1 || g == g2,
            g > lim || g < -lim,
            lim >= 0,
    ;
}

/// Within the search range every step of the line is small enough for the
/// machine.
pub proof fn lemma_step_fits(dmax: int, cap: int, t: int, e: int)
    requires
        1 <= dmax <= DIRECTION_LIMIT,
        cap == (DIRECTION_LIMIT as int) / dmax + 1,
        -dmax <= e <= dmax,
        -(cap + 1) <= t <= cap + 1,
    ensures
        -0x10_0000_0000_0000 <= t * e <= 0x10_0000_0000_0000,
        1 <= cap <= DIRECTION_LIMIT + 1,
        cap * dmax > DIRECTION_LIMIT,
{
    let q = 0x4_0000_0000_0000int / dmax;
    assert(q * dmax <= 0x4_0000_0000_0000 < (q + 1) * dmax && 0 <= q <= 0x4_0000_0000_0000)
        by (nonlinear_arith)
        requires
            q == 0x4_0000_0000_0000int / dmax,
            dmax >= 1,
    ;
    assert(-((cap + 1) * dmax) <= t * e <= (cap + 1) * dmax) by (nonlinear_arith)
        requires
            -dmax <= e <= dmax,
            -(cap + 1) <= t <= cap + 1,
            cap >= 0,
            dmax >= 0,
    ;
    assert((cap + 1) * dmax == q * dmax + 2 * dmax) by (nonlinear_arith)
        requires
            cap == q + 1,
    ;
}

fn magnitude(x: i64) -> (r: i128)
    ensures
        r >= 0,
        r == x || r == -x,
{
    if x < 0 {
        -(x as i128)
    } else {
        x as i128
    }
}

impl Sphere {
    /// A sphere around `center`. It can be used where it lies on the lattice
    /// with all its points.
    pub fn init(id: u64, center: &Point3, reverse_orientation: bool, radius: i32) -> (s: Self)
        ensures
            s.ident_of() == id,
            s.center_of() == *center,
            s.radius_of() == radius,
            s.reversed_of() == reverse_orientation,
            !s.mirrored_of(),
    {
        Self {
            id,
            center: *center,
            radius,
            reverse_orientation,
            transform_swaps_handedness: false,
        }
    }

    /// Whether the sphere lies on the lattice with all its points.
    pub fn is_ready(&self) -> (r: bool)
        ensures
            r == self.fits(),
    {
        let r = self.radius as i64;
        r >= 0 && self.center.x as i64 - r >= -0x8000_0000 && self.center.x as i64 + r
            <= 0x7fff_ffff && self.center.y as i64 - r >= -0x8000_0000 && self.center.y as i64 + r
            <= 0x7fff_ffff && self.center.z as i64 - r >= -0x8000_0000 && self.center.z as i64 + r
            <= 0x7fff_ffff
    }

    /// The steps of the line up to the parameter `t` fit the machine.
    pub open spec fn steps_fit(d: Vector3, t: int) -> bool {
        &&& -0x10_0000_0000_0000 <= t * d.x <= 0x10_0000_0000_0000
        &&& -0x10_0000_0000_0000 <= t * d.y <= 0x10_0000_0000_0000
        &&& -0x10_0000_0000_0000 <= t * d.z <= 0x10_0000_0000_0000
    }

    fn dist_at(&self, o: &Point3, d: &Vector3, t: i128) -> (r: i128)
        requires
            Self::steps_fit(*d, t as int),
        ensures
            r == dist_sq(self.center_of(), *o, *d, t as int),
            0 <= r <= 0x3000_0000_0000_0000_0000_0000_0000,
    {
        let gx: i128 = 65536 * (o.x as i128 - self.center.x as i128) + t * (d.x as i128);
        let gy: i128 = 65536 * (o.y as i128 - self.center.y as i128) + t * (d.y as i128);
        let gz: i128 = 65536 * (o.z as i128 - self.center.z as i128) + t * (d.z as i128);
        proof {
            let b = 0x20_0000_0000_0000int;
            assert(0 <= gx * gx <= b * b) by (nonlinear_arith)
                requires
                    -b <= gx <= b,
            ;
            assert(0 <= gy * gy <= b * b) by (nonlinear_arith)
                requires
                    -b <= gy <= b,
            ;
            assert(0 <= gz * gz <= b * b) by (nonlinear_arith)
                requires
                    -b <= gz <= b,
            ;
            assert(gx == gap(self.center_of(), *o, *d, 0, t as int));
            assert(gy == gap(self.center_of(), *o, *d, 1, t as int));
            assert(gz == gap(self.center_of(), *o, *d, 2, t as int));
        }
        gx * gx + gy * gy + gz * gz
    }

    /// The square of the radius, in the units of `dist_at`.
    fn reach(&self) -> (r: i128)
        requires
            self.fits(),
        ensures
            r == sq(self.radius_of() * PARAM_SCALE),
    {
        let lim: i128 = (self.radius as i128) * 65536;
        proof {
            assert(0 <= lim * lim <= 0x8000_0000_0000 * 0x8000_0000_0000) by (nonlinear_arith)
                requires
                    0 <= lim <= 0x8000_0000_0000,
            ;
        }
        lim * lim
    }

    /// Looks for the parameter at which the line from `o` along `d` first
    /// meets the sphere, by halving the range in which it can lie.
    pub fn nearest(&self, o: &Point3, d: &Vector3) -> (r: Option<i64>)
        requires
            self.fits(),
        ensures
            r == self.meeting(*o, *d),
    {
        let ghost c = self.center_of();
        if self.radius <= 0 {
            return None;
        }
        let ax = magnitude(d.x);
        let ay = magnitude(d.y);
        let az = magnitude(d.z);
        let dmax: i128 = if ax >= ay && ax >= az { ax } else if ay >= az { ay } else { az };
        let ghost top: int = if ax >= ay && ax >= az { 0 } else if ay >= az { 1 } else { 2 };
        if dmax == 0 {
            return None;
        }
        if dmax > DIRECTION_LIMIT {
            proof {
                self.lemma_no_meeting_beyond(*o, *d, top, 1);
            }
            return None;
        }
        let cap: i128 = DIRECTION_LIMIT / dmax + 1;
        proof {
            assert forall|t: int| -(cap + 1) <= t <= cap + 1 implies #[trigger] Self::steps_fit(*d, t) by {
                lemma_step_fits(dmax as int, cap as int, t, d.x as int);
                lemma_step_fits(dmax as int, cap as int, t, d.y as int);
                lemma_step_fits(dmax as int, cap as int, t, d.z as int);
            }
            lemma_step_fits(dmax as int, cap as int, 0, 0);
            assert(Self::steps_fit(*d, 0) && Self::steps_fit(*d, 1) && Self::steps_fit(*d, cap as int)
                && Self::steps_fit(*d, cap + 1));
            assert(cap * d.coord(top) > DIRECTION_LIMIT || cap * d.coord(top) < -DIRECTION_LIMIT)
                by (nonlinear_arith)
                requires
                    cap * dmax > DIRECTION_LIMIT,
                    d.coord(top) == dmax || d.coord(top) == -dmax,
            ;
            lemma_far_outside(*self, *o, *d, cap as int, top);
        }
        let limit = self.reach();
        let q0 = self.dist_at(o, d, 0);
        if q0 > limit {
            // the ray starts outside: find where it enters
            let q1 = self.dist_at(o, d, 1);
            if q1 - q0 >= 0 {
                proof {
                    assert forall|t: int| !self.enters_at(*o, *d, t) by {
                        if t >= 1 {
                            lemma_rising(c, *o, *d, 0, t);
                        }
                    }
                }
                return None;
            }
            let qc = self.dist_at(o, d, cap);
            let qc1 = self.dist_at(o, d, cap + 1);
            if qc1 - qc < 0 {
                proof {
                    assert forall|t: int| !self.enters_at(*o, *d, t) by {
                        if t >= 1 {
                            if t <= cap {
                                lemma_rise_monotone(c, *o, *d, cap - 1, cap as int);
                                lemma_falling(c, *o, *d, t, cap as int);
                            } else {
                                self.lemma_no_meeting_beyond(*o, *d, top, cap as int);
                            }
                        }
                    }
                }
                return None;
            }
            let mut lo: i128 = 0;
            let mut hi: i128 = cap;
            while hi - lo > 1
                invariant
                    0 <= lo < hi <= cap,
                    self.fits(),
                    c == self.center_of(),
                    limit == sq(self.radius_of() * PARAM_SCALE),
                    forall|t: int| -(cap + 1) <= t <= cap + 1 ==> #[trigger] Self::steps_fit(*d, t),
                    !self.within(*o, *d, lo as int) && rise(c, *o, *d, lo as int) < 0,
                    self.within(*o, *d, hi as int) || rise(c, *o, *d, hi as int) >= 0,
                decreases hi - lo,
            {
                let mid: i128 = lo + (hi - lo) / 2;
                assert(Self::steps_fit(*d, mid as int) && Self::steps_fit(*d, mid + 1));
                let qm = self.dist_at(o, d, mid);
                let qm1 = self.dist_at(o, d, mid + 1);
                if qm <= limit || qm1 - qm >= 0 {
                    hi = mid;
                } else {
                    lo = mid;
                }
            }
            assert(Self::steps_fit(*d, hi as int));
            let qh = self.dist_at(o, d, hi);
            if qh <= limit {
                proof {
                    assert(self.enters_at(*o, *d, hi as int));
                    let t = choose|t: int| self.enters_at(*o, *d, t);
                    self.lemma_enters_once(*o, *d, hi as int, t);
                }
                Some(hi as i64)
            } else {
                proof {
                    assert forall|t: int| !self.enters_at(*o, *d, t) by {
                        if t >= 1 {
                            if t >= hi {
                                lemma_rising(c, *o, *d, hi as int, t);
                            } else {
                                lemma_rise_monotone(c, *o, *d, lo - 1, lo as int);
                                lemma_falling(c, *o, *d, t, lo as int);
                            }
                        }
                    }
                }
                None
            }
        } else {
            // the ray starts inside: find where it leaves
            let mut lo: i128 = 0;
            let mut hi: i128 = cap;
            while hi - lo > 1
                invariant
                    0 <= lo < hi <= cap,
                    self.fits(),
                    limit == sq(self.radius_of() * PARAM_SCALE),
                    forall|t: int| -(cap + 1) <= t <= cap + 1 ==> #[trigger] Self::steps_fit(*d, t),
                    self.within(*o, *d, lo as int),
                    !self.within(*o, *d, hi as int),
                decreases hi - lo,
            {
                let mid: i128 = lo + (hi - lo) / 2;
                assert(Self::steps_fit(*d, mid as int));
                let qm = self.dist_at(o, d, mid);
                if qm <= limit {
                    lo = mid;
                } else {
                    hi = mid;
                }
            }
            if lo >= 1 {
                proof {
                    assert(self.leaves_at(*o, *d, lo as int));
                    let t = choose|t: int| self.leaves_at(*o, *d, t);
                    self.lemma_leaves_once(*o, *d, lo as int, t);
                }
                Some(lo as i64)
            } else {
                proof {
                    assert forall|t: int| !self.leaves_at(*o, *d, t) by {
                        if t >= 1 {
                            lemma_between(c, *o, *d, 0, 1, t);
                        }
                    }
                }
                None
            }
        }
    }

    /// Where the largest component of the direction, the one along `axis`,
    /// takes the line beyond `DIRECTION_LIMIT` in `from` steps, no point from
    /// there on is within the sphere, and neither is any as far back.
    pub proof fn lemma_no_meeting_beyond(&self, o: Point3, d: Vector3, axis: int, from: int)
        requires
            self.fits(),
            0 <= axis < 3,
            from >= 1,
            from * d.coord(axis) > DIRECTION_LIMIT || from * d.coord(axis) < -DIRECTION_LIMIT,
        ensures
            forall|t: int| t >= from || t <= -from ==> !#[trigger] self.within(o, d, t),
            from == 1 ==> self.meeting(o, d) is None,
    {
        let e = d.coord(axis);
        assert forall|t: int| t >= from || t <= -from implies !#[trigger] self.within(o, d, t) by {
            assert(t * e > DIRECTION_LIMIT || t * e < -DIRECTION_LIMIT) by (nonlinear_arith)
                requires
                    from >= 1,
                    t >= from || t <= -from,
                    from * e > 0x4_0000_0000_0000 || from * e < -0x4_0000_0000_0000,
            ;
            lemma_far_outside(*self, o, d, t, axis);
        }
        if from == 1 {
            assert forall|t: int| !self.enters_at(o, d, t) by {
                if t >= 1 {
                    assert(!self.within(o, d, t));
                }
            }
            assert forall|t: int| !self.leaves_at(o, d, t) by {
                if t >= 1 {
                    assert(!self.within(o, d, t));
                }
            }
        }
    }
}

impl Sphere {
    /// The lattice point at the fixed-point parameter `t` of the ray, each
    /// coordinate rounded down.
    pub open spec fn point_at(ray: Ray, t: int) -> Point3 {
        Point3 {
            x: ray.coord_at(0, t) as i32,
            y: ray.coord_at(1, t) as i32,
            z: ray.coord_at(2, t) as i32,
        }
    }

    /// The record of a hit at the parameter `t` of the ray: the point of the
    /// hit, rounded down to the lattice, with one lattice unit per axis as
    /// the bound of that rounding; the parameter as its time; the way back
    /// along the ray; and as the normal the offset of the point from the
    /// centre, turned round where the orientation is reversed. Everything
    /// else is zero.
    pub open spec fn record_at(&self, ray: Ray, t: int) -> SurfaceInteraction {
        let p = Self::point_at(ray, t);
        let c = self.center_of();
        let out = Vector3 { x: (p.x - c.x) as i64, y: (p.y - c.y) as i64, z: (p.z - c.z) as i64 };
        let n = if self.flipped() {
            Vector3 { x: (-out.x) as i64, y: (-out.y) as i64, z: (-out.z) as i64 }
        } else {
            out
        };
        let zero = Interaction::zero();
        SurfaceInteraction::plain(
            Interaction {
                p,
                time: t as i64,
                p_error: Vector3 { x: 1, y: 1, z: 1 },
                wo: Vector3 { x: (-ray.d.x) as i64, y: (-ray.d.y) as i64, z: (-ray.d.z) as i64 },
                n,
                medium_interface: None,
            },
            crate::geometry::vector::Point2 { x: 0, y: 0 },
            zero,
            zero,
            zero,
            zero,
            n,
            None,
        )
    }

    /// A meeting is a parameter ahead of the origin whose point is within
    /// the sphere, and the line does not move by more than
    /// `DIRECTION_LIMIT` in a step.
    pub proof fn lemma_meeting_within(&self, o: Point3, d: Vector3)
        requires
            self.fits(),
            self.meeting(o, d) is Some,
        ensures
            1 <= self.meeting(o, d)->0 <= DIRECTION_LIMIT,
            self.within(o, d, self.meeting(o, d)->0 as int),
            -DIRECTION_LIMIT <= d.x <= DIRECTION_LIMIT,
            -DIRECTION_LIMIT <= d.y <= DIRECTION_LIMIT,
            -DIRECTION_LIMIT <= d.z <= DIRECTION_LIMIT,
    {
        let t = if !self.within(o, d, 0) {
            choose|t: int| self.enters_at(o, d, t)
        } else {
            choose|t: int| self.leaves_at(o, d, t)
        };
        assert(t >= 1 && self.within(o, d, t));
        let axis = if d.x != 0 { 0int } else if d.y != 0 { 1int } else { 2int };
        let e = d.coord(axis);
        if t > DIRECTION_LIMIT {
            assert(t * e > DIRECTION_LIMIT || t * e < -DIRECTION_LIMIT) by (nonlinear_arith)
                requires
                    t > 0x4_0000_0000_0000,
                    e != 0,
            ;
            lemma_far_outside(*self, o, d, t, axis);
        }
        assert forall|k: int| 0 <= k < 3 implies -DIRECTION_LIMIT <= #[trigger] d.coord(k)
            <= DIRECTION_LIMIT by {
            let f = d.coord(k);
            if f > DIRECTION_LIMIT || f < -DIRECTION_LIMIT {
                assert(t * f > DIRECTION_LIMIT || t * f < -DIRECTION_LIMIT) by (nonlinear_arith)
                    requires
                        t >= 1,
                        f > 0x4_0000_0000_0000 || f < -0x4_0000_0000_0000,
                ;
                lemma_far_outside(*self, o, d, t, k);
            }
        }
        assert(-DIRECTION_LIMIT <= d.coord(0) <= DIRECTION_LIMIT);
        assert(-DIRECTION_LIMIT <= d.coord(1) <= DIRECTION_LIMIT);
        assert(-DIRECTION_LIMIT <= d.coord(2) <= DIRECTION_LIMIT);
    }

    /// The point of a hit, rounded down to the lattice, lies in the box of
    /// the sphere.
    pub proof fn lemma_point_in_box(&self, ray: Ray, t: int)
        requires
            self.fits(),
            self.within(ray.o, ray.d, t),
        ensures
            forall|axis: int|
                0 <= axis < 3 ==> self.box_of().p_min.coord(axis) <= #[trigger] ray.coord_at(axis, t)
                    <= self.box_of().p_max.coord(axis),
    {
        self.lemma_within_box(ray.o, ray.d, t);
        assert forall|axis: int| 0 <= axis < 3 implies self.box_of().p_min.coord(axis)
            <= #[trigger] ray.coord_at(axis, t) <= self.box_of().p_max.coord(axis) by {
            assert(self.box_of().axis_holds(axis, ray.o, ray.d, t));
            let lo = self.box_of().p_min.coord(axis);
            let hi = self.box_of().p_max.coord(axis);
            let oc = ray.o.coord(axis);
            let td = ray.d.coord(axis) * t;
            assert(td == t * ray.d.coord(axis)) by (nonlinear_arith)
                requires
                    td == ray.d.coord(axis) * t,
            ;
            let f = td / 65536;
            assert(lo - oc <= f <= hi - oc) by (nonlinear_arith)
                requires
                    (lo - oc) * 65536 <= td <= (hi - oc) * 65536,
                    f == td / 65536,
            ;
        }
    }
}

impl Shape for Sphere {
    open spec fn ready(&self) -> bool {
        self.fits()
    }

    open spec fn ident(&self) -> u64 {
        self.ident_of()
    }

    open spec fn bound(&self) -> Bounds3f {
        self.box_of()
    }

    open spec fn local_bound(&self) -> Bounds3f {
        self.own_box()
    }

    open spec fn reversed(&self) -> bool {
        self.reversed_of()
    }

    open spec fn mirrored(&self) -> bool {
        self.mirrored_of()
    }

    open spec fn first_hit(&self, o: Point3, d: Vector3) -> Option<i64> {
        self.meeting(o, d)
    }

    open spec fn records(&self, ray: Ray, isect: SurfaceInteraction) -> bool {
        self.meeting(ray.o, ray.d) matches Some(t) && isect == self.record_at(ray, t as int)
    }

    proof fn hit_in_bound(&self, o: Point3, d: Vector3) {
        self.lemma_meeting_within(o, d);
        self.lemma_within_box(o, d, self.meeting(o, d)->0 as int);
    }

    fn id(&self) -> (r: u64) {
        self.id
    }

    fn reverse_orientation(&self) -> (r: bool) {
        self.reverse_orientation
    }

    fn transform_swaps_handedness(&self) -> (r: bool) {
        self.transform_swaps_handedness
    }

    fn object_bound(&self) -> (b: Bounds3f) {
        let r: i32 = if self.radius < 0 { 0 } else { self.radius };
        let p_min = Point3 { x: -r, y: -r, z: -r };
        let p_max = Point3 { x: r, y: r, z: r };

        Bounds3f::init(&p_min, &p_max)
    }

    fn world_bound(&self) -> (b: Bounds3f) {
        let r = self.radius;
        Bounds3f {
            p_min: Point3 { x: self.center.x - r, y: self.center.y - r, z: self.center.z - r },
            p_max: Point3 { x: self.center.x + r, y: self.center.y + r, z: self.center.z + r },
        }
    }

    fn intersect(
        &self,
        ray: &Ray,
        t_hit: &mut i64,
        isect: &mut SurfaceInteraction,
        _test_alpha_texture: bool,
    ) -> (hit: bool) {
        let t_shape_hit = match self.nearest(&ray.o, &ray.d) {
            Some(t) => t,
            None => {
                return false;
            },
        };
        if t_shape_hit >= ray.t_max {
            return false;
        }
        proof {
            self.lemma_meeting_within(ray.o, ray.d);
            self.lemma_point_in_box(*ray, t_shape_hit as int);
            assert(ray.coord_at(0, t_shape_hit as int) == ray.line().coord_at(0, t_shape_hit as int));
            assert(ray.coord_at(1, t_shape_hit as int) == ray.line().coord_at(1, t_shape_hit as int));
            assert(ray.coord_at(2, t_shape_hit as int) == ray.line().coord_at(2, t_shape_hit as int));
        }
        let p_hit = match ray.at(t_shape_hit) {
            Some(p) => p,
            None => self.center,
        };
        let out = p_hit.sub(&self.center);
        let n = if self.reverse_orientation != self.transform_swaps_handedness {
            Vector3 { x: -out.x, y: -out.y, z: -out.z }
        } else {
            out
        };
        let p_error = Vector3 { x: 1, y: 1, z: 1 };
        let wo = Vector3 { x: -ray.d.x, y: -ray.d.y, z: -ray.d.z };
        let mut rec = SurfaceInteraction::new();
        rec.interaction = Interaction::init(&p_hit, &wo, &n, &p_error, t_shape_hit, None);
        rec.shading.n = n;
        *isect = rec;
        *t_hit = t_shape_hit;

        true
    }

    fn intersect_p(&self, ray: &Ray, _test_alpha_texture: bool) -> (hit: bool) {
        match self.nearest(&ray.o, &ray.d) {
            Some(t) => {
                proof {
                    self.lemma_meeting_within(ray.o, ray.d);
                }
                t < ray.t_max
            },
            None => false,
        }
    }
}

} // verus!
