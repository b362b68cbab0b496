use vstd::prelude::*;
use crate::common::PARAM_SCALE;
use crate::geometry::bounding_box_3::Bounds3f;
use crate::geometry::ray::{div_floor, Ray};
use crate::geometry::vector::{Point3, Vector3};
use crate::math::{gamma, lemma_mul_bound, lemma_ratio_total, lemma_ratio_trans, ratio_le, ratio_le_exec, ratio_ok};

verus! {

/// The far end of every slab is widened by the factor `1 + 2 * gamma(3)`,
/// which is `ROBUST_NUM / ROBUST_DEN`.
pub const ROBUST_NUM: i64 = 10003;

pub const ROBUST_DEN: i64 = 9997;

impl Bounds3f {
    /// The point of the ray from `o` along `d` at the fixed-point parameter
    /// `t` lies between the two faces of the box that are normal to `axis`.
    pub open spec fn axis_holds(&self, axis: int, o: Point3, d: Vector3, t: int) -> bool {
        self.p_min.coord(axis) * PARAM_SCALE <= o.coord(axis) * PARAM_SCALE + t * d.coord(axis)
            <= self.p_max.coord(axis) * PARAM_SCALE
    }

    /// The point of the ray from `o` along `d` at the fixed-point parameter
    /// `t` lies in the box, in exact arithmetic.
    pub open spec fn holds_at(&self, o: Point3, d: Vector3, t: int) -> bool {
        self.axis_holds(0, o, d, t) && self.axis_holds(1, o, d, t) && self.axis_holds(2, o, d, t)
    }

    /// The parameter at which the ray meets the face of the box that `flag`
    /// names as the near one along `axis`, as an extended fraction. A ray
    /// that does not move along the axis gets minus infinity where its origin
    /// is not before that face and plus infinity otherwise.
    pub open spec fn slab_near(&self, ray: Ray, flag: int, axis: int) -> (int, int) {
        let n = self.corner_at(flag).coord(axis) - ray.o.coord(axis);
        let d = ray.d.coord(axis);
        if d > 0 {
            (n, d)
        } else if d < 0 {
            (-n, -d)
        } else if n <= 0 {
            (-1, 0)
        } else {
            (1, 0)
        }
    }

    /// The parameter at which the ray meets the other face along `axis`,
    /// widened by `ROBUST_NUM / ROBUST_DEN`, as an extended fraction. A ray
    /// that does not move along the axis gets plus infinity where its origin
    /// is not beyond that face and minus infinity otherwise.
    pub open spec fn slab_far(&self, ray: Ray, flag: int, axis: int) -> (int, int) {
        let f = self.corner_at(1 - flag).coord(axis) - ray.o.coord(axis);
        let d = ray.d.coord(axis);
        if d > 0 {
            (f * ROBUST_NUM, d * ROBUST_DEN)
        } else if d < 0 {
            (-f * ROBUST_NUM, -d * ROBUST_DEN)
        } else if f >= 0 {
            (1, 0)
        } else {
            (-1, 0)
        }
    }

    /// The slab test: the near parameter of each axis is at most the far
    /// parameter of each other axis, and what the slabs share reaches into
    /// the open range from zero to the ray's `t_max`: every near parameter is
    /// below `t_max`, every far parameter is above zero, and `t_max` itself
    /// is above zero.
    pub open spec fn slab_hit(&self, ray: Ray, fx: int, fy: int, fz: int) -> bool {
        let lx = self.slab_near(ray, fx, 0);
        let ly = self.slab_near(ray, fy, 1);
        let lz = self.slab_near(ray, fz, 2);
        let hx = self.slab_far(ray, fx, 0);
        let hy = self.slab_far(ray, fy, 1);
        let hz = self.slab_far(ray, fz, 2);
        let limit = (ray.t_max as int, PARAM_SCALE as int);
        &&& ratio_le(lx, hy) && ratio_le(lx, hz)
        &&& ratio_le(ly, hx) && ratio_le(ly, hz)
        &&& ratio_le(lz, hx) && ratio_le(lz, hy)
        &&& !ratio_le(limit, lx) && !ratio_le(limit, ly) && !ratio_le(limit, lz)
        &&& hx.0 > 0 && hy.0 > 0 && hz.0 > 0
        &&& ray.t_max > 0
    }

    /// The flag that names the near face along `axis` for the direction `d`:
    /// 1 where the ray moves towards smaller coordinates, else 0.
    pub open spec fn near_flag(d: Vector3, axis: int) -> int {
        if d.coord(axis) < 0 { 1 } else { 0 }
    }

    /// A near parameter is small enough for the comparisons of the slab test.
    pub open spec fn near_sized(r: (i128, i128)) -> bool {
        &&& -0x1_0000_0000 <= r.0 <= 0x1_0000_0000
        &&& 0 <= r.1 <= 0x8000_0000_0000_0000
        &&& ratio_ok((r.0 as int, r.1 as int))
    }

    /// A far parameter is small enough for the comparisons of the slab test.
    pub open spec fn far_sized(r: (i128, i128)) -> bool {
        &&& -42962557861888 <= r.0 <= 42962557861888
        &&& 0 <= r.1 <= 92206050252437193752576
        &&& ratio_ok((r.0 as int, r.1 as int))
    }

    fn near_ratio(&self, ray: &Ray, flag: usize, axis: usize) -> (r: (i128, i128))
        requires
            axis < 3,
        ensures
            (r.0 as int, r.1 as int) == self.slab_near(*ray, flag as int, axis as int),
            Self::near_sized(r),
    {
        let n: i128 = self.index(flag).get(axis) as i128 - ray.o.get(axis) as i128;
        let d: i128 = ray.d.get(axis) as i128;
        if d > 0 {
            (n, d)
        } else if d < 0 {
            (-n, -d)
        } else if n <= 0 {
            (-1, 0)
        } else {
            (1, 0)
        }
    }

    fn far_ratio(&self, ray: &Ray, flag: usize, axis: usize) -> (r: (i128, i128))
        requires
            axis < 3,
            flag <= 1,
        ensures
            (r.0 as int, r.1 as int) == self.slab_far(*ray, flag as int, axis as int),
            Self::far_sized(r),
    {
        let f: i128 = self.index(1 - flag).get(axis) as i128 - ray.o.get(axis) as i128;
        let d: i128 = ray.d.get(axis) as i128;
        let widen = gamma(3);
        let num: i128 = (widen.1 + 2 * widen.0) as i128;
        let den: i128 = widen.1 as i128;
        assert(num == ROBUST_NUM && den == ROBUST_DEN);
        if d > 0 {
            (f * num, d * den)
        } else if d < 0 {
            (-f * num, -d * den)
        } else if f >= 0 {
            (1, 0)
        } else {
            (-1, 0)
        }
    }

    fn le_near_far(a: (i128, i128), b: (i128, i128)) -> (r: bool)
        requires
            Self::near_sized(a),
            Self::far_sized(b),
        ensures
            r == ratio_le((a.0 as int, a.1 as int), (b.0 as int, b.1 as int)),
    {
        proof {
            lemma_mul_bound(a.0 as int, b.1 as int, 0x1_0000_0000, 92206050252437193752576);
            lemma_mul_bound(b.0 as int, a.1 as int, 42962557861888, 0x8000_0000_0000_0000);
        }
        ratio_le_exec(a, b)
    }

    fn le_near_near(a: (i128, i128), b: (i128, i128)) -> (r: bool)
        requires
            Self::near_sized(a),
            Self::near_sized(b),
        ensures
            r == ratio_le((a.0 as int, a.1 as int), (b.0 as int, b.1 as int)),
    {
        proof {
            lemma_mul_bound(a.0 as int, b.1 as int, 0x1_0000_0000, 0x8000_0000_0000_0000);
            lemma_mul_bound(b.0 as int, a.1 as int, 0x1_0000_0000, 0x8000_0000_0000_0000);
        }
        ratio_le_exec(a, b)
    }

    fn le_far_far(a: (i128, i128), b: (i128, i128)) -> (r: bool)
        requires
            Self::far_sized(a),
            Self::far_sized(b),
        ensures
            r == ratio_le((a.0 as int, a.1 as int), (b.0 as int, b.1 as int)),
    {
        proof {
            lemma_mul_bound(
                a.0 as int,
                b.1 as int,
                42962557861888,
                92206050252437193752576,
            );
            lemma_mul_bound(
                b.0 as int,
                a.1 as int,
                42962557861888,
                92206050252437193752576,
            );
        }
        ratio_le_exec(a, b)
    }

    fn le_limit_near(t_max: i64, a: (i128, i128)) -> (r: bool)
        requires
            Self::near_sized(a),
        ensures
            r == ratio_le((t_max as int, PARAM_SCALE as int), (a.0 as int, a.1 as int)),
    {
        proof {
            lemma_mul_bound(t_max as int, a.1 as int, 0x8000_0000_0000_0000, 0x8000_0000_0000_0000);
            lemma_mul_bound(a.0 as int, PARAM_SCALE as int, 0x1_0000_0000, 65536);
        }
        ratio_le_exec((t_max as i128, PARAM_SCALE as i128), a)
    }

    /// The slab test of the box against the ray. `dir_is_neg` names, for each
    /// axis, the corner whose face the ray meets first: 0 for `p_min`, 1 for
    /// `p_max`.
    pub fn intersect_p_with_inv(&self, ray: &Ray, dir_is_neg: [usize; 3]) -> (hit: bool)
        requires
            dir_is_neg[0] <= 1,
            dir_is_neg[1] <= 1,
            dir_is_neg[2] <= 1,
        ensures
            hit == self.slab_hit(
                *ray,
                dir_is_neg[0] as int,
                dir_is_neg[1] as int,
                dir_is_neg[2] as int,
            ),
    {
        let lx = self.near_ratio(ray, dir_is_neg[0], 0);
        let hx = self.far_ratio(ray, dir_is_neg[0], 0);
        let ly = self.near_ratio(ray, dir_is_neg[1], 1);
        let hy = self.far_ratio(ray, dir_is_neg[1], 1);
        let ghost glx = (lx.0 as int, lx.1 as int);
        let ghost ghx = (hx.0 as int, hx.1 as int);
        let ghost gly = (ly.0 as int, ly.1 as int);
        let ghost ghy = (hy.0 as int, hy.1 as int);

        let mut t_min = lx;
        let mut t_max = hx;

        if !Self::le_near_far(t_min, hy) || !Self::le_near_far(ly, t_max) {
            return false;
        }
        if !Self::le_near_near(ly, t_min) {
            t_min = ly;
        }
        if !Self::le_far_far(t_max, hy) {
            t_max = hy;
        }
        let ghost min_xy = (t_min.0 as int, t_min.1 as int);
        let ghost max_xy = (t_max.0 as int, t_max.1 as int);
        proof {
            lemma_ratio_total(gly, glx);
            lemma_ratio_total(ghx, ghy);
            assert(ratio_le(glx, min_xy) && ratio_le(gly, min_xy));
            assert(ratio_le(max_xy, ghx) && ratio_le(max_xy, ghy));
        }

        let lz = self.near_ratio(ray, dir_is_neg[2], 2);
        let hz = self.far_ratio(ray, dir_is_neg[2], 2);
        let ghost glz = (lz.0 as int, lz.1 as int);
        let ghost ghz = (hz.0 as int, hz.1 as int);

        let b1 = Self::le_near_far(t_min, hz);
        let b2 = Self::le_near_far(lz, t_max);
        proof {
            if b1 {
                lemma_ratio_trans(glx, min_xy, ghz);
                lemma_ratio_trans(gly, min_xy, ghz);
            }
            if b2 {
                lemma_ratio_trans(glz, max_xy, ghx);
                lemma_ratio_trans(glz, max_xy, ghy);
            }
        }
        if !b1 || !b2 {
            return false;
        }
        if !Self::le_near_near(lz, t_min) {
            t_min = lz;
        }
        if !Self::le_far_far(t_max, hz) {
            t_max = hz;
        }
        let ghost lo = (t_min.0 as int, t_min.1 as int);
        let ghost hi = (t_max.0 as int, t_max.1 as int);
        let ghost limit = (ray.t_max as int, PARAM_SCALE as int);
        proof {
            lemma_ratio_total(glz, min_xy);
            lemma_ratio_total(max_xy, ghz);
            assert(ratio_le(glz, lo) && ratio_le(min_xy, lo));
            assert(ratio_le(hi, ghz) && ratio_le(hi, max_xy));
            lemma_ratio_trans(glx, min_xy, lo);
            lemma_ratio_trans(gly, min_xy, lo);
            lemma_ratio_trans(hi, max_xy, ghx);
            lemma_ratio_trans(hi, max_xy, ghy);
        }
        let below = !Self::le_limit_near(ray.t_max, t_min);
        let above = t_max.0 > 0;
        proof {
            assert(ratio_ok(limit));
            if !below {
                // the limit is at most the largest near parameter, which is one of the three
                assert(ratio_le(limit, glx) || ratio_le(limit, gly) || ratio_le(limit, glz));
            } else {
                if ratio_le(limit, glx) {
                    lemma_ratio_trans(limit, glx, lo);
                }
                if ratio_le(limit, gly) {
                    lemma_ratio_trans(limit, gly, lo);
                }
                if ratio_le(limit, glz) {
                    lemma_ratio_trans(limit, glz, lo);
                }
            }
            if above {
                Self::lemma_positive_above(hi, ghx);
                Self::lemma_positive_above(hi, ghy);
                Self::lemma_positive_above(hi, ghz);
            } else {
                assert(hi == ghx || hi == ghy || hi == ghz);
            }
        }
        below && above && ray.t_max > 0
    }

    /// A fraction above a positive one is positive.
    pub proof fn lemma_positive_above(a: (int, int), b: (int, int))
        requires
            ratio_ok(a),
            ratio_ok(b),
            ratio_le(a, b),
            a.0 > 0,
        ensures
            b.0 > 0,
    {
        let (an, ad) = a;
        let (bn, bd) = b;
        if ad == 0 && bd == 0 {
        } else {
            assert(bn > 0) by (nonlinear_arith)
                requires
                    an * bd <= bn * ad,
                    an > 0,
                    ad >= 0,
                    bd >= 0,
                    bd == 0 ==> bn != 0,
                    !(ad == 0 && bd == 0),
            ;
        }
    }
}

/// A box that holds a point of the ray also holds it in every box around it.
pub proof fn lemma_holds_at_grows(inner: Bounds3f, outer: Bounds3f, o: Point3, d: Vector3, t: int)
    requires
        outer.contains_box(inner),
        inner.holds_at(o, d, t),
    ensures
        outer.holds_at(o, d, t),
{
    assert(outer.holds_at(o, d, t)) by (nonlinear_arith)
        requires
            outer.contains_box(inner),
            inner.holds_at(o, d, t),
    ;
}

/// Along one axis, a parameter at which the ray is between the faces of the
/// box lies between the near and the far parameter of that axis.
pub proof fn lemma_slab_axis(b: Bounds3f, ray: Ray, t: int, axis: int)
    requires
        0 <= axis < 3,
        b.axis_holds(axis, ray.o, ray.d, t),
        t > 0,
    ensures
        ratio_ok(b.slab_near(ray, Bounds3f::near_flag(ray.d, axis), axis)),
        ratio_ok(b.slab_far(ray, Bounds3f::near_flag(ray.d, axis), axis)),
        ratio_le(
            b.slab_near(ray, Bounds3f::near_flag(ray.d, axis), axis),
            (t, PARAM_SCALE as int),
        ),
        ratio_le(
            (t, PARAM_SCALE as int),
            b.slab_far(ray, Bounds3f::near_flag(ray.d, axis), axis),
        ),
{
    let d = ray.d.coord(axis);
    let o = ray.o.coord(axis);
    let lo = b.p_min.coord(axis);
    let hi = b.p_max.coord(axis);
    let td = t * d;
    assert(lo * 65536 <= o * 65536 + td <= hi * 65536);
    if d > 0 {
        let n = lo - o;
        let f = hi - o;
        assert(b.slab_near(ray, 0, axis) == (n, d));
        assert(b.slab_far(ray, 0, axis) == (f * 10003, d * 9997));
        assert(n * 65536 <= t * d && t * (d * 9997) <= (f * 10003) * 65536 && d * 9997 > 0)
            by (nonlinear_arith)
            requires
                lo * 65536 <= o * 65536 + td <= hi * 65536,
                td == t * d,
                n == lo - o,
                f == hi - o,
                t > 0,
                d > 0,
        ;
    } else if d < 0 {
        let n = hi - o;
        let f = lo - o;
        assert(b.slab_near(ray, 1, axis) == (-n, -d));
        assert(b.slab_far(ray, 1, axis) == (-f * 10003, -d * 9997));
        assert((-n) * 65536 <= t * (-d) && t * (-d * 9997) <= (-f * 10003) * 65536 && -d * 9997
            > 0) by (nonlinear_arith)
            requires
                lo * 65536 <= o * 65536 + td <= hi * 65536,
                td == t * d,
                n == hi - o,
                f == lo - o,
                t > 0,
                d < 0,
        ;
    } else {
        assert(td == 0) by (nonlinear_arith)
            requires
                td == t * d,
                d == 0,
        ;
        assert(b.slab_near(ray, 0, axis) == (-1int, 0int));
        assert(b.slab_far(ray, 0, axis) == (1int, 0int));
    }
}

/// The slab test never misses: where the ray is inside the box at a parameter
/// that the ray admits, the test with the flags of the ray's direction holds.
pub proof fn lemma_slab_sound(b: Bounds3f, ray: Ray, t: int)
    requires
        b.holds_at(ray.o, ray.d, t),
        ray.admits(t),
    ensures
        b.slab_hit(
            ray,
            Bounds3f::near_flag(ray.d, 0),
            Bounds3f::near_flag(ray.d, 1),
            Bounds3f::near_flag(ray.d, 2),
        ),
{
    let fx = Bounds3f::near_flag(ray.d, 0);
    let fy = Bounds3f::near_flag(ray.d, 1);
    let fz = Bounds3f::near_flag(ray.d, 2);
    let lx = b.slab_near(ray, fx, 0);
    let ly = b.slab_near(ray, fy, 1);
    let lz = b.slab_near(ray, fz, 2);
    let hx = b.slab_far(ray, fx, 0);
    let hy = b.slab_far(ray, fy, 1);
    let hz = b.slab_far(ray, fz, 2);
    let at = (t, PARAM_SCALE as int);
    let limit = (ray.t_max as int, PARAM_SCALE as int);
    lemma_slab_axis(b, ray, t, 0);
    lemma_slab_axis(b, ray, t, 1);
    lemma_slab_axis(b, ray, t, 2);
    lemma_ratio_trans(lx, at, hy);
    lemma_ratio_trans(lx, at, hz);
    lemma_ratio_trans(ly, at, hx);
    lemma_ratio_trans(ly, at, hz);
    lemma_ratio_trans(lz, at, hx);
    lemma_ratio_trans(lz, at, hy);
    Bounds3f::lemma_positive_above(at, hx);
    Bounds3f::lemma_positive_above(at, hy);
    Bounds3f::lemma_positive_above(at, hz);
    assert(!ratio_le(limit, at)) by (nonlinear_arith)
        requires
            at == (t, 65536int),
            limit == (ray.t_max as int, 65536int),
            t < ray.t_max,
    ;
    if ratio_le(limit, lx) {
        lemma_ratio_trans(limit, lx, at);
    }
    if ratio_le(limit, ly) {
        lemma_ratio_trans(limit, ly, at);
    }
    if ratio_le(limit, lz) {
        lemma_ratio_trans(limit, lz, at);
    }
}

/// The larger of two extended fractions; the first where they are equal.
pub open spec fn ratio_max(a: (int, int), b: (int, int)) -> (int, int) {
    if ratio_le(b, a) {
        a
    } else {
        b
    }
}

/// The smaller of two extended fractions; the first where they are equal.
pub open spec fn ratio_min(a: (int, int), b: (int, int)) -> (int, int) {
    if ratio_le(a, b) {
        a
    } else {
        b
    }
}

/// `ceil(PARAM_SCALE * num / den)`: the least fixed-point parameter that is
/// not below the fraction.
pub open spec fn param_ceil(r: (int, int)) -> int {
    -((-(r.0 * PARAM_SCALE)) / r.1)
}

/// `floor(PARAM_SCALE * num / den)`: the greatest fixed-point parameter that
/// is not above the fraction.
pub open spec fn param_floor(r: (int, int)) -> int {
    (r.0 * PARAM_SCALE) / r.1
}

impl Bounds3f {
    /// The parameter at which the ray meets the far face along `axis`, as an
    /// extended fraction, without any widening.
    pub open spec fn slab_exit(&self, ray: Ray, axis: int) -> (int, int) {
        let f = self.corner_at(1 - Self::near_flag(ray.d, axis)).coord(axis) - ray.o.coord(axis);
        let d = ray.d.coord(axis);
        if d > 0 {
            (f, d)
        } else if d < 0 {
            (-f, -d)
        } else if f >= 0 {
            (1, 0)
        } else {
            (-1, 0)
        }
    }

    /// The parameter at which the ray meets the near face along `axis`.
    pub open spec fn slab_entry(&self, ray: Ray, axis: int) -> (int, int) {
        self.slab_near(ray, Self::near_flag(ray.d, axis), axis)
    }

    /// Where the ray enters the box: the largest of zero and the near
    /// parameters of the three axes.
    pub open spec fn entry(&self, ray: Ray) -> (int, int) {
        ratio_max(
            ratio_max(ratio_max((0, 1), self.slab_entry(ray, 0)), self.slab_entry(ray, 1)),
            self.slab_entry(ray, 2),
        )
    }

    /// Where the ray leaves the box: the smallest of the ray's `t_max` and
    /// the far parameters of the three axes.
    pub open spec fn exit(&self, ray: Ray) -> (int, int) {
        ratio_min(
            ratio_min(
                ratio_min((ray.t_max as int, PARAM_SCALE as int), self.slab_exit(ray, 0)),
                self.slab_exit(ray, 1),
            ),
            self.slab_exit(ray, 2),
        )
    }

    /// The ray is inside the box for some parameter from zero to `t_max`.
    pub open spec fn meets(&self, ray: Ray) -> bool {
        ratio_le(self.entry(ray), self.exit(ray))
    }

    /// A fraction that is small enough for the comparisons of `intersect_p`.
    pub open spec fn plain_sized(r: (i128, i128)) -> bool {
        &&& -0x8000_0000_0000_0000 <= r.0 <= 0x8000_0000_0000_0000
        &&& 0 <= r.1 <= 0x8000_0000_0000_0000
        &&& ratio_ok((r.0 as int, r.1 as int))
    }

    fn exit_ratio(&self, ray: &Ray, axis: usize) -> (r: (i128, i128))
        requires
            axis < 3,
        ensures
            (r.0 as int, r.1 as int) == self.slab_exit(*ray, axis as int),
            Self::plain_sized(r),
    {
        let d: i128 = ray.d.get(axis) as i128;
        let flag: usize = if d < 0 { 1 } else { 0 };
        let f: i128 = self.index(1 - flag).get(axis) as i128 - ray.o.get(axis) as i128;
        if d > 0 {
            (f, d)
        } else if d < 0 {
            (-f, -d)
        } else if f >= 0 {
            (1, 0)
        } else {
            (-1, 0)
        }
    }

    fn entry_ratio(&self, ray: &Ray, axis: usize) -> (r: (i128, i128))
        requires
            axis < 3,
        ensures
            (r.0 as int, r.1 as int) == self.slab_entry(*ray, axis as int),
            Self::plain_sized(r),
    {
        let flag: usize = if ray.d.get(axis) < 0 { 1 } else { 0 };
        self.near_ratio(ray, flag, axis)
    }

    fn le_plain(a: (i128, i128), b: (i128, i128)) -> (r: bool)
        requires
            Self::plain_sized(a),
            Self::plain_sized(b),
        ensures
            r == ratio_le((a.0 as int, a.1 as int), (b.0 as int, b.1 as int)),
    {
        proof {
            lemma_mul_bound(a.0 as int, b.1 as int, 0x8000_0000_0000_0000, 0x8000_0000_0000_0000);
            lemma_mul_bound(b.0 as int, a.1 as int, 0x8000_0000_0000_0000, 0x8000_0000_0000_0000);
        }
        ratio_le_exec(a, b)
    }

    /// Narrows the interval `t0..t1` by the slab of one axis; `None` where
    /// nothing is left of it.
    fn narrow(&self, ray: &Ray, axis: usize, t0: (i128, i128), t1: (i128, i128)) -> (r: Option<
        ((i128, i128), (i128, i128)),
    >)
        requires
            axis < 3,
            Self::plain_sized(t0),
            Self::plain_sized(t1),
        ensures
            r is Some == ratio_le(
                ratio_max((t0.0 as int, t0.1 as int), self.slab_entry(*ray, axis as int)),
                ratio_min((t1.0 as int, t1.1 as int), self.slab_exit(*ray, axis as int)),
            ),
            r matches Some(v) ==> {
                &&& Self::plain_sized(v.0)
                &&& Self::plain_sized(v.1)
                &&& (v.0.0 as int, v.0.1 as int) == ratio_max(
                    (t0.0 as int, t0.1 as int),
                    self.slab_entry(*ray, axis as int),
                )
                &&& (v.1.0 as int, v.1.1 as int) == ratio_min(
                    (t1.0 as int, t1.1 as int),
                    self.slab_exit(*ray, axis as int),
                )
            },
    {
        let t_near = self.entry_ratio(ray, axis);
        let t_far = self.exit_ratio(ray, axis);
        let n0 = if !Self::le_plain(t_near, t0) { t_near } else { t0 };
        let n1 = if !Self::le_plain(t1, t_far) { t_far } else { t1 };
        if !Self::le_plain(n0, n1) {
            return None;
        }
        Some((n0, n1))
    }

    /// Tests the ray against the box without any widening. On a hit `hit_t0`
    /// and `hit_t1` become the least and the greatest fixed-point parameter
    /// between where the ray enters the box and where it leaves it; on a miss
    /// they stay as they were.
    pub fn intersect_p(&self, ray: &Ray, hit_t0: &mut i64, hit_t1: &mut i64) -> (hit: bool)
        ensures
            hit == self.meets(*ray),
            hit ==> *final(hit_t0) == param_ceil(self.entry(*ray)) && *final(hit_t1) == param_floor(
                self.exit(*ray),
            ),
            !hit ==> *final(hit_t0) == *old(hit_t0) && *final(hit_t1) == *old(hit_t1),
    {
        let mut t0: (i128, i128) = (0, 1);
        let mut t1: (i128, i128) = (ray.t_max as i128, 65536);
        let ghost zero = (0int, 1int);
        let ghost limit = (ray.t_max as int, PARAM_SCALE as int);
        let ghost e0 = self.slab_entry(*ray, 0);
        let ghost e1 = self.slab_entry(*ray, 1);
        let ghost e2 = self.slab_entry(*ray, 2);
        let ghost x0 = self.slab_exit(*ray, 0);
        let ghost x1 = self.slab_exit(*ray, 1);
        let ghost x2 = self.slab_exit(*ray, 2);
        let ghost a1 = ratio_max(zero, e0);
        let ghost a2 = ratio_max(a1, e1);
        let ghost a3 = ratio_max(a2, e2);
        let ghost b1 = ratio_min(limit, x0);
        let ghost b2 = ratio_min(b1, x1);
        let ghost b3 = ratio_min(b2, x2);
        proof {
            // the interval only shrinks from axis to axis
            lemma_ratio_total(a1, e1);
            lemma_ratio_total(a2, e2);
            lemma_ratio_total(b1, x1);
            lemma_ratio_total(b2, x2);
            lemma_ratio_total(zero, e0);
            lemma_ratio_total(limit, x0);
            assert(ratio_ok(a1) && ratio_ok(a2) && ratio_ok(a3) && ratio_ok(b1) && ratio_ok(b2)
                && ratio_ok(b3));
            assert(ratio_le(a1, a2) && ratio_le(a2, a3) && ratio_le(b2, b1) && ratio_le(b3, b2));
            if ratio_le(a3, b3) {
                lemma_ratio_trans(a2, a3, b3);
                lemma_ratio_trans(a2, b3, b2);
                lemma_ratio_trans(a1, a2, b2);
                lemma_ratio_trans(a1, b2, b1);
            }
        }
        let mut axis: usize = 0;
        while axis < 3
            invariant
                0 <= axis <= 3,
                Self::plain_sized(t0),
                Self::plain_sized(t1),
                (t0.0 as int, t0.1 as int) == (if axis == 0 {
                    zero
                } else if axis == 1 {
                    a1
                } else if axis == 2 {
                    a2
                } else {
                    a3
                }),
                (t1.0 as int, t1.1 as int) == (if axis == 0 {
                    limit
                } else if axis == 1 {
                    b1
                } else if axis == 2 {
                    b2
                } else {
                    b3
                }),
                zero == (0int, 1int),
                limit == (ray.t_max as int, PARAM_SCALE as int),
                e0 == self.slab_entry(*ray, 0),
                e1 == self.slab_entry(*ray, 1),
                e2 == self.slab_entry(*ray, 2),
                x0 == self.slab_exit(*ray, 0),
                x1 == self.slab_exit(*ray, 1),
                x2 == self.slab_exit(*ray, 2),
                a1 == ratio_max(zero, e0),
                a2 == ratio_max(a1, e1),
                a3 == ratio_max(a2, e2),
                b1 == ratio_min(limit, x0),
                b2 == ratio_min(b1, x1),
                b3 == ratio_min(b2, x2),
                ratio_le(a3, b3) ==> ratio_le(a2, b2) && ratio_le(a1, b1),
                axis == 3 ==> ratio_le(a3, b3),
                *hit_t0 == *old(hit_t0),
                *hit_t1 == *old(hit_t1),
            decreases 3 - axis,
        {
            match self.narrow(ray, axis, t0, t1) {
                Some(v) => {
                    t0 = v.0;
                    t1 = v.1;
                },
                None => {
                    return false;
                },
            }
            axis += 1;
        }
        assert(self.entry(*ray) == a3 && self.exit(*ray) == b3);
        if t0.1 == 0 || t1.1 == 0 {
            proof {
                Self::lemma_meeting_is_finite(zero, limit, a1, a2, a3, b1, b2, b3);
            }
            return false;
        }
        proof {
            Self::lemma_meeting_is_finite(zero, limit, a1, a2, a3, b1, b2, b3);
            lemma_mul_bound(t0.0 as int, 65536, 0x8000_0000_0000_0000, 65536);
            lemma_mul_bound(t1.0 as int, 65536, 0x8000_0000_0000_0000, 65536);
        }
        let up = div_floor(-(t0.0 * 65536), t0.1);
        let down = div_floor(t1.0 * 65536, t1.1);
        proof {
            Self::lemma_params_fit(a3, b3, ray.t_max as int, up as int, down as int);
        }
        *hit_t0 = (-up) as i64;
        *hit_t1 = down as i64;

        true
    }

    /// Where a ray meets a box, both ends of the meeting are finite, the
    /// entry is not before the origin and the exit not beyond the limit.
    pub proof fn lemma_meeting_is_finite(
        zero: (int, int),
        limit: (int, int),
        a1: (int, int),
        a2: (int, int),
        a3: (int, int),
        b1: (int, int),
        b2: (int, int),
        b3: (int, int),
    )
        requires
            zero == (0int, 1int),
            limit.1 == PARAM_SCALE,
            ratio_ok(a1),
            ratio_ok(a2),
            ratio_ok(a3),
            ratio_ok(b1),
            ratio_ok(b2),
            ratio_ok(b3),
            ratio_le(zero, a1),
            ratio_le(a1, a2),
            ratio_le(a2, a3),
            ratio_le(b1, limit),
            ratio_le(b2, b1),
            ratio_le(b3, b2),
            ratio_le(a3, b3),
        ensures
            a3.1 > 0,
            b3.1 > 0,
            ratio_le(zero, a3),
            ratio_le(b3, limit),
    {
        lemma_ratio_trans(zero, a1, a2);
        lemma_ratio_trans(zero, a2, a3);
        lemma_ratio_trans(b2, b1, limit);
        lemma_ratio_trans(b3, b2, limit);
        lemma_ratio_trans(zero, a3, b3);
        lemma_ratio_trans(a3, b3, limit);
        assert(a3.1 > 0 && b3.1 > 0) by (nonlinear_arith)
            requires
                ratio_ok(a3),
                ratio_ok(b3),
                ratio_le(zero, a3),
                ratio_le(b3, limit),
                ratio_le(zero, b3),
                ratio_le(a3, limit),
                zero == (0int, 1int),
                limit.1 == 65536,
        ;
    }

    /// The two fixed-point parameters of a meeting fit the machine.
    pub proof fn lemma_params_fit(a: (int, int), b: (int, int), t_max: int, up: int, down: int)
        requires
            a.1 > 0,
            b.1 > 0,
            ratio_le((0int, 1int), a),
            ratio_le(b, (t_max, PARAM_SCALE as int)),
            ratio_le(a, b),
            t_max <= i64::MAX,
            up == (-(a.0 * 65536)) / a.1,
            down == (b.0 * 65536) / b.1,
        ensures
            0 <= -up <= i64::MAX,
            -1 <= down <= i64::MAX,
            -up == param_ceil(a),
            down == param_floor(b),
    {
        lemma_ratio_trans((0int, 1int), a, b);
        lemma_ratio_trans(a, b, (t_max, PARAM_SCALE as int));
        let an = a.0;
        let ad = a.1;
        let bn = b.0;
        let bd = b.1;
        assert(an >= 0 && bn >= 0 && an * 65536 <= t_max * ad && bn * 65536 <= t_max * bd)
            by (nonlinear_arith)
            requires
                ratio_le((0int, 1int), a),
                ratio_le((0int, 1int), b),
                ratio_le(a, (t_max, 65536int)),
                ratio_le(b, (t_max, 65536int)),
                a == (an, ad),
                b == (bn, bd),
                ad > 0,
                bd > 0,
        ;
        let x = an * 65536;
        let y = bn * 65536;
        assert(0 <= -((-x) / ad) <= t_max) by (nonlinear_arith)
            requires
                0 <= x <= t_max * ad,
                ad > 0,
        ;
        assert(0 <= y / bd <= t_max) by (nonlinear_arith)
            requires
                0 <= y <= t_max * bd,
                bd > 0,
        ;
    }
}

/// The parameters that `intersect_p` reports bound exactly the fixed-point
/// parameters at which the ray is inside the box: a parameter from zero to
/// the ray's `t_max` has its point in the box exactly when it lies between
/// the two.
pub proof fn lemma_meeting_params(b: Bounds3f, ray: Ray, t: int)
    requires
        b.meets(ray),
    ensures
        (param_ceil(b.entry(ray)) <= t <= param_floor(b.exit(ray))) == (0 <= t <= ray.t_max
            && b.holds_at(ray.o, ray.d, t)),
{
    let zero = (0int, 1int);
    let limit = (ray.t_max as int, PARAM_SCALE as int);
    let at = (t, PARAM_SCALE as int);
    let e0 = b.slab_entry(ray, 0);
    let e1 = b.slab_entry(ray, 1);
    let e2 = b.slab_entry(ray, 2);
    let x0 = b.slab_exit(ray, 0);
    let x1 = b.slab_exit(ray, 1);
    let x2 = b.slab_exit(ray, 2);
    let a1 = ratio_max(zero, e0);
    let a2 = ratio_max(a1, e1);
    let a3 = ratio_max(a2, e2);
    let b1 = ratio_min(limit, x0);
    let b2 = ratio_min(b1, x1);
    let b3 = ratio_min(b2, x2);
    lemma_ratio_total(a1, e1);
    lemma_ratio_total(a2, e2);
    lemma_ratio_total(b1, x1);
    lemma_ratio_total(b2, x2);
    lemma_ratio_total(zero, e0);
    lemma_ratio_total(limit, x0);
    Bounds3f::lemma_meeting_is_finite(zero, limit, a1, a2, a3, b1, b2, b3);
    // the parameter lies between the two reported ones exactly when it lies
    // between the entry and the exit
    lemma_param_between(a3, b3, t);
    // and it lies between the entry and the exit exactly when it lies in
    // every slab, not before the origin and not beyond the limit
    if ratio_le(a3, at) {
        lemma_ratio_trans(a2, a3, at);
        lemma_ratio_trans(a1, a2, at);
        lemma_ratio_trans(zero, a1, at);
        lemma_ratio_trans(e0, a1, at);
        lemma_ratio_trans(e1, a2, at);
        lemma_ratio_trans(e2, a3, at);
    }
    if ratio_le(at, b3) {
        lemma_ratio_trans(at, b3, b2);
        lemma_ratio_trans(at, b2, b1);
        lemma_ratio_trans(at, b1, limit);
        lemma_ratio_trans(at, b1, x0);
        lemma_ratio_trans(at, b2, x1);
        lemma_ratio_trans(at, b3, x2);
    }
    lemma_axis_between(b, ray, t, 0);
    lemma_axis_between(b, ray, t, 1);
    lemma_axis_between(b, ray, t, 2);
    assert(ratio_le(zero, at) == (0 <= t));
    assert(ratio_le(at, limit) == (t <= ray.t_max)) by (nonlinear_arith)
        requires
            at == (t, 65536int),
            limit == (ray.t_max as int, 65536int),
    ;
}

/// A fixed-point parameter lies between the rounded ends of a range of
/// fractions exactly when it lies in the range.
pub proof fn lemma_param_between(a: (int, int), b: (int, int), t: int)
    requires
        a.1 > 0,
        b.1 > 0,
    ensures
        (param_ceil(a) <= t) == ratio_le(a, (t, PARAM_SCALE as int)),
        (t <= param_floor(b)) == ratio_le((t, PARAM_SCALE as int), b),
{
    let an = a.0 * 65536;
    let ad = a.1;
    let bn = b.0 * 65536;
    let bd = b.1;
    assert((-((-an) / ad) <= t) == (an <= t * ad)) by (nonlinear_arith)
        requires
            ad > 0,
    ;
    assert((t <= bn / bd) == (t * bd <= bn)) by (nonlinear_arith)
        requires
            bd > 0,
    ;
    assert(a.0 * 65536 == an && t * a.1 == t * ad);
    assert(ratio_le(a, (t, 65536int)) == (a.0 * 65536 <= t * a.1));
    assert(ratio_le((t, 65536int), b) == (t * b.1 <= b.0 * 65536));
}

/// Along one axis, the point at a parameter lies between the faces of the
/// box exactly when the parameter lies between the entry and the exit of
/// that axis.
pub proof fn lemma_axis_between(b: Bounds3f, ray: Ray, t: int, axis: int)
    requires
        0 <= axis < 3,
    ensures
        b.axis_holds(axis, ray.o, ray.d, t) == (ratio_le(
            b.slab_entry(ray, axis),
            (t, PARAM_SCALE as int),
        ) && ratio_le((t, PARAM_SCALE as int), b.slab_exit(ray, axis))),
{
    let d = ray.d.coord(axis);
    let o = ray.o.coord(axis);
    let lo = b.p_min.coord(axis);
    let hi = b.p_max.coord(axis);
    let td = t * d;
    if d > 0 {
        assert(b.slab_entry(ray, axis) == (lo - o, d));
        assert(b.slab_exit(ray, axis) == (hi - o, d));
        assert(((lo - o) * 65536 <= t * d) == (lo * 65536 <= o * 65536 + td)) by (nonlinear_arith)
            requires
                td == t * d,
        ;
        assert((t * d <= (hi - o) * 65536) == (o * 65536 + td <= hi * 65536)) by (nonlinear_arith)
            requires
                td == t * d,
        ;
    } else if d < 0 {
        assert(b.slab_entry(ray, axis) == (-(hi - o), -d));
        assert(b.slab_exit(ray, axis) == (-(lo - o), -d));
        assert(((-(hi - o)) * 65536 <= t * (-d)) == (o * 65536 + td <= hi * 65536))
            by (nonlinear_arith)
            requires
                td == t * d,
        ;
        assert((t * (-d) <= (-(lo - o)) * 65536) == (lo * 65536 <= o * 65536 + td))
            by (nonlinear_arith)
            requires
                td == t * d,
        ;
    } else {
        assert(td == 0) by (nonlinear_arith)
            requires
                td == t * d,
                d == 0,
        ;
    }
}

} // verus!
