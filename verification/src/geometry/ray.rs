use vstd::prelude::*;
use crate::common::{INFINITY, PARAM_SCALE};
use crate::geometry::vector::{Point3, Vector3};

verus! {

/// A ray: the points `o + t * d` for the parameters `t` between 0 and `t_max`.
///
/// `t_max` is a fixed-point number in units of `1 / PARAM_SCALE`. A successful
/// intersection lowers it to the parameter of the hit, so that later
/// candidates count only where they are closer.
#[derive(Clone, Copy, PartialEq, Eq, Structural, Debug)]
pub struct Ray {
    pub o: Point3,
    pub d: Vector3,
    pub t_max: i64,
    pub time: i64,
    /// The identity of the medium that the ray starts in.
    pub medium: Option<u64>,
}

/// `a / b` rounded towards minus infinity, for a positive `b`.
pub open spec fn floor_div(a: int, b: int) -> int {
    a / b
}

/// The quotient of `a` by the positive `b`, rounded down.
pub fn div_floor(a: i128, b: i128) -> (q: i128)
    requires
        b > 0,
    ensures
        q == floor_div(a as int, b as int),
        q * b <= a < (q + 1) * b,
{
    if a >= 0 {
        let q = a / b;
        proof {
            assert(q * b <= a < (q + 1) * b) by (nonlinear_arith)
                requires
                    q == a / b,
                    b > 0,
                    a >= 0,
            ;
        }
        q
    } else {
        // a = -(m + 1) with m >= 0, and the quotient is -(m / b) - 1
        let m: i128 = -(a + 1);
        let q0: i128 = m / b;
        let r0: i128 = m % b;
        let q: i128 = -q0 - 1;
        proof {
            assert(m == q0 * b + r0 && 0 <= r0 < b && 0 <= q0 <= m) by (nonlinear_arith)
                requires
                    q0 == m / b,
                    r0 == m % b,
                    b > 0,
                    m >= 0,
            ;
            assert(q * b <= a < (q + 1) * b) by (nonlinear_arith)
                requires
                    m == q0 * b + r0,
                    0 <= r0 < b,
                    q == -q0 - 1,
                    a == -(m + 1),
            ;
            lemma_floor_unique(a as int, b as int, q as int);
        }
        q
    }
}

/// The only `q` with `q * b <= a < (q + 1) * b` is the rounded-down quotient.
pub proof fn lemma_floor_unique(a: int, b: int, q: int)
    requires
        b > 0,
        q * b <= a < (q + 1) * b,
    ensures
        q == a / b,
{
    let k = a / b;
    let r = a % b;
    assert(a == k * b + r && 0 <= r < b) by (nonlinear_arith)
        requires
            k == a / b,
            r == a % b,
            b > 0,
    ;
    assert(q == k) by (nonlinear_arith)
        requires
            b > 0,
            q * b <= a < (q + 1) * b,
            a == k * b + r,
            0 <= r < b,
    ;
}

impl Ray {
    /// The parameter `t` of this ray is a candidate: it lies strictly between
    /// the origin and `t_max`.
    pub open spec fn admits(&self, t: int) -> bool {
        0 < t < self.t_max
    }

    /// The optional hit `h` is a hit within the limits of this ray.
    pub open spec fn admits_hit(&self, h: Option<i64>) -> bool {
        h matches Some(t) && self.admits(t as int)
    }

    /// The same line with no limit on the parameter.
    pub open spec fn line(&self) -> Ray {
        Ray { t_max: INFINITY, ..*self }
    }

    /// The coordinate along `axis` of the point at parameter `t`, rounded down
    /// to the lattice.
    pub open spec fn coord_at(&self, axis: int, t: int) -> int {
        self.o.coord(axis) + floor_div(self.d.coord(axis) * t, PARAM_SCALE as int)
    }

    /// A ray at the origin without a direction and without a limit.
    pub fn new() -> (r: Self)
        ensures
            r == (Ray {
                o: Point3 { x: 0, y: 0, z: 0 },
                d: Vector3 { x: 0, y: 0, z: 0 },
                t_max: INFINITY,
                time: 0,
                medium: None,
            }),
    {
        Self {
            t_max: INFINITY,
            time: 0,
            o: Point3 { x: 0, y: 0, z: 0 },
            d: Vector3 { x: 0, y: 0, z: 0 },
            medium: None,
        }
    }

    /// A ray from `o` along `d`; without a `t_max` it has no limit, and without
    /// a time its time is zero.
    pub fn init(
        o: &Point3,
        d: &Vector3,
        t_max: Option<i64>,
        time: Option<i64>,
        medium: Option<u64>,
    ) -> (r: Self)
        ensures
            r.o == *o,
            r.d == *d,
            r.t_max == (if let Some(t) = t_max { t } else { INFINITY }),
            r.time == (if let Some(t) = time { t } else { 0 }),
            r.medium == medium,
    {
        Self {
            o: *o,
            d: *d,
            t_max: match t_max {
                Some(t) => t,
                None => INFINITY,
            },
            time: match time {
                Some(t) => t,
                None => 0,
            },
            medium,
        }
    }

    /// The lattice point at parameter `t`, each coordinate rounded down; `None`
    /// where that point lies outside the lattice.
    pub fn at(&self, t: i64) -> (p: Option<Point3>)
        ensures
            p is Some <==> (forall|axis: int|
                0 <= axis < 3 ==> i32::MIN <= #[trigger] self.coord_at(axis, t as int) <= i32::MAX),
            p matches Some(q) ==> q.x == self.coord_at(0, t as int) && q.y == self.coord_at(
                1,
                t as int,
            ) && q.z == self.coord_at(2, t as int),
    {
        let x = Self::step(self.o.x, self.d.x, t);
        let y = Self::step(self.o.y, self.d.y, t);
        let z = Self::step(self.o.z, self.d.z, t);
        proof {
            assert(self.coord_at(0, t as int) == self.o.x + floor_div(self.d.x * t, PARAM_SCALE as int));
            assert(self.coord_at(1, t as int) == self.o.y + floor_div(self.d.y * t, PARAM_SCALE as int));
            assert(self.coord_at(2, t as int) == self.o.z + floor_div(self.d.z * t, PARAM_SCALE as int));
        }
        match (x, y, z) {
            (Some(x), Some(y), Some(z)) => Some(Point3 { x, y, z }),
            _ => None,
        }
    }

    /// The ray in words: its origin, its direction, its limit and its time.
    /// The text is put together by `format!` of the standard library, and
    /// nothing is claimed of it.
    #[verifier::external_body]
    pub fn to_string(&self) -> (s: String) {
        format!(
            "Origin: ({}, {}, {}), Direction: ({}, {}, {}), t_max: {}, time: {}",
            self.o.x, self.o.y, self.o.z, self.d.x, self.d.y, self.d.z, self.t_max, self.time
        )
    }

    /// One coordinate of `at`.
    fn step(o: i32, d: i64, t: i64) -> (c: Option<i32>)
        ensures
            c is Some <==> i32::MIN <= o + floor_div(d * t, PARAM_SCALE as int) <= i32::MAX,
            c matches Some(v) ==> v == o + floor_div(d * t, PARAM_SCALE as int),
    {
        proof {
            lemma_mul_i64_bound(d as int, t as int);
        }
        let prod: i128 = (d as i128) * (t as i128);
        let q = div_floor(prod, PARAM_SCALE as i128);
        proof {
            assert(-0x4000_0000_0000_0000_0000_0000_0000_0000 <= q <= 0x4000_0000_0000_0000_0000_0000_0000_0000)
                by (nonlinear_arith)
                requires
                    q * 65536 <= prod < (q + 1) * 65536,
                    -0x4000_0000_0000_0000_0000_0000_0000_0000 <= prod
                        <= 0x4000_0000_0000_0000_0000_0000_0000_0000,
            ;
        }
        let v: i128 = o as i128 + q;
        if v >= -0x8000_0000 && v <= 0x7fff_ffff {
            Some(v as i32)
        } else {
            None
        }
    }
}

/// The product of two `i64` values fits inside an `i128`.
pub proof fn lemma_mul_i64_bound(a: int, b: int)
    requires
        -0x8000_0000_0000_0000 <= a <= 0x8000_0000_0000_0000,
        -0x8000_0000_0000_0000 <= b <= 0x8000_0000_0000_0000,
    ensures
        -0x4000_0000_0000_0000_0000_0000_0000_0000 <= a * b
            <= 0x4000_0000_0000_0000_0000_0000_0000_0000,
{
    assert(-0x4000_0000_0000_0000_0000_0000_0000_0000 <= a * b
        <= 0x4000_0000_0000_0000_0000_0000_0000_0000) by (nonlinear_arith)
        requires
            -0x8000_0000_0000_0000 <= a <= 0x8000_0000_0000_0000,
            -0x8000_0000_0000_0000 <= b <= 0x8000_0000_0000_0000,
    ;
}

} // verus!
