use vstd::prelude::*;
use crate::common::PARAM_SCALE;
use crate::geometry::ray::div_floor;
use crate::geometry::vector::{Point3, Vector3};
use crate::math::{lerp, lerp_of};

verus! {

/// The smaller of two numbers.
pub open spec fn min_int(a: int, b: int) -> int {
    if a <= b { a } else { b }
}

/// The larger of two numbers.
pub open spec fn max_int(a: int, b: int) -> int {
    if a >= b { a } else { b }
}

fn min_i32(a: i32, b: i32) -> (m: i32)
    ensures
        m == min_int(a as int, b as int),
{
    if a <= b { a } else { b }
}

fn max_i32(a: i32, b: i32) -> (m: i32)
    ensures
        m == max_int(a as int, b as int),
{
    if a >= b { a } else { b }
}

/// An axis-aligned box between two lattice corners.
///
/// A box is valid when `p_min` is at most `p_max` on every axis. The empty box
/// has the largest coordinate as its minimum and the smallest as its maximum,
/// so that its union with any box is that box.
#[derive(Clone, Copy, PartialEq, Eq, Structural, Debug)]
pub struct Bounds3f {
    pub p_min: Point3,
    pub p_max: Point3,
}

impl Bounds3f {
    /// The canonical empty box.
    pub open spec fn empty() -> Bounds3f {
        Bounds3f {
            p_min: Point3 { x: i32::MAX, y: i32::MAX, z: i32::MAX },
            p_max: Point3 { x: i32::MIN, y: i32::MIN, z: i32::MIN },
        }
    }

    /// The box holds at least one point.
    pub open spec fn is_valid(&self) -> bool {
        &&& self.p_min.x <= self.p_max.x
        &&& self.p_min.y <= self.p_max.y
        &&& self.p_min.z <= self.p_max.z
    }

    /// The point `p` lies in the box, faces included.
    pub open spec fn contains_point(&self, p: Point3) -> bool {
        &&& self.p_min.x <= p.x <= self.p_max.x
        &&& self.p_min.y <= p.y <= self.p_max.y
        &&& self.p_min.z <= p.z <= self.p_max.z
    }

    /// Every point of `other` lies in this box.
    pub open spec fn contains_box(&self, other: Bounds3f) -> bool {
        &&& self.p_min.x <= other.p_min.x && other.p_max.x <= self.p_max.x
        &&& self.p_min.y <= other.p_min.y && other.p_max.y <= self.p_max.y
        &&& self.p_min.z <= other.p_min.z && other.p_max.z <= self.p_max.z
    }

    /// The smallest box that holds both `a` and `b`.
    pub open spec fn union_of(a: Bounds3f, b: Bounds3f) -> Bounds3f {
        Bounds3f {
            p_min: Point3 {
                x: min_int(a.p_min.x as int, b.p_min.x as int) as i32,
                y: min_int(a.p_min.y as int, b.p_min.y as int) as i32,
                z: min_int(a.p_min.z as int, b.p_min.z as int) as i32,
            },
            p_max: Point3 {
                x: max_int(a.p_max.x as int, b.p_max.x as int) as i32,
                y: max_int(a.p_max.y as int, b.p_max.y as int) as i32,
                z: max_int(a.p_max.z as int, b.p_max.z as int) as i32,
            },
        }
    }

    /// The smallest box that holds `b` and the point `p`.
    pub open spec fn union_point_of(b: Bounds3f, p: Point3) -> Bounds3f {
        Self::union_of(b, Bounds3f { p_min: p, p_max: p })
    }

    /// The part that `a` and `b` share; not valid when they are apart.
    pub open spec fn intersection_of(a: Bounds3f, b: Bounds3f) -> Bounds3f {
        Bounds3f {
            p_min: Point3 {
                x: max_int(a.p_min.x as int, b.p_min.x as int) as i32,
                y: max_int(a.p_min.y as int, b.p_min.y as int) as i32,
                z: max_int(a.p_min.z as int, b.p_min.z as int) as i32,
            },
            p_max: Point3 {
                x: min_int(a.p_max.x as int, b.p_max.x as int) as i32,
                y: min_int(a.p_max.y as int, b.p_max.y as int) as i32,
                z: min_int(a.p_max.z as int, b.p_max.z as int) as i32,
            },
        }
    }

    /// On every axis each box starts no later than the other ends. For two
    /// valid boxes this says that they share a point.
    pub open spec fn touch(a: Bounds3f, b: Bounds3f) -> bool {
        &&& a.p_max.x >= b.p_min.x && a.p_min.x <= b.p_max.x
        &&& a.p_max.y >= b.p_min.y && a.p_min.y <= b.p_max.y
        &&& a.p_max.z >= b.p_min.z && a.p_min.z <= b.p_max.z
    }

    /// The corner `p_min` for index 0 and `p_max` for any other index.
    pub open spec fn corner_at(&self, index: int) -> Point3 {
        if index == 0 { self.p_min } else { self.p_max }
    }

    /// The extent along `axis`, negative for a box that is not valid.
    pub open spec fn extent(&self, axis: int) -> int {
        self.p_max.coord(axis) - self.p_min.coord(axis)
    }

    /// The area of the six faces.
    pub open spec fn area(&self) -> int {
        2 * (self.extent(0) * self.extent(1) + self.extent(0) * self.extent(2)
            + self.extent(2) * self.extent(1))
    }

    /// The axis of the longest extent: x where it is longer than both others,
    /// else y where it is longer than z, else z.
    pub open spec fn longest_axis(&self) -> int {
        if self.extent(0) > self.extent(1) && self.extent(0) > self.extent(2) {
            0
        } else if self.extent(1) > self.extent(2) {
            1
        } else {
            2
        }
    }

    /// The empty box.
    pub fn new() -> (b: Bounds3f)
        ensures
            b == Self::empty(),
    {
        Bounds3f {
            p_min: Point3 { x: i32::MAX, y: i32::MAX, z: i32::MAX },
            p_max: Point3 { x: i32::MIN, y: i32::MIN, z: i32::MIN },
        }
    }

    /// The box between two corners, whichever way round they are given.
    pub fn init(pa: &Point3, pb: &Point3) -> (b: Bounds3f)
        ensures
            b == Self::union_of(Self { p_min: *pa, p_max: *pa }, Self { p_min: *pb, p_max: *pb }),
            b.is_valid(),
    {
        Bounds3f {
            p_min: Point3 { x: min_i32(pa.x, pb.x), y: min_i32(pa.y, pb.y), z: min_i32(pa.z, pb.z) },
            p_max: Point3 { x: max_i32(pa.x, pb.x), y: max_i32(pa.y, pb.y), z: max_i32(pa.z, pb.z) },
        }
    }

    /// The box that holds the one point `p`.
    pub fn init_one(p: &Point3) -> (b: Bounds3f)
        ensures
            b == (Self { p_min: *p, p_max: *p }),
    {
        Bounds3f { p_min: *p, p_max: *p }
    }

    /// The corner with index 0 (`p_min`) or any other index (`p_max`).
    pub fn index(&self, index: usize) -> (p: Point3)
        ensures
            p == self.corner_at(index as int),
    {
        if index == 0 { self.p_min } else { self.p_max }
    }

    /// The corner with index 0 (`p_min`) or any other index (`p_max`), to be
    /// written to.
    pub fn index_mut(&mut self, index: usize) -> (p: &mut Point3)
        ensures
            *p == old(self).corner_at(index as int),
            *final(self) == (if index == 0 {
                Bounds3f { p_min: *final(p), p_max: old(self).p_max }
            } else {
                Bounds3f { p_min: old(self).p_min, p_max: *final(p) }
            }),
    {
        if index == 0 {
            return &mut self.p_min;
        }
        &mut self.p_max
    }

    /// The displacement from `p_min` to `p_max`.
    pub fn diagonal(&self) -> (d: Vector3)
        ensures
            d.x == self.extent(0),
            d.y == self.extent(1),
            d.z == self.extent(2),
    {
        self.p_max.sub(&self.p_min)
    }

    /// The area of the six faces.
    pub fn surface_area(&self) -> (a: i128)
        ensures
            a == self.area(),
    {
        let diag = self.diagonal();
        let dx: i128 = diag.x as i128;
        let dy: i128 = diag.y as i128;
        let dz: i128 = diag.z as i128;
        proof {
            lemma_product_bound(dx as int, dy as int);
            lemma_product_bound(dx as int, dz as int);
            lemma_product_bound(dz as int, dy as int);
        }
        2 * (dx * dy + dx * dz + dz * dy)
    }

    /// The product of the three extents.
    pub fn volume(&self) -> (v: i128)
        ensures
            v == self.extent(0) * self.extent(1) * self.extent(2),
    {
        let diag = self.diagonal();
        let dx: i128 = diag.x as i128;
        let dy: i128 = diag.y as i128;
        let dz: i128 = diag.z as i128;
        proof {
            lemma_product_bound(dx as int, dy as int);
            lemma_product_bound3(dx as int, dy as int, dz as int);
        }
        dx * dy * dz
    }

    /// The axis of the longest extent; of equal extents the later axis.
    pub fn max_extent(&self) -> (axis: usize)
        ensures
            axis == self.longest_axis(),
    {
        let diag = self.diagonal();
        if diag.x > diag.y && diag.x > diag.z {
            return 0;
        } else if diag.y > diag.z {
            return 1;
        }
        2
    }

    /// Whether the point lies in the box, faces included.
    pub fn inside(&self, c: &Point3) -> (r: bool)
        ensures
            r == self.contains_point(*c),
    {
        self.p_min.x <= c.x && c.x <= self.p_max.x && self.p_min.y <= c.y && c.y <= self.p_max.y
            && self.p_min.z <= c.z && c.z <= self.p_max.z
    }

    /// The smallest box that holds `b` and the point `p`.
    pub fn union_pt(b: &Self, p: &Point3) -> (r: Self)
        ensures
            r == Self::union_point_of(*b, *p),
    {
        Self {
            p_min: Point3 {
                x: min_i32(b.p_min.x, p.x),
                y: min_i32(b.p_min.y, p.y),
                z: min_i32(b.p_min.z, p.z),
            },
            p_max: Point3 {
                x: max_i32(b.p_max.x, p.x),
                y: max_i32(b.p_max.y, p.y),
                z: max_i32(b.p_max.z, p.z),
            },
        }
    }

    /// The smallest box that holds both boxes.
    pub fn union(b1: &Self, b2: &Self) -> (r: Self)
        ensures
            r == Self::union_of(*b1, *b2),
    {
        Self {
            p_min: Point3 {
                x: min_i32(b1.p_min.x, b2.p_min.x),
                y: min_i32(b1.p_min.y, b2.p_min.y),
                z: min_i32(b1.p_min.z, b2.p_min.z),
            },
            p_max: Point3 {
                x: max_i32(b1.p_max.x, b2.p_max.x),
                y: max_i32(b1.p_max.y, b2.p_max.y),
                z: max_i32(b1.p_max.z, b2.p_max.z),
            },
        }
    }

    /// The part that the two boxes share; not valid where they are apart.
    pub fn intersect(b1: &Self, b2: &Self) -> (r: Self)
        ensures
            r == Self::intersection_of(*b1, *b2),
    {
        Self {
            p_min: Point3 {
                x: max_i32(b1.p_min.x, b2.p_min.x),
                y: max_i32(b1.p_min.y, b2.p_min.y),
                z: max_i32(b1.p_min.z, b2.p_min.z),
            },
            p_max: Point3 {
                x: min_i32(b1.p_max.x, b2.p_max.x),
                y: min_i32(b1.p_max.y, b2.p_max.y),
                z: min_i32(b1.p_max.z, b2.p_max.z),
            },
        }
    }

    /// Whether the two boxes reach each other on every axis.
    pub fn overlaps(b1: &Self, b2: &Self) -> (r: bool)
        ensures
            r == Self::touch(*b1, *b2),
    {
        let x = (b1.p_max.x >= b2.p_min.x) && (b1.p_min.x <= b2.p_max.x);
        let y = (b1.p_max.y >= b2.p_min.y) && (b1.p_min.y <= b2.p_max.y);
        let z = (b1.p_max.z >= b2.p_min.z) && (b1.p_min.z <= b2.p_max.z);

        x && y && z
    }
}

/// The product of two axis extents fits well inside an `i128`.
pub proof fn lemma_product_bound(a: int, b: int)
    requires
        -0x1_0000_0000 < a < 0x1_0000_0000,
        -0x1_0000_0000 < b < 0x1_0000_0000,
    ensures
        -0x1_0000_0000_0000_0000 < a * b < 0x1_0000_0000_0000_0000,
{
    assert(-0x1_0000_0000_0000_0000 < a * b < 0x1_0000_0000_0000_0000) by (nonlinear_arith)
        requires
            -0x1_0000_0000 < a < 0x1_0000_0000,
            -0x1_0000_0000 < b < 0x1_0000_0000,
    ;
}

/// The product of three axis extents fits inside an `i128`.
pub proof fn lemma_product_bound3(a: int, b: int, c: int)
    requires
        -0x1_0000_0000 < a < 0x1_0000_0000,
        -0x1_0000_0000 < b < 0x1_0000_0000,
        -0x1_0000_0000 < c < 0x1_0000_0000,
    ensures
        -0x1_0000_0000_0000_0000_0000_0000 < a * b * c < 0x1_0000_0000_0000_0000_0000_0000,
{
    lemma_product_bound(a, b);
    let ab = a * b;
    assert(-0x1_0000_0000_0000_0000_0000_0000 < ab * c < 0x1_0000_0000_0000_0000_0000_0000)
        by (nonlinear_arith)
        requires
            -0x1_0000_0000_0000_0000 < ab < 0x1_0000_0000_0000_0000,
            -0x1_0000_0000 < c < 0x1_0000_0000,
    ;
}

/// Two valid boxes overlap exactly when their intersection is a valid box.
pub proof fn lemma_touch_is_shared_part(a: Bounds3f, b: Bounds3f)
    requires
        a.is_valid(),
        b.is_valid(),
    ensures
        Bounds3f::touch(a, b) == Bounds3f::intersection_of(a, b).is_valid(),
{
}

/// Joining a box with itself changes nothing.
pub proof fn lemma_union_idempotent(b: Bounds3f)
    ensures
        Bounds3f::union_of(b, b) == b,
{
}

/// The empty box is the neutral element of the union, on either side.
pub proof fn lemma_union_empty(b: Bounds3f)
    ensures
        Bounds3f::union_of(Bounds3f::empty(), b) == b,
        Bounds3f::union_of(b, Bounds3f::empty()) == b,
{
}

impl Bounds3f {
    /// The position of `p` along `axis` relative to the box, as a fixed-point
    /// number: 0 at `p_min` and `PARAM_SCALE` at `p_max`, rounded down. Where
    /// the box has no extent along the axis the position is the distance from
    /// `p_min`, which is 0 for a point in the box.
    pub open spec fn offset_of(&self, p: Point3, axis: int) -> int {
        let num = (p.coord(axis) - self.p_min.coord(axis)) * PARAM_SCALE;
        if self.extent(axis) > 0 {
            num / self.extent(axis)
        } else {
            num
        }
    }

    fn offset_axis(&self, p: &Point3, axis: usize) -> (o: i64)
        requires
            axis < 3,
        ensures
            o == self.offset_of(*p, axis as int),
    {
        let delta: i128 = p.get(axis) as i128 - self.p_min.get(axis) as i128;
        assert(PARAM_SCALE == 65536);
        let num: i128 = delta * 65536;
        let ext: i128 = self.p_max.get(axis) as i128 - self.p_min.get(axis) as i128;
        if ext > 0 {
            let q = div_floor(num, ext);
            proof {
                assert(-0x1_0000_0000_0000 <= q <= 0x1_0000_0000_0000) by (nonlinear_arith)
                    requires
                        q * ext <= num < (q + 1) * ext,
                        ext >= 1,
                        -0x1_0000_0000_0000 <= num <= 0x1_0000_0000_0000,
                ;
            }
            q as i64
        } else {
            num as i64
        }
    }

    /// The position of `p` relative to the box on each axis, in fixed point.
    pub fn offset(&self, p: &Point3) -> (o: Vector3)
        ensures
            o.x == self.offset_of(*p, 0),
            o.y == self.offset_of(*p, 1),
            o.z == self.offset_of(*p, 2),
    {
        Vector3 {
            x: self.offset_axis(p, 0),
            y: self.offset_axis(p, 1),
            z: self.offset_axis(p, 2),
        }
    }
}

/// A point of a box with a positive extent has a position between 0 and
/// `PARAM_SCALE`; the two faces have exactly these.
pub proof fn lemma_offset_range(b: Bounds3f, p: Point3, axis: int)
    requires
        0 <= axis < 3,
        b.extent(axis) > 0,
        b.p_min.coord(axis) <= p.coord(axis) <= b.p_max.coord(axis),
    ensures
        0 <= b.offset_of(p, axis) <= PARAM_SCALE,
        p.coord(axis) == b.p_min.coord(axis) ==> b.offset_of(p, axis) == 0,
        p.coord(axis) == b.p_max.coord(axis) ==> b.offset_of(p, axis) == PARAM_SCALE,
{
    let ext = b.extent(axis);
    let delta = p.coord(axis) - b.p_min.coord(axis);
    let num = delta * PARAM_SCALE;
    let q = num / ext;
    assert(0 <= delta <= ext);
    assert(0 <= q <= 65536 && (delta == 0 ==> q == 0) && (delta == ext ==> q == 65536))
        by (nonlinear_arith)
        requires
            q == (delta * 65536) / ext,
            0 <= delta <= ext,
            ext > 0,
    ;
}

/// A coordinate pushed back into the range of the lattice.
pub open spec fn clamp_coord(v: int) -> int {
    if v < i32::MIN {
        i32::MIN as int
    } else if v > i32::MAX {
        i32::MAX as int
    } else {
        v
    }
}

fn clamp_i32(v: i64) -> (r: i32)
    ensures
        r == clamp_coord(v as int),
{
    if v < -0x8000_0000 {
        i32::MIN
    } else if v > 0x7fff_ffff {
        i32::MAX
    } else {
        v as i32
    }
}

/// A value between two others, taken at a position from 0 to `PARAM_SCALE`,
/// lies between them.
pub proof fn lemma_lerp_between(t: int, v1: int, v2: int)
    requires
        0 <= t <= PARAM_SCALE,
    ensures
        min_int(v1, v2) <= lerp_of(t, v1, v2) <= max_int(v1, v2),
        t == 0 ==> lerp_of(t, v1, v2) == v1,
        t == PARAM_SCALE ==> lerp_of(t, v1, v2) == v2,
{
    let lo = min_int(v1, v2);
    let hi = max_int(v1, v2);
    let x = (65536 - t) * v1 + t * v2;
    assert(lo * 65536 <= x <= hi * 65536 && (t == 0 ==> x == v1 * 65536) && (t == 65536 ==> x == v2
        * 65536)) by (nonlinear_arith)
        requires
            0 <= t <= 65536,
            lo <= v1 <= hi,
            lo <= v2 <= hi,
            x == (65536 - t) * v1 + t * v2,
    ;
    assert(lo <= x / 65536 <= hi && (x == v1 * 65536 ==> x / 65536 == v1) && (x == v2 * 65536 ==> x
        / 65536 == v2)) by (nonlinear_arith)
        requires
            lo * 65536 <= x <= hi * 65536,
    ;
}

impl Bounds3f {
    /// The corner `corner` of the eight: bit 0 picks `p_max` for x, bit 1 for
    /// y and bit 2 for z.
    pub open spec fn corner_of(&self, corner: usize) -> Point3 {
        Point3 {
            x: self.corner_at((corner & 1usize) as int).x,
            y: self.corner_at(if corner & 2usize == 0usize { 0 } else { 1 }).y,
            z: self.corner_at(if corner & 4usize == 0usize { 0 } else { 1 }).z,
        }
    }

    /// One of the eight corners, picked by the three lowest bits of `corner`.
    pub fn corner(&self, corner: usize) -> (p: Point3)
        ensures
            p == self.corner_of(corner),
    {
        let x_idx = corner & 1usize;
        let y_idx: usize = if corner & 2usize == 0usize { 0 } else { 1 };
        let z_idx: usize = if corner & 4usize == 0usize { 0 } else { 1 };

        Point3 { x: self.index(x_idx).x, y: self.index(y_idx).y, z: self.index(z_idx).z }
    }

    /// The point at the position `t` of the box, where each component of `t`
    /// goes from 0 at `p_min` to `PARAM_SCALE` at `p_max`; each coordinate is
    /// rounded down.
    pub fn lerp(&self, t: Vector3) -> (p: Point3)
        requires
            0 <= t.x <= PARAM_SCALE,
            0 <= t.y <= PARAM_SCALE,
            0 <= t.z <= PARAM_SCALE,
        ensures
            p.x == lerp_of(t.x as int, self.p_min.x as int, self.p_max.x as int),
            p.y == lerp_of(t.y as int, self.p_min.y as int, self.p_max.y as int),
            p.z == lerp_of(t.z as int, self.p_min.z as int, self.p_max.z as int),
    {
        proof {
            lemma_lerp_between(t.x as int, self.p_min.x as int, self.p_max.x as int);
            lemma_lerp_between(t.y as int, self.p_min.y as int, self.p_max.y as int);
            lemma_lerp_between(t.z as int, self.p_min.z as int, self.p_max.z as int);
        }
        Point3 {
            x: lerp(t.x, self.p_min.x, self.p_max.x) as i32,
            y: lerp(t.y, self.p_min.y, self.p_max.y) as i32,
            z: lerp(t.z, self.p_min.z, self.p_max.z) as i32,
        }
    }

    /// The box `b` grown by `delta` on every side, as far as the lattice
    /// reaches.
    pub open spec fn expanded(b: Bounds3f, delta: int) -> Bounds3f {
        let lo = Point3 {
            x: clamp_coord(b.p_min.x - delta) as i32,
            y: clamp_coord(b.p_min.y - delta) as i32,
            z: clamp_coord(b.p_min.z - delta) as i32,
        };
        let hi = Point3 {
            x: clamp_coord(b.p_max.x + delta) as i32,
            y: clamp_coord(b.p_max.y + delta) as i32,
            z: clamp_coord(b.p_max.z + delta) as i32,
        };
        Self::union_of(Self { p_min: lo, p_max: lo }, Self { p_min: hi, p_max: hi })
    }

    /// The box grown by `delta` on every side.
    pub fn expand(b: &Self, delta: i32) -> (r: Self)
        ensures
            r == Self::expanded(*b, delta as int),
    {
        let lo = Point3 {
            x: clamp_i32(b.p_min.x as i64 - delta as i64),
            y: clamp_i32(b.p_min.y as i64 - delta as i64),
            z: clamp_i32(b.p_min.z as i64 - delta as i64),
        };
        let hi = Point3 {
            x: clamp_i32(b.p_max.x as i64 + delta as i64),
            y: clamp_i32(b.p_max.y as i64 + delta as i64),
            z: clamp_i32(b.p_max.z as i64 + delta as i64),
        };
        Self::init(&lo, &hi)
    }
}

/// `lerp` undoes `offset` up to rounding: the point at the position of `p`
/// is `p` itself or lies below it, by no more than one lattice unit and the
/// part of the extent that one step of the position covers.
pub proof fn lemma_lerp_undoes_offset(b: Bounds3f, p: Point3, axis: int)
    requires
        0 <= axis < 3,
        b.extent(axis) > 0,
        b.p_min.coord(axis) <= p.coord(axis) <= b.p_max.coord(axis),
    ensures
        0 <= b.offset_of(p, axis) <= PARAM_SCALE,
        lerp_of(b.offset_of(p, axis), b.p_min.coord(axis), b.p_max.coord(axis)) <= p.coord(axis),
        p.coord(axis) - 1 - b.extent(axis) / (PARAM_SCALE as int) <= lerp_of(
            b.offset_of(p, axis),
            b.p_min.coord(axis),
            b.p_max.coord(axis),
        ),
{
    lemma_offset_range(b, p, axis);
    let lo = b.p_min.coord(axis);
    let hi = b.p_max.coord(axis);
    let ext = hi - lo;
    let delta = p.coord(axis) - lo;
    let t = (delta * 65536) / ext;
    let x = (65536 - t) * lo + t * hi;
    let y = t * ext;
    assert(t * ext <= delta * 65536 < t * ext + ext) by (nonlinear_arith)
        requires
            t == (delta * 65536) / ext,
            ext > 0,
    ;
    assert(x == lo * 65536 + y) by (nonlinear_arith)
        requires
            x == (65536 - t) * lo + t * hi,
            y == t * ext,
            ext == hi - lo,
    ;
    let step = ext / 65536;
    assert(step * 65536 <= ext < (step + 1) * 65536) by (nonlinear_arith)
        requires
            step == ext / 65536,
            ext > 0,
    ;
    assert(x / 65536 <= lo + delta && lo + delta - 1 - step <= x / 65536) by (nonlinear_arith)
        requires
            x == lo * 65536 + y,
            y <= delta * 65536,
            delta * 65536 < y + ext,
            ext < (step + 1) * 65536,
    ;
}

} // verus!
