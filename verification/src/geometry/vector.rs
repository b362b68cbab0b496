use vstd::prelude::*;

verus! {

/// A point of the lattice.
#[derive(Clone, Copy, PartialEq, Eq, Structural, Debug)]
pub struct Point3 {
    pub x: i32,
    pub y: i32,
    pub z: i32,
}

/// A pair of fixed-point surface coordinates.
#[derive(Clone, Copy, PartialEq, Eq, Structural, Debug)]
pub struct Point2 {
    pub x: i64,
    pub y: i64,
}

/// A displacement between lattice points, or a quantity measured per axis.
#[derive(Clone, Copy, PartialEq, Eq, Structural, Debug)]
pub struct Vector3 {
    pub x: i64,
    pub y: i64,
    pub z: i64,
}

impl Point3 {
    /// The point with the given coordinates.
    pub fn new(x: i32, y: i32, z: i32) -> (p: Point3)
        ensures
            p == (Point3 { x, y, z }),
    {
        Point3 { x, y, z }
    }

    /// The coordinate along `axis`: 0 is x, 1 is y, anything else is z.
    pub open spec fn coord(&self, axis: int) -> int {
        if axis == 0 {
            self.x as int
        } else if axis == 1 {
            self.y as int
        } else {
            self.z as int
        }
    }

    /// The coordinate along `axis`: 0 is x, 1 is y, anything else is z.
    pub fn get(&self, axis: usize) -> (c: i32)
        ensures
            c == self.coord(axis as int),
    {
        if axis == 0 {
            self.x
        } else if axis == 1 {
            self.y
        } else {
            self.z
        }
    }

    /// The displacement that leads from `other` to `self`.
    pub fn sub(&self, other: &Point3) -> (v: Vector3)
        ensures
            v.x == self.x - other.x,
            v.y == self.y - other.y,
            v.z == self.z - other.z,
    {
        Vector3 {
            x: self.x as i64 - other.x as i64,
            y: self.y as i64 - other.y as i64,
            z: self.z as i64 - other.z as i64,
        }
    }
}

impl Vector3 {
    /// The vector with the given components.
    pub fn new(x: i64, y: i64, z: i64) -> (v: Vector3)
        ensures
            v == (Vector3 { x, y, z }),
    {
        Vector3 { x, y, z }
    }

    /// The component along `axis`: 0 is x, 1 is y, anything else is z.
    pub open spec fn coord(&self, axis: int) -> int {
        if axis == 0 {
            self.x as int
        } else if axis == 1 {
            self.y as int
        } else {
            self.z as int
        }
    }

    /// The component along `axis`: 0 is x, 1 is y, anything else is z.
    pub fn get(&self, axis: usize) -> (c: i64)
        ensures
            c == self.coord(axis as int),
    {
        if axis == 0 {
            self.x
        } else if axis == 1 {
            self.y
        } else {
            self.z
        }
    }
}

/// The product of two `i64` values is `2^126` where both are the least
/// value, and at most `2^126 - 2^63` otherwise; it is never below
/// `-2^126 + 2^63`.
pub proof fn lemma_product_range(a: i64, b: i64)
    ensures
        -0x4000_0000_0000_0000_0000_0000_0000_0000 + 0x8000_0000_0000_0000 <= a * b,
        a * b <= 0x4000_0000_0000_0000_0000_0000_0000_0000,
        !(a == i64::MIN && b == i64::MIN) ==> a * b <= 0x4000_0000_0000_0000_0000_0000_0000_0000
            - 0x8000_0000_0000_0000,
{
    let x = a as int;
    let y = b as int;
    assert(-0x4000_0000_0000_0000_0000_0000_0000_0000 + 0x8000_0000_0000_0000 <= x * y
        <= 0x4000_0000_0000_0000_0000_0000_0000_0000) by (nonlinear_arith)
        requires
            -0x8000_0000_0000_0000 <= x <= 0x7fff_ffff_ffff_ffff,
            -0x8000_0000_0000_0000 <= y <= 0x7fff_ffff_ffff_ffff,
    ;
    if !(a == i64::MIN && b == i64::MIN) {
        assert(x * y <= 0x4000_0000_0000_0000_0000_0000_0000_0000 - 0x8000_0000_0000_0000)
            by (nonlinear_arith)
            requires
                -0x8000_0000_0000_0000 <= x <= 0x7fff_ffff_ffff_ffff,
                -0x8000_0000_0000_0000 <= y <= 0x7fff_ffff_ffff_ffff,
                x > -0x8000_0000_0000_0000 || y > -0x8000_0000_0000_0000,
        ;
    }
}

impl Vector3 {
    /// The inner product of two vectors.
    pub open spec fn dot(&self, other: Vector3) -> int {
        self.x * other.x + self.y * other.y + self.z * other.z
    }

    /// Whether the inner product of the two vectors is above zero.
    pub fn dot_is_positive(&self, other: &Vector3) -> (r: bool)
        ensures
            r == (self.dot(*other) > 0),
    {
        proof {
            lemma_product_range(self.x, other.x);
            lemma_product_range(self.y, other.y);
            lemma_product_range(self.z, other.z);
        }
        let px: i128 = (self.x as i128) * (other.x as i128);
        let py: i128 = (self.y as i128) * (other.y as i128);
        let pz: i128 = (self.z as i128) * (other.z as i128);
        let top: i128 = 0x4000_0000_0000_0000_0000_0000_0000_0000;
        if px == top && py == top {
            return true;
        }
        let s12: i128 = px + py;
        s12 > -pz
    }
}

} // verus!
