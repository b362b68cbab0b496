use vstd::prelude::*;
use crate::geometry::vector::{Point3, Vector3};
use crate::medium::medium_interface::MediumInterface;

verus! {

/// A point at which a ray met something.
#[derive(Clone, Copy, PartialEq, Eq, Structural, Debug)]
pub struct Interaction {
    pub p: Point3,
    /// The ray parameter of the point.
    pub time: i64,
    pub p_error: Vector3,
    pub wo: Vector3,
    pub n: Vector3,
    pub medium_interface: Option<MediumInterface>,
}

impl Interaction {
    /// The vector without length.
    pub open spec fn zero() -> Vector3 {
        Vector3 { x: 0, y: 0, z: 0 }
    }

    /// An interaction at the origin with nothing set.
    pub fn new() -> (r: Self)
        ensures
            r == (Interaction {
                p: Point3 { x: 0, y: 0, z: 0 },
                time: 0,
                p_error: Self::zero(),
                wo: Self::zero(),
                n: Self::zero(),
                medium_interface: None,
            }),
    {
        Self {
            p: Point3 { x: 0, y: 0, z: 0 },
            time: 0,
            p_error: Vector3 { x: 0, y: 0, z: 0 },
            wo: Vector3 { x: 0, y: 0, z: 0 },
            n: Vector3 { x: 0, y: 0, z: 0 },
            medium_interface: None,
        }
    }

    /// An interaction with all its parts given.
    pub fn init(
        p: &Point3,
        wo: &Vector3,
        n: &Vector3,
        p_error: &Vector3,
        time: i64,
        mi: Option<MediumInterface>,
    ) -> (r: Self)
        ensures
            r == (Interaction {
                p: *p,
                time,
                p_error: *p_error,
                wo: *wo,
                n: *n,
                medium_interface: mi,
            }),
    {
        Self { p: *p, time, p_error: *p_error, wo: *wo, n: *n, medium_interface: mi }
    }

    /// An interaction without a normal and without an error bound.
    pub fn init_no_n(p: &Point3, wo: &Vector3, time: i64, mi: Option<MediumInterface>) -> (r: Self)
        ensures
            r == (Interaction {
                p: *p,
                time,
                p_error: Self::zero(),
                wo: *wo,
                n: Self::zero(),
                medium_interface: mi,
            }),
    {
        Self {
            p: *p,
            time,
            p_error: Vector3 { x: 0, y: 0, z: 0 },
            wo: *wo,
            n: Vector3 { x: 0, y: 0, z: 0 },
            medium_interface: mi,
        }
    }

    /// An interaction of which only the point, the time and the media are
    /// known.
    pub fn init_minimal(p: &Point3, time: i64, mi: Option<MediumInterface>) -> (r: Self)
        ensures
            r == (Interaction {
                p: *p,
                time,
                p_error: Self::zero(),
                wo: Self::zero(),
                n: Self::zero(),
                medium_interface: mi,
            }),
    {
        Self {
            p: *p,
            time,
            p_error: Vector3 { x: 0, y: 0, z: 0 },
            wo: Vector3 { x: 0, y: 0, z: 0 },
            n: Vector3 { x: 0, y: 0, z: 0 },
            medium_interface: mi,
        }
    }

    /// An interaction on a surface has a normal.
    pub fn is_surface_interaction(&self) -> (r: bool)
        ensures
            r == (self.n != Self::zero()),
    {
        self.n.x != 0 || self.n.y != 0 || self.n.z != 0
    }

    /// An interaction inside a medium has no normal.
    pub fn is_medium_interaction(&self) -> (r: bool)
        ensures
            r == (self.n == Self::zero()),
    {
        !self.is_surface_interaction()
    }

    /// The medium into which a ray along `w` leaves the point: the outer one
    /// where `w` points away from the surface, else the inner one.
    pub fn get_medium(&self, w: &Vector3) -> (r: Option<u64>)
        ensures
            r == (match self.medium_interface {
                Some(mi) => if w.dot(self.n) > 0 {
                    mi.outside
                } else {
                    mi.inside
                },
                None => None,
            }),
    {
        if let Some(mi) = self.medium_interface {
            return if w.dot_is_positive(&self.n) {
                mi.outside
            } else {
                mi.inside
            };
        }
        None
    }

    /// The medium on both sides, for an interaction inside one medium.
    pub fn get_medium_no_inter(&self) -> (r: Option<u64>)
        requires
            self.medium_interface matches Some(mi) ==> mi.same_both_sides(),
        ensures
            r == (match self.medium_interface {
                Some(mi) => mi.inside,
                None => None,
            }),
    {
        if let Some(mi) = self.medium_interface {
            return mi.inside;
        }
        None
    }
}

} // verus!
