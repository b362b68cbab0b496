use vstd::prelude::*;
use crate::geometry::vector::{Point2, Point3, Vector3};
use crate::interaction::interaction::Interaction;

verus! {

/// The shading frame of a surface point.
#[derive(Clone, Copy, PartialEq, Eq, Structural, Debug)]
pub struct ShadingInfo {
    pub n: Vector3,
    pub dpdu: Vector3,
    pub dpdv: Vector3,
    pub dndu: Vector3,
    pub dndv: Vector3,
}

impl ShadingInfo {
    /// A shading frame with nothing set.
    pub fn new() -> (r: Self)
        ensures
            r == (ShadingInfo {
                n: Interaction::zero(),
                dpdu: Interaction::zero(),
                dpdv: Interaction::zero(),
                dndu: Interaction::zero(),
                dndv: Interaction::zero(),
            }),
    {
        let zero = Vector3 { x: 0, y: 0, z: 0 };
        Self { n: zero, dpdu: zero, dpdv: zero, dndu: zero, dndv: zero }
    }

    /// A shading frame with all its parts given.
    pub fn init(n: &Vector3, dpdu: &Vector3, dpdv: &Vector3, dndu: &Vector3, dndv: &Vector3) -> (r:
        Self)
        ensures
            r == (ShadingInfo { n: *n, dpdu: *dpdu, dpdv: *dpdv, dndu: *dndu, dndv: *dndv }),
    {
        Self { n: *n, dpdu: *dpdu, dpdv: *dpdv, dndu: *dndu, dndv: *dndv }
    }
}

/// Where and how a ray met a surface.
#[derive(Clone, Copy, PartialEq, Eq, Structural, Debug)]
pub struct SurfaceInteraction {
    pub interaction: Interaction,
    pub uv: Point2,
    pub dpdu: Vector3,
    pub dpdv: Vector3,
    pub dndu: Vector3,
    pub dndv: Vector3,
    pub shading: ShadingInfo,
    /// The identity of the shape that was met.
    pub shape: Option<u64>,
    pub dpdx: Vector3,
    pub dpdy: Vector3,
    pub dudx: i64,
    pub dvdx: i64,
    pub dudy: i64,
    pub dvdy: i64,
}

impl SurfaceInteraction {
    /// The record of a surface point with the given geometry, before any
    /// shading frame other than the geometric one is set.
    pub open spec fn plain(
        interaction: Interaction,
        uv: Point2,
        dpdu: Vector3,
        dpdv: Vector3,
        dndu: Vector3,
        dndv: Vector3,
        shading_n: Vector3,
        shape: Option<u64>,
    ) -> SurfaceInteraction {
        SurfaceInteraction {
            interaction,
            uv,
            dpdu,
            dpdv,
            dndu,
            dndv,
            shading: ShadingInfo { n: shading_n, dpdu, dpdv, dndu, dndv },
            shape,
            dpdx: Interaction::zero(),
            dpdy: Interaction::zero(),
            dudx: 0,
            dvdx: 0,
            dudy: 0,
            dvdy: 0,
        }
    }

    /// A record with nothing set.
    pub fn new() -> (r: Self)
        ensures
            r == Self::plain(
                Interaction {
                    p: Point3 { x: 0, y: 0, z: 0 },
                    time: 0,
                    p_error: Interaction::zero(),
                    wo: Interaction::zero(),
                    n: Interaction::zero(),
                    medium_interface: None,
                },
                Point2 { x: 0, y: 0 },
                Interaction::zero(),
                Interaction::zero(),
                Interaction::zero(),
                Interaction::zero(),
                Interaction::zero(),
                None,
            ),
    {
        let zero = Vector3 { x: 0, y: 0, z: 0 };
        Self {
            interaction: Interaction::new(),
            uv: Point2 { x: 0, y: 0 },
            dpdu: zero,
            dpdv: zero,
            dndu: zero,
            dndv: zero,
            shading: ShadingInfo::new(),
            shape: None,
            dpdx: zero,
            dpdy: zero,
            dudx: 0,
            dvdx: 0,
            dudy: 0,
            dvdy: 0,
        }
    }
}

} // verus!
