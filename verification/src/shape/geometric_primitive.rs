use vstd::prelude::*;
use std::sync::Arc;
use crate::geometry::bounding_box_3::Bounds3f;
use crate::geometry::ray::Ray;
use crate::geometry::vector::{Point3, Vector3};
use crate::interaction::interaction::Interaction;
use crate::interaction::surface_interaction::SurfaceInteraction;
use crate::medium::medium_interface::MediumInterface;
use crate::shape::primitive::Primitive;
use crate::shape::shape::Shape;

verus! {

/// One shape with what belongs to its surface: a material, a light and the
/// media on its two sides, each by its identity.
pub struct GeometricPrimitive<S: Shape> {
    shape: Arc<S>,
    material: Option<u64>,
    area_light: Option<u64>,
    medium_interface: Option<MediumInterface>,
}

/// The media that a record gets from a surface with the interface `mi`, hit
/// by a ray that travels in `ray_medium`: with no interface the record keeps
/// what it has; an interface between two media is taken as it is; a surface
/// inside one medium passes on the medium of the ray.
pub open spec fn medium_of_hit(
    mi: Option<MediumInterface>,
    ray_medium: Option<u64>,
    kept: Option<MediumInterface>,
) -> Option<MediumInterface> {
    match mi {
        None => kept,
        Some(m) => if !m.same_both_sides() {
            mi
        } else {
            match ray_medium {
                Some(id) => Some(MediumInterface { inside: Some(id), outside: Some(id) }),
                None => None,
            }
        },
    }
}

/// The record `rec` of a shape with the name of the shape and the media of
/// the surface put in.
pub open spec fn dressed(
    rec: SurfaceInteraction,
    shape: u64,
    mi: Option<MediumInterface>,
    ray_medium: Option<u64>,
) -> SurfaceInteraction {
    SurfaceInteraction {
        shape: Some(shape),
        interaction: Interaction {
            medium_interface: medium_of_hit(mi, ray_medium, rec.interaction.medium_interface),
            ..rec.interaction
        },
        ..rec
    }
}

impl<S: Shape> GeometricPrimitive<S> {
    /// The shape.
    pub closed spec fn shape_of(&self) -> Arc<S> {
        self.shape
    }

    /// The identity of the material, if there is one.
    pub closed spec fn material_of(&self) -> Option<u64> {
        self.material
    }

    /// The identity of the light that the surface emits, if it emits any.
    pub closed spec fn area_light_of(&self) -> Option<u64> {
        self.area_light
    }

    /// The media on the two sides of the surface, if they are known.
    pub closed spec fn interface_of(&self) -> Option<MediumInterface> {
        self.medium_interface
    }

    /// A shape with its material, its light and its media.
    pub fn init(
        shape: Arc<S>,
        material: Option<u64>,
        area_light: Option<u64>,
        medium_interface: Option<MediumInterface>,
    ) -> (r: Self)
        ensures
            r.shape_of() == shape,
            r.material_of() == material,
            r.area_light_of() == area_light,
            r.interface_of() == medium_interface,
    {
        Self { shape, material, area_light, medium_interface }
    }
}

impl<S: Shape> Primitive for GeometricPrimitive<S> {
    open spec fn ready(&self) -> bool {
        self.shape_of().ready()
    }

    open spec fn bound(&self) -> Bounds3f {
        self.shape_of().bound()
    }

    open spec fn first_hit(&self, o: Point3, d: Vector3) -> Option<i64> {
        self.shape_of().first_hit(o, d)
    }

    open spec fn records(&self, ray: Ray, isect: SurfaceInteraction) -> bool {
        exists|rec: SurfaceInteraction| #[trigger]
            self.shape_of().records(ray, rec) && isect == dressed(
                rec,
                self.shape_of().ident(),
                self.interface_of(),
                ray.medium,
            )
    }

    open spec fn is_aggregate(&self) -> bool {
        false
    }

    open spec fn area_light(&self) -> Option<u64> {
        self.area_light_of()
    }

    open spec fn material(&self) -> Option<u64> {
        self.material_of()
    }

    proof fn hit_in_bound(&self, o: Point3, d: Vector3) {
        self.shape.hit_in_bound(o, d);
    }

    fn world_bound(&self) -> (b: Bounds3f) {
        self.shape.world_bound()
    }

    fn get_area_light(&self) -> (r: Option<u64>) {
        self.area_light
    }

    fn get_material(&self) -> (r: Option<u64>) {
        self.material
    }

    /// Tests the ray against the shape. On a hit the ray's `t_max` becomes
    /// the parameter of the hit, and the record of the shape gets the name of
    /// the shape and the media of the surface.
    fn intersect(&self, ray: &mut Ray, isect: &mut SurfaceInteraction) -> (hit: bool) {
        let mut t_hit: i64 = 0;
        if !self.shape.intersect(&*ray, &mut t_hit, isect, false) {
            return false;
        }
        let ghost rec = *isect;

        ray.t_max = t_hit;
        isect.shape = Some(self.shape.id());

        if let Some(mi) = &self.medium_interface {
            if mi.is_medium_transition() {
                isect.interaction.medium_interface = self.medium_interface;
            } else {
                if let Some(m) = ray.medium {
                    isect.interaction.medium_interface = Some(MediumInterface::init_id(m));
                } else {
                    isect.interaction.medium_interface = None;
                }
            }
        }
        proof {
            assert(self.shape_of().records(old(ray).line(), rec));
            assert(*isect == dressed(
                rec,
                self.shape_of().ident(),
                self.interface_of(),
                old(ray).line().medium,
            ));
        }

        true
    }

    /// Asks the shape; the ray stays as it is.
    fn intersect_p(&self, r: &mut Ray) -> (hit: bool)
        ensures
            *final(r) == *old(r),
    {
        self.shape.intersect_p(&*r, false)
    }
}

} // verus!
