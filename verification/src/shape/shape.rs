use vstd::prelude::*;
use crate::geometry::bounding_box_3::Bounds3f;
use crate::geometry::ray::Ray;
use crate::geometry::vector::{Point3, Vector3};
use crate::interaction::surface_interaction::SurfaceInteraction;

verus! {

/// A piece of geometry: it has a bound in the world and says where a ray
/// meets it first.
pub trait Shape {
    /// The shape can be asked for its bound and tested against rays.
    spec fn ready(&self) -> bool;

    /// The identity under which records name the shape.
    spec fn ident(&self) -> u64;

    /// The bound of the shape in the world.
    spec fn bound(&self) -> Bounds3f;

    /// The bound of the shape in its own space.
    spec fn local_bound(&self) -> Bounds3f;

    /// The orientation of the surface was reversed by whoever made the
    /// shape.
    spec fn reversed(&self) -> bool;

    /// The placement of the shape in the world turns right hands into left
    /// hands.
    spec fn mirrored(&self) -> bool;

    /// The fixed-point parameter at which the line from `o` along `d` first
    /// meets the shape, if it meets it at all.
    spec fn first_hit(&self, o: Point3, d: Vector3) -> Option<i64>;

    /// `isect` is a record that the shape gives of its first meeting with
    /// the line of `ray`.
    spec fn records(&self, ray: Ray, isect: SurfaceInteraction) -> bool;

    /// A first meeting lies ahead of the origin and inside the bound.
    proof fn hit_in_bound(&self, o: Point3, d: Vector3)
        requires
            self.ready(),
            self.first_hit(o, d) is Some,
        ensures
            self.first_hit(o, d)->0 > 0,
            self.bound().holds_at(o, d, self.first_hit(o, d)->0 as int),
    ;

    fn id(&self) -> (r: u64)
        ensures
            r == self.ident(),
    ;

    fn reverse_orientation(&self) -> (r: bool)
        ensures
            r == self.reversed(),
    ;

    fn transform_swaps_handedness(&self) -> (r: bool)
        ensures
            r == self.mirrored(),
    ;

    fn object_bound(&self) -> (b: Bounds3f)
        ensures
            b == self.local_bound(),
    ;

    fn world_bound(&self) -> (b: Bounds3f)
        requires
            self.ready(),
        ensures
            b == self.bound(),
    ;

    /// Tests the ray against the shape. On a hit `t_hit` becomes the
    /// parameter of the hit and `isect` its record; on a miss both stay as
    /// they were.
    fn intersect(
        &self,
        ray: &Ray,
        t_hit: &mut i64,
        isect: &mut SurfaceInteraction,
        test_alpha_texture: bool,
    ) -> (hit: bool)
        requires
            self.ready(),
        ensures
            hit == ray.admits_hit(self.first_hit(ray.o, ray.d)),
            hit ==> *final(t_hit) == self.first_hit(ray.o, ray.d)->0,
            hit ==> final(isect).interaction.time == *final(t_hit),
            hit ==> self.records(ray.line(), *final(isect)),
            !hit ==> *final(t_hit) == *old(t_hit),
            !hit ==> *final(isect) == *old(isect),
    ;

    fn intersect_p(&self, ray: &Ray, test_alpha_texture: bool) -> (hit: bool)
        requires
            self.ready(),
        ensures
            hit == ray.admits_hit(self.first_hit(ray.o, ray.d)),
    ;
}

} // verus!
