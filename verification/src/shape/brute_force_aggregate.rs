use vstd::prelude::*;
use std::sync::Arc;
use crate::common::INFINITY;
use crate::geometry::bounding_box_3::Bounds3f;
use crate::geometry::ray_box::lemma_holds_at_grows;
use crate::geometry::ray::Ray;
use crate::geometry::vector::{Point3, Vector3};
use crate::interaction::surface_interaction::SurfaceInteraction;
use crate::shape::primitive::{
    first_hit_among, hits, is_first_hit_among, lemma_first_hit_among, lemma_first_hit_unique,
    Primitive,
};

verus! {

/// The smallest box around the bounds of all the objects of a list.
pub open spec fn bound_among<P: Primitive>(prims: Seq<Arc<P>>) -> Bounds3f
    decreases prims.len(),
{
    if prims.len() == 0 {
        Bounds3f::empty()
    } else {
        Bounds3f::union_of(bound_among(prims.drop_last()), prims.last().bound())
    }
}

/// The box around a list of objects holds the bound of each of them.
pub proof fn lemma_bound_among_contains<P: Primitive>(prims: Seq<Arc<P>>, k: int)
    requires
        0 <= k < prims.len(),
    ensures
        bound_among(prims).contains_box(prims[k].bound()),
    decreases prims.len(),
{
    if k < prims.len() - 1 {
        lemma_bound_among_contains(prims.drop_last(), k);
        assert(prims.drop_last()[k] == prims[k]);
    }
}

/// A collection of objects that answers every query by asking each object in
/// turn.
pub struct BruteForceAggregate<P: Primitive> {
    prims: Vec<Arc<P>>,
    bounds: Bounds3f,
}

impl<P: Primitive> BruteForceAggregate<P> {
    /// The objects of the collection, in the order in which they were added.
    pub closed spec fn objects(&self) -> Seq<Arc<P>> {
        self.prims@
    }

    /// Every object is ready, and the stored bound is the box around them.
    pub closed spec fn wf(&self) -> bool {
        &&& self.bounds == bound_among(self.prims@)
        &&& forall|k: int| 0 <= k < self.prims@.len() ==> (#[trigger] self.prims@[k]).ready()
    }

    /// A collection without objects.
    pub fn new() -> (r: Self)
        ensures
            r.wf(),
            r.objects() == Seq::<Arc<P>>::empty(),
    {
        Self { prims: Vec::new(), bounds: Bounds3f::new() }
    }

    /// Adds an object and widens the bound by the bound of the object.
    pub fn add_primitive(&mut self, prim: Arc<P>)
        requires
            old(self).wf(),
            prim.ready(),
        ensures
            final(self).wf(),
            final(self).objects() == old(self).objects().push(prim),
    {
        let b = prim.world_bound();
        self.bounds = Bounds3f::union(&self.bounds, &b);
        self.prims.push(prim);
        proof {
            assert(self.prims@.drop_last() == old(self).prims@);
        }
    }

    /// The bound of the collection is the box around its objects.
    pub proof fn lemma_bound(&self)
        requires
            self.wf(),
        ensures
            self.bound() == bound_among(self.objects()),
    {
    }

    /// The objects are ready, each of them.
    pub proof fn lemma_objects_ready(&self, k: int)
        requires
            self.wf(),
            0 <= k < self.objects().len(),
        ensures
            self.objects()[k].ready(),
    {
    }

    /// The bound of the collection holds the bound of each of its objects.
    pub proof fn lemma_bound_contains(&self, k: int)
        requires
            self.wf(),
            0 <= k < self.objects().len(),
        ensures
            self.bound().contains_box(self.objects()[k].bound()),
    {
        lemma_bound_among_contains(self.prims@, k);
    }
}

impl<P: Primitive> Primitive for BruteForceAggregate<P> {
    open spec fn ready(&self) -> bool {
        self.wf()
    }

    closed spec fn bound(&self) -> Bounds3f {
        self.bounds
    }

    open spec fn first_hit(&self, o: Point3, d: Vector3) -> Option<i64> {
        first_hit_among(self.objects(), o, d)
    }

    open spec fn records(&self, ray: Ray, isect: SurfaceInteraction) -> bool {
        exists|k: int|
            0 <= k < self.objects().len() && (#[trigger] self.objects()[k]).first_hit(ray.o, ray.d)
                == self.first_hit(ray.o, ray.d) && self.objects()[k].records(ray, isect)
    }

    open spec fn is_aggregate(&self) -> bool {
        true
    }

    open spec fn area_light(&self) -> Option<u64> {
        None
    }

    open spec fn material(&self) -> Option<u64> {
        None
    }

    /// A collection has no light of its own: this must not be called, and
    /// a call that comes anyway stops the program.
    fn get_area_light(&self) -> (r: Option<u64>) {
        vstd::pervasive::unreached()
    }

    /// A collection has no material of its own: this must not be called, and
    /// a call that comes anyway stops the program.
    fn get_material(&self) -> (r: Option<u64>) {
        vstd::pervasive::unreached()
    }

    proof fn hit_in_bound(&self, o: Point3, d: Vector3) {
        lemma_first_hit_among(self.prims@, o, d);
        let m = self.first_hit(o, d)->0;
        let k = choose|k: int|
            0 <= k < self.prims@.len() && (#[trigger] self.prims@[k]).first_hit(o, d) == Some(m);
        self.prims@[k].hit_in_bound(o, d);
        lemma_bound_among_contains(self.prims@, k);
        lemma_holds_at_grows(self.prims@[k].bound(), self.bounds, o, d, m as int);
    }

    fn world_bound(&self) -> (b: Bounds3f) {
        self.bounds
    }

    /// Tests every object and keeps the hit with the smallest parameter.
    fn intersect(&self, ray: &mut Ray, isect: &mut SurfaceInteraction) -> (hit: bool) {
        let mut hit = false;
        let mut cur_t = INFINITY;
        let ghost o = ray.o;
        let ghost d = ray.d;
        let n = self.prims.len();
        let mut i: usize = 0;
        while i < n
            invariant
                self.wf(),
                n == self.prims@.len(),
                0 <= i <= n,
                o == old(ray).o,
                d == old(ray).d,
                !hit ==> *ray == *old(ray) && *isect == *old(isect) && cur_t == INFINITY,
                !hit ==> forall|k: int| 0 <= k < i ==> !hits(&*(#[trigger] self.prims@[k]), *old(ray)),
                hit ==> *ray == (Ray { t_max: ray.t_max, ..*old(ray) }) && ray.t_max < old(ray).t_max
                    && cur_t == ray.t_max && isect.interaction.time == ray.t_max,
                hit ==> exists|k: int|
                    0 <= k < i && (#[trigger] self.prims@[k]).first_hit(o, d) == Some(ray.t_max) && self.prims@[k].records(old(ray).line(), *isect),
                hit ==> forall|k: int|
                    0 <= k < i ==> ((#[trigger] self.prims@[k]).first_hit(o, d) matches Some(t)
                        ==> ray.t_max <= t),
            decreases n - i,
        {
            let mut its = SurfaceInteraction::new();
            let ghost before = *ray;
            let ghost was_hit = hit;
            proof {
                assert(self.prims@[i as int].ready());
                if self.prims@[i as int].first_hit(o, d) is Some {
                    self.prims@[i as int].hit_in_bound(o, d);
                }
            }
            let prim = &self.prims[i];
            if prim.intersect(ray, &mut its) {
                hit = true;
                if its.interaction.time < cur_t {
                    cur_t = its.interaction.time;
                    *isect = its;
                }
                proof {
                    assert(before.line() == old(ray).line());
                    assert(self.prims@[i as int].first_hit(o, d) == Some(ray.t_max));
                    assert(self.prims@[i as int].records(old(ray).line(), *isect));
                    assert forall|k: int| 0 <= k < i + 1 implies ((#[trigger] self.prims@[k]).first_hit(
                        o,
                        d,
                    ) matches Some(t) ==> ray.t_max <= t) by {
                        if k < i {
                            if was_hit {
                            } else {
                                assert(!hits(&*self.prims@[k], *old(ray)));
                                if self.prims@[k].first_hit(o, d) is Some {
                                    self.prims@[k].hit_in_bound(o, d);
                                }
                            }
                        }
                    }
                }
            } else {
                proof {
                    if was_hit {
                        assert forall|k: int| 0 <= k < i + 1 implies ((
                        #[trigger] self.prims@[k]).first_hit(o, d) matches Some(t) ==> ray.t_max
                            <= t) by {
                            if k == i {
                                assert(!hits(&*self.prims@[k], before));
                            }
                        }
                        let k0 = choose|k: int|
                            0 <= k < i && (#[trigger] self.prims@[k]).first_hit(o, d) == Some(ray.t_max) && self.prims@[k].records(old(ray).line(), *isect);
                        assert(0 <= k0 < i + 1);
                    }
                }
            }
            i += 1;
        }
        proof {
            lemma_first_hit_among(self.prims@, o, d);
            let r = first_hit_among(self.prims@, o, d);
            if hit {
                assert(is_first_hit_among(self.prims@, o, d, Some(ray.t_max)));
                lemma_first_hit_unique(self.prims@, o, d, r, Some(ray.t_max));
                let k0 = choose|k: int|
                    0 <= k < n && (#[trigger] self.prims@[k]).first_hit(o, d) == Some(ray.t_max) && self.prims@[k].records(old(ray).line(), *isect);
                self.prims@[k0].hit_in_bound(o, d);
                assert(self.objects()[k0].first_hit(old(ray).line().o, old(ray).line().d)
                    == self.first_hit(old(ray).line().o, old(ray).line().d));
            } else {
                if r is Some {
                    let m = r->0;
                    let k = choose|k: int|
                        0 <= k < n && (#[trigger] self.prims@[k]).first_hit(o, d) == Some(m);
                    assert(!hits(&*self.prims@[k], *old(ray)));
                }
            }
        }
        hit
    }

    /// Runs `intersect` and drops the record; the ray keeps the parameter of
    /// the hit.
    fn intersect_p(&self, ray: &mut Ray) -> (hit: bool)
        ensures
            hit ==> *final(ray) == (Ray {
                t_max: self.first_hit(old(ray).o, old(ray).d)->0,
                ..*old(ray)
            }),
            !hit ==> *final(ray) == *old(ray),
    {
        let mut temp = SurfaceInteraction::new();

        self.intersect(ray, &mut temp)
    }
}

} // verus!
