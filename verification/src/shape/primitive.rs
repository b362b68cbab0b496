use vstd::prelude::*;
use std::sync::Arc;
use crate::geometry::bounding_box_3::Bounds3f;
use crate::geometry::ray::Ray;
use crate::geometry::vector::{Point3, Vector3};
use crate::interaction::surface_interaction::SurfaceInteraction;

verus! {

/// Anything that has a bound in the world and can be met by a ray: a piece of
/// geometry, or a collection of such.
pub trait Primitive {
    /// The object can be asked for its bound and tested against rays.
    spec fn ready(&self) -> bool;

    /// The bound of the object in the world.
    spec fn bound(&self) -> Bounds3f;

    /// The fixed-point parameter at which the line from `o` along `d` first
    /// meets the object, if it meets it at all.
    spec fn first_hit(&self, o: Point3, d: Vector3) -> Option<i64>;

    /// `isect` is a record that the object gives of its first meeting with
    /// the line of `ray`.
    spec fn records(&self, ray: Ray, isect: SurfaceInteraction) -> bool;

    /// The object is a collection of objects. A collection has neither a
    /// material nor a light of its own.
    spec fn is_aggregate(&self) -> bool;

    /// The light that the object emits, by its identity.
    spec fn area_light(&self) -> Option<u64>;

    /// The material of the object, by its identity.
    spec fn material(&self) -> Option<u64>;

    /// A first meeting lies ahead of the origin and inside the bound.
    proof fn hit_in_bound(&self, o: Point3, d: Vector3)
        requires
            self.ready(),
            self.first_hit(o, d) is Some,
        ensures
            self.first_hit(o, d)->0 > 0,
            self.bound().holds_at(o, d, self.first_hit(o, d)->0 as int),
    ;

    fn world_bound(&self) -> (b: Bounds3f)
        requires
            self.ready(),
        ensures
            b == self.bound(),
    ;

    /// Tests the ray against the object. On a hit, `t_max` of the ray becomes
    /// the parameter of the hit and `isect` its record; on a miss both stay as
    /// they were.
    fn intersect(&self, ray: &mut Ray, isect: &mut SurfaceInteraction) -> (hit: bool)
        requires
            self.ready(),
        ensures
            hit == old(ray).admits_hit(self.first_hit(old(ray).o, old(ray).d)),
            hit ==> *final(ray) == (Ray { t_max: self.first_hit(old(ray).o, old(ray).d)->0, ..*old(ray) }),
            hit ==> final(isect).interaction.time == final(ray).t_max,
            hit ==> self.records(old(ray).line(), *final(isect)),
            !hit ==> *final(ray) == *old(ray),
            !hit ==> *final(isect) == *old(isect),
    ;

    /// The light that the object emits, by its identity. A collection must not
    /// be asked.
    fn get_area_light(&self) -> (r: Option<u64>)
        requires
            !self.is_aggregate(),
        ensures
            r == self.area_light(),
    ;

    /// The material of the object, by its identity. A collection must not be
    /// asked.
    fn get_material(&self) -> (r: Option<u64>)
        requires
            !self.is_aggregate(),
        ensures
            r == self.material(),
    ;

    /// Tests the ray against the object without a record. The ray keeps its
    /// `t_max`, or on a hit takes the parameter of the hit.
    fn intersect_p(&self, r: &mut Ray) -> (hit: bool)
        requires
            self.ready(),
        ensures
            hit == old(r).admits_hit(self.first_hit(old(r).o, old(r).d)),
            *final(r) == *old(r) || (hit && *final(r) == (Ray {
                t_max: self.first_hit(old(r).o, old(r).d)->0,
                ..*old(r)
            })),
    ;
}

/// The ray meets the object at a parameter that it admits.
pub open spec fn hits<P: Primitive + ?Sized>(p: &P, ray: Ray) -> bool {
    ray.admits_hit(p.first_hit(ray.o, ray.d))
}

/// The nearer of two optional hits.
pub open spec fn nearer(a: Option<i64>, b: Option<i64>) -> Option<i64> {
    match (a, b) {
        (None, _) => b,
        (_, None) => a,
        (Some(x), Some(y)) => if x <= y { a } else { b },
    }
}

/// The first hit of a line among a list of objects: the least of their first
/// hits.
pub open spec fn first_hit_among<P: Primitive>(prims: Seq<Arc<P>>, o: Point3, d: Vector3) -> Option<i64>
    decreases prims.len(),
{
    if prims.len() == 0 {
        None
    } else {
        nearer(first_hit_among(prims.drop_last(), o, d), prims.last().first_hit(o, d))
    }
}

/// `r` is the least first hit among the objects: none has a hit where `r` is
/// `None`; else one has it and none has a nearer one.
pub open spec fn is_first_hit_among<P: Primitive>(
    prims: Seq<Arc<P>>,
    o: Point3,
    d: Vector3,
    r: Option<i64>,
) -> bool {
    match r {
        None => forall|k: int| 0 <= k < prims.len() ==> (#[trigger] prims[k]).first_hit(o, d) is None,
        Some(m) => {
            &&& exists|k: int| 0 <= k < prims.len() && (#[trigger] prims[k]).first_hit(o, d) == Some(m)
            &&& forall|k: int|
                0 <= k < prims.len() ==> ((#[trigger] prims[k]).first_hit(o, d) matches Some(t)
                    ==> m <= t)
        },
    }
}

/// The least first hit is what `first_hit_among` computes.
pub proof fn lemma_first_hit_among<P: Primitive>(prims: Seq<Arc<P>>, o: Point3, d: Vector3)
    ensures
        is_first_hit_among(prims, o, d, first_hit_among(prims, o, d)),
    decreases prims.len(),
{
    if prims.len() > 0 {
        let rest = prims.drop_last();
        lemma_first_hit_among(rest, o, d);
        let r0 = first_hit_among(rest, o, d);
        let r = first_hit_among(prims, o, d);
        assert(forall|k: int| 0 <= k < rest.len() ==> rest[k] == prims[k]);
        match r {
            None => {
                assert forall|k: int| 0 <= k < prims.len() implies (#[trigger] prims[k]).first_hit(
                    o,
                    d,
                ) is None by {
                    if k < rest.len() {
                        assert(rest[k].first_hit(o, d) is None);
                    }
                }
            },
            Some(m) => {
                if r0 == Some(m) {
                    let k0 = choose|k: int|
                        0 <= k < rest.len() && (#[trigger] rest[k]).first_hit(o, d) == Some(m);
                    assert(prims[k0].first_hit(o, d) == Some(m));
                } else {
                    assert(prims[prims.len() - 1].first_hit(o, d) == Some(m));
                }
                assert forall|k: int| 0 <= k < prims.len() implies ((#[trigger] prims[k]).first_hit(
                    o,
                    d,
                ) matches Some(t) ==> m <= t) by {
                    if k < rest.len() {
                        assert(rest[k] == prims[k]);
                        if r0 is None {
                            assert(rest[k].first_hit(o, d) is None);
                        }
                    }
                }
            },
        }
    }
}

/// There is only one least first hit.
pub proof fn lemma_first_hit_unique<P: Primitive>(
    prims: Seq<Arc<P>>,
    o: Point3,
    d: Vector3,
    r1: Option<i64>,
    r2: Option<i64>,
)
    requires
        is_first_hit_among(prims, o, d, r1),
        is_first_hit_among(prims, o, d, r2),
    ensures
        r1 == r2,
{
    match (r1, r2) {
        (Some(m1), Some(m2)) => {
            let k1 = choose|k: int|
                0 <= k < prims.len() && (#[trigger] prims[k]).first_hit(o, d) == Some(m1);
            let k2 = choose|k: int|
                0 <= k < prims.len() && (#[trigger] prims[k]).first_hit(o, d) == Some(m2);
            assert(prims[k1].first_hit(o, d) == Some(m1));
            assert(prims[k2].first_hit(o, d) == Some(m2));
        },
        (Some(m1), None) => {
            let k1 = choose|k: int|
                0 <= k < prims.len() && (#[trigger] prims[k]).first_hit(o, d) == Some(m1);
            assert(prims[k1].first_hit(o, d) == Some(m1));
        },
        (None, Some(m2)) => {
            let k2 = choose|k: int|
                0 <= k < prims.len() && (#[trigger] prims[k]).first_hit(o, d) == Some(m2);
            assert(prims[k2].first_hit(o, d) == Some(m2));
        },
        (None, None) => {},
    }
}

/// Two lists that hold the same objects, in whatever order, have the same
/// first hit for every line.
pub proof fn lemma_first_hit_same_objects<P: Primitive>(
    a: Seq<Arc<P>>,
    b: Seq<Arc<P>>,
    o: Point3,
    d: Vector3,
)
    requires
        a.to_multiset() == b.to_multiset(),
    ensures
        first_hit_among(a, o, d) == first_hit_among(b, o, d),
{
    broadcast use vstd::seq_lib::group_to_multiset_ensures;

    lemma_first_hit_among(a, o, d);
    lemma_first_hit_among(b, o, d);
    let ra = first_hit_among(a, o, d);
    assert forall|k: int| 0 <= k < b.len() implies a.contains(#[trigger] b[k]) by {
        assert(b.contains(b[k]));
        assert(b.to_multiset().count(b[k]) > 0);
    }
    assert forall|k: int| 0 <= k < a.len() implies b.contains(#[trigger] a[k]) by {
        assert(a.contains(a[k]));
        assert(a.to_multiset().count(a[k]) > 0);
    }
    match ra {
        None => {
            assert forall|k: int| 0 <= k < b.len() implies (#[trigger] b[k]).first_hit(o, d) is None by {
                assert(a.contains(b[k]));
                let j = choose|j: int| 0 <= j < a.len() && a[j] == b[k];
                assert(a[j].first_hit(o, d) is None);
            }
        },
        Some(m) => {
            let k0 = choose|k: int| 0 <= k < a.len() && (#[trigger] a[k]).first_hit(o, d) == Some(m);
            assert(b.contains(a[k0]));
            let j0 = choose|j: int| 0 <= j < b.len() && b[j] == a[k0];
            assert(b[j0].first_hit(o, d) == Some(m));
            assert forall|k: int| 0 <= k < b.len() implies ((#[trigger] b[k]).first_hit(o, d) matches Some(
                t,
            ) ==> m <= t) by {
                assert(a.contains(b[k]));
                let j = choose|j: int| 0 <= j < a.len() && a[j] == b[k];
                assert(a[j].first_hit(o, d) == b[k].first_hit(o, d));
            }
        },
    }
    assert(is_first_hit_among(b, o, d, ra));
    lemma_first_hit_unique(b, o, d, ra, first_hit_among(b, o, d));
}

/// What a collection reports after it has asked its objects: where no object
/// has a hit below the current limit `cur`, and `cur` is either the limit
/// `t0` that the ray came with or, after a hit, the hit of one of the
/// objects, the collection has a hit within `t0` exactly when it reports
/// one, and that hit is `cur`.
pub proof fn lemma_collection_result<P: Primitive>(
    prims: Seq<Arc<P>>,
    o: Point3,
    d: Vector3,
    t0: i64,
    cur: i64,
    hit: bool,
)
    requires
        forall|k: int| 0 <= k < prims.len() ==> (#[trigger] prims[k]).ready(),
        forall|k: int|
            0 <= k < prims.len() ==> ((#[trigger] prims[k]).first_hit(o, d) matches Some(t) ==> !(0
                < t < cur)),
        hit ==> cur < t0 && exists|k: int|
            0 <= k < prims.len() && (#[trigger] prims[k]).first_hit(o, d) == Some(cur),
        !hit ==> cur == t0,
    ensures
        hit == (first_hit_among(prims, o, d) matches Some(t) && 0 < t < t0),
        hit ==> first_hit_among(prims, o, d) == Some(cur),
{
    lemma_first_hit_among(prims, o, d);
    let r = first_hit_among(prims, o, d);
    if hit {
        let k0 = choose|k: int|
            0 <= k < prims.len() && (#[trigger] prims[k]).first_hit(o, d) == Some(cur);
        prims[k0].hit_in_bound(o, d);
        assert forall|k: int| 0 <= k < prims.len() implies ((#[trigger] prims[k]).first_hit(
            o,
            d,
        ) matches Some(t) ==> cur <= t) by {
            if prims[k].first_hit(o, d) is Some {
                prims[k].hit_in_bound(o, d);
            }
        }
        assert(is_first_hit_among(prims, o, d, Some(cur)));
        lemma_first_hit_unique(prims, o, d, r, Some(cur));
    } else {
        if r is Some {
            let m = r->0;
            let k = choose|k: int|
                0 <= k < prims.len() && (#[trigger] prims[k]).first_hit(o, d) == Some(m);
            prims[k].hit_in_bound(o, d);
        }
    }
}

} // verus!
