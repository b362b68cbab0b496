use std::sync::Arc;

use ray_accel::common::{INFINITY, PARAM_SCALE};
use ray_accel::geometry::{Bounds3f, Point3, Ray, Vector3};
use ray_accel::interaction::SurfaceInteraction;
use ray_accel::medium::MediumInterface;
use ray_accel::shape::{
    BVHAccel, BruteForceAggregate, GeometricPrimitive, Primitive, Shape, Sphere, SplitMethod,
};

fn ray(o: (i32, i32, i32), d: (i64, i64, i64), t_max: Option<i64>) -> Ray {
    Ray::init(&Point3::new(o.0, o.1, o.2), &Vector3::new(d.0, d.1, d.2), t_max, None, None)
}

fn unit_sphere() -> Sphere {
    Sphere::init(7, &Point3::new(0, 0, 0), false, 1)
}

/// Whether the point at parameter `t` is within the sphere, in exact
/// arithmetic.
fn within(c: (i64, i64, i64), r: i64, o: (i32, i32, i32), d: (i64, i64, i64), t: i64) -> bool {
    let s = PARAM_SCALE as i128;
    let gx = s * (o.0 as i128 - c.0 as i128) + (t as i128) * (d.0 as i128);
    let gy = s * (o.1 as i128 - c.1 as i128) + (t as i128) * (d.1 as i128);
    let gz = s * (o.2 as i128 - c.2 as i128) + (t as i128) * (d.2 as i128);
    gx * gx + gy * gy + gz * gz <= (r as i128 * s) * (r as i128 * s)
}

#[test]
fn sphere_hit_at_four() {
    let s = unit_sphere();
    assert!(s.is_ready());
    let r = ray((5, 0, 0), (-1, 0, 0), None);
    let mut t_hit: i64 = 0;
    let mut isect = SurfaceInteraction::new();
    assert!(s.intersect(&r, &mut t_hit, &mut isect, false));
    assert_eq!(t_hit, 4 * PARAM_SCALE);
    assert_eq!(isect.interaction.time, 4 * PARAM_SCALE);
    assert_eq!(isect.interaction.p, Point3::new(1, 0, 0));
    assert_eq!(isect.interaction.n, Vector3::new(1, 0, 0));
    assert_eq!(isect.shading.n, Vector3::new(1, 0, 0));
    assert_eq!(isect.interaction.wo, Vector3::new(1, 0, 0));
    assert_eq!(isect.interaction.p_error, Vector3::new(1, 1, 1));
    assert_eq!(isect.interaction.medium_interface, None);
    assert_eq!(isect.shape, None);
    assert!(s.intersect_p(&r, false));
    assert_eq!(s.nearest(&r.o, &r.d), Some(4 * PARAM_SCALE));
}

#[test]
fn sphere_behind_ray_is_missed() {
    let s = unit_sphere();
    let r = ray((5, 0, 0), (1, 0, 0), None);
    let mut t_hit: i64 = -1;
    let mut isect = SurfaceInteraction::new();
    assert!(!s.intersect(&r, &mut t_hit, &mut isect, false));
    assert_eq!(t_hit, -1);
    assert_eq!(isect, SurfaceInteraction::new());
    assert!(!s.intersect_p(&r, false));
    assert_eq!(s.nearest(&r.o, &r.d), None);
}

#[test]
fn sphere_through_primitive_shrinks_t_max() {
    let prim = GeometricPrimitive::init(Arc::new(unit_sphere()), Some(3), Some(4), None);
    assert_eq!(prim.get_material(), Some(3));
    assert_eq!(prim.get_area_light(), Some(4));
    assert_eq!(prim.world_bound(), Bounds3f::init(&Point3::new(-1, -1, -1), &Point3::new(1, 1, 1)));
    let mut r = ray((5, 0, 0), (-1, 0, 0), None);
    let mut isect = SurfaceInteraction::new();
    assert!(prim.intersect(&mut r, &mut isect));
    assert_eq!(r.t_max, 4 * PARAM_SCALE);
    assert_eq!(isect.interaction.time, 4 * PARAM_SCALE);
    assert_eq!(isect.shape, Some(7));
    // the same ray again: the hit is not nearer than its limit
    assert!(!prim.intersect(&mut r, &mut isect));
    assert_eq!(r.t_max, 4 * PARAM_SCALE);
    let mut p = ray((5, 0, 0), (-1, 0, 0), None);
    assert!(prim.intersect_p(&mut p));
    assert_eq!(p.t_max, INFINITY);
    let mut away = ray((5, 0, 0), (1, 0, 0), None);
    assert!(!prim.intersect(&mut away, &mut isect));
    assert!(!prim.intersect_p(&mut away));
    assert_eq!(away.t_max, INFINITY);
}

#[test]
fn ray_from_inside_hits_where_it_leaves() {
    let s = Sphere::init(1, &Point3::new(0, 0, 0), false, 10);
    assert_eq!(s.nearest(&Point3::new(0, 0, 0), &Vector3::new(1, 0, 0)), Some(10 * PARAM_SCALE));
    assert_eq!(s.nearest(&Point3::new(4, 0, 0), &Vector3::new(-2, 0, 0)), Some(7 * PARAM_SCALE));
    // from a point on the sphere, outwards: the ray is gone at once
    assert_eq!(s.nearest(&Point3::new(10, 0, 0), &Vector3::new(1, 0, 0)), None);
    // from a point on the sphere, inwards: across
    assert_eq!(s.nearest(&Point3::new(10, 0, 0), &Vector3::new(-1, 0, 0)), Some(20 * PARAM_SCALE));
    let r = ray((0, 0, 0), (0, 0, 1), None);
    let mut t_hit: i64 = 0;
    let mut isect = SurfaceInteraction::new();
    assert!(s.intersect(&r, &mut t_hit, &mut isect, false));
    assert_eq!(isect.interaction.p, Point3::new(0, 0, 10));
    assert_eq!(isect.interaction.n, Vector3::new(0, 0, 10));
}

#[test]
fn sphere_hit_is_the_first_parameter_inside() {
    let s = Sphere::init(1, &Point3::new(0, 0, 0), false, 5);
    let o = (-10, -10, 0);
    let d = (1i64, 1i64, 0i64);
    let t = s.nearest(&Point3::new(o.0, o.1, o.2), &Vector3::new(d.0, d.1, d.2)).unwrap();
    assert_eq!(t, 423656);
    assert!(within((0, 0, 0), 5, o, d, t));
    assert!(!within((0, 0, 0), 5, o, d, t - 1));
    // an exact hit: 3-4-5
    assert_eq!(s.nearest(&Point3::new(-30, -40, 0), &Vector3::new(3, 4, 0)), Some(9 * PARAM_SCALE));
}

#[test]
fn sphere_hits_agree_with_a_scan() {
    let centre = (3i64, -2i64, 5i64);
    let s = Sphere::init(1, &Point3::new(3, -2, 5), false, 6);
    let dirs = [(7i64, 2i64, -1i64), (-3, 9, 4), (1000, 0, 1), (0, 0, -5000), (-90000, 30000, 150000)];
    let origins = [(-20, -5, 9), (3, -2, 5), (40, 40, -40), (4, -1, 6), (3, -2, 11)];
    for o in origins.iter() {
        for d in dirs.iter() {
            let got = s.nearest(&Point3::new(o.0, o.1, o.2), &Vector3::new(d.0, d.1, d.2));
            // with these directions no hit lies beyond the parameter 20
            let mut first: Option<i64> = None;
            let mut last: Option<i64> = None;
            let mut t: i64 = 1;
            while t <= 20 * PARAM_SCALE {
                if within(centre, 6, *o, *d, t) {
                    if first.is_none() {
                        first = Some(t);
                    }
                    last = Some(t);
                }
                t += 1;
            }
            let expected = if within(centre, 6, *o, *d, 0) { last } else { first };
            assert_eq!(got, expected);
        }
    }
}

#[test]
fn sphere_grazing_and_missing() {
    let s = Sphere::init(1, &Point3::new(0, 0, 0), false, 5);
    // touches the sphere in one point
    assert_eq!(s.nearest(&Point3::new(-10, 5, 0), &Vector3::new(1, 0, 0)), Some(10 * PARAM_SCALE));
    assert_eq!(s.nearest(&Point3::new(-10, 6, 0), &Vector3::new(1, 0, 0)), None);
    // a step so long that no parameter falls inside
    assert_eq!(s.nearest(&Point3::new(-10, 0, 0), &Vector3::new(65536 * 20 + 1, 0, 0)), None);
    assert_eq!(s.nearest(&Point3::new(-10, 0, 0), &Vector3::new(65536 * 10, 0, 0)), Some(1));
    assert_eq!(s.nearest(&Point3::new(-10, 0, 0), &Vector3::new(i64::MAX, 0, 0)), None);
    assert_eq!(s.nearest(&Point3::new(-10, 0, 0), &Vector3::new(i64::MIN, i64::MIN, i64::MIN)), None);
    assert_eq!(s.nearest(&Point3::new(0, 0, 0), &Vector3::new(i64::MIN, 0, 0)), None);
}

#[test]
fn sphere_without_radius_or_direction() {
    let dot = Sphere::init(1, &Point3::new(0, 0, 0), false, 0);
    assert!(dot.is_ready());
    assert_eq!(dot.nearest(&Point3::new(-5, 0, 0), &Vector3::new(1, 0, 0)), None);
    let s = unit_sphere();
    assert_eq!(s.nearest(&Point3::new(0, 0, 0), &Vector3::new(0, 0, 0)), None);
    assert_eq!(s.nearest(&Point3::new(9, 0, 0), &Vector3::new(0, 0, 0)), None);
}

#[test]
fn sphere_bounds_and_readiness() {
    let s = Sphere::init(1, &Point3::new(10, -20, 30), true, 4);
    assert!(s.is_ready());
    assert_eq!(s.id(), 1);
    assert!(s.reverse_orientation());
    assert!(!s.transform_swaps_handedness());
    assert_eq!(s.object_bound(), Bounds3f::init(&Point3::new(-4, -4, -4), &Point3::new(4, 4, 4)));
    assert_eq!(s.world_bound(), Bounds3f::init(&Point3::new(6, -24, 26), &Point3::new(14, -16, 34)));
    let edge = Sphere::init(2, &Point3::new(i32::MAX - 3, 0, 0), false, 4);
    assert!(!edge.is_ready());
    let fits = Sphere::init(2, &Point3::new(i32::MAX - 4, 0, 0), false, 4);
    assert!(fits.is_ready());
    assert_eq!(fits.world_bound().p_max.x, i32::MAX);
    let negative = Sphere::init(3, &Point3::new(0, 0, 0), false, -1);
    assert!(!negative.is_ready());
}

#[test]
fn reversed_sphere_has_inward_normal() {
    let s = Sphere::init(1, &Point3::new(0, 0, 0), true, 2);
    let r = ray((0, 8, 0), (0, -1, 0), None);
    let mut t_hit: i64 = 0;
    let mut isect = SurfaceInteraction::new();
    assert!(s.intersect(&r, &mut t_hit, &mut isect, false));
    assert_eq!(t_hit, 6 * PARAM_SCALE);
    assert_eq!(isect.interaction.p, Point3::new(0, 2, 0));
    assert_eq!(isect.interaction.n, Vector3::new(0, -2, 0));
    assert_eq!(isect.interaction.wo, Vector3::new(0, 1, 0));
}

#[test]
fn surface_media_of_a_hit() {
    let sphere = Arc::new(unit_sphere());
    let between = MediumInterface { inside: Some(1), outside: Some(2) };
    let same = MediumInterface::init_id(5);

    // an interface between two media is recorded as it is
    let prim = GeometricPrimitive::init(sphere.clone(), None, None, Some(between));
    let mut r = Ray::init(&Point3::new(5, 0, 0), &Vector3::new(-1, 0, 0), None, None, Some(9));
    let mut isect = SurfaceInteraction::new();
    assert!(prim.intersect(&mut r, &mut isect));
    assert_eq!(isect.interaction.medium_interface, Some(between));

    // a surface inside one medium passes on the medium of the ray
    let prim = GeometricPrimitive::init(sphere.clone(), None, None, Some(same));
    let mut r = Ray::init(&Point3::new(5, 0, 0), &Vector3::new(-1, 0, 0), None, None, Some(9));
    assert!(prim.intersect(&mut r, &mut isect));
    assert_eq!(isect.interaction.medium_interface, Some(MediumInterface::init_id(9)));
    let mut r = Ray::init(&Point3::new(5, 0, 0), &Vector3::new(-1, 0, 0), None, None, None);
    assert!(prim.intersect(&mut r, &mut isect));
    assert_eq!(isect.interaction.medium_interface, None);

    // without an interface the record of the shape is kept
    let prim = GeometricPrimitive::init(sphere, None, None, None);
    let mut r = Ray::init(&Point3::new(5, 0, 0), &Vector3::new(-1, 0, 0), None, None, Some(9));
    assert!(prim.intersect(&mut r, &mut isect));
    assert_eq!(isect.interaction.medium_interface, None);
    assert_eq!(prim.get_material(), None);
    assert_eq!(prim.get_area_light(), None);
}

fn random_spheres(n: u64) -> Vec<Arc<GeometricPrimitive<Sphere>>> {
    let mut v = Vec::new();
    let mut seed: i64 = 987654321;
    let mut next = |m: i64| {
        seed = (seed * 1103515245 + 12345) % 2147483648;
        seed % m
    };
    for i in 0..n {
        let c = Point3::new(next(4000) as i32 - 2000, next(4000) as i32 - 2000, next(4000) as i32 - 2000);
        let radius = next(150) as i32 + 1;
        let s = Sphere::init(i, &c, false, radius);
        v.push(Arc::new(GeometricPrimitive::init(Arc::new(s), None, None, None)));
    }
    v
}

#[test]
fn spheres_in_a_hierarchy_agree_with_brute_force() {
    let prims = random_spheres(500);
    let mut bvh: BVHAccel<GeometricPrimitive<Sphere>> = BVHAccel::init(255, SplitMethod::SAH);
    let mut brute: BruteForceAggregate<GeometricPrimitive<Sphere>> = BruteForceAggregate::new();
    for p in prims.iter() {
        bvh.add_primitive(p.clone());
        brute.add_primitive(p.clone());
    }
    bvh.build();
    assert_eq!(bvh.primitives().len(), 500);
    assert!(bvh.nodes().len() > 1);
    let mut seed: i64 = 42;
    let mut next = |m: i64| {
        seed = (seed * 1103515245 + 12345) % 2147483648;
        seed % m
    };
    let mut hits = 0;
    for _ in 0..400 {
        let o = Point3::new(next(6000) as i32 - 3000, next(6000) as i32 - 3000, next(6000) as i32 - 3000);
        let d = Vector3::new(next(2001) - 1000, next(2001) - 1000, next(2001) - 1000);
        let base = Ray::init(&o, &d, None, None, None);
        let mut r1 = base;
        let mut r2 = base;
        let mut i1 = SurfaceInteraction::new();
        let mut i2 = SurfaceInteraction::new();
        let h1 = bvh.intersect(&mut r1, &mut i1);
        let h2 = brute.intersect(&mut r2, &mut i2);
        assert_eq!(h1, h2);
        assert_eq!(r1.t_max, r2.t_max);
        let mut q1 = base;
        let mut q2 = base;
        assert_eq!(bvh.intersect_p(&mut q1), h1);
        assert_eq!(brute.intersect_p(&mut q2), h1);
        if h1 {
            hits += 1;
            assert_eq!(i1.interaction.time, r1.t_max);
            assert_eq!(i2.interaction.time, r1.t_max);
            assert!(i1.shape.is_some());
            assert!(bvh.world_bound().inside(&i1.interaction.p));
        }
    }
    assert!(hits > 50);
}

fn on_lattice(x: f32) -> i32 {
    (x as f64 * 65536.0).round() as i32
}

/// The first positive parameter at which the ray meets the sphere, worked
/// out with floats; for a ray that starts outside.
fn analytic_hit(c: [f32; 3], r: f32, o: [f32; 3], d: [f32; 3]) -> Option<f64> {
    let w = [(o[0] - c[0]) as f64, (o[1] - c[1]) as f64, (o[2] - c[2]) as f64];
    let d = [d[0] as f64, d[1] as f64, d[2] as f64];
    let a = d[0] * d[0] + d[1] * d[1] + d[2] * d[2];
    let b = 2.0 * (d[0] * w[0] + d[1] * w[1] + d[2] * w[2]);
    let cc = w[0] * w[0] + w[1] * w[1] + w[2] * w[2] - (r as f64) * (r as f64);
    let disc = b * b - 4.0 * a * cc;
    if disc < 0.0 {
        return None;
    }
    let t0 = (-b - disc.sqrt()) / (2.0 * a);
    if t0 > 0.0 {
        Some(t0)
    } else {
        None
    }
}

#[test]
fn scene_in_world_units_is_hit_where_floats_say() {
    // centre, radius, origin, direction, all in world units; one world unit
    // is 65536 lattice units
    let cases: [([f32; 3], f32, [f32; 3], [f32; 3]); 6] = [
        ([0.0, 0.0, 0.0], 1.0, [5.0, 0.0, 0.0], [-1.0, 0.0, 0.0]),
        ([0.25, -0.5, 0.75], 0.3, [3.0, 2.0, -1.0], [-0.6, -0.55, 0.4]),
        ([10.0, 10.0, 10.0], 2.5, [0.0, 0.0, 0.0], [0.577, 0.577, 0.578]),
        ([-3.0, 0.1, 0.2], 0.05, [4.0, 0.1, 0.21], [-1.0, 0.0, 0.0]),
        ([0.5, 0.5, 0.5], 0.5, [0.5, 0.5, 30.0], [0.0, 0.0, -2.0]),
        ([1.0, 2.0, 3.0], 1.0, [-8.0, -7.0, -6.0], [0.5, 0.5, 0.5]),
    ];
    for (i, (c, r, o, d)) in cases.iter().enumerate() {
        let expected = analytic_hit(*c, *r, *o, *d).unwrap();
        let centre = Point3::new(on_lattice(c[0]), on_lattice(c[1]), on_lattice(c[2]));
        let sphere = Sphere::init(i as u64, &centre, false, on_lattice(*r));
        assert!(sphere.is_ready());
        let prim = Arc::new(GeometricPrimitive::init(Arc::new(sphere), None, None, None));
        let mut bvh: BVHAccel<GeometricPrimitive<Sphere>> = BVHAccel::init(255, SplitMethod::SAH);
        bvh.add_primitive(prim);
        bvh.build();
        let origin = Point3::new(on_lattice(o[0]), on_lattice(o[1]), on_lattice(o[2]));
        let dir = Vector3::new(on_lattice(d[0]) as i64, on_lattice(d[1]) as i64, on_lattice(d[2]) as i64);
        let mut ray = Ray::init(&origin, &dir, None, None, None);
        let mut isect = SurfaceInteraction::new();
        assert!(bvh.intersect(&mut ray, &mut isect));
        let t = ray.t_max as f64 / PARAM_SCALE as f64;
        assert!((t - expected).abs() <= 1e-4 * expected.max(1.0));
        // and the other way the ray misses
        let back = Vector3::new(-dir.x, -dir.y, -dir.z);
        let mut away = Ray::init(&origin, &back, None, None, None);
        assert!(!bvh.intersect_p(&mut away));
    }
}
