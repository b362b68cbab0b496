use std::sync::Arc;

use ray_accel::common::{INFINITY, PARAM_SCALE};
use ray_accel::geometry::{Bounds3f, Point3, Ray, Vector3};
use ray_accel::interaction::SurfaceInteraction;
use ray_accel::shape::{BVHAccel, BruteForceAggregate, LinearBVHNode, Primitive, SplitMethod};

/// A solid box; a ray hits it where it enters, or where it leaves if it
/// starts inside.
#[derive(Debug, Clone)]
struct Block {
    id: u64,
    bounds: Bounds3f,
}

impl Block {
    fn new(id: u64, lo: (i32, i32, i32), hi: (i32, i32, i32)) -> Arc<Block> {
        Arc::new(Block {
            id,
            bounds: Bounds3f::init(&Point3::new(lo.0, lo.1, lo.2), &Point3::new(hi.0, hi.1, hi.2)),
        })
    }

    fn cube(id: u64, cx: i32, cy: i32, cz: i32, half: i32) -> Arc<Block> {
        Block::new(id, (cx - half, cy - half, cz - half), (cx + half, cy + half, cz + half))
    }

    fn nearest(&self, o: &Point3, d: &Vector3) -> Option<i64> {
        let line = Ray::init(o, d, None, None, None);
        let mut t0: i64 = 0;
        let mut t1: i64 = 0;
        if !self.bounds.intersect_p(&line, &mut t0, &mut t1) || t0 > t1 {
            return None;
        }
        if t0 > 0 {
            Some(t0)
        } else if t1 > 0 {
            Some(t1)
        } else {
            None
        }
    }
}

impl Primitive for Block {
    fn ready(&self) -> bool {
        true
    }

    fn bound(&self) -> Bounds3f {
        self.bounds
    }

    fn first_hit(&self, o: Point3, d: Vector3) -> Option<i64> {
        self.nearest(&o, &d)
    }

    fn records(&self, _ray: Ray, isect: SurfaceInteraction) -> bool {
        isect.shape == Some(self.id)
    }

    fn is_aggregate(&self) -> bool {
        false
    }

    fn area_light(&self) -> Option<u64> {
        None
    }

    fn material(&self) -> Option<u64> {
        Some(self.id)
    }

    fn hit_in_bound(&self, _o: Point3, _d: Vector3) {
    }

    fn world_bound(&self) -> Bounds3f {
        self.bounds
    }

    fn get_area_light(&self) -> Option<u64> {
        None
    }

    fn get_material(&self) -> Option<u64> {
        Some(self.id)
    }

    fn intersect(&self, ray: &mut Ray, isect: &mut SurfaceInteraction) -> bool {
        match self.nearest(&ray.o, &ray.d) {
            Some(t) if t < ray.t_max => {
                ray.t_max = t;
                let mut rec = SurfaceInteraction::new();
                rec.interaction.time = t;
                rec.shape = Some(self.id);
                *isect = rec;
                true
            }
            _ => false,
        }
    }

    fn intersect_p(&self, ray: &mut Ray) -> bool {
        match self.nearest(&ray.o, &ray.d) {
            Some(t) => t < ray.t_max,
            None => false,
        }
    }
}

fn scattered(n: i32) -> Vec<Arc<Block>> {
    let mut v = Vec::new();
    let mut seed: i64 = 12345;
    for i in 0..n {
        seed = (seed * 1103515245 + 12345) % 2147483648;
        let x = (seed % 2000) as i32 - 1000;
        seed = (seed * 1103515245 + 12345) % 2147483648;
        let y = (seed % 2000) as i32 - 1000;
        seed = (seed * 1103515245 + 12345) % 2147483648;
        let z = (seed % 2000) as i32 - 1000;
        seed = (seed * 1103515245 + 12345) % 2147483648;
        let half = (seed % 40) as i32 + 1;
        v.push(Block::cube(i as u64, x, y, z, half));
    }
    v
}

fn row_of_cubes(n: i32) -> Vec<Arc<Block>> {
    let mut v = Vec::new();
    for i in 0..n {
        v.push(Block::cube(i as u64, 10 * i, (i * 7) % 5, (i * 3) % 4, 2));
    }
    v
}

fn built(prims: &Vec<Arc<Block>>, leaf_limit: usize) -> BVHAccel<Block> {
    let mut bvh: BVHAccel<Block> = BVHAccel::init(leaf_limit, SplitMethod::SAH);
    for b in prims.iter() {
        bvh.add_primitive(b.clone());
    }
    bvh.build();
    bvh
}

fn brute(prims: &Vec<Arc<Block>>) -> BruteForceAggregate<Block> {
    let mut agg: BruteForceAggregate<Block> = BruteForceAggregate::new();
    for b in prims.iter() {
        agg.add_primitive(b.clone());
    }
    agg
}

fn ray(o: (i32, i32, i32), d: (i64, i64, i64), t_max: Option<i64>) -> Ray {
    Ray::init(&Point3::new(o.0, o.1, o.2), &Vector3::new(d.0, d.1, d.2), t_max, None, None)
}

/// Walks the subtree at `i`, checks its layout, and returns the range of
/// objects under it and the entry after its last node.
fn walk(nodes: &Vec<LinearBVHNode>, prims: &Vec<Arc<Block>>, i: usize) -> (usize, usize, usize) {
    let node = &nodes[i];
    if node.n_primitives > 0 {
        let lo = node.primitives_offset.unwrap();
        let hi = lo + node.n_primitives;
        assert!(hi <= prims.len());
        assert_eq!(node.second_child_offset, None);
        let mut b = Bounds3f::new();
        for k in lo..hi {
            b = Bounds3f::union(&b, &prims[k].bounds);
        }
        assert_eq!(node.bounds, b);
        (lo, hi, i + 1)
    } else {
        assert_eq!(node.primitives_offset, None);
        assert!(node.axis < 3);
        let c2 = node.second_child_offset.unwrap();
        let (lo1, hi1, end1) = walk(nodes, prims, i + 1);
        assert_eq!(end1, c2);
        let (lo2, hi2, end2) = walk(nodes, prims, c2);
        assert_eq!(hi1, lo2);
        assert_eq!(node.bounds, Bounds3f::union(&nodes[i + 1].bounds, &nodes[c2].bounds));
        (lo1, hi2, end2)
    }
}

#[test]
fn bvh_finds_nearest_block() {
    let bvh = built(&row_of_cubes(40), 255);
    assert!(bvh.is_built());
    let mut r = ray((-100, 0, 0), (1, 0, 0), None);
    let mut isect = SurfaceInteraction::new();
    assert!(bvh.intersect(&mut r, &mut isect));
    assert_eq!(r.t_max, 98 * PARAM_SCALE);
    assert_eq!(isect.interaction.time, 98 * PARAM_SCALE);
    assert_eq!(isect.shape, Some(0));
    // from the other end: the last cube lies above the ray, the one before
    // it is the nearest
    let mut back = ray((500, 0, 0), (-1, 0, 0), None);
    assert!(bvh.intersect(&mut back, &mut isect));
    assert_eq!(back.t_max, 118 * PARAM_SCALE);
    assert_eq!(isect.shape, Some(38));
}

#[test]
fn bvh_and_brute_force_agree() {
    let prims = scattered(300);
    let bvh = built(&prims, 4);
    let agg = brute(&prims);
    let dirs = [
        (1i64, 0i64, 0i64),
        (-1, 0, 0),
        (3, 1, 0),
        (5, 0, 1),
        (0, 1, 0),
        (0, 0, -1),
        (-7, 1, 1),
        (40, 3, 2),
        (-3, -5, 7),
        (1, 1, -1),
    ];
    let origins = [(-1500, 0, 0), (700, 1, 1), (295, -40, 2), (111, 3, 50), (20, 2, 1), (0, 0, 1500), (-900, -900, -900)];
    let mut hits = 0;
    for o in origins.iter() {
        for d in dirs.iter() {
            for limit in [None, Some(500 * PARAM_SCALE), Some(20 * PARAM_SCALE)] {
                let base = ray(*o, *d, limit);
                let mut r1 = base;
                let mut r2 = base;
                let mut i1 = SurfaceInteraction::new();
                let mut i2 = SurfaceInteraction::new();
                let h1 = bvh.intersect(&mut r1, &mut i1);
                let h2 = agg.intersect(&mut r2, &mut i2);
                assert_eq!(h1, h2);
                assert_eq!(r1.t_max, r2.t_max);
                if h1 {
                    hits += 1;
                    assert!(r1.t_max < base.t_max);
                    assert!(r1.t_max > 0);
                    assert_eq!(i1.interaction.time, r1.t_max);
                    assert_eq!(i2.interaction.time, r2.t_max);
                    assert_eq!((r1.o, r1.d, r1.time, r1.medium), (base.o, base.d, base.time, base.medium));
                    // the record names an object that is hit at that parameter
                    let named = prims.iter().find(|p| Some(p.id) == i1.shape).unwrap();
                    assert_eq!(named.nearest(&base.o, &base.d), Some(r1.t_max));
                } else {
                    assert_eq!(r1, base);
                    assert_eq!(i1, SurfaceInteraction::new());
                }
                let mut r3 = base;
                let mut r4 = base;
                assert_eq!(bvh.intersect_p(&mut r3), h1);
                assert_eq!(agg.intersect_p(&mut r4), h1);
            }
        }
    }
    assert!(hits > 20);
}

#[test]
fn build_keeps_every_object_once() {
    let prims = scattered(200);
    let bvh = built(&prims, 3);
    let ordered = bvh.primitives();
    assert_eq!(ordered.len(), prims.len());
    let mut ids: Vec<u64> = ordered.iter().map(|p| p.id).collect();
    ids.sort();
    let expected: Vec<u64> = (0..200).collect();
    assert_eq!(ids, expected);
    // the ordered list shares the objects that were added
    for p in ordered.iter() {
        assert!(Arc::ptr_eq(p, &prims[p.id as usize]));
    }
    // and it is not in the order in which they were added
    assert!(ordered.iter().enumerate().any(|(i, p)| p.id != i as u64));
}

#[test]
fn world_bound_holds_every_object() {
    let prims = scattered(150);
    let bvh = built(&prims, 255);
    let agg = brute(&prims);
    let wb = bvh.world_bound();
    assert_eq!(wb, agg.world_bound());
    for p in prims.iter() {
        let b = p.world_bound();
        assert!(wb.inside(&b.p_min));
        assert!(wb.inside(&b.p_max));
    }
}

#[test]
fn flat_list_is_a_depth_first_tree() {
    for (n, limit) in [(1, 255), (2, 255), (3, 1), (4, 255), (5, 1), (37, 2), (300, 4), (300, 255)] {
        let prims = scattered(n);
        let bvh = built(&prims, limit);
        let nodes = bvh.nodes();
        let (lo, hi, end) = walk(nodes, bvh.primitives(), 0);
        assert_eq!((lo, hi, end), (0, n as usize, nodes.len()));
    }
}

#[test]
fn same_centres_make_one_leaf() {
    let mut prims = Vec::new();
    for i in 0..9 {
        prims.push(Block::cube(i, 7, -3, 11, 1 + i as i32));
    }
    // a leaf limit of one does not matter: there is nothing to split by
    let bvh = built(&prims, 1);
    let nodes = bvh.nodes();
    assert_eq!(nodes.len(), 1);
    assert_eq!(nodes[0].n_primitives, 9);
    assert_eq!(nodes[0].primitives_offset, Some(0));
    assert_eq!(nodes[0].second_child_offset, None);
    assert_eq!(nodes[0].bounds, prims[8].bounds);
    let ids: Vec<u64> = bvh.primitives().iter().map(|p| p.id).collect();
    assert_eq!(ids, vec![0, 1, 2, 3, 4, 5, 6, 7, 8]);
}

#[test]
fn centres_that_agree_along_the_split_axis_make_one_leaf() {
    // the centres differ only by rounding: both round to (0, 0, 0)
    let prims = vec![Block::new(0, (-1, -1, -1), (1, 1, 1)), Block::new(1, (0, 0, 0), (1, 1, 1))];
    let bvh = built(&prims, 1);
    assert_eq!(bvh.nodes().len(), 1);
    assert_eq!(bvh.nodes()[0].n_primitives, 2);
}

#[test]
fn single_object_is_a_leaf() {
    let prims = vec![Block::cube(0, 5, 5, 5, 2)];
    let bvh = built(&prims, 255);
    assert_eq!(bvh.nodes().len(), 1);
    assert_eq!(bvh.nodes()[0].n_primitives, 1);
    assert_eq!(bvh.nodes()[0].bounds, prims[0].bounds);
}

#[test]
fn few_objects_are_split_in_the_middle() {
    // centres along x: 30, 0, 20, 10
    let prims = vec![
        Block::cube(0, 30, 0, 0, 1),
        Block::cube(1, 0, 0, 0, 1),
        Block::cube(2, 20, 0, 0, 1),
        Block::cube(3, 10, 0, 0, 1),
    ];
    let bvh = built(&prims, 255);
    let nodes = bvh.nodes();
    // 4 objects: the root splits 2 and 2, and each half splits 1 and 1
    assert_eq!(nodes.len(), 7);
    assert_eq!(nodes[0].n_primitives, 0);
    assert_eq!(nodes[0].axis, 0);
    assert_eq!(nodes[0].second_child_offset, Some(4));
    assert_eq!(nodes[1].second_child_offset, Some(3));
    assert_eq!(nodes[4].second_child_offset, Some(6));
    for (i, offset) in [(2, 0), (3, 1), (5, 2), (6, 3)] {
        assert_eq!(nodes[i].n_primitives, 1);
        assert_eq!(nodes[i].primitives_offset, Some(offset));
    }
    let ids: Vec<u64> = bvh.primitives().iter().map(|p| p.id).collect();
    assert_eq!(ids, vec![1, 3, 2, 0]);
}

#[test]
fn many_objects_are_split_by_cost() {
    // two clusters far apart along y: the cheapest split parts them
    let mut prims = Vec::new();
    for i in 0..6 {
        prims.push(Block::cube(i, i as i32, 0, 0, 1));
    }
    for i in 6..16 {
        prims.push(Block::cube(i, i as i32, 1000, 0, 1));
    }
    let bvh = built(&prims, 255);
    let nodes = bvh.nodes();
    assert_eq!(nodes[0].n_primitives, 0);
    assert_eq!(nodes[0].axis, 1);
    let c2 = nodes[0].second_child_offset.unwrap();
    let (lo1, hi1, _) = walk(nodes, bvh.primitives(), 1);
    let (lo2, hi2, _) = walk(nodes, bvh.primitives(), c2);
    assert_eq!((lo1, hi1, lo2, hi2), (0, 6, 6, 16));
    for p in bvh.primitives()[0..6].iter() {
        assert!(p.id < 6);
    }
    for p in bvh.primitives()[6..16].iter() {
        assert!(p.id >= 6);
    }
}

#[test]
fn a_cheap_leaf_is_kept_unless_it_is_too_full() {
    // five flat plates with no area at all: no split is cheaper than a leaf
    let mut prims = Vec::new();
    for i in 0..5 {
        prims.push(Block::new(i, (i as i32, 0, 0), (i as i32, 0, 0)));
    }
    let roomy = built(&prims, 255);
    assert_eq!(roomy.nodes().len(), 1);
    assert_eq!(roomy.nodes()[0].n_primitives, 5);
    // with room for four only, the five are split
    let tight = built(&prims, 4);
    assert_eq!(tight.nodes()[0].n_primitives, 0);
    assert!(tight.nodes().len() > 1);
    let (lo, hi, end) = walk(tight.nodes(), tight.primitives(), 0);
    assert_eq!((lo, hi, end), (0, 5, tight.nodes().len()));
}

#[test]
fn leaf_limit_is_at_most_255() {
    // 300 plates without area: only the limit forces a split
    let mut prims = Vec::new();
    for i in 0..300 {
        prims.push(Block::new(i, (i as i32, 0, 0), (i as i32, 0, 0)));
    }
    let bvh = built(&prims, 100000);
    assert_eq!(bvh.nodes()[0].n_primitives, 0);
    let mut small = Vec::new();
    for i in 0..255 {
        small.push(Block::new(i, (i as i32, 0, 0), (i as i32, 0, 0)));
    }
    let one = built(&small, 100000);
    assert_eq!(one.nodes().len(), 1);
    assert_eq!(one.nodes()[0].n_primitives, 255);
}

#[test]
fn t_max_only_shrinks() {
    let prims = row_of_cubes(10);
    let bvh = built(&prims, 2);
    let mut r = ray((-100, 0, 0), (1, 0, 0), Some(150 * PARAM_SCALE));
    let mut isect = SurfaceInteraction::new();
    assert!(bvh.intersect(&mut r, &mut isect));
    assert_eq!(r.t_max, 98 * PARAM_SCALE);
    assert_eq!(isect.interaction.time, r.t_max);
    // the same ray again: nothing is nearer than what it found
    let before = r;
    let kept = isect;
    assert!(!bvh.intersect(&mut r, &mut isect));
    assert_eq!(r, before);
    assert_eq!(isect, kept);
    // a limit in front of the first cube: no hit, nothing changes
    let mut short = ray((-100, 0, 0), (1, 0, 0), Some(98 * PARAM_SCALE));
    let mut blank = SurfaceInteraction::new();
    assert!(!bvh.intersect(&mut short, &mut blank));
    assert_eq!(short.t_max, 98 * PARAM_SCALE);
    assert_eq!(blank, SurfaceInteraction::new());
}

#[test]
fn nothing_is_added_after_build() {
    let prims = row_of_cubes(5);
    let mut bvh = built(&prims, 255);
    let nodes_before = bvh.nodes().len();
    bvh.add_primitive(Block::cube(99, 0, 0, 0, 1));
    assert_eq!(bvh.primitives().len(), 5);
    assert_eq!(bvh.nodes().len(), nodes_before);
    bvh.build();
    assert_eq!(bvh.primitives().len(), 5);
    assert_eq!(bvh.nodes().len(), nodes_before);
    assert!(bvh.is_built());
}

#[test]
fn objects_are_added_before_build() {
    let mut bvh: BVHAccel<Block> = BVHAccel::init(255, SplitMethod::SAH);
    assert!(!bvh.is_built());
    assert_eq!(bvh.primitives().len(), 0);
    assert_eq!(bvh.nodes().len(), 0);
    bvh.add_primitive(Block::cube(0, 0, 0, 0, 1));
    bvh.add_primitive(Block::cube(1, 9, 0, 0, 1));
    assert_eq!(bvh.primitives().len(), 2);
    assert_eq!(bvh.primitives()[1].id, 1);
    assert_eq!(bvh.nodes().len(), 0);
    assert!(!bvh.is_built());
}

#[test]
fn empty_hierarchy_hits_nothing() {
    let mut bvh: BVHAccel<Block> = BVHAccel::init(255, SplitMethod::SAH);
    bvh.build();
    assert!(bvh.is_built());
    assert_eq!(bvh.nodes().len(), 0);
    assert_eq!(bvh.world_bound(), Bounds3f::new());
    let mut r = ray((0, 0, 0), (1, 0, 0), None);
    let mut isect = SurfaceInteraction::new();
    assert!(!bvh.intersect(&mut r, &mut isect));
    assert!(!bvh.intersect_p(&mut r));
    assert_eq!(r.t_max, INFINITY);
}

#[test]
fn brute_force_keeps_the_nearest() {
    let mut agg: BruteForceAggregate<Block> = BruteForceAggregate::new();
    assert_eq!(agg.world_bound(), Bounds3f::new());
    agg.add_primitive(Block::cube(0, 50, 0, 0, 1));
    agg.add_primitive(Block::cube(1, 10, 0, 0, 1));
    agg.add_primitive(Block::cube(2, 30, 0, 0, 1));
    assert_eq!(agg.world_bound(), Bounds3f::init(&Point3::new(9, -1, -1), &Point3::new(51, 1, 1)));
    let mut r = ray((0, 0, 0), (1, 0, 0), None);
    let mut isect = SurfaceInteraction::new();
    assert!(agg.intersect(&mut r, &mut isect));
    assert_eq!(r.t_max, 9 * PARAM_SCALE);
    assert_eq!(isect.shape, Some(1));
    assert_eq!(isect.interaction.time, 9 * PARAM_SCALE);
    let mut away = ray((0, 0, 0), (0, 1, 0), None);
    let mut blank = SurfaceInteraction::new();
    assert!(!agg.intersect(&mut away, &mut blank));
    assert!(!agg.intersect_p(&mut away));
    assert_eq!(away.t_max, INFINITY);
    assert_eq!(blank, SurfaceInteraction::new());
}

#[test]
fn a_hierarchy_is_itself_an_object() {
    let near = Arc::new(built(&row_of_cubes(8), 2));
    let mut far_cubes = Vec::new();
    for i in 0..8 {
        far_cubes.push(Block::cube(100 + i, 10 * i as i32, 500, 0, 2));
    }
    let far = Arc::new(built(&far_cubes, 2));
    let mut top: BVHAccel<BVHAccel<Block>> = BVHAccel::init(255, SplitMethod::SAH);
    top.add_primitive(far.clone());
    top.add_primitive(near.clone());
    top.build();
    assert_eq!(top.world_bound(), Bounds3f::union(&near.world_bound(), &far.world_bound()));
    // the near cube around (10, 2, 3) lies above the ray, so the first hit
    // is in the far row
    let mut r = ray((10, -100, 0), (0, 1, 0), None);
    let mut isect = SurfaceInteraction::new();
    assert!(top.intersect(&mut r, &mut isect));
    assert_eq!(r.t_max, 598 * PARAM_SCALE);
    assert_eq!(isect.shape, Some(101));
    // between two cubes nothing is hit
    let mut gap = ray((35, -100, 0), (0, 1, 0), None);
    assert!(!top.intersect(&mut gap, &mut isect));
    let mut s = ray((30, -100, 0), (0, 1, 0), None);
    assert!(top.intersect(&mut s, &mut isect));
    assert_eq!(s.t_max, 99 * PARAM_SCALE);
    assert_eq!(isect.shape, Some(3));
    let mut p = ray((30, -100, 0), (0, 1, 0), None);
    assert!(top.intersect_p(&mut p));
}

#[test]
fn boxes_at_the_ends_of_the_lattice() {
    let mut prims = Vec::new();
    let corners = [i32::MIN, -5, 0, 1_000_000, i32::MAX - 10];
    let mut id = 0;
    for x in corners.iter() {
        for y in corners.iter() {
            for z in corners.iter() {
                prims.push(Block::new(id, (*x, *y, *z), (*x + 10, *y + 10, *z + 10)));
                id += 1;
            }
        }
    }
    prims.push(Block::new(id, (i32::MIN, i32::MIN, i32::MIN), (i32::MAX, i32::MAX, i32::MAX)));
    let bvh = built(&prims, 2);
    let agg = brute(&prims);
    let (lo, hi, end) = walk(bvh.nodes(), bvh.primitives(), 0);
    assert_eq!((lo, hi, end), (0, prims.len(), bvh.nodes().len()));
    assert_eq!(
        bvh.world_bound(),
        Bounds3f::init(&Point3::new(i32::MIN, i32::MIN, i32::MIN), &Point3::new(i32::MAX, i32::MAX, i32::MAX))
    );
    for d in [(1i64, 0i64, 0i64), (i64::MAX, i64::MIN, 1), (-3, 2, 1), (0, 0, 0), (i64::MIN, i64::MIN, i64::MIN)] {
        for o in [(i32::MIN, i32::MIN, i32::MIN), (0, 3, 3), (i32::MAX, 0, i32::MIN)] {
            for limit in [None, Some(1), Some(0), Some(-5), Some(i64::MIN)] {
                let base = ray(o, d, limit);
                let mut r1 = base;
                let mut r2 = base;
                let mut i1 = SurfaceInteraction::new();
                let mut i2 = SurfaceInteraction::new();
                // a block reports hits only for rays with a limit above zero
                if base.t_max > 0 {
                    assert_eq!(bvh.intersect(&mut r1, &mut i1), agg.intersect(&mut r2, &mut i2));
                    assert_eq!(r1.t_max, r2.t_max);
                }
            }
        }
    }
}

#[test]
fn an_empty_hierarchy_inside_a_hierarchy() {
    let mut empty: BVHAccel<Block> = BVHAccel::init(255, SplitMethod::SAH);
    empty.build();
    let full = built(&row_of_cubes(3), 255);
    let mut top: BVHAccel<BVHAccel<Block>> = BVHAccel::init(255, SplitMethod::SAH);
    top.add_primitive(Arc::new(empty));
    top.add_primitive(Arc::new(full));
    top.build();
    assert_eq!(top.primitives().len(), 2);
    let mut r = ray((-100, 0, 0), (1, 0, 0), None);
    let mut isect = SurfaceInteraction::new();
    assert!(top.intersect(&mut r, &mut isect));
    assert_eq!(r.t_max, 98 * PARAM_SCALE);
    assert_eq!(isect.shape, Some(0));
}
