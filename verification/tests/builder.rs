use ray_accel::common::PARAM_SCALE;
use ray_accel::geometry::{Bounds3f, Point3};
use ray_accel::sampler::rng::{bounded_sample, bounded_threshold, sequence_seed, sequence_stream};
use ray_accel::shape::split::{
    bucket_index, fill_buckets, partition_by_bucket, select_nth_by_axis, split_costs,
    split_is_cheaper, swap_infos, MAX_PRIMITIVES, N_BUCKETS,
};
use ray_accel::shape::{BVHBuildNode, BVHPrimitiveInfo, LinearBVHNode};

fn cube(cx: i32, cy: i32, cz: i32, half: i32) -> Bounds3f {
    Bounds3f::init(
        &Point3::new(cx - half, cy - half, cz - half),
        &Point3::new(cx + half, cy + half, cz + half),
    )
}

fn infos_along_x(xs: &[i32]) -> Vec<BVHPrimitiveInfo> {
    xs.iter().enumerate().map(|(i, x)| BVHPrimitiveInfo::init(i, cube(*x, 0, 0, 1))).collect()
}

fn centroid_box(infos: &[BVHPrimitiveInfo]) -> Bounds3f {
    let mut b = Bounds3f::new();
    for i in infos.iter() {
        b = Bounds3f::union_pt(&b, &i.centroid);
    }
    b
}

#[test]
fn primitive_info_has_the_centre_of_its_bound() {
    let b = Bounds3f::init(&Point3::new(0, -3, 10), &Point3::new(4, 4, 11));
    let info = BVHPrimitiveInfo::init(9, b);
    assert_eq!(info.primitive_num, 9);
    assert_eq!(info.bounds, b);
    // the centre is rounded towards the lower corner
    assert_eq!(info.centroid, Point3::new(2, 0, 10));
    let wide = Bounds3f::init(
        &Point3::new(i32::MIN, i32::MIN, i32::MIN),
        &Point3::new(i32::MAX, i32::MAX, i32::MAX),
    );
    assert_eq!(BVHPrimitiveInfo::init(0, wide).centroid, Point3::new(-1, -1, -1));
    // an empty bound has its corners the wrong way round
    assert_eq!(BVHPrimitiveInfo::init(0, Bounds3f::new()).centroid, Point3::new(0, 0, 0));
}

#[test]
fn buckets_divide_the_extent_in_twelve() {
    let cb = Bounds3f::init(&Point3::new(0, 0, 0), &Point3::new(120, 7, 7));
    assert_eq!(N_BUCKETS, 12);
    assert_eq!(bucket_index(&cb, 0, &Point3::new(0, 0, 0)), 0);
    assert_eq!(bucket_index(&cb, 0, &Point3::new(9, 0, 0)), 0);
    assert_eq!(bucket_index(&cb, 0, &Point3::new(10, 0, 0)), 1);
    assert_eq!(bucket_index(&cb, 0, &Point3::new(59, 0, 0)), 5);
    assert_eq!(bucket_index(&cb, 0, &Point3::new(60, 0, 0)), 6);
    assert_eq!(bucket_index(&cb, 0, &Point3::new(119, 0, 0)), 11);
    assert_eq!(bucket_index(&cb, 0, &Point3::new(120, 0, 0)), 11);
    assert_eq!(bucket_index(&cb, 1, &Point3::new(0, 7, 0)), 11);
    assert_eq!(bucket_index(&cb, 2, &Point3::new(0, 0, 3)), 5);
    // the buckets are cut exactly, where the rounded position falls short
    let odd = Bounds3f::init(&Point3::new(0, 0, 0), &Point3::new(3, 0, 0));
    assert_eq!(odd.offset(&Point3::new(1, 0, 0)).x, PARAM_SCALE / 3);
    assert_eq!(bucket_index(&odd, 0, &Point3::new(1, 0, 0)), 4);
    assert_eq!(bucket_index(&odd, 0, &Point3::new(2, 0, 0)), 8);
    let widest = Bounds3f::init(&Point3::new(i32::MIN, 0, 0), &Point3::new(i32::MAX, 0, 0));
    assert_eq!(bucket_index(&widest, 0, &Point3::new(-1, 0, 0)), 5);
    assert_eq!(bucket_index(&widest, 0, &Point3::new(0, 0, 0)), 6);
    assert_eq!(bucket_index(&widest, 0, &Point3::new(i32::MAX, 0, 0)), 11);
}

#[test]
fn buckets_are_filled_with_counts_and_bounds() {
    let infos = infos_along_x(&[0, 5, 10, 59, 60, 120, 119, 7]);
    let cb = centroid_box(&infos);
    let buckets = fill_buckets(&infos, 0, infos.len(), &cb, 0);
    assert_eq!(buckets.len(), 12);
    let counts: Vec<usize> = buckets.iter().map(|b| b.count).collect();
    assert_eq!(counts, vec![3, 1, 0, 0, 0, 1, 1, 0, 0, 0, 0, 2]);
    assert_eq!(buckets[0].bounds, Bounds3f::init(&Point3::new(-1, -1, -1), &Point3::new(8, 1, 1)));
    assert_eq!(buckets[2].bounds, Bounds3f::new());
    assert_eq!(buckets[11].bounds, Bounds3f::init(&Point3::new(118, -1, -1), &Point3::new(121, 1, 1)));
    // only a part of the list
    let part = fill_buckets(&infos, 1, 4, &cb, 0);
    let counts: Vec<usize> = part.iter().map(|b| b.count).collect();
    assert_eq!(counts, vec![1, 1, 0, 0, 0, 1, 0, 0, 0, 0, 0, 0]);
}

#[test]
fn split_costs_weigh_counts_by_areas() {
    let infos = infos_along_x(&[0, 5, 10, 59, 60, 120, 119, 7]);
    let cb = centroid_box(&infos);
    let buckets = fill_buckets(&infos, 0, infos.len(), &cb, 0);
    let cost = split_costs(&buckets, infos.len());
    assert_eq!(cost.len(), 11);
    let area = |lo: i32, hi: i32| -> i128 {
        Bounds3f::init(&Point3::new(lo, -1, -1), &Point3::new(hi, 1, 1)).surface_area()
    };
    assert_eq!(area(-1, 8), 2 * (9 * 2 + 9 * 2 + 2 * 2));
    // after bucket 0: three objects from -1 to 8, five from 9 to 121
    assert_eq!(cost[0], 3 * area(-1, 8) + 5 * area(9, 121));
    // after bucket 1: four objects from -1 to 11, four from 58 to 121
    assert_eq!(cost[1], 4 * area(-1, 11) + 4 * area(58, 121));
    assert_eq!(cost[2], cost[1]);
    assert_eq!(cost[4], cost[1]);
    // after bucket 5: five from -1 to 60, three from 59 to 121
    assert_eq!(cost[5], 5 * area(-1, 60) + 3 * area(59, 121));
    // after bucket 10: six from -1 to 61, two from 118 to 121
    assert_eq!(cost[10], 6 * area(-1, 61) + 2 * area(118, 121));
    let least = cost.iter().min().unwrap();
    assert_eq!(*least, cost[1]);
}

#[test]
fn a_split_must_cost_less_than_a_leaf() {
    // 1/8 + cost / area < n
    assert!(split_is_cheaper(100, 50, 3));
    assert!(!split_is_cheaper(150, 50, 3));
    // 1/8 + 2.875 = 3 is not below 3
    assert!(!split_is_cheaper(23, 8, 3));
    assert!(split_is_cheaper(22, 8, 3));
    // without an area nothing is cheaper
    assert!(!split_is_cheaper(0, 0, 5));
    // a negative area turns the comparison round
    assert!(split_is_cheaper(-100, -50, 3));
    assert!(!split_is_cheaper(-200, -50, 3));
    assert_eq!(MAX_PRIMITIVES, 1u64 << 56);
}

#[test]
fn swapping_two_entries() {
    let mut infos = infos_along_x(&[10, 20, 30]);
    swap_infos(&mut infos, 0, 2);
    let nums: Vec<usize> = infos.iter().map(|i| i.primitive_num).collect();
    assert_eq!(nums, vec![2, 1, 0]);
    swap_infos(&mut infos, 1, 1);
    let nums: Vec<usize> = infos.iter().map(|i| i.primitive_num).collect();
    assert_eq!(nums, vec![2, 1, 0]);
}

#[test]
fn selection_puts_the_nth_in_its_place() {
    let xs = [50, 10, 40, 30, 20, 60, 0];
    for nth in 0..5 {
        let mut infos = infos_along_x(&xs);
        select_nth_by_axis(&mut infos, 1, 6, nth, 0);
        // the ends are not touched
        assert_eq!(infos[0].primitive_num, 0);
        assert_eq!(infos[6].primitive_num, 6);
        let keys: Vec<i32> = infos[1..6].iter().map(|i| i.centroid.x).collect();
        let mut sorted = keys.clone();
        sorted.sort();
        assert_eq!(sorted, vec![10, 20, 30, 40, 60]);
        assert_eq!(keys[nth], sorted[nth]);
        for i in 0..nth {
            assert!(keys[i] <= keys[nth]);
        }
        for i in nth..5 {
            assert!(keys[nth] <= keys[i]);
        }
    }
    // along another axis
    let mut infos: Vec<BVHPrimitiveInfo> =
        [3, 1, 2].iter().enumerate().map(|(i, y)| BVHPrimitiveInfo::init(i, cube(0, *y, 0, 1))).collect();
    select_nth_by_axis(&mut infos, 0, 3, 1, 1);
    assert_eq!(infos[1].centroid.y, 2);
    assert_eq!(infos[0].centroid.y, 1);
    assert_eq!(infos[2].centroid.y, 3);
}

#[test]
fn partition_parts_the_buckets() {
    let xs = [119, 0, 60, 5, 120, 10, 59, 7];
    let mut infos = infos_along_x(&xs);
    let cb = centroid_box(&infos);
    let mid = partition_by_bucket(&mut infos, 0, 8, &cb, 0, 1);
    assert_eq!(mid, 4);
    let mut low: Vec<i32> = infos[..mid].iter().map(|i| i.centroid.x).collect();
    let mut high: Vec<i32> = infos[mid..].iter().map(|i| i.centroid.x).collect();
    low.sort();
    high.sort();
    assert_eq!(low, vec![0, 5, 7, 10]);
    assert_eq!(high, vec![59, 60, 119, 120]);
    // every bucket below: nothing moves to the upper part
    let mut infos = infos_along_x(&xs);
    let mid = partition_by_bucket(&mut infos, 0, 8, &cb, 0, 11);
    assert_eq!(mid, 8);
    // an empty range
    let mid = partition_by_bucket(&mut infos, 3, 3, &cb, 0, 5);
    assert_eq!(mid, 3);
    // a part of the list only
    let mut infos = infos_along_x(&xs);
    let mid = partition_by_bucket(&mut infos, 2, 6, &cb, 0, 5);
    assert_eq!(mid, 4);
    assert_eq!(infos[0].centroid.x, 119);
    assert_eq!(infos[7].centroid.x, 7);
}

#[test]
fn build_nodes_as_leaf_and_as_inner_node() {
    let mut n = BVHBuildNode::new();
    assert_eq!((n.bounds, n.split_axis, n.first_prim_offset, n.n_primitives), (Bounds3f::new(), 0, 0, 0));
    assert!(n.left.is_none() && n.right.is_none());
    let b = cube(0, 0, 0, 1);
    n.init_leaf(4, 3, b);
    assert_eq!((n.bounds, n.first_prim_offset, n.n_primitives), (b, 4, 3));
    assert!(n.left.is_none() && n.right.is_none());

    let mut left = BVHBuildNode::new();
    left.init_leaf(0, 1, cube(0, 0, 0, 1));
    let mut right = BVHBuildNode::new();
    right.init_leaf(1, 2, cube(10, 0, 0, 2));
    let mut top = BVHBuildNode::new();
    top.init_interior(2, Some(Box::new(left)), Some(Box::new(right)));
    assert_eq!(top.split_axis, 2);
    assert_eq!(top.n_primitives, 0);
    assert_eq!(top.bounds, Bounds3f::init(&Point3::new(-1, -2, -2), &Point3::new(12, 2, 2)));
    assert_eq!(top.left.as_ref().unwrap().n_primitives, 1);
    assert_eq!(top.right.as_ref().unwrap().n_primitives, 2);

    // one child only: its bound; no child: the node keeps its own
    let mut only = BVHBuildNode::new();
    only.init_leaf(0, 1, b);
    let mut one = BVHBuildNode::new();
    one.init_interior(1, None, Some(Box::new(only)));
    assert_eq!(one.bounds, b);
    assert!(one.left.is_none());
    let mut only = BVHBuildNode::new();
    only.init_leaf(0, 1, b);
    let mut other = BVHBuildNode::new();
    other.init_interior(1, Some(Box::new(only)), None);
    assert_eq!(other.bounds, b);
    let mut none = BVHBuildNode::new();
    none.init_leaf(7, 2, b);
    none.init_interior(0, None, None);
    assert_eq!(none.bounds, b);
    assert_eq!(none.n_primitives, 0);
    assert_eq!(none.first_prim_offset, 7);
}

#[test]
fn linear_node_starts_blank() {
    let n = LinearBVHNode::new();
    assert_eq!(n.bounds, Bounds3f::new());
    assert_eq!(n.primitives_offset, None);
    assert_eq!(n.second_child_offset, None);
    assert_eq!(n.n_primitives, 0);
    assert_eq!(n.axis, 0);
}

#[test]
fn sequence_index_splits_in_two_halves() {
    assert_eq!(sequence_seed(0x1234_5678_9abc_def0), 0x9abc_def0);
    assert_eq!(sequence_stream(0x1234_5678_9abc_def0), 0x1234_5678);
    assert_eq!(sequence_seed(7), 7);
    assert_eq!(sequence_stream(7), 0);
    assert_eq!(sequence_seed(u64::MAX), 0xffff_ffff);
    assert_eq!(sequence_stream(u64::MAX), 0xffff_ffff);
}

#[test]
fn bounded_samples_reject_the_short_round() {
    // 2^32 = 1431655765 * 3 + 1
    assert_eq!(bounded_threshold(3), 1);
    assert_eq!(bounded_sample(0, 3), None);
    assert_eq!(bounded_sample(1, 3), Some(1));
    assert_eq!(bounded_sample(5, 3), Some(2));
    assert_eq!(bounded_sample(u32::MAX, 3), Some(0));
    // a power of two divides 2^32: nothing is rejected
    assert_eq!(bounded_threshold(16), 0);
    assert_eq!(bounded_sample(0, 16), Some(0));
    assert_eq!(bounded_sample(35, 16), Some(3));
    assert_eq!(bounded_threshold(1), 0);
    assert_eq!(bounded_sample(12345, 1), Some(0));
    assert_eq!(bounded_threshold(u32::MAX), 1);
    assert_eq!(bounded_sample(0, u32::MAX), None);
    assert_eq!(bounded_sample(u32::MAX, u32::MAX), Some(0));
    // 2^32 = 2 * 2147483649 - 2, so 2^32 mod 2147483649 is 2147483647
    assert_eq!(bounded_threshold(2147483649), 2147483647);
}
