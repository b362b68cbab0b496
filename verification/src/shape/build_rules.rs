use vstd::prelude::*;
use crate::geometry::bounding_box_3::Bounds3f;
use crate::shape::primitive_info::{
    centroid_bounds, join_bounds, join_centroid, lemma_fold_perm, lemma_fold_similar,
    lemma_join_commutes, lemma_perm_contains, range_bounds, respects_similar, same_entries, similar,
    similar_on, BVHPrimitiveInfo,
};
use crate::shape::split::{
    best_split, box_step, bucket_box, bucket_boxes, bucket_count, bucket_counts, bucket_of,
    cheaper_than_leaf, count_step, key_of, lemma_buckets_perm, split_cost,
};

verus! {

/// The axis along which the range `s..e` is split: the longest axis of the
/// box around the centres.
pub open spec fn split_dim(infos: Seq<BVHPrimitiveInfo>, s: int, e: int) -> int {
    centroid_bounds(infos, s, e).longest_axis()
}

/// The bucket after which the range `s..e` is split at the least cost.
pub open spec fn sah_best(infos: Seq<BVHPrimitiveInfo>, s: int, e: int) -> int {
    let cb = centroid_bounds(infos, s, e);
    let dim = cb.longest_axis();
    best_split(
        bucket_counts(infos, s, e, cb, dim),
        bucket_boxes(infos, s, e, cb, dim),
        range_bounds(infos, s, e).area(),
        11,
    )
}

/// The range `s..e` of more than four objects is split rather than kept as
/// one leaf: it holds more objects than a leaf may, or the best split costs
/// less than a leaf.
pub open spec fn sah_splits(infos: Seq<BVHPrimitiveInfo>, s: int, e: int, max_prims: int) -> bool {
    let cb = centroid_bounds(infos, s, e);
    let dim = cb.longest_axis();
    let counts = bucket_counts(infos, s, e, cb, dim);
    let boxes = bucket_boxes(infos, s, e, cb, dim);
    e - s > max_prims || cheaper_than_leaf(
        split_cost(counts, boxes, sah_best(infos, s, e)),
        range_bounds(infos, s, e).area(),
        e - s,
    )
}

/// The range `s..e` becomes a leaf: it holds one object, or all its centres
/// agree along the split axis, or it holds more than four objects and the
/// cost model keeps them together.
pub open spec fn makes_leaf(infos: Seq<BVHPrimitiveInfo>, s: int, e: int, max_prims: int) -> bool {
    let cb = centroid_bounds(infos, s, e);
    let dim = cb.longest_axis();
    e - s == 1 || cb.p_max.coord(dim) == cb.p_min.coord(dim) || (e - s > 4 && !sah_splits(
        infos,
        s,
        e,
        max_prims,
    ))
}

/// The range `s..e` is split at `mid` as the rules ask. Up to four objects
/// are split in the middle, with no centre of the lower part beyond a centre
/// of the upper part; more are split by their buckets, those up to the best
/// bucket below and the others above.
pub open spec fn split_is_valid(infos: Seq<BVHPrimitiveInfo>, s: int, mid: int, e: int) -> bool {
    let cb = centroid_bounds(infos, s, e);
    let dim = cb.longest_axis();
    if e - s <= 4 {
        &&& mid == (s + e) / 2
        &&& forall|i: int, j: int|
            s <= i < mid && mid <= j < e ==> key_of(#[trigger] infos[i], dim) <= key_of(
                #[trigger] infos[j],
                dim,
            )
    } else {
        &&& forall|i: int|
            s <= i < mid ==> bucket_of(cb, dim, (#[trigger] infos[i]).centroid) <= sah_best(
                infos,
                s,
                e,
            )
        &&& forall|i: int|
            mid <= i < e ==> bucket_of(cb, dim, (#[trigger] infos[i]).centroid) > sah_best(
                infos,
                s,
                e,
            )
    }
}

/// The steps that fill the buckets cannot tell similar entries apart.
pub proof fn lemma_bucket_steps_similar(cb: Bounds3f, dim: int, k: int)
    ensures
        respects_similar(count_step(cb, dim, k)),
        respects_similar(box_step(cb, dim, k)),
{
    let f = count_step(cb, dim, k);
    assert forall|v: int, x: BVHPrimitiveInfo, y: BVHPrimitiveInfo| similar(x, y) implies #[trigger] f(
        v,
        x,
    ) == #[trigger] f(v, y) by {}
    let g = box_step(cb, dim, k);
    assert forall|v: Bounds3f, x: BVHPrimitiveInfo, y: BVHPrimitiveInfo| similar(x, y) implies #[trigger] g(
        v,
        x,
    ) == #[trigger] g(v, y) by {}
}

/// What the rules read of a range does not depend on the order of its
/// entries.
pub proof fn lemma_rules_perm(
    a: Seq<BVHPrimitiveInfo>,
    b: Seq<BVHPrimitiveInfo>,
    s: int,
    e: int,
    max_prims: int,
)
    requires
        same_entries(a, b, s, e),
    ensures
        range_bounds(a, s, e) == range_bounds(b, s, e),
        centroid_bounds(a, s, e) == centroid_bounds(b, s, e),
        split_dim(a, s, e) == split_dim(b, s, e),
        sah_best(a, s, e) == sah_best(b, s, e),
        sah_splits(a, s, e, max_prims) == sah_splits(b, s, e, max_prims),
        makes_leaf(a, s, e, max_prims) == makes_leaf(b, s, e, max_prims),
{
    lemma_join_commutes();
    lemma_fold_perm(a, b, s, e, Bounds3f::empty(), join_bounds());
    lemma_fold_perm(a, b, s, e, Bounds3f::empty(), join_centroid());
    let cb = centroid_bounds(a, s, e);
    lemma_buckets_perm(a, b, s, e, cb, cb.longest_axis());
}

/// What the rules read of a range is the same for two lists with similar
/// entries.
pub proof fn lemma_rules_similar(
    a: Seq<BVHPrimitiveInfo>,
    b: Seq<BVHPrimitiveInfo>,
    s: int,
    e: int,
    max_prims: int,
)
    requires
        similar_on(a, b, s, e),
    ensures
        range_bounds(a, s, e) == range_bounds(b, s, e),
        centroid_bounds(a, s, e) == centroid_bounds(b, s, e),
        split_dim(a, s, e) == split_dim(b, s, e),
        sah_best(a, s, e) == sah_best(b, s, e),
        sah_splits(a, s, e, max_prims) == sah_splits(b, s, e, max_prims),
        makes_leaf(a, s, e, max_prims) == makes_leaf(b, s, e, max_prims),
{
    lemma_join_commutes();
    lemma_fold_similar(a, b, s, e, Bounds3f::empty(), join_bounds());
    lemma_fold_similar(a, b, s, e, Bounds3f::empty(), join_centroid());
    let cb = centroid_bounds(a, s, e);
    let dim = cb.longest_axis();
    assert forall|k: int| 0 <= k < 12 implies bucket_count(a, s, e, cb, dim, k) == bucket_count(
        b,
        s,
        e,
        cb,
        dim,
        k,
    ) && bucket_box(a, s, e, cb, dim, k) == bucket_box(b, s, e, cb, dim, k) by {
        lemma_bucket_steps_similar(cb, dim, k);
        lemma_fold_similar(a, b, s, e, 0int, count_step(cb, dim, k));
        lemma_fold_similar(a, b, s, e, Bounds3f::empty(), box_step(cb, dim, k));
    }
    assert(bucket_counts(a, s, e, cb, dim) =~= bucket_counts(b, s, e, cb, dim));
    assert(bucket_boxes(a, s, e, cb, dim) =~= bucket_boxes(b, s, e, cb, dim));
}

/// A valid split stays valid when each of its two parts is rearranged.
pub proof fn lemma_split_valid_perm(
    a: Seq<BVHPrimitiveInfo>,
    b: Seq<BVHPrimitiveInfo>,
    s: int,
    mid: int,
    e: int,
)
    requires
        same_entries(a, b, s, mid),
        same_entries(a, b, mid, e),
        same_entries(a, b, s, e),
        split_is_valid(a, s, mid, e),
    ensures
        split_is_valid(b, s, mid, e),
{
    lemma_rules_perm(a, b, s, e, 0);
    let cb = centroid_bounds(a, s, e);
    let dim = cb.longest_axis();
    if e - s <= 4 {
        assert forall|i: int, j: int| s <= i < mid && mid <= j < e implies key_of(
            #[trigger] b[i],
            dim,
        ) <= key_of(#[trigger] b[j], dim) by {
            let i0 = lemma_perm_contains(a, b, s, mid, i);
            let j0 = lemma_perm_contains(a, b, mid, e, j);
            assert(key_of(a[i0], dim) <= key_of(a[j0], dim));
        }
    } else {
        assert forall|i: int| s <= i < mid implies bucket_of(cb, dim, (#[trigger] b[i]).centroid)
            <= sah_best(b, s, e) by {
            let i0 = lemma_perm_contains(a, b, s, mid, i);
            assert(bucket_of(cb, dim, a[i0].centroid) <= sah_best(a, s, e));
        }
        assert forall|i: int| mid <= i < e implies bucket_of(cb, dim, (#[trigger] b[i]).centroid)
            > sah_best(b, s, e) by {
            let i0 = lemma_perm_contains(a, b, mid, e, i);
            assert(bucket_of(cb, dim, a[i0].centroid) > sah_best(a, s, e));
        }
    }
}

/// A valid split is valid for any list with similar entries.
pub proof fn lemma_split_valid_similar(
    a: Seq<BVHPrimitiveInfo>,
    b: Seq<BVHPrimitiveInfo>,
    s: int,
    mid: int,
    e: int,
)
    requires
        similar_on(a, b, s, e),
        s <= mid <= e,
        split_is_valid(a, s, mid, e),
    ensures
        split_is_valid(b, s, mid, e),
{
    lemma_rules_similar(a, b, s, e, 0);
    let cb = centroid_bounds(a, s, e);
    let dim = cb.longest_axis();
    if e - s <= 4 {
        assert forall|i: int, j: int| s <= i < mid && mid <= j < e implies key_of(
            #[trigger] b[i],
            dim,
        ) <= key_of(#[trigger] b[j], dim) by {
            assert(similar(a[i], b[i]));
            assert(similar(a[j], b[j]));
            assert(key_of(a[i], dim) <= key_of(a[j], dim));
        }
    } else {
        assert forall|i: int| s <= i < mid implies bucket_of(cb, dim, (#[trigger] b[i]).centroid)
            <= sah_best(b, s, e) by {
            assert(similar(a[i], b[i]));
            assert(bucket_of(cb, dim, a[i].centroid) <= sah_best(a, s, e));
        }
        assert forall|i: int| mid <= i < e implies bucket_of(cb, dim, (#[trigger] b[i]).centroid)
            > sah_best(b, s, e) by {
            assert(similar(a[i], b[i]));
            assert(bucket_of(cb, dim, a[i].centroid) > sah_best(a, s, e));
        }
    }
}

/// Objects whose centres all coincide are kept together in one leaf.
pub proof fn lemma_same_centroids_make_leaf(
    infos: Seq<BVHPrimitiveInfo>,
    s: int,
    e: int,
    max_prims: int,
)
    requires
        0 <= s < e <= infos.len(),
        forall|i: int, j: int|
            s <= i < e && s <= j < e ==> (#[trigger] infos[i]).centroid == (
            #[trigger] infos[j]).centroid,
    ensures
        makes_leaf(infos, s, e, max_prims),
{
    let cb = centroid_bounds(infos, s, e);
    let dim = cb.longest_axis();
    let (k0, k1) = crate::shape::primitive_info::lemma_centroid_bounds_touch(infos, s, e, dim);
    assert(infos[k0].centroid == infos[k1].centroid);
}

} // verus!
