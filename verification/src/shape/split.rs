use vstd::prelude::*;
use vstd::seq_lib::commutative_foldl;
use crate::geometry::bounding_box_3::{lemma_product_bound, Bounds3f};
use crate::geometry::vector::Point3;
use crate::shape::primitive_info::{
    fold_range, lemma_fold_empty, lemma_fold_perm, lemma_fold_step, lemma_perm_refl,
    lemma_perm_swap, lemma_perm_trans, perm_on, same_entries, BVHPrimitiveInfo,
};

verus! {

/// The number of buckets along the split axis.
pub const N_BUCKETS: usize = 12;

/// The largest number of objects that one hierarchy is built over; with it
/// every cost of a split fits the machine.
pub const MAX_PRIMITIVES: u64 = 0x100_0000_0000_0000;

/// How many objects fell into one bucket, and the box around them.
#[derive(Clone, Copy, Debug)]
pub struct BucketInfo {
    pub count: usize,
    pub bounds: Bounds3f,
}

/// The bucket of a centre `c`: its place in the box `cb` around all centres,
/// along `dim`, where the extent of the box is cut into twelve equal parts;
/// the far face belongs to the last part. Where the box has no extent the
/// bucket is twelve times the distance from the near face.
pub open spec fn bucket_of(cb: Bounds3f, dim: int, c: Point3) -> int {
    let num = 12 * (c.coord(dim) - cb.p_min.coord(dim));
    let b = if cb.extent(dim) > 0 {
        num / cb.extent(dim)
    } else {
        num
    };
    if b == 12 {
        11
    } else {
        b
    }
}

/// A centre inside the box has one of the twelve buckets; a centre on the
/// near face has the first and one on the far face has the last.
pub proof fn lemma_bucket_range(cb: Bounds3f, dim: int, c: Point3)
    requires
        0 <= dim < 3,
        cb.extent(dim) > 0,
        cb.p_min.coord(dim) <= c.coord(dim) <= cb.p_max.coord(dim),
    ensures
        0 <= bucket_of(cb, dim, c) < 12,
        c.coord(dim) == cb.p_min.coord(dim) ==> bucket_of(cb, dim, c) == 0,
        c.coord(dim) == cb.p_max.coord(dim) ==> bucket_of(cb, dim, c) == 11,
{
    let ext = cb.extent(dim);
    let delta = c.coord(dim) - cb.p_min.coord(dim);
    let q = (12 * delta) / ext;
    assert(0 <= q <= 12 && (delta == 0 ==> q == 0) && (delta == ext ==> q == 12))
        by (nonlinear_arith)
        requires
            q == (12 * delta) / ext,
            0 <= delta <= ext,
            ext > 0,
    ;
}

/// The bucket of the centre `c` in the box `cb` around all centres, along
/// `dim`.
pub fn bucket_index(cb: &Bounds3f, dim: usize, c: &Point3) -> (b: usize)
    requires
        dim < 3,
        cb.extent(dim as int) > 0,
        cb.p_min.coord(dim as int) <= c.coord(dim as int) <= cb.p_max.coord(dim as int),
    ensures
        b == bucket_of(*cb, dim as int, *c),
        b < 12,
{
    proof {
        lemma_bucket_range(*cb, dim as int, *c);
    }
    let num: i64 = 12 * (c.get(dim) as i64 - cb.p_min.get(dim) as i64);
    let ext: i64 = cb.p_max.get(dim) as i64 - cb.p_min.get(dim) as i64;
    let mut b: usize = (num / ext) as usize;
    if b == N_BUCKETS {
        b = N_BUCKETS - 1;
    }
    b
}

/// The step that counts an entry where it falls into bucket `k`.
pub open spec fn count_step(cb: Bounds3f, dim: int, k: int) -> spec_fn(int, BVHPrimitiveInfo) -> int {
    |c: int, x: BVHPrimitiveInfo|
        if bucket_of(cb, dim, x.centroid) == k {
            c + 1
        } else {
            c
        }
}

/// The step that joins the bound of an entry where it falls into bucket `k`.
pub open spec fn box_step(cb: Bounds3f, dim: int, k: int) -> spec_fn(
    Bounds3f,
    BVHPrimitiveInfo,
) -> Bounds3f {
    |b: Bounds3f, x: BVHPrimitiveInfo|
        if bucket_of(cb, dim, x.centroid) == k {
            Bounds3f::union_of(b, x.bounds)
        } else {
            b
        }
}

/// How many of the entries `s..e` fall into bucket `k`.
pub open spec fn bucket_count(
    infos: Seq<BVHPrimitiveInfo>,
    s: int,
    e: int,
    cb: Bounds3f,
    dim: int,
    k: int,
) -> int {
    fold_range(infos, s, e, 0int, count_step(cb, dim, k))
}

/// The box around the bounds of those of the entries `s..e` that fall into
/// bucket `k`.
pub open spec fn bucket_box(
    infos: Seq<BVHPrimitiveInfo>,
    s: int,
    e: int,
    cb: Bounds3f,
    dim: int,
    k: int,
) -> Bounds3f {
    fold_range(infos, s, e, Bounds3f::empty(), box_step(cb, dim, k))
}

/// The counts of the twelve buckets.
pub open spec fn bucket_counts(infos: Seq<BVHPrimitiveInfo>, s: int, e: int, cb: Bounds3f, dim: int) -> Seq<
    int,
> {
    Seq::new(12, |k: int| bucket_count(infos, s, e, cb, dim, k))
}

/// The boxes of the twelve buckets.
pub open spec fn bucket_boxes(infos: Seq<BVHPrimitiveInfo>, s: int, e: int, cb: Bounds3f, dim: int) -> Seq<
    Bounds3f,
> {
    Seq::new(12, |k: int| bucket_box(infos, s, e, cb, dim, k))
}

/// The steps that fill the buckets may be taken in any order.
pub proof fn lemma_bucket_steps_commute(cb: Bounds3f, dim: int, k: int)
    ensures
        commutative_foldl(count_step(cb, dim, k)),
        commutative_foldl(box_step(cb, dim, k)),
{
    let f = count_step(cb, dim, k);
    assert forall|x: BVHPrimitiveInfo, y: BVHPrimitiveInfo, v: int| #[trigger]
        f(f(v, x), y) == f(f(v, y), x) by {}
    let g = box_step(cb, dim, k);
    assert forall|x: BVHPrimitiveInfo, y: BVHPrimitiveInfo, v: Bounds3f| #[trigger]
        g(g(v, x), y) == g(g(v, y), x) by {}
}

/// The buckets of a range do not depend on the order of its entries.
pub proof fn lemma_buckets_perm(
    a: Seq<BVHPrimitiveInfo>,
    b: Seq<BVHPrimitiveInfo>,
    s: int,
    e: int,
    cb: Bounds3f,
    dim: int,
)
    requires
        same_entries(a, b, s, e),
    ensures
        bucket_counts(a, s, e, cb, dim) == bucket_counts(b, s, e, cb, dim),
        bucket_boxes(a, s, e, cb, dim) == bucket_boxes(b, s, e, cb, dim),
{
    assert forall|k: int| 0 <= k < 12 implies bucket_count(a, s, e, cb, dim, k) == bucket_count(
        b,
        s,
        e,
        cb,
        dim,
        k,
    ) && bucket_box(a, s, e, cb, dim, k) == bucket_box(b, s, e, cb, dim, k) by {
        lemma_bucket_steps_commute(cb, dim, k);
        lemma_fold_perm(a, b, s, e, 0int, count_step(cb, dim, k));
        lemma_fold_perm(a, b, s, e, Bounds3f::empty(), box_step(cb, dim, k));
    }
    assert(bucket_counts(a, s, e, cb, dim) =~= bucket_counts(b, s, e, cb, dim));
    assert(bucket_boxes(a, s, e, cb, dim) =~= bucket_boxes(b, s, e, cb, dim));
}

/// The sum of the counts `lo..hi`.
pub open spec fn count_sum(counts: Seq<int>, lo: int, hi: int) -> int
    decreases hi - lo,
{
    if hi <= lo {
        0
    } else {
        count_sum(counts, lo, hi - 1) + counts[hi - 1]
    }
}

/// The box around the boxes `lo..hi`.
pub open spec fn box_join(boxes: Seq<Bounds3f>, lo: int, hi: int) -> Bounds3f
    decreases hi - lo,
{
    if hi <= lo {
        Bounds3f::empty()
    } else {
        Bounds3f::union_of(box_join(boxes, lo, hi - 1), boxes[hi - 1])
    }
}

/// A sum of counts splits at any place in between.
pub proof fn lemma_count_sum_split(counts: Seq<int>, lo: int, mid: int, hi: int)
    requires
        lo <= mid <= hi,
    ensures
        count_sum(counts, lo, hi) == count_sum(counts, lo, mid) + count_sum(counts, mid, hi),
    decreases hi - mid,
{
    if mid < hi {
        lemma_count_sum_split(counts, lo, mid, hi - 1);
    }
}

/// A sum of counts that are not negative is not negative.
pub proof fn lemma_count_sum_nonneg(counts: Seq<int>, lo: int, hi: int)
    requires
        0 <= lo <= hi <= counts.len(),
        forall|k: int| 0 <= k < counts.len() ==> counts[k] >= 0,
    ensures
        count_sum(counts, lo, hi) >= 0,
    decreases hi - lo,
{
    if lo < hi {
        lemma_count_sum_nonneg(counts, lo, hi - 1);
    }
}

/// Raising one count by one raises every sum that covers it by one.
pub proof fn lemma_count_sum_bump(counts: Seq<int>, k: int, lo: int, hi: int)
    requires
        0 <= lo <= k < hi <= counts.len(),
    ensures
        count_sum(counts.update(k, counts[k] + 1), lo, hi) == count_sum(counts, lo, hi) + 1,
    decreases hi - lo,
{
    let next = counts.update(k, counts[k] + 1);
    if k == hi - 1 {
        lemma_count_sum_same(counts, next, lo, hi - 1);
    } else {
        lemma_count_sum_bump(counts, k, lo, hi - 1);
    }
}

/// A sum of counts reads only the counts that it covers.
pub proof fn lemma_count_sum_same(a: Seq<int>, b: Seq<int>, lo: int, hi: int)
    requires
        0 <= lo <= hi <= a.len(),
        hi <= b.len(),
        forall|k: int| lo <= k < hi ==> a[k] == b[k],
    ensures
        count_sum(a, lo, hi) == count_sum(b, lo, hi),
    decreases hi - lo,
{
    if lo < hi {
        lemma_count_sum_same(a, b, lo, hi - 1);
    }
}

/// The cost of splitting after bucket `i`, without the constant part and
/// before the division by the area of the whole: the number of objects on
/// each side times the area of the box around them.
pub open spec fn split_cost(counts: Seq<int>, boxes: Seq<Bounds3f>, i: int) -> int {
    count_sum(counts, 0, i + 1) * box_join(boxes, 0, i + 1).area() + count_sum(counts, i + 1, 12)
        * box_join(boxes, i + 1, 12).area()
}

/// `a / total_area < b / total_area`; never, where the area is zero.
pub open spec fn cost_less(a: int, b: int, total_area: int) -> bool {
    (total_area > 0 && a < b) || (total_area < 0 && a > b)
}

/// The first of the splits `0..n` with the least cost.
pub open spec fn best_split(counts: Seq<int>, boxes: Seq<Bounds3f>, total_area: int, n: int) -> int
    decreases n,
{
    if n <= 1 {
        0
    } else {
        let p = best_split(counts, boxes, total_area, n - 1);
        if cost_less(split_cost(counts, boxes, n - 1), split_cost(counts, boxes, p), total_area) {
            n - 1
        } else {
            p
        }
    }
}

/// `1/8 + cost / total_area < n`: splitting costs less than a leaf of `n`
/// objects. Never, where the area is zero.
pub open spec fn cheaper_than_leaf(cost: int, total_area: int, n: int) -> bool {
    (total_area > 0 && total_area + 8 * cost < 8 * n * total_area) || (total_area < 0 && total_area
        + 8 * cost > 8 * n * total_area)
}

/// The counts of a table of buckets.
pub open spec fn counts_of(buckets: Seq<BucketInfo>) -> Seq<int> {
    Seq::new(12, |k: int| buckets[k].count as int)
}

/// The boxes of a table of buckets.
pub open spec fn boxes_of(buckets: Seq<BucketInfo>) -> Seq<Bounds3f> {
    Seq::new(12, |k: int| buckets[k].bounds)
}

/// The area of a box is at most six times the square of the widest extent.
pub proof fn lemma_area_bound(b: Bounds3f)
    ensures
        -110680464442257309696 <= b.area() <= 110680464442257309696,
{
    lemma_product_bound(b.extent(0), b.extent(1));
    lemma_product_bound(b.extent(0), b.extent(2));
    lemma_product_bound(b.extent(2), b.extent(1));
}

/// Sorts the objects of the range into the twelve buckets.
pub fn fill_buckets(
    infos: &Vec<BVHPrimitiveInfo>,
    start: usize,
    end: usize,
    cb: &Bounds3f,
    dim: usize,
) -> (buckets: Vec<BucketInfo>)
    requires
        start <= end <= infos@.len(),
        dim < 3,
        cb.extent(dim as int) > 0,
        forall|i: int| start <= i < end ==> cb.contains_point(#[trigger] infos@[i].centroid),
    ensures
        buckets@.len() == 12,
        counts_of(buckets@) == bucket_counts(infos@, start as int, end as int, *cb, dim as int),
        boxes_of(buckets@) == bucket_boxes(infos@, start as int, end as int, *cb, dim as int),
        count_sum(counts_of(buckets@), 0, 12) == end - start,
{
    let mut buckets: Vec<BucketInfo> = Vec::new();
    let mut k: usize = 0;
    while k < N_BUCKETS
        invariant
            0 <= k <= 12,
            buckets@.len() == k,
            forall|j: int| 0 <= j < k ==> (#[trigger] buckets@[j]).count == 0 && buckets@[j].bounds
                == Bounds3f::empty(),
        decreases 12 - k,
    {
        buckets.push(BucketInfo { count: 0usize, bounds: Bounds3f::new() });
        k += 1;
    }
    proof {
        assert forall|j: int| 0 <= j < 12 implies bucket_count(
            infos@,
            start as int,
            start as int,
            *cb,
            dim as int,
            j,
        ) == 0 && bucket_box(infos@, start as int, start as int, *cb, dim as int, j)
            == Bounds3f::empty() by {
            lemma_fold_empty(infos@, start as int, 0int, count_step(*cb, dim as int, j));
            lemma_fold_empty(infos@, start as int, Bounds3f::empty(), box_step(*cb, dim as int, j));
        }
        reveal_with_fuel(count_sum, 13);
        assert(count_sum(counts_of(buckets@), 0, 12) == 0);
    }
    let mut i: usize = start;
    while i < end
        invariant
            start <= i <= end <= infos@.len(),
            dim < 3,
            cb.extent(dim as int) > 0,
            forall|i: int| start <= i < end ==> cb.contains_point(#[trigger] infos@[i].centroid),
            buckets@.len() == 12,
            forall|j: int|
                0 <= j < 12 ==> (#[trigger] buckets@[j]).count == bucket_count(
                    infos@,
                    start as int,
                    i as int,
                    *cb,
                    dim as int,
                    j,
                ) && buckets@[j].bounds == bucket_box(
                    infos@,
                    start as int,
                    i as int,
                    *cb,
                    dim as int,
                    j,
                ),
            count_sum(counts_of(buckets@), 0, 12) == i - start,
        decreases end - i,
    {
        let info = infos[i];
        assert(cb.contains_point(infos@[i as int].centroid));
        let b = bucket_index(cb, dim, &info.centroid);
        let ghost before = buckets@;
        proof {
            lemma_count_sum_split(counts_of(before), 0, b as int, 12);
            lemma_count_sum_split(counts_of(before), b as int, b + 1, 12);
            lemma_count_sum_nonneg(counts_of(before), 0, b as int);
            lemma_count_sum_nonneg(counts_of(before), b + 1, 12);
            reveal_with_fuel(count_sum, 2);
            assert(count_sum(counts_of(before), b as int, b + 1) == before[b as int].count);
        }
        let mut bk = buckets[b];
        bk.count += 1;
        bk.bounds = Bounds3f::union(&bk.bounds, &info.bounds);
        buckets[b] = bk;
        proof {
            assert forall|j: int| 0 <= j < 12 implies (#[trigger] buckets@[j]).count == bucket_count(
                infos@,
                start as int,
                i + 1,
                *cb,
                dim as int,
                j,
            ) && buckets@[j].bounds == bucket_box(infos@, start as int, i + 1, *cb, dim as int, j) by {
                lemma_fold_step(infos@, start as int, i as int, 0int, count_step(*cb, dim as int, j));
                lemma_fold_step(
                    infos@,
                    start as int,
                    i as int,
                    Bounds3f::empty(),
                    box_step(*cb, dim as int, j),
                );
                assert(before[j].count == bucket_count(
                    infos@,
                    start as int,
                    i as int,
                    *cb,
                    dim as int,
                    j,
                ));
            }
            assert(counts_of(buckets@) =~= counts_of(before).update(
                b as int,
                counts_of(before)[b as int] + 1,
            ));
            lemma_count_sum_bump(counts_of(before), b as int, 0, 12);
        }
        i += 1;
    }
    proof {
        assert(counts_of(buckets@) =~= bucket_counts(
            infos@,
            start as int,
            end as int,
            *cb,
            dim as int,
        ));
        assert(boxes_of(buckets@) =~= bucket_boxes(
            infos@,
            start as int,
            end as int,
            *cb,
            dim as int,
        ));
    }
    buckets
}

/// The costs of the eleven splits between the twelve buckets.
pub fn split_costs(buckets: &Vec<BucketInfo>, n: usize) -> (cost: Vec<i128>)
    requires
        buckets@.len() == 12,
        count_sum(counts_of(buckets@), 0, 12) <= n <= MAX_PRIMITIVES,
    ensures
        cost@.len() == 11,
        forall|i: int|
            0 <= i < 11 ==> #[trigger] cost@[i] == split_cost(
                counts_of(buckets@),
                boxes_of(buckets@),
                i,
            ),
        forall|i: int|
            0 <= i < 11 ==> -(n * 110680464442257309696) <= #[trigger] cost@[i] <= n
                * 110680464442257309696,
{
    let ghost counts = counts_of(buckets@);
    let ghost boxes = boxes_of(buckets@);
    let mut cost: Vec<i128> = Vec::new();
    let mut i: usize = 0;
    while i < N_BUCKETS - 1
        invariant
            0 <= i <= 11,
            buckets@.len() == 12,
            counts == counts_of(buckets@),
            boxes == boxes_of(buckets@),
            count_sum(counts, 0, 12) <= n <= MAX_PRIMITIVES,
            cost@.len() == i,
            forall|j: int| 0 <= j < i ==> #[trigger] cost@[j] == split_cost(counts, boxes, j),
            forall|j: int|
                0 <= j < i ==> -(n * 110680464442257309696) <= #[trigger] cost@[j] <= n
                    * 110680464442257309696,
        decreases 11 - i,
    {
        let mut b0 = Bounds3f::new();
        let mut b1 = Bounds3f::new();
        let mut count_0 = 0usize;
        let mut count_1 = 0usize;

        let mut j: usize = 0;
        while j <= i
            invariant
                0 <= j <= i + 1 <= 11,
                buckets@.len() == 12,
                counts == counts_of(buckets@),
                boxes == boxes_of(buckets@),
                count_sum(counts, 0, 12) <= n,
                count_0 == count_sum(counts, 0, j as int),
                b0 == box_join(boxes, 0, j as int),
            decreases i + 1 - j,
        {
            proof {
                lemma_count_sum_split(counts, 0, j + 1, 12);
                lemma_count_sum_nonneg(counts, j + 1, 12);
            }
            b0 = Bounds3f::union(&b0, &buckets[j].bounds);
            count_0 += buckets[j].count;
            j += 1;
        }

        let mut j: usize = i + 1;
        while j < N_BUCKETS
            invariant
                i + 1 <= j <= 12,
                i < 11,
                buckets@.len() == 12,
                counts == counts_of(buckets@),
                boxes == boxes_of(buckets@),
                count_sum(counts, 0, 12) <= n,
                count_1 == count_sum(counts, i + 1, j as int),
                b1 == box_join(boxes, i + 1, j as int),
            decreases 12 - j,
        {
            proof {
                lemma_count_sum_split(counts, 0, i + 1, 12);
                lemma_count_sum_split(counts, i + 1, j + 1, 12);
                lemma_count_sum_nonneg(counts, 0, i + 1);
                lemma_count_sum_nonneg(counts, j + 1, 12);
            }
            b1 = Bounds3f::union(&b1, &buckets[j].bounds);
            count_1 += buckets[j].count;
            j += 1;
        }
        let a0 = b0.surface_area();
        let a1 = b1.surface_area();
        proof {
            lemma_area_bound(b0);
            lemma_area_bound(b1);
            lemma_count_sum_split(counts, 0, i + 1, 12);
            lemma_count_sum_nonneg(counts, 0, i + 1);
            lemma_count_sum_nonneg(counts, i + 1, 12);
            let c0 = count_0 as int;
            let c1 = count_1 as int;
            let x0 = a0 as int;
            let x1 = a1 as int;
            assert(-(c0 * 110680464442257309696) <= c0 * x0 <= c0 * 110680464442257309696)
                by (nonlinear_arith)
                requires
                    c0 >= 0,
                    -110680464442257309696 <= x0 <= 110680464442257309696,
            ;
            assert(-(c1 * 110680464442257309696) <= c1 * x1 <= c1 * 110680464442257309696)
                by (nonlinear_arith)
                requires
                    c1 >= 0,
                    -110680464442257309696 <= x1 <= 110680464442257309696,
            ;
            assert(c0 * 110680464442257309696 + c1 * 110680464442257309696 <= n
                * 110680464442257309696) by (nonlinear_arith)
                requires
                    c0 + c1 <= n,
            ;
            assert(n * 110680464442257309696 <= 0x100_0000_0000_0000 * 110680464442257309696)
                by (nonlinear_arith)
                requires
                    n <= 0x100_0000_0000_0000,
            ;
        }
        let c = (count_0 as i128) * a0 + (count_1 as i128) * a1;
        cost.push(c);
        i += 1;
    }
    cost
}

fn cost_less_exec(a: i128, b: i128, total_area: i128) -> (r: bool)
    ensures
        r == cost_less(a as int, b as int, total_area as int),
{
    (total_area > 0 && a < b) || (total_area < 0 && a > b)
}

/// The first split with the least cost.
pub(crate) fn pick_split(
    cost: &Vec<i128>,
    total_area: i128,
    Ghost(counts): Ghost<Seq<int>>,
    Ghost(boxes): Ghost<Seq<Bounds3f>>,
) -> (r: usize)
    requires
        cost@.len() == 11,
        forall|i: int| 0 <= i < 11 ==> #[trigger] cost@[i] == split_cost(counts, boxes, i),
    ensures
        r == best_split(counts, boxes, total_area as int, 11),
        r < 11,
{
    let mut min_cost = cost[0];
    let mut min_cost_bucket: usize = 0;
    let mut i: usize = 1;
    while i < N_BUCKETS - 1
        invariant
            1 <= i <= 11,
            cost@.len() == 11,
            forall|i: int| 0 <= i < 11 ==> #[trigger] cost@[i] == split_cost(counts, boxes, i),
            min_cost_bucket == best_split(counts, boxes, total_area as int, i as int),
            min_cost_bucket < i,
            min_cost == cost@[min_cost_bucket as int],
        decreases 11 - i,
    {
        if cost_less_exec(cost[i], min_cost, total_area) {
            min_cost = cost[i];
            min_cost_bucket = i;
        }
        i += 1;
    }
    min_cost_bucket
}

/// Decides whether the split of least cost is cheaper than one leaf.
pub fn split_is_cheaper(min_cost: i128, total_area: i128, n: usize) -> (r: bool)
    requires
        n <= MAX_PRIMITIVES,
        -(n * 110680464442257309696) <= min_cost <= n * 110680464442257309696,
        -110680464442257309696 <= total_area <= 110680464442257309696,
    ensures
        r == cheaper_than_leaf(min_cost as int, total_area as int, n as int),
{
    proof {
        assert(n * 110680464442257309696 <= 0x100_0000_0000_0000 * 110680464442257309696)
            by (nonlinear_arith)
            requires
                n <= 0x100_0000_0000_0000,
        ;
        assert(-(n * 110680464442257309696) <= n * total_area <= n * 110680464442257309696)
            by (nonlinear_arith)
            requires
                n >= 0,
                -110680464442257309696 <= total_area <= 110680464442257309696,
        ;
    }
    let lhs: i128 = total_area + 8 * min_cost;
    let nt: i128 = (n as i128) * total_area;
    let rhs: i128 = 8 * nt;
    proof {
        assert(8 * (n * total_area) == 8 * n * total_area) by (nonlinear_arith);
    }
    (total_area > 0 && lhs < rhs) || (total_area < 0 && lhs > rhs)
}

/// Exchanges two entries of the list.
pub fn swap_infos(infos: &mut Vec<BVHPrimitiveInfo>, i: usize, j: usize)
    requires
        i < old(infos)@.len(),
        j < old(infos)@.len(),
    ensures
        final(infos)@ == old(infos)@.update(i as int, old(infos)@[j as int]).update(
            j as int,
            old(infos)@[i as int],
        ),
{
    let a = infos[i];
    let b = infos[j];
    infos[i] = b;
    infos[j] = a;
}

/// The coordinate by which the objects are ordered along `dim`.
pub open spec fn key_of(x: BVHPrimitiveInfo, dim: int) -> int {
    x.centroid.coord(dim)
}

/// Rearranges the entries `start..end` so that the entry at `start + nth` is
/// the one that a full sort by the centre along `dim` would put there: no
/// entry before it has a larger centre and no entry after it a smaller one.
pub fn select_nth_by_axis(
    infos: &mut Vec<BVHPrimitiveInfo>,
    start: usize,
    end: usize,
    nth: usize,
    dim: usize,
)
    requires
        start <= end <= old(infos)@.len(),
        nth < end - start,
        dim < 3,
    ensures
        perm_on(old(infos)@, final(infos)@, start as int, end as int),
        forall|i: int, j: int|
            start <= i <= start + nth && i <= j < end ==> key_of(
                #[trigger] final(infos)@[i],
                dim as int,
            ) <= key_of(#[trigger] final(infos)@[j], dim as int),
{
    proof {
        lemma_perm_refl(infos@, start as int, end as int);
    }
    let mut i: usize = start;
    while i <= start + nth
        invariant
            start <= i <= start + nth + 1 <= end <= infos@.len(),
            dim < 3,
            perm_on(old(infos)@, infos@, start as int, end as int),
            forall|a: int, b: int|
                start <= a < i && a <= b < end ==> key_of(#[trigger] infos@[a], dim as int)
                    <= key_of(#[trigger] infos@[b], dim as int),
        decreases start + nth + 1 - i,
    {
        let mut m: usize = i;
        let mut j: usize = i + 1;
        while j < end
            invariant
                i <= m < j <= end <= infos@.len(),
                i < end,
                dim < 3,
                forall|b: int|
                    i <= b < j ==> key_of(infos@[m as int], dim as int) <= key_of(
                        #[trigger] infos@[b],
                        dim as int,
                    ),
            decreases end - j,
        {
            if infos[j].centroid.get(dim) < infos[m].centroid.get(dim) {
                m = j;
            }
            j += 1;
        }
        let ghost before = infos@;
        swap_infos(infos, i, m);
        proof {
            lemma_perm_swap(before, i as int, m as int, start as int, end as int);
            lemma_perm_trans(old(infos)@, before, infos@, start as int, end as int);
            assert forall|a: int, b: int| start <= a < i + 1 && a <= b < end implies key_of(
                #[trigger] infos@[a],
                dim as int,
            ) <= key_of(#[trigger] infos@[b], dim as int) by {
                let bb = if b == i { m as int } else if b == m { i as int } else { b };
                assert(infos@[b] == before[bb]);
                if a < i {
                    assert(infos@[a] == before[a]);
                    assert(key_of(before[a], dim as int) <= key_of(before[bb], dim as int));
                } else {
                    assert(infos@[a] == before[m as int]);
                    assert(key_of(before[m as int], dim as int) <= key_of(before[bb], dim as int));
                }
            }
        }
        i += 1;
    }
}

/// Rearranges the entries `start..end` so that those of the buckets up to
/// `split` come first, and returns the place where the others begin.
pub fn partition_by_bucket(
    infos: &mut Vec<BVHPrimitiveInfo>,
    start: usize,
    end: usize,
    cb: &Bounds3f,
    dim: usize,
    split: usize,
) -> (mid: usize)
    requires
        start <= end <= old(infos)@.len(),
        dim < 3,
        cb.extent(dim as int) > 0,
        forall|i: int| start <= i < end ==> cb.contains_point(#[trigger] old(infos)@[i].centroid),
    ensures
        perm_on(old(infos)@, final(infos)@, start as int, end as int),
        start <= mid <= end,
        forall|i: int|
            start <= i < mid ==> bucket_of(*cb, dim as int, (#[trigger] final(infos)@[i]).centroid)
                <= split,
        forall|i: int|
            mid <= i < end ==> bucket_of(*cb, dim as int, (#[trigger] final(infos)@[i]).centroid)
                > split,
{
    proof {
        lemma_perm_refl(infos@, start as int, end as int);
    }
    let mut left: usize = start;
    let mut right: usize = end;
    while left < right
        invariant
            start <= left <= right <= end <= infos@.len(),
            dim < 3,
            cb.extent(dim as int) > 0,
            perm_on(old(infos)@, infos@, start as int, end as int),
            forall|i: int| start <= i < end ==> cb.contains_point(#[trigger] infos@[i].centroid),
            forall|i: int|
                start <= i < left ==> bucket_of(*cb, dim as int, (#[trigger] infos@[i]).centroid)
                    <= split,
            forall|i: int|
                right <= i < end ==> bucket_of(*cb, dim as int, (#[trigger] infos@[i]).centroid)
                    > split,
        decreases right - left,
    {
        assert(cb.contains_point(infos@[left as int].centroid));
        let b_left = bucket_index(cb, dim, &infos[left].centroid);
        if b_left <= split {
            left += 1;
        } else {
            right -= 1;
            let ghost before = infos@;
            swap_infos(infos, left, right);
            proof {
                lemma_perm_swap(before, left as int, right as int, start as int, end as int);
                lemma_perm_trans(old(infos)@, before, infos@, start as int, end as int);
                assert forall|i: int| start <= i < end implies cb.contains_point(
                    #[trigger] infos@[i].centroid,
                ) by {
                    let ii = if i == left { right as int } else if i == right { left as int } else { i };
                    assert(infos@[i] == before[ii]);
                    assert(cb.contains_point(before[ii].centroid));
                }
                assert forall|i: int| right <= i < end implies bucket_of(
                    *cb,
                    dim as int,
                    (#[trigger] infos@[i]).centroid,
                ) > split by {
                    if i > right {
                        assert(infos@[i] == before[i]);
                    }
                }
                assert forall|i: int| start <= i < left implies bucket_of(
                    *cb,
                    dim as int,
                    (#[trigger] infos@[i]).centroid,
                ) <= split by {
                    assert(infos@[i] == before[i]);
                }
            }
        }
    }
    left
}

} // verus!
