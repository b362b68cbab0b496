use vstd::prelude::*;
use std::sync::Arc;
use vstd::multiset::Multiset;
use vstd::seq_lib::{commutative_foldl, lemma_fold_left_permutation, lemma_multiset_commutative};
use crate::geometry::bounding_box_3::Bounds3f;
use crate::geometry::vector::Point3;

verus! {

/// What the builder keeps of one object while it sorts the objects into a
/// tree: its place in the list that was handed in, its bound and the centre
/// of that bound.
#[derive(Clone, Copy, PartialEq, Eq, Structural, Debug)]
pub struct BVHPrimitiveInfo {
    pub primitive_num: usize,
    pub bounds: Bounds3f,
    pub centroid: Point3,
}

/// The point halfway from `a` to `b`, rounded towards `a`.
pub open spec fn midpoint(a: int, b: int) -> int {
    if b >= a {
        a + (b - a) / 2
    } else {
        a - (a - b) / 2
    }
}

/// The centre of a box, each coordinate rounded towards `p_min`.
pub open spec fn center_of(b: Bounds3f) -> Point3 {
    Point3 {
        x: midpoint(b.p_min.x as int, b.p_max.x as int) as i32,
        y: midpoint(b.p_min.y as int, b.p_max.y as int) as i32,
        z: midpoint(b.p_min.z as int, b.p_max.z as int) as i32,
    }
}

fn mid_i32(a: i32, b: i32) -> (m: i32)
    ensures
        m == midpoint(a as int, b as int),
{
    if b >= a {
        let half: i64 = (b as i64 - a as i64) / 2;
        (a as i64 + half) as i32
    } else {
        let half: i64 = (a as i64 - b as i64) / 2;
        (a as i64 - half) as i32
    }
}

impl BVHPrimitiveInfo {
    /// The entry of the object `primitive_num` with the bound `bounds`.
    pub fn init(primitive_num: usize, bounds: Bounds3f) -> (r: Self)
        ensures
            r == (BVHPrimitiveInfo { primitive_num, bounds, centroid: center_of(bounds) }),
    {
        let centroid = Point3 {
            x: mid_i32(bounds.p_min.x, bounds.p_max.x),
            y: mid_i32(bounds.p_min.y, bounds.p_max.y),
            z: mid_i32(bounds.p_min.z, bounds.p_max.z),
        };
        Self { primitive_num, bounds, centroid }
    }
}

/// The result of folding `f` over the entries `s..e` of the list, from `init`.
pub open spec fn fold_range<B>(
    infos: Seq<BVHPrimitiveInfo>,
    s: int,
    e: int,
    init: B,
    f: spec_fn(B, BVHPrimitiveInfo) -> B,
) -> B {
    infos.subrange(s, e).fold_left(init, f)
}

/// Folding over no entries gives the start value.
pub proof fn lemma_fold_empty<B>(
    infos: Seq<BVHPrimitiveInfo>,
    s: int,
    init: B,
    f: spec_fn(B, BVHPrimitiveInfo) -> B,
)
    requires
        0 <= s <= infos.len(),
    ensures
        fold_range(infos, s, s, init, f) == init,
{
}

/// Folding over one more entry applies `f` once more.
pub proof fn lemma_fold_step<B>(
    infos: Seq<BVHPrimitiveInfo>,
    s: int,
    e: int,
    init: B,
    f: spec_fn(B, BVHPrimitiveInfo) -> B,
)
    requires
        0 <= s <= e < infos.len(),
    ensures
        fold_range(infos, s, e + 1, init, f) == f(fold_range(infos, s, e, init, f), infos[e]),
{
    assert(infos.subrange(s, e + 1).drop_last() == infos.subrange(s, e));
}

/// The lists `a` and `b` hold the same entries in the places `s..e`, in
/// whatever order.
pub open spec fn same_entries(a: Seq<BVHPrimitiveInfo>, b: Seq<BVHPrimitiveInfo>, s: int, e: int) -> bool {
    &&& a.len() == b.len()
    &&& 0 <= s <= e <= a.len()
    &&& a.subrange(s, e).to_multiset() == b.subrange(s, e).to_multiset()
}

/// The lists `a` and `b` hold the same entries in the places `s..e`, in
/// whatever order, and agree everywhere else.
pub open spec fn perm_on(a: Seq<BVHPrimitiveInfo>, b: Seq<BVHPrimitiveInfo>, s: int, e: int) -> bool {
    &&& same_entries(a, b, s, e)
    &&& forall|i: int| 0 <= i < a.len() && !(s <= i < e) ==> a[i] == b[i]
}

/// Two entries that the builder cannot tell apart: they have the same bound
/// and the same centre.
pub open spec fn similar(x: BVHPrimitiveInfo, y: BVHPrimitiveInfo) -> bool {
    x.bounds == y.bounds && x.centroid == y.centroid
}

/// The lists `a` and `b` have similar entries in each of the places `s..e`.
pub open spec fn similar_on(a: Seq<BVHPrimitiveInfo>, b: Seq<BVHPrimitiveInfo>, s: int, e: int) -> bool {
    &&& a.len() == b.len()
    &&& 0 <= s <= e <= a.len()
    &&& forall|i: int| s <= i < e ==> similar(#[trigger] a[i], b[i])
}

/// The step `f` gives the same result for similar entries.
pub open spec fn respects_similar<B>(f: spec_fn(B, BVHPrimitiveInfo) -> B) -> bool {
    forall|v: B, x: BVHPrimitiveInfo, y: BVHPrimitiveInfo| similar(x, y) ==> #[trigger] f(v, x) == #[trigger] f(v, y)
}

/// A fold that cannot tell similar entries apart gives the same result on
/// two lists that are similar on the range.
pub proof fn lemma_fold_similar<B>(
    a: Seq<BVHPrimitiveInfo>,
    b: Seq<BVHPrimitiveInfo>,
    s: int,
    e: int,
    init: B,
    f: spec_fn(B, BVHPrimitiveInfo) -> B,
)
    requires
        similar_on(a, b, s, e),
        respects_similar(f),
    ensures
        fold_range(a, s, e, init, f) == fold_range(b, s, e, init, f),
    decreases e - s,
{
    if s < e {
        lemma_fold_similar(a, b, s, e - 1, init, f);
        lemma_fold_step(a, s, e - 1, init, f);
        lemma_fold_step(b, s, e - 1, init, f);
        assert(similar(a[e - 1], b[e - 1]));
    } else {
        lemma_fold_empty(a, s, init, f);
        lemma_fold_empty(b, s, init, f);
    }
}

/// Two ranges that join, each with the same entries in both lists, make one
/// range with the same entries.
pub proof fn lemma_same_join(
    a: Seq<BVHPrimitiveInfo>,
    b: Seq<BVHPrimitiveInfo>,
    s: int,
    mid: int,
    e: int,
)
    requires
        same_entries(a, b, s, mid),
        same_entries(a, b, mid, e),
    ensures
        same_entries(a, b, s, e),
{
    let a1 = a.subrange(s, mid);
    let a2 = a.subrange(mid, e);
    let b1 = b.subrange(s, mid);
    let b2 = b.subrange(mid, e);
    assert(a.subrange(s, e) =~= a1 + a2);
    assert(b.subrange(s, e) =~= b1 + b2);
    lemma_multiset_commutative(a1, a2);
    lemma_multiset_commutative(b1, b2);
}

/// Lists that agree on a range have the same entries there.
pub proof fn lemma_same_local(a: Seq<BVHPrimitiveInfo>, b: Seq<BVHPrimitiveInfo>, s: int, e: int)
    requires
        a.len() == b.len(),
        0 <= s <= e <= a.len(),
        forall|i: int| s <= i < e ==> a[i] == b[i],
    ensures
        same_entries(a, b, s, e),
{
    assert(a.subrange(s, e) =~= b.subrange(s, e));
}

/// A list is a rearrangement of itself.
pub proof fn lemma_perm_refl(a: Seq<BVHPrimitiveInfo>, s: int, e: int)
    requires
        0 <= s <= e <= a.len(),
    ensures
        perm_on(a, a, s, e),
{
}

/// A rearrangement of a rearrangement is a rearrangement.
pub proof fn lemma_perm_trans(
    a: Seq<BVHPrimitiveInfo>,
    b: Seq<BVHPrimitiveInfo>,
    c: Seq<BVHPrimitiveInfo>,
    s: int,
    e: int,
)
    requires
        perm_on(a, b, s, e),
        perm_on(b, c, s, e),
    ensures
        perm_on(a, c, s, e),
{
}

/// A rearrangement inside `s..e` is one inside any wider range.
pub proof fn lemma_perm_widen(
    a: Seq<BVHPrimitiveInfo>,
    b: Seq<BVHPrimitiveInfo>,
    s: int,
    e: int,
    s2: int,
    e2: int,
)
    requires
        perm_on(a, b, s, e),
        0 <= s2 <= s,
        e <= e2 <= a.len(),
    ensures
        perm_on(a, b, s2, e2),
{
    let a1 = a.subrange(s2, s);
    let a2 = a.subrange(s, e);
    let a3 = a.subrange(e, e2);
    let b1 = b.subrange(s2, s);
    let b2 = b.subrange(s, e);
    let b3 = b.subrange(e, e2);
    assert(a1 =~= b1);
    assert(a3 =~= b3);
    assert(a.subrange(s2, e2) =~= (a1 + a2) + a3);
    assert(b.subrange(s2, e2) =~= (b1 + b2) + b3);
    lemma_multiset_commutative(a1, a2);
    lemma_multiset_commutative(b1, b2);
    lemma_multiset_commutative(a1 + a2, a3);
    lemma_multiset_commutative(b1 + b2, b3);
}

/// Exchanging two entries inside `s..e` rearranges that range.
pub proof fn lemma_perm_swap(a: Seq<BVHPrimitiveInfo>, i: int, j: int, s: int, e: int)
    requires
        0 <= s <= i < e <= a.len(),
        s <= j < e,
    ensures
        perm_on(a, a.update(i, a[j]).update(j, a[i]), s, e),
{
    broadcast use vstd::multiset::group_multiset_axioms;

    let b = a.update(i, a[j]).update(j, a[i]);
    let ra = a.subrange(s, e);
    let rm = ra.update(i - s, a[j]);
    let rb = rm.update(j - s, a[i]);
    assert(b.subrange(s, e) =~= rb);
    vstd::seq_lib::to_multiset_update(ra, i - s, a[j]);
    vstd::seq_lib::to_multiset_update(rm, j - s, a[i]);
    if i == j {
        assert(rb =~= ra);
    } else {
        assert(rm[j - s] == a[j]);
        assert(ra[i - s] == a[i]);
        vstd::seq_lib::to_multiset_contains(ra, a[i]);
        vstd::seq_lib::to_multiset_contains(ra, a[j]);
        assert(ra.contains(a[i]));
        assert(ra[j - s] == a[j]);
        assert(ra.contains(a[j]));
        assert(rb.to_multiset() =~= ra.to_multiset());
    }
}

/// Every entry of a rearranged range was in the range before.
pub proof fn lemma_perm_contains(
    a: Seq<BVHPrimitiveInfo>,
    b: Seq<BVHPrimitiveInfo>,
    s: int,
    e: int,
    i: int,
) -> (j: int)
    requires
        same_entries(a, b, s, e),
        s <= i < e,
    ensures
        s <= j < e,
        a[j] == b[i],
{
    broadcast use vstd::seq_lib::group_to_multiset_ensures;

    let rb = b.subrange(s, e);
    let ra = a.subrange(s, e);
    assert(rb[i - s] == b[i]);
    assert(rb.contains(b[i]));
    assert(rb.to_multiset().count(b[i]) > 0);
    assert(ra.contains(b[i]));
    let k = choose|k: int| 0 <= k < ra.len() && ra[k] == b[i];
    k + s
}

/// A fold whose steps may be taken in any order gives the same result on a
/// rearranged range.
pub proof fn lemma_fold_perm<B>(
    a: Seq<BVHPrimitiveInfo>,
    b: Seq<BVHPrimitiveInfo>,
    s: int,
    e: int,
    init: B,
    f: spec_fn(B, BVHPrimitiveInfo) -> B,
)
    requires
        same_entries(a, b, s, e),
        commutative_foldl(f),
    ensures
        fold_range(a, s, e, init, f) == fold_range(b, s, e, init, f),
{
    lemma_fold_left_permutation(a.subrange(s, e), b.subrange(s, e), f, init);
}

/// The step that joins the bound of an entry to a box.
pub open spec fn join_bounds() -> spec_fn(Bounds3f, BVHPrimitiveInfo) -> Bounds3f {
    |b: Bounds3f, x: BVHPrimitiveInfo| Bounds3f::union_of(b, x.bounds)
}

/// The step that joins the centre of an entry to a box.
pub open spec fn join_centroid() -> spec_fn(Bounds3f, BVHPrimitiveInfo) -> Bounds3f {
    |b: Bounds3f, x: BVHPrimitiveInfo| Bounds3f::union_point_of(b, x.centroid)
}

/// The smallest box around the bounds of the entries `s..e`.
pub open spec fn range_bounds(infos: Seq<BVHPrimitiveInfo>, s: int, e: int) -> Bounds3f {
    fold_range(infos, s, e, Bounds3f::empty(), join_bounds())
}

/// The smallest box around the centres of the entries `s..e`.
pub open spec fn centroid_bounds(infos: Seq<BVHPrimitiveInfo>, s: int, e: int) -> Bounds3f {
    fold_range(infos, s, e, Bounds3f::empty(), join_centroid())
}

/// The steps that join bounds and centres may be taken in any order, and cannot
/// tell similar entries apart.
pub proof fn lemma_join_commutes()
    ensures
        commutative_foldl(join_bounds()),
        commutative_foldl(join_centroid()),
        respects_similar(join_bounds()),
        respects_similar(join_centroid()),
{
    let f = join_bounds();
    assert forall|x: BVHPrimitiveInfo, y: BVHPrimitiveInfo, v: Bounds3f| #[trigger]
        f(f(v, x), y) == f(f(v, y), x) by {}
    let g = join_centroid();
    assert forall|x: BVHPrimitiveInfo, y: BVHPrimitiveInfo, v: Bounds3f| #[trigger]
        g(g(v, x), y) == g(g(v, y), x) by {}
}

/// The box around a range is the union of the boxes around its two parts.
pub proof fn lemma_range_bounds_split(infos: Seq<BVHPrimitiveInfo>, s: int, mid: int, e: int)
    requires
        0 <= s <= mid <= e <= infos.len(),
    ensures
        range_bounds(infos, s, e) == Bounds3f::union_of(
            range_bounds(infos, s, mid),
            range_bounds(infos, mid, e),
        ),
    decreases e - mid,
{
    if mid == e {
        lemma_fold_empty(infos, mid, Bounds3f::empty(), join_bounds());
    } else {
        lemma_range_bounds_split(infos, s, mid, e - 1);
        lemma_fold_step(infos, s, e - 1, Bounds3f::empty(), join_bounds());
        lemma_fold_step(infos, mid, e - 1, Bounds3f::empty(), join_bounds());
    }
}

/// The box around a range holds the bound of each of its entries.
pub proof fn lemma_range_bounds_contains(infos: Seq<BVHPrimitiveInfo>, s: int, e: int, k: int)
    requires
        0 <= s <= k < e <= infos.len(),
    ensures
        range_bounds(infos, s, e).contains_box(infos[k].bounds),
    decreases e - s,
{
    lemma_fold_step(infos, s, e - 1, Bounds3f::empty(), join_bounds());
    if k < e - 1 {
        lemma_range_bounds_contains(infos, s, e - 1, k);
    }
}

/// The box around the centres of a range that is not empty is valid and holds
/// every centre.
pub proof fn lemma_centroid_bounds_holds(infos: Seq<BVHPrimitiveInfo>, s: int, e: int)
    requires
        0 <= s < e <= infos.len(),
    ensures
        centroid_bounds(infos, s, e).is_valid(),
        forall|k: int|
            s <= k < e ==> centroid_bounds(infos, s, e).contains_point(#[trigger] infos[k].centroid),
    decreases e - s,
{
    lemma_fold_step(infos, s, e - 1, Bounds3f::empty(), join_centroid());
    let cb = centroid_bounds(infos, s, e);
    let last = infos[e - 1];
    if e - 1 == s {
        lemma_fold_empty(infos, s, Bounds3f::empty(), join_centroid());
        assert(cb == Bounds3f::union_point_of(Bounds3f::empty(), last.centroid));
    } else {
        lemma_centroid_bounds_holds(infos, s, e - 1);
        let prev = centroid_bounds(infos, s, e - 1);
        assert(cb == Bounds3f::union_point_of(prev, last.centroid));
        assert forall|k: int| s <= k < e implies cb.contains_point(#[trigger] infos[k].centroid) by {
            if k < e - 1 {
                assert(prev.contains_point(infos[k].centroid));
            }
        }
    }
}

/// Each face of the box around the centres of a range touches one of the
/// centres: the results are a centre on the lower face and one on the upper
/// face that are normal to `axis`.
pub proof fn lemma_centroid_bounds_touch(infos: Seq<BVHPrimitiveInfo>, s: int, e: int, axis: int) -> (r:
    (int, int))
    requires
        0 <= s < e <= infos.len(),
        0 <= axis < 3,
    ensures
        s <= r.0 < e,
        s <= r.1 < e,
        infos[r.0].centroid.coord(axis) == centroid_bounds(infos, s, e).p_min.coord(axis),
        infos[r.1].centroid.coord(axis) == centroid_bounds(infos, s, e).p_max.coord(axis),
    decreases e - s,
{
    lemma_fold_step(infos, s, e - 1, Bounds3f::empty(), join_centroid());
    let cb = centroid_bounds(infos, s, e);
    let last = infos[e - 1];
    if e - 1 == s {
        lemma_fold_empty(infos, s, Bounds3f::empty(), join_centroid());
        assert(cb == Bounds3f::union_point_of(Bounds3f::empty(), last.centroid));
        (s, s)
    } else {
        let (k0, k1) = lemma_centroid_bounds_touch(infos, s, e - 1, axis);
        let prev = centroid_bounds(infos, s, e - 1);
        assert(cb == Bounds3f::union_point_of(prev, last.centroid));
        let r0 = if cb.p_min.coord(axis) == last.centroid.coord(axis) { e - 1 } else { k0 };
        let r1 = if cb.p_max.coord(axis) == last.centroid.coord(axis) { e - 1 } else { k1 };
        (r0, r1)
    }
}

/// The objects that the entries of a list name, in the order of the entries.
pub open spec fn picked<T>(prims: Seq<Arc<T>>, infos: Seq<BVHPrimitiveInfo>) -> Seq<Arc<T>> {
    Seq::new(infos.len(), |i: int| prims[infos[i].primitive_num as int])
}

/// The step that adds the object that an entry names to a collection.
pub open spec fn add_picked<T>(prims: Seq<Arc<T>>) -> spec_fn(
    Multiset<Arc<T>>,
    BVHPrimitiveInfo,
) -> Multiset<Arc<T>> {
    |m: Multiset<Arc<T>>, x: BVHPrimitiveInfo| m.insert(prims[x.primitive_num as int])
}

proof fn lemma_picked_fold<T>(prims: Seq<Arc<T>>, infos: Seq<BVHPrimitiveInfo>)
    ensures
        infos.fold_left(Multiset::empty(), add_picked(prims)) == picked(prims, infos).to_multiset(),
    decreases infos.len(),
{
    broadcast use vstd::seq_lib::group_to_multiset_ensures;

    if infos.len() == 0 {
        assert(picked(prims, infos) =~= Seq::empty());
    } else {
        lemma_picked_fold(prims, infos.drop_last());
        assert(picked(prims, infos) =~= picked(prims, infos.drop_last()).push(
            prims[infos.last().primitive_num as int],
        ));
    }
}

/// Two lists with the same entries name the same objects, each as often.
pub proof fn lemma_picked_perm<T>(
    prims: Seq<Arc<T>>,
    a: Seq<BVHPrimitiveInfo>,
    b: Seq<BVHPrimitiveInfo>,
)
    requires
        a.to_multiset() == b.to_multiset(),
    ensures
        picked(prims, a).to_multiset() == picked(prims, b).to_multiset(),
{
    broadcast use vstd::multiset::group_multiset_axioms;

    let g = add_picked(prims);
    assert forall|x: BVHPrimitiveInfo, y: BVHPrimitiveInfo, v: Multiset<Arc<T>>| #[trigger]
        g(g(v, x), y) == g(g(v, y), x) by {
        assert(g(g(v, x), y) =~= g(g(v, y), x));
    }
    lemma_fold_left_permutation(a, b, g, Multiset::empty());
    lemma_picked_fold(prims, a);
    lemma_picked_fold(prims, b);
}

} // verus!
