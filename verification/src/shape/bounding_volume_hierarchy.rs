use vstd::prelude::*;
use std::sync::Arc;
use crate::geometry::bounding_box_3::Bounds3f;
use crate::geometry::ray_box::{lemma_holds_at_grows, lemma_slab_sound};
use crate::geometry::ray::Ray;
use crate::geometry::vector::{Point3, Vector3};
use crate::interaction::surface_interaction::SurfaceInteraction;
use crate::shape::build_node::{lemma_tree_similar, lemma_tree_size, BVHBuildNode};
use crate::shape::build_rules::{
    lemma_rules_perm, lemma_split_valid_perm, makes_leaf, sah_best, sah_splits, split_dim,
    split_is_valid,
};
use crate::shape::linear_node::{flat_ok, lemma_region_frame, node_ok, region_ok, LinearBVHNode, Span};
use crate::shape::brute_force_aggregate::{bound_among, BruteForceAggregate};
use crate::shape::build_rules::lemma_same_centroids_make_leaf;
use crate::shape::primitive::{
    first_hit_among, lemma_collection_result, lemma_first_hit_among,
    lemma_first_hit_same_objects, Primitive,
};
use crate::shape::primitive_info::{
    center_of, centroid_bounds, join_bounds, join_centroid, lemma_centroid_bounds_holds,
    lemma_centroid_bounds_touch, lemma_fold_empty, lemma_fold_step, lemma_perm_contains,
    lemma_range_bounds_contains,
    lemma_perm_refl, lemma_perm_widen, lemma_range_bounds_split, lemma_same_join,
    lemma_picked_perm, lemma_same_local, perm_on, picked, range_bounds, same_entries, similar,
    similar_on, BVHPrimitiveInfo,
};
use crate::shape::split::{
    boxes_of, counts_of, fill_buckets, lemma_area_bound,
    lemma_bucket_range, partition_by_bucket, pick_split, select_nth_by_axis, split_costs,
    split_is_cheaper, MAX_PRIMITIVES,
};

verus! {

/// How the builder divides the objects of a node.
#[derive(Clone, Copy, PartialEq, Eq, Structural, Debug)]
pub enum SplitMethod {
    SAH,
}

/// Another handle to the object behind `a`. This is `Arc::clone` of the
/// standard library, which hands out a second pointer to the same value.
#[verifier::external_body]
fn share<T>(a: &Arc<T>) -> (r: Arc<T>)
    ensures
        r == *a,
{
    Arc::clone(a)
}

/// What the builder keeps of each object of a list, in the order of the list.
pub open spec fn infos_of<P: Primitive>(prims: Seq<Arc<P>>) -> Seq<BVHPrimitiveInfo> {
    Seq::new(
        prims.len(),
        |i: int|
            BVHPrimitiveInfo {
                primitive_num: i as usize,
                bounds: prims[i].bound(),
                centroid: center_of(prims[i].bound()),
            },
    )
}

/// Every entry of the list names an object of a list of `n`.
pub open spec fn nums_below(infos: Seq<BVHPrimitiveInfo>, n: int) -> bool {
    forall|i: int| 0 <= i < infos.len() ==> (#[trigger] infos[i]).primitive_num < n
}

/// Rearranging a list keeps what its entries name.
pub proof fn lemma_perm_keeps_nums(
    a: Seq<BVHPrimitiveInfo>,
    b: Seq<BVHPrimitiveInfo>,
    s: int,
    e: int,
    n: int,
)
    requires
        perm_on(a, b, s, e),
        nums_below(a, n),
    ensures
        nums_below(b, n),
{
    assert forall|i: int| 0 <= i < b.len() implies (#[trigger] b[i]).primitive_num < n by {
        if s <= i < e {
            let j = lemma_perm_contains(a, b, s, e, i);
            assert(a[j].primitive_num < n);
        } else {
            assert(a[i] == b[i]);
        }
    }
}

/// An inner node over two subtrees that follow the rules follows the rules,
/// where the range was split as the rules ask before the subtrees were built.
pub proof fn lemma_interior_node(
    node: BVHBuildNode,
    infos0: Seq<BVHPrimitiveInfo>,
    infos1: Seq<BVHPrimitiveInfo>,
    infos2: Seq<BVHPrimitiveInfo>,
    infos3: Seq<BVHPrimitiveInfo>,
    s: int,
    m: int,
    e: int,
    max_prims: int,
)
    requires
        perm_on(infos0, infos1, s, e),
        perm_on(infos1, infos2, s, m),
        perm_on(infos2, infos3, m, e),
        s < m < e,
        !makes_leaf(infos0, s, e, max_prims),
        split_is_valid(infos1, s, m, e),
        node.n_primitives == 0,
        node.left is Some,
        node.right is Some,
        node.left->0.tree_ok(infos2, s, max_prims),
        node.left->0.prim_count() == m - s,
        node.right->0.tree_ok(infos3, m, max_prims),
        node.right->0.prim_count() == e - m,
        node.bounds == Bounds3f::union_of(node.left->0.bounds, node.right->0.bounds),
        node.split_axis == split_dim(infos0, s, e),
    ensures
        node.tree_ok(infos3, s, max_prims),
        perm_on(infos0, infos3, s, e),
        node.prim_count() == e - s,
        node.node_count() == 1 + node.left->0.node_count() + node.right->0.node_count(),
{
    let l = *node.left->0;
    let r = *node.right->0;
    // the left part is as the left subtree left it
    assert(similar_on(infos2, infos3, s, m));
    lemma_tree_similar(l, infos2, infos3, s, max_prims);
    // the whole range holds the entries that it held at the start
    lemma_perm_widen(infos1, infos2, s, m, s, e);
    lemma_perm_widen(infos2, infos3, m, e, s, e);
    assert(perm_on(infos0, infos3, s, e));
    lemma_rules_perm(infos0, infos3, s, e, max_prims);
    lemma_rules_perm(infos0, infos1, s, e, max_prims);
    // each part holds the entries that the split gave it
    lemma_same_local(infos2, infos3, s, m);
    lemma_same_local(infos1, infos2, m, e);
    assert(same_entries(infos1, infos3, s, m));
    assert(same_entries(infos1, infos3, m, e));
    lemma_same_join(infos1, infos3, s, m, e);
    lemma_split_valid_perm(infos1, infos3, s, m, e);
    lemma_range_bounds_split(infos3, s, m, e);
    assert(node.prim_count() == l.prim_count() + r.prim_count());
    assert(node.node_count() == 1 + l.node_count() + r.node_count());
}

/// What the builder leaves behind: the ordered list holds the objects that
/// were handed in, each as often as before, and the rearranged entries are
/// similar to the entries that the ordered list would give afresh.
pub proof fn lemma_ordered_list<P: Primitive>(
    prims: Seq<Arc<P>>,
    infos: Seq<BVHPrimitiveInfo>,
    ordered: Seq<Arc<P>>,
)
    requires
        prims.len() <= usize::MAX,
        perm_on(infos_of(prims), infos, 0, prims.len() as int),
        ordered.len() == prims.len(),
        nums_below(infos, prims.len() as int),
        forall|i: int|
            0 <= i < ordered.len() ==> ordered[i] == prims[(#[trigger] infos[i]).primitive_num as int],
    ensures
        ordered.to_multiset() == prims.to_multiset(),
        similar_on(infos, infos_of(ordered), 0, prims.len() as int),
{
    let init = infos_of(prims);
    let n = prims.len() as int;
    assert(init.subrange(0, n) =~= init);
    assert(infos.subrange(0, n) =~= infos);
    lemma_picked_perm(prims, init, infos);
    assert(picked(prims, init) =~= prims);
    assert(picked(prims, infos) =~= ordered);
    assert forall|i: int| 0 <= i < n implies similar(#[trigger] infos[i], infos_of(ordered)[i]) by {
        let j = lemma_perm_contains(init, infos, 0, n, i);
        assert(infos[i] == init[j]);
    }
}

/// A bounding-volume hierarchy over a list of objects.
///
/// Objects are added until `build` is called once; after that the list is
/// fixed and the hierarchy answers queries.
pub struct BVHAccel<P: Primitive> {
    max_primitives_in_node: usize,
    splitmethod: SplitMethod,
    primitives: Vec<Arc<P>>,
    nodes: Vec<LinearBVHNode>,
    is_built: bool,
}

impl<P: Primitive> BVHAccel<P> {
    /// The objects of the hierarchy: in the order in which they were added
    /// until it is built, and in the order of the leaves after that.
    pub closed spec fn objects(&self) -> Seq<Arc<P>> {
        self.primitives@
    }

    /// The flat list of nodes; empty until the hierarchy is built.
    pub closed spec fn node_list(&self) -> Seq<LinearBVHNode> {
        self.nodes@
    }

    /// `build` was called.
    pub closed spec fn built(&self) -> bool {
        self.is_built
    }

    /// The largest number of objects that the cost model may keep in a leaf.
    pub closed spec fn leaf_limit(&self) -> int {
        self.max_primitives_in_node as int
    }

    /// Appends to `ordered_primitives` the objects that the entries
    /// `start..end` name, in their order.
    fn push_ordered(
        &self,
        primitive_infos: &Vec<BVHPrimitiveInfo>,
        start: usize,
        end: usize,
        ordered_primitives: &mut Vec<Arc<P>>,
    )
        requires
            start <= end <= primitive_infos@.len(),
            nums_below(primitive_infos@, self.primitives@.len() as int),
            old(ordered_primitives)@.len() == start,
        ensures
            final(ordered_primitives)@.len() == end,
            forall|i: int|
                0 <= i < start ==> final(ordered_primitives)@[i] == old(ordered_primitives)@[i],
            forall|i: int|
                start <= i < end ==> final(ordered_primitives)@[i]
                    == self.primitives@[primitive_infos@[i].primitive_num as int],
    {
        let mut i: usize = start;
        while i < end
            invariant
                start <= i <= end <= primitive_infos@.len(),
                nums_below(primitive_infos@, self.primitives@.len() as int),
                ordered_primitives@.len() == i,
                forall|k: int| 0 <= k < start ==> ordered_primitives@[k] == old(ordered_primitives)@[k],
                forall|k: int|
                    start <= k < i ==> ordered_primitives@[k]
                        == self.primitives@[primitive_infos@[k].primitive_num as int],
            decreases end - i,
        {
            let prim_num = primitive_infos[i].primitive_num;
            assert(primitive_infos@[i as int].primitive_num < self.primitives@.len());
            ordered_primitives.push(share(&self.primitives[prim_num]));
            i += 1;
        }
    }

    /// Decides whether the entries `start..end`, which are more than one and
    /// whose centres differ along `dim`, are split, and splits them: by the
    /// middle where they are up to four, else by the cost model. The result
    /// is the place where the upper part begins, or `None` for a leaf.
    fn split_range(
        &self,
        primitive_infos: &mut Vec<BVHPrimitiveInfo>,
        start: usize,
        end: usize,
        bounds: &Bounds3f,
        centroid_bounds: &Bounds3f,
        dim: usize,
    ) -> (r: Option<usize>)
        requires
            start + 1 < end <= old(primitive_infos)@.len(),
            end - start <= MAX_PRIMITIVES,
            *bounds == range_bounds(old(primitive_infos)@, start as int, end as int),
            *centroid_bounds == crate::shape::primitive_info::centroid_bounds(
                old(primitive_infos)@,
                start as int,
                end as int,
            ),
            dim == centroid_bounds.longest_axis(),
            centroid_bounds.p_max.coord(dim as int) != centroid_bounds.p_min.coord(dim as int),
        ensures
            perm_on(old(primitive_infos)@, final(primitive_infos)@, start as int, end as int),
            r is None == makes_leaf(
                old(primitive_infos)@,
                start as int,
                end as int,
                self.max_primitives_in_node as int,
            ),
            r is None ==> final(primitive_infos)@ == old(primitive_infos)@,
            r matches Some(mid) ==> start < mid < end && split_is_valid(
                final(primitive_infos)@,
                start as int,
                mid as int,
                end as int,
            ),
    {
        let ghost infos0 = primitive_infos@;
        let ghost s = start as int;
        let ghost e = end as int;
        let ghost max_prims = self.max_primitives_in_node as int;
        let n_primitives = end - start;
        let mid: usize;
        proof {
            lemma_centroid_bounds_holds(infos0, s, e);
            lemma_perm_refl(infos0, s, e);
        }
        match self.splitmethod {
            SplitMethod::SAH => {
                if n_primitives <= 4 {
                    mid = start + (end - start) / 2;
                    select_nth_by_axis(primitive_infos, start, end, mid - start, dim);
                    proof {
                        lemma_rules_perm(infos0, primitive_infos@, s, e, max_prims);
                    }
                } else {
                    let buckets = fill_buckets(primitive_infos, start, end, centroid_bounds, dim);
                    let cost = split_costs(&buckets, n_primitives);
                    let total_area = bounds.surface_area();
                    let ghost counts = counts_of(buckets@);
                    let ghost boxes = boxes_of(buckets@);
                    let min_cost_bucket = pick_split(&cost, total_area, Ghost(counts), Ghost(boxes));
                    let min_cost = cost[min_cost_bucket];
                    proof {
                        lemma_area_bound(*bounds);
                        assert(min_cost_bucket == sah_best(infos0, s, e));
                    }

                    if n_primitives > self.max_primitives_in_node || split_is_cheaper(
                        min_cost,
                        total_area,
                        n_primitives,
                    ) {
                        assert(sah_splits(infos0, s, e, max_prims));
                        mid =
                        partition_by_bucket(
                            primitive_infos,
                            start,
                            end,
                            centroid_bounds,
                            dim,
                            min_cost_bucket,
                        );
                        proof {
                            let infos1 = primitive_infos@;
                            lemma_rules_perm(infos0, infos1, s, e, max_prims);
                            let (k0, k1) = lemma_centroid_bounds_touch(infos0, s, e, dim as int);
                            lemma_bucket_range(*centroid_bounds, dim as int, infos0[k0].centroid);
                            lemma_bucket_range(*centroid_bounds, dim as int, infos0[k1].centroid);
                            let j0 = lemma_perm_contains(infos1, infos0, s, e, k0);
                            let j1 = lemma_perm_contains(infos1, infos0, s, e, k1);
                            assert(infos1[j0] == infos0[k0]);
                            assert(infos1[j1] == infos0[k1]);
                            assert(j0 < mid);
                            assert(j1 >= mid);
                            assert(split_is_valid(infos1, s, mid as int, e));
                        }
                    } else {
                        assert(!sah_splits(infos0, s, e, max_prims));
                        return None;
                    }
                }
            },
        }
        Some(mid)
    }

    /// Builds the tree over the entries `start..end`, rearranging them so
    /// that the objects of every node are next to each other, and appends the
    /// objects to the ordered list leaf by leaf.
    fn recursively_build(
        &self,
        primitive_infos: &mut Vec<BVHPrimitiveInfo>,
        start: usize,
        end: usize,
        total_nodes: &mut usize,
        ordered_primitives: &mut Vec<Arc<P>>,
    ) -> (node: BVHBuildNode)
        requires
            start < end <= old(primitive_infos)@.len(),
            end - start <= MAX_PRIMITIVES,
            nums_below(old(primitive_infos)@, self.primitives@.len() as int),
            old(ordered_primitives)@.len() == start,
            *old(total_nodes) + 2 * (end - start) <= usize::MAX,
        ensures
            perm_on(old(primitive_infos)@, final(primitive_infos)@, start as int, end as int),
            nums_below(final(primitive_infos)@, self.primitives@.len() as int),
            node.tree_ok(final(primitive_infos)@, start as int, self.max_primitives_in_node as int),
            node.prim_count() == end - start,
            *final(total_nodes) == *old(total_nodes) + node.node_count(),
            final(ordered_primitives)@.len() == end,
            forall|i: int|
                0 <= i < start ==> final(ordered_primitives)@[i] == old(ordered_primitives)@[i],
            forall|i: int|
                start <= i < end ==> final(ordered_primitives)@[i]
                    == self.primitives@[final(primitive_infos)@[i].primitive_num as int],
        decreases end - start,
    {
        let ghost infos0 = primitive_infos@;
        let ghost s = start as int;
        let ghost e = end as int;
        let ghost max_prims = self.max_primitives_in_node as int;
        let mut node: BVHBuildNode = BVHBuildNode::new();
        *total_nodes += 1usize;

        let mut bounds: Bounds3f = Bounds3f::new();
        proof {
            lemma_fold_empty(infos0, s, Bounds3f::empty(), join_bounds());
            lemma_perm_refl(infos0, s, e);
        }
        let mut i: usize = start;
        while i < end
            invariant
                start <= i <= end <= primitive_infos@.len(),
                bounds == range_bounds(primitive_infos@, start as int, i as int),
            decreases end - i,
        {
            proof {
                lemma_fold_step(primitive_infos@, start as int, i as int, Bounds3f::empty(), join_bounds());
            }
            bounds = Bounds3f::union(&bounds, &primitive_infos[i].bounds);
            i += 1;
        }

        let n_primitives = end - start;
        if n_primitives == 1 {
            let first_prim_offset = ordered_primitives.len();
            self.push_ordered(primitive_infos, start, end, ordered_primitives);
            node.init_leaf(first_prim_offset, n_primitives, bounds);
            return node;
        }
        let mut centroid_bounds = Bounds3f::new();
        proof {
            lemma_fold_empty(infos0, s, Bounds3f::empty(), join_centroid());
        }
        let mut i: usize = start;
        while i < end
            invariant
                start <= i <= end <= primitive_infos@.len(),
                centroid_bounds == crate::shape::primitive_info::centroid_bounds(
                    primitive_infos@,
                    start as int,
                    i as int,
                ),
            decreases end - i,
        {
            proof {
                lemma_fold_step(
                    primitive_infos@,
                    start as int,
                    i as int,
                    Bounds3f::empty(),
                    join_centroid(),
                );
            }
            centroid_bounds = Bounds3f::union_pt(&centroid_bounds, &primitive_infos[i].centroid);
            i += 1;
        }

        let dim = centroid_bounds.max_extent();
        let mut mid: usize = start;
        proof {
            lemma_centroid_bounds_holds(infos0, s, e);
        }

        if centroid_bounds.p_max.get(dim) == centroid_bounds.p_min.get(dim) {
            let first_prim_offset = ordered_primitives.len();
            self.push_ordered(primitive_infos, start, end, ordered_primitives);
            node.init_leaf(first_prim_offset, n_primitives, bounds);
            return node;
        }
        match self.split_range(primitive_infos, start, end, &bounds, &centroid_bounds, dim) {
            Some(m) => {
                mid = m;
            },
            None => {
                let first_prim_offset = ordered_primitives.len();
                self.push_ordered(primitive_infos, start, end, ordered_primitives);
                node.init_leaf(first_prim_offset, n_primitives, bounds);

                return node;
            },
        }
        let ghost infos1 = primitive_infos@;
        proof {
            lemma_perm_keeps_nums(infos0, infos1, s, e, self.primitives@.len() as int);
        }

        let left_child = match start == mid {
            true => None,
            _ => Some(
                Box::new(
                    self.recursively_build(
                        primitive_infos,
                        start,
                        mid,
                        total_nodes,
                        ordered_primitives,
                    ),
                ),
            ),
        };
        let ghost infos2 = primitive_infos@;
        let ghost ordered2 = ordered_primitives@;
        proof {
            lemma_tree_size(*left_child->0, infos2, s, max_prims);
        }
        let right_child = match mid == end {
            true => None,
            false => Some(
                Box::new(
                    self.recursively_build(
                        primitive_infos,
                        mid,
                        end,
                        total_nodes,
                        ordered_primitives,
                    ),
                ),
            ),
        };
        let ghost infos3 = primitive_infos@;
        node.init_interior(dim, left_child, right_child);
        proof {
            lemma_interior_node(node, infos0, infos1, infos2, infos3, s, mid as int, e, max_prims);
            assert forall|i: int| start <= i < end implies ordered_primitives@[i]
                == self.primitives@[infos3[i].primitive_num as int] by {
                if i < mid {
                    assert(ordered_primitives@[i] == ordered2[i]);
                    assert(infos3[i] == infos2[i]);
                }
            }
        }

        return node;
    }
}

impl<P: Primitive> BVHAccel<P> {
    /// The hierarchy is sound: every object is ready, a leaf of the cost
    /// model holds at most 255 objects, and once the hierarchy is built its
    /// flat list is the tree that the rules make of its objects.
    pub closed spec fn wf(&self) -> bool {
        &&& self.max_primitives_in_node <= 255
        &&& forall|k: int| 0 <= k < self.primitives@.len() ==> (#[trigger] self.primitives@[k]).ready()
        &&& if self.is_built {
            self.is_flat_tree()
        } else {
            self.nodes@.len() == 0
        }
    }

    /// The flat list is the tree that the rules make of the objects, in
    /// their order.
    pub closed spec fn is_flat_tree(&self) -> bool {
        exists|spans: Seq<Span>|
            flat_ok(
                self.nodes@,
                spans,
                infos_of(self.primitives@),
                self.max_primitives_in_node as int,
            )
    }

    /// A hierarchy without objects. The cost model keeps at most
    /// `max_primitives_in_node` objects in a leaf, and never more than 255.
    pub fn init(max_primitives_in_node: usize, split_method: SplitMethod) -> (r: Self)
        ensures
            r.wf(),
            !r.built(),
            r.objects() == Seq::<Arc<P>>::empty(),
            r.node_list() == Seq::<LinearBVHNode>::empty(),
            r.leaf_limit() == (if max_primitives_in_node < 255 {
                max_primitives_in_node as int
            } else {
                255
            }),
    {
        Self {
            max_primitives_in_node: if max_primitives_in_node < 255 {
                max_primitives_in_node
            } else {
                255usize
            },
            splitmethod: split_method,
            primitives: Vec::new(),
            nodes: Vec::new(),
            is_built: false,
        }
    }

    /// Adds an object; once the hierarchy is built this does nothing.
    pub fn add_primitive(&mut self, primitive: Arc<P>)
        requires
            old(self).wf(),
            primitive.ready(),
        ensures
            final(self).wf(),
            final(self).built() == old(self).built(),
            final(self).leaf_limit() == old(self).leaf_limit(),
            final(self).node_list() == old(self).node_list(),
            final(self).objects() == (if old(self).built() {
                old(self).objects()
            } else {
                old(self).objects().push(primitive)
            }),
    {
        if !self.is_built {
            self.primitives.push(primitive);
        }
    }

    /// Writes the tree under `node` into the flat list from the entry
    /// `offset` on, the node first, then its first subtree, then its second,
    /// and returns the place of the node.
    fn flatten_tree(
        &mut self,
        node: &BVHBuildNode,
        offset: &mut usize,
        Ghost(infos): Ghost<Seq<BVHPrimitiveInfo>>,
        Ghost(s): Ghost<int>,
        Ghost(spans): Ghost<Seq<Span>>,
    ) -> (r: (usize, Ghost<Seq<Span>>))
        requires
            node.tree_ok(infos, s, old(self).max_primitives_in_node as int),
            *old(offset) + node.node_count() <= old(self).nodes@.len(),
            spans.len() == old(self).nodes@.len(),
            forall|i: int|
                *old(offset) <= i < *old(offset) + node.node_count() ==> (
                #[trigger] old(self).nodes@[i]).blank(),
        ensures
            r.0 == *old(offset),
            *final(offset) == *old(offset) + node.node_count(),
            final(self).nodes@.len() == old(self).nodes@.len(),
            final(self).primitives == old(self).primitives,
            final(self).max_primitives_in_node == old(self).max_primitives_in_node,
            final(self).splitmethod == old(self).splitmethod,
            final(self).is_built == old(self).is_built,
            r.1@.len() == spans.len(),
            forall|i: int|
                0 <= i < spans.len() && !(*old(offset) <= i < *final(offset)) ==> (
                #[trigger] final(self).nodes@[i]) == old(self).nodes@[i] && r.1@[i] == spans[i],
            region_ok(
                final(self).nodes@,
                r.1@,
                *old(offset) as int,
                *final(offset) as int,
                infos,
                old(self).max_primitives_in_node as int,
            ),
            r.1@[*old(offset) as int] == (Span {
                lo: s,
                hi: s + node.prim_count(),
                end: *final(offset) as int,
            }),
        decreases node,
    {
        let ghost max_prims = self.max_primitives_in_node as int;
        let ghost e = s + node.prim_count();
        proof {
            lemma_tree_size(*node, infos, s, max_prims);
        }
        let cur_idx = *offset;
        let capacity = self.nodes.len();
        assert(cur_idx < capacity);
        let mut lin = self.nodes[cur_idx];
        assert(lin.blank());
        lin.bounds = node.bounds;
        self.nodes[cur_idx] = lin;
        (*offset) += 1;

        if node.n_primitives > 0 {
            lin.primitives_offset = Some(node.first_prim_offset);
            lin.n_primitives = node.n_primitives;
            self.nodes[cur_idx] = lin;
            let ghost out = spans.update(cur_idx as int, Span { lo: s, hi: e, end: cur_idx + 1 });
            proof {
                assert(node_ok(self.nodes@, out, cur_idx as int, infos, max_prims));
            }
            (cur_idx, Ghost(out))
        } else {
            lin.axis = node.split_axis;
            lin.n_primitives = 0;
            self.nodes[cur_idx] = lin;
            let ghost nodes_a = self.nodes@;
            let ghost mut cur_spans = spans;
            let ghost m = s + node.left->0.prim_count();
            proof {
                lemma_tree_size(*node.left->0, infos, s, max_prims);
                lemma_tree_size(*node.right->0, infos, m, max_prims);
            }
            if let Some(left_child) = &node.left {
                let res = self.flatten_tree(left_child, offset, Ghost(infos), Ghost(s), Ghost(cur_spans));
                proof {
                    cur_spans = res.1@;
                }
            }
            let ghost nodes_l = self.nodes@;
            let ghost spans_l = cur_spans;
            let ghost off_l = *offset as int;
            let ghost mut nodes_rr = self.nodes@;
            if let Some(right_child) = &node.right {
                let res = self.flatten_tree(right_child, offset, Ghost(infos), Ghost(m), Ghost(cur_spans));
                proof {
                    cur_spans = res.1@;
                    nodes_rr = self.nodes@;
                }
                lin.second_child_offset = Some(res.0);
                self.nodes[cur_idx] = lin;
            }
            let ghost off_r = *offset as int;
            let ghost out = cur_spans.update(cur_idx as int, Span { lo: s, hi: e, end: off_r });
            proof {
                assert forall|i: int| cur_idx + 1 <= i < off_l implies self.nodes@[i] == nodes_l[i]
                    && out[i] == spans_l[i] by {
                    assert(nodes_rr[i] == nodes_l[i]);
                    assert(cur_spans[i] == spans_l[i]);
                }
                assert forall|i: int| off_l <= i < off_r implies self.nodes@[i] == nodes_rr[i]
                    && out[i] == cur_spans[i] by {}
                lemma_region_frame(nodes_l, spans_l, self.nodes@, out, cur_idx + 1, off_l, infos, max_prims);
                lemma_region_frame(
                    nodes_rr,
                    cur_spans,
                    self.nodes@,
                    out,
                    off_l,
                    off_r,
                    infos,
                    max_prims,
                );
                assert(out[cur_idx + 1] == spans_l[cur_idx + 1]);
                assert(out[off_l] == cur_spans[off_l]);
                assert(node_ok(self.nodes@, out, cur_idx as int, infos, max_prims));
                assert forall|i: int| cur_idx <= i < off_r implies #[trigger] node_ok(
                    self.nodes@,
                    out,
                    i,
                    infos,
                    max_prims,
                ) by {}
                assert forall|i: int|
                    0 <= i < spans.len() && !(cur_idx <= i < off_r) implies (
                #[trigger] self.nodes@[i]) == old(self).nodes@[i] && out[i] == spans[i] by {
                    assert(nodes_a[i] == old(self).nodes@[i]);
                    assert(nodes_l[i] == nodes_a[i]);
                    assert(spans_l[i] == spans[i]);
                    assert(nodes_rr[i] == nodes_l[i]);
                    assert(cur_spans[i] == spans_l[i]);
                }
                assert forall|i: int| cur_idx <= i < off_r implies (#[trigger] out[i]).end <= off_r by {
                    if i > cur_idx && i < off_l {
                        assert(spans_l[i].end <= off_l);
                        assert(out[i] == spans_l[i]);
                    } else if i >= off_l {
                        assert(cur_spans[i].end <= off_r);
                    }
                }
            }
            (cur_idx, Ghost(out))
        }
    }
}

impl<P: Primitive> BVHAccel<P> {
    /// Builds the hierarchy over the objects that were added: orders the
    /// objects so that those of every leaf are next to each other, and writes
    /// the tree as a flat list. A hierarchy that is built already stays as it
    /// is.
    pub fn build(&mut self)
        requires
            old(self).wf(),
            old(self).objects().len() <= MAX_PRIMITIVES,
            2 * old(self).objects().len() <= usize::MAX,
        ensures
            final(self).wf(),
            final(self).built(),
            final(self).is_flat_tree(),
            final(self).leaf_limit() == old(self).leaf_limit(),
            final(self).objects().to_multiset() == old(self).objects().to_multiset(),
            old(self).built() ==> final(self).objects() == old(self).objects(),
            old(self).built() ==> final(self).node_list() == old(self).node_list(),
    {
        if self.is_built {
            return ;
        }
        let num_primitives = self.primitives.len();
        let mut primitive_infos: Vec<BVHPrimitiveInfo> = Vec::new();
        let ghost prims = self.primitives@;
        let ghost max_prims = self.max_primitives_in_node as int;

        let mut i: usize = 0;
        while i < num_primitives
            invariant
                0 <= i <= num_primitives,
                num_primitives == self.primitives@.len(),
                prims == self.primitives@,
                forall|k: int| 0 <= k < prims.len() ==> (#[trigger] prims[k]).ready(),
                primitive_infos@.len() == i,
                forall|k: int| 0 <= k < i ==> primitive_infos@[k] == infos_of(prims)[k],
            decreases num_primitives - i,
        {
            assert(prims[i as int].ready());
            let primitive_info = BVHPrimitiveInfo::init(i, self.primitives[i].world_bound());
            primitive_infos.push(primitive_info);
            i += 1;
        }
        if num_primitives == 0 {
            self.is_built = true;
            proof {
                let spans = Seq::<Span>::empty();
                assert(flat_ok(self.nodes@, spans, infos_of(self.primitives@), max_prims));
            }
            return ;
        }
        assert(primitive_infos@ =~= infos_of(prims));

        let mut total_nodes = 0usize;
        let mut ordered_primitives: Vec<Arc<P>> = Vec::new();
        let root: BVHBuildNode = self.recursively_build(
            &mut primitive_infos,
            0,
            num_primitives,
            &mut total_nodes,
            &mut ordered_primitives,
        );
        let ghost infos = primitive_infos@;
        let ghost ordered = ordered_primitives@;
        let ghost fresh = infos_of(ordered);
        proof {
            lemma_ordered_list(prims, infos, ordered);
            lemma_tree_similar(root, infos, fresh, 0, max_prims);
            lemma_tree_size(root, fresh, 0, max_prims);
            assert forall|k: int| 0 <= k < ordered.len() implies (#[trigger] ordered[k]).ready() by {
                assert(ordered[k] == prims[infos[k].primitive_num as int]);
            }
        }

        self.primitives.clear();
        self.primitives = ordered_primitives;

        let mut k: usize = 0;
        while k < total_nodes
            invariant
                0 <= k <= total_nodes,
                self.nodes@.len() == k,
                forall|j: int| 0 <= j < k ==> (#[trigger] self.nodes@[j]).blank(),
                self.primitives@ == ordered,
                self.max_primitives_in_node == max_prims,
                self.is_built == false,
            decreases total_nodes - k,
        {
            self.nodes.push(LinearBVHNode::new());
            k += 1;
        }
        let mut offset = 0usize;
        let ghost spans0 = Seq::new(total_nodes as nat, |j: int| Span { lo: 0, hi: 0, end: 0 });
        let res = self.flatten_tree(&root, &mut offset, Ghost(fresh), Ghost(0), Ghost(spans0));
        self.is_built = true;
        proof {
            assert(flat_ok(self.nodes@, res.1@, infos_of(self.primitives@), max_prims));
        }
    }

    /// The flat list of a hierarchy that is built is the tree that the rules
    /// make of its objects: there are spans for its entries, one each, with
    /// which every entry is a node of that tree.
    pub proof fn lemma_flat_tree(&self) -> (spans: Seq<Span>)
        requires
            self.wf(),
            self.built(),
        ensures
            flat_ok(self.node_list(), spans, infos_of(self.objects()), self.leaf_limit()),
    {
        choose|spans: Seq<Span>|
            flat_ok(
                self.nodes@,
                spans,
                infos_of(self.primitives@),
                self.max_primitives_in_node as int,
            )
    }

    /// The objects of a sound hierarchy are ready, each of them.
    pub proof fn lemma_objects_ready(&self, k: int)
        requires
            self.wf(),
            0 <= k < self.objects().len(),
        ensures
            self.objects()[k].ready(),
    {
    }
}

/// The object at place `k` is under one of the nodes that wait on the stack.
pub open spec fn waiting(spans: Seq<Span>, stack: Seq<usize>, k: int) -> bool {
    exists|j: int|
        0 <= j < stack.len() && spans[(#[trigger] stack[j]) as int].lo <= k < spans[stack[j] as int].hi
}

/// The number of nodes in the subtrees of the nodes on the stack.
pub open spec fn stack_weight(spans: Seq<Span>, stack: Seq<usize>) -> int
    decreases stack.len(),
{
    if stack.len() == 0 {
        0
    } else {
        stack_weight(spans, stack.drop_last()) + spans[stack.last() as int].end - stack.last()
    }
}

/// Pushing a node keeps every object waiting that was, adds the objects of the
/// node, and adds the nodes of its subtree to the weight.
pub proof fn lemma_waiting_push(spans: Seq<Span>, stack: Seq<usize>, x: usize, k: int)
    ensures
        waiting(spans, stack, k) ==> waiting(spans, stack.push(x), k),
        spans[x as int].lo <= k < spans[x as int].hi ==> waiting(spans, stack.push(x), k),
        stack_weight(spans, stack.push(x)) == stack_weight(spans, stack) + spans[x as int].end - x,
{
    let next = stack.push(x);
    assert(next.drop_last() == stack);
    if waiting(spans, stack, k) {
        let j = choose|j: int|
            0 <= j < stack.len() && spans[(#[trigger] stack[j]) as int].lo <= k
                < spans[stack[j] as int].hi;
        assert(next[j] == stack[j]);
    }
    if spans[x as int].lo <= k < spans[x as int].hi {
        assert(next[stack.len() as int] == x);
    }
}

/// An object that waits on the stack still waits after the top is taken off,
/// unless it is under the top; the weight falls by the nodes of the subtree of
/// the top.
pub proof fn lemma_waiting_pop(spans: Seq<Span>, stack: Seq<usize>, k: int)
    requires
        stack.len() > 0,
    ensures
        waiting(spans, stack, k) ==> waiting(spans, stack.drop_last(), k) || spans[stack.last() as int].lo
            <= k < spans[stack.last() as int].hi,
        stack_weight(spans, stack) == stack_weight(spans, stack.drop_last()) + spans[stack.last() as int].end
            - stack.last(),
{
    if waiting(spans, stack, k) {
        let j = choose|j: int|
            0 <= j < stack.len() && spans[(#[trigger] stack[j]) as int].lo <= k
                < spans[stack[j] as int].hi;
        if j < stack.len() - 1 {
            assert(stack.drop_last()[j] == stack[j]);
        }
    }
}

impl<P: Primitive> BVHAccel<P> {
    /// Tests the ray against the objects `first..first + n` of the ordered
    /// list, one after the other, and keeps the nearest hit.
    fn intersect_leaf(
        &self,
        first: usize,
        n: usize,
        ray: &mut Ray,
        isect: &mut SurfaceInteraction,
        Ghost(line): Ghost<Ray>,
    ) -> (hit: bool)
        requires
            first + n <= self.primitives@.len(),
            forall|k: int| 0 <= k < self.primitives@.len() ==> (#[trigger] self.primitives@[k]).ready(),
            line == old(ray).line(),
        ensures
            *final(ray) == (Ray { t_max: final(ray).t_max, ..*old(ray) }),
            final(ray).t_max <= old(ray).t_max,
            !hit ==> *final(ray) == *old(ray) && *final(isect) == *old(isect),
            hit ==> final(ray).t_max < old(ray).t_max,
            hit ==> final(isect).interaction.time == final(ray).t_max,
            hit ==> exists|k: int|
                first <= k < first + n && (#[trigger] self.primitives@[k]).first_hit(
                    old(ray).o,
                    old(ray).d,
                ) == Some(final(ray).t_max) && self.primitives@[k].records(
                    line,
                    *final(isect),
                ),
            forall|k: int|
                first <= k < first + n ==> !final(ray).admits_hit(
                    (#[trigger] self.primitives@[k]).first_hit(old(ray).o, old(ray).d),
                ),
    {
        let mut hit = false;
        let ghost o = ray.o;
        let ghost d = ray.d;
        let total = self.primitives.len();
        let mut i: usize = 0;
        while i < n
            invariant
                0 <= i <= n,
                first + n <= total,
                total == self.primitives@.len(),
                forall|k: int|
                    0 <= k < self.primitives@.len() ==> (#[trigger] self.primitives@[k]).ready(),
                o == old(ray).o,
                d == old(ray).d,
                line == old(ray).line(),
                *ray == (Ray { t_max: ray.t_max, ..*old(ray) }),
                ray.t_max <= old(ray).t_max,
                !hit ==> *ray == *old(ray) && *isect == *old(isect),
                hit ==> ray.t_max < old(ray).t_max && isect.interaction.time == ray.t_max,
                hit ==> exists|k: int|
                    first <= k < first + i && (#[trigger] self.primitives@[k]).first_hit(o, d)
                        == Some(ray.t_max) && self.primitives@[k].records(line, *isect),
                forall|k: int|
                    first <= k < first + i ==> !ray.admits_hit(
                        (#[trigger] self.primitives@[k]).first_hit(o, d),
                    ),
            decreases n - i,
        {
            let ghost before = *ray;
            let ghost was_hit = hit;
            assert(self.primitives@[first + i].ready());
            if self.primitives[first + i].intersect(ray, isect) {
                hit = true;
                proof {
                    assert(before.line() == line);
                    assert(self.primitives@[first + i].first_hit(o, d) == Some(ray.t_max));
                }
            } else {
                proof {
                    if was_hit {
                        let k0 = choose|k: int|
                            first <= k < first + i && (#[trigger] self.primitives@[k]).first_hit(o, d)
                                == Some(ray.t_max) && self.primitives@[k].records(
                                line,
                                *isect,
                            );
                        assert(first <= k0 < first + i + 1);
                    }
                }
            }
            i += 1;
        }
        hit
    }

    /// A node whose box the ray misses has no object that the ray could hit
    /// within its limit.
    proof fn lemma_miss_skips(&self, spans: Seq<Span>, node: int, ray: Ray, k: int)
        requires
            self.wf(),
            flat_ok(self.nodes@, spans, infos_of(self.primitives@), self.max_primitives_in_node as int),
            0 <= node < self.nodes@.len(),
            spans[node].lo <= k < spans[node].hi,
            !self.nodes@[node].bounds.slab_hit(
                ray,
                Bounds3f::near_flag(ray.d, 0),
                Bounds3f::near_flag(ray.d, 1),
                Bounds3f::near_flag(ray.d, 2),
            ),
        ensures
            !ray.admits_hit(self.primitives@[k].first_hit(ray.o, ray.d)),
    {
        let infos = infos_of(self.primitives@);
        assert(node_ok(self.nodes@, spans, node, infos, self.max_primitives_in_node as int));
        let prim = self.primitives@[k];
        if ray.admits_hit(prim.first_hit(ray.o, ray.d)) {
            let t = prim.first_hit(ray.o, ray.d)->0;
            assert(prim.ready());
            prim.hit_in_bound(ray.o, ray.d);
            lemma_range_bounds_contains(infos, spans[node].lo, spans[node].hi, k);
            lemma_holds_at_grows(prim.bound(), self.nodes@[node].bounds, ray.o, ray.d, t as int);
            lemma_slab_sound(self.nodes@[node].bounds, ray, t as int);
        }
    }
}

/// The subtrees of the nodes on the stack hold no fewer than no nodes.
pub proof fn lemma_stack_weight_nonneg(spans: Seq<Span>, stack: Seq<usize>)
    requires
        forall|j: int| 0 <= j < stack.len() ==> (#[trigger] stack[j]) < spans[stack[j] as int].end,
    ensures
        stack_weight(spans, stack) >= 0,
    decreases stack.len(),
{
    if stack.len() > 0 {
        let rest = stack.drop_last();
        assert forall|j: int| 0 <= j < rest.len() implies (#[trigger] rest[j]) < spans[rest[j] as int].end by {
            assert(rest[j] == stack[j]);
        }
        lemma_stack_weight_nonneg(spans, rest);
        assert(stack[stack.len() - 1] < spans[stack[stack.len() - 1] as int].end);
    }
}

impl<P: Primitive> Primitive for BVHAccel<P> {
    /// A hierarchy answers queries once it is built.
    open spec fn ready(&self) -> bool {
        self.wf() && self.built()
    }

    /// The bound of the root; the empty box for a hierarchy over no objects.
    open spec fn bound(&self) -> Bounds3f {
        if self.node_list().len() > 0 {
            self.node_list()[0].bounds
        } else {
            Bounds3f::empty()
        }
    }

    open spec fn first_hit(&self, o: Point3, d: Vector3) -> Option<i64> {
        first_hit_among(self.objects(), o, d)
    }

    open spec fn records(&self, ray: Ray, isect: SurfaceInteraction) -> bool {
        exists|k: int|
            0 <= k < self.objects().len() && (#[trigger] self.objects()[k]).first_hit(ray.o, ray.d)
                == self.first_hit(ray.o, ray.d) && self.objects()[k].records(ray, isect)
    }

    open spec fn is_aggregate(&self) -> bool {
        true
    }

    open spec fn area_light(&self) -> Option<u64> {
        None
    }

    open spec fn material(&self) -> Option<u64> {
        None
    }

    /// A collection has no light of its own: this must not be called, and
    /// a call that comes anyway stops the program.
    fn get_area_light(&self) -> (r: Option<u64>) {
        vstd::pervasive::unreached()
    }

    /// A collection has no material of its own: this must not be called, and
    /// a call that comes anyway stops the program.
    fn get_material(&self) -> (r: Option<u64>) {
        vstd::pervasive::unreached()
    }

    proof fn hit_in_bound(&self, o: Point3, d: Vector3) {
        let spans = self.lemma_flat_tree();
        let infos = infos_of(self.primitives@);
        lemma_first_hit_among(self.primitives@, o, d);
        let m = self.first_hit(o, d)->0;
        let k = choose|k: int|
            0 <= k < self.primitives@.len() && (#[trigger] self.primitives@[k]).first_hit(o, d)
                == Some(m);
        assert(self.primitives@[k].ready());
        self.primitives@[k].hit_in_bound(o, d);
        assert(node_ok(self.nodes@, spans, 0, infos, self.max_primitives_in_node as int));
        lemma_range_bounds_contains(infos, 0, infos.len() as int, k);
        lemma_holds_at_grows(self.primitives@[k].bound(), self.nodes@[0].bounds, o, d, m as int);
    }

    fn world_bound(&self) -> (b: Bounds3f) {
        if self.nodes.len() == 0 {
            Bounds3f::new()
        } else {
            self.nodes[0].bounds
        }
    }

    /// Walks the tree from the root with a stack of the nodes that are still
    /// to be visited. A node whose box the ray misses is left out with all
    /// that is under it; the objects of a leaf are all tested; of the two
    /// children of an inner node the one that the ray reaches first is
    /// visited first.
    fn intersect(&self, ray: &mut Ray, isect: &mut SurfaceInteraction) -> (hit: bool) {
        let mut hit: bool = false;

        let dir_is_neg: [usize; 3] = [
            if ray.d.x < 0 { 1 } else { 0 },
            if ray.d.y < 0 { 1 } else { 0 },
            if ray.d.z < 0 { 1 } else { 0 },
        ];
        let ghost spans = self.lemma_flat_tree();
        let ghost infos = infos_of(self.primitives@);
        let ghost max_prims = self.max_primitives_in_node as int;
        let ghost o = ray.o;
        let ghost d = ray.d;
        let ghost line = ray.line();
        let ghost n = self.primitives@.len() as int;

        let n_nodes = self.nodes.len();
        let n_prims = self.primitives.len();
        let mut done = n_nodes == 0;
        let mut current_node_idx = 0usize;
        let mut nodes_to_visit: Vec<usize> = Vec::with_capacity(64);
        while !done
            invariant
                self.wf(),
                self.is_built,
                flat_ok(self.nodes@, spans, infos, max_prims),
                infos == infos_of(self.primitives@),
                max_prims == self.max_primitives_in_node,
                n == self.primitives@.len(),
                n_prims == n,
                infos.len() == n,
                n_nodes == self.nodes@.len(),
                o == old(ray).o,
                d == old(ray).d,
                line == old(ray).line(),
                dir_is_neg[0] == Bounds3f::near_flag(d, 0),
                dir_is_neg[1] == Bounds3f::near_flag(d, 1),
                dir_is_neg[2] == Bounds3f::near_flag(d, 2),
                !done ==> current_node_idx < n_nodes,
                done ==> nodes_to_visit@.len() == 0,
                forall|j: int| 0 <= j < nodes_to_visit@.len() ==> (#[trigger] nodes_to_visit@[j]) < n_nodes,
                stack_weight(spans, nodes_to_visit@) >= 0,
                *ray == (Ray { t_max: ray.t_max, ..*old(ray) }),
                ray.t_max <= old(ray).t_max,
                !hit ==> *ray == *old(ray) && *isect == *old(isect),
                hit ==> ray.t_max < old(ray).t_max && isect.interaction.time == ray.t_max,
                hit ==> exists|k: int|
                    0 <= k < n && (#[trigger] self.primitives@[k]).first_hit(o, d) == Some(ray.t_max) && self.primitives@[k].records(line, *isect),
                forall|k: int|
                    0 <= k < n ==> (!done && spans[current_node_idx as int].lo <= k
                        < spans[current_node_idx as int].hi) || waiting(spans, nodes_to_visit@, k)
                        || !ray.admits_hit((#[trigger] self.primitives@[k]).first_hit(o, d)),
            decreases
                    (if done {
                        0int
                    } else {
                        1 + spans[current_node_idx as int].end - current_node_idx + stack_weight(
                            spans,
                            nodes_to_visit@,
                        )
                    }),
        {
            let node = self.nodes[current_node_idx];
            let ghost cur = current_node_idx as int;
            let ghost stack = nodes_to_visit@;
            let ghost before = *ray;
            let ghost was_hit = hit;
            proof {
                assert(node_ok(self.nodes@, spans, cur, infos, max_prims));
                assert forall|j: int| 0 <= j < stack.len() implies (#[trigger] stack[j])
                    < spans[stack[j] as int].end by {
                    assert(node_ok(self.nodes@, spans, stack[j] as int, infos, max_prims));
                }
            }
            if node.bounds.intersect_p_with_inv(ray, dir_is_neg) {
                if node.n_primitives > 0 {
                    let prim_offset = match node.primitives_offset {
                        Some(p) => p,
                        None => 0,
                    };
                    assert(prim_offset == spans[cur].lo && prim_offset + node.n_primitives
                        == spans[cur].hi);
                    let leaf_hit = self.intersect_leaf(
                        prim_offset,
                        node.n_primitives,
                        ray,
                        isect,
                        Ghost(line),
                    );
                    if leaf_hit {
                        hit = true;
                    }
                    match nodes_to_visit.pop() {
                        Some(next) => {
                            current_node_idx = next;
                        },
                        None => {
                            done = true;
                        },
                    }
                    proof {
                        if stack.len() > 0 {
                            assert(stack[stack.len() - 1] < n_nodes);
                        }
                        assert forall|j: int| 0 <= j < nodes_to_visit@.len() implies (
                        #[trigger] nodes_to_visit@[j]) < n_nodes by {
                            assert(nodes_to_visit@[j] == stack[j]);
                        }
                        self.lemma_after_visit(spans, stack, cur, before, *ray, done);
                        if !leaf_hit && was_hit {
                            let k0 = choose|k: int|
                                0 <= k < n && (#[trigger] self.primitives@[k]).first_hit(o, d)
                                    == Some(before.t_max) && self.primitives@[k].records(
                                    line,
                                    *isect,
                                );
                            assert(self.primitives@[k0].first_hit(o, d) == Some(ray.t_max));
                        }
                    }
                } else {
                    if dir_is_neg[node.axis] == 1 {
                        if let Some(next_offset) = node.second_child_offset {
                            nodes_to_visit.push(current_node_idx + 1);
                            current_node_idx = next_offset;
                        }
                    } else {
                        if let Some(next_offset) = node.second_child_offset {
                            nodes_to_visit.push(next_offset);
                            current_node_idx += 1;
                        }
                    }
                    proof {
                        let c2 = node.second_child_offset->0 as int;
                        let pushed = if dir_is_neg[node.axis as int] == 1 { (cur + 1) as usize } else { c2 as usize };
                        assert(nodes_to_visit@ == stack.push(pushed));
                        assert(node_ok(self.nodes@, spans, cur + 1, infos, max_prims));
                        assert(node_ok(self.nodes@, spans, c2, infos, max_prims));
                        assert forall|k: int| 0 <= k < n implies (!done && spans[current_node_idx as int].lo
                            <= k < spans[current_node_idx as int].hi) || waiting(
                            spans,
                            nodes_to_visit@,
                            k,
                        ) || !ray.admits_hit((#[trigger] self.primitives@[k]).first_hit(o, d)) by {
                            lemma_waiting_push(spans, stack, pushed, k);
                        }
                        lemma_waiting_push(spans, stack, pushed, 0);
                    }
                }
            } else {
                match nodes_to_visit.pop() {
                    Some(next) => {
                        current_node_idx = next;
                    },
                    None => {
                        done = true;
                    },
                }
                proof {
                    if stack.len() > 0 {
                        assert(stack[stack.len() - 1] < n_nodes);
                    }
                    assert forall|j: int| 0 <= j < nodes_to_visit@.len() implies (
                    #[trigger] nodes_to_visit@[j]) < n_nodes by {
                        assert(nodes_to_visit@[j] == stack[j]);
                    }
                    assert forall|k: int| spans[cur].lo <= k < spans[cur].hi implies !ray.admits_hit(
                        (#[trigger] self.primitives@[k]).first_hit(o, d),
                    ) by {
                        self.lemma_miss_skips(spans, cur, *ray, k);
                    }
                    self.lemma_after_visit(spans, stack, cur, before, *ray, done);
                }
            }
        }
        proof {
            assert forall|k: int| 0 <= k < n implies ((#[trigger] self.primitives@[k]).first_hit(
                o,
                d,
            ) matches Some(t) ==> !(0 < t < ray.t_max)) by {
                assert(!waiting(spans, nodes_to_visit@, k));
            }
            lemma_collection_result(
                self.primitives@,
                o,
                d,
                old(ray).t_max,
                ray.t_max,
                hit,
            );
            if hit {
                let k0 = choose|k: int|
                    0 <= k < n && (#[trigger] self.primitives@[k]).first_hit(o, d) == Some(ray.t_max) && self.primitives@[k].records(line, *isect);
                assert(self.objects()[k0].first_hit(line.o, line.d) == self.first_hit(line.o, line.d));
            }
        }
        hit
    }

    /// Runs the same walk as `intersect` and drops the record; the ray keeps
    /// the parameter of the hit.
    fn intersect_p(&self, r: &mut Ray) -> (hit: bool)
        ensures
            hit ==> *final(r) == (Ray { t_max: self.first_hit(old(r).o, old(r).d)->0, ..*old(r) }),
            !hit ==> *final(r) == *old(r),
    {
        let mut isect = SurfaceInteraction::new();

        self.intersect(r, &mut isect)
    }
}

impl<P: Primitive> BVHAccel<P> {
    /// After a node is done with (its box was missed, or it was a leaf and
    /// its objects were tested), every object is either under the node that
    /// is visited next, or under a node on the stack, or cannot be hit.
    proof fn lemma_after_visit(
        &self,
        spans: Seq<Span>,
        stack: Seq<usize>,
        cur: int,
        before: Ray,
        after: Ray,
        done: bool,
    )
        requires
            after == (Ray { t_max: after.t_max, ..before }),
            after.t_max <= before.t_max,
            done == (stack.len() == 0),
            forall|j: int| 0 <= j < stack.len() ==> (#[trigger] stack[j]) < spans[stack[j] as int].end,
            forall|k: int|
                spans[cur].lo <= k < spans[cur].hi && 0 <= k < self.primitives@.len()
                    ==> !after.admits_hit(
                    (#[trigger] self.primitives@[k]).first_hit(before.o, before.d),
                ),
            forall|k: int|
                0 <= k < self.primitives@.len() ==> (spans[cur].lo <= k < spans[cur].hi) || waiting(
                    spans,
                    stack,
                    k,
                ) || !before.admits_hit(
                    (#[trigger] self.primitives@[k]).first_hit(before.o, before.d),
                ),
        ensures
            forall|k: int|
                0 <= k < self.primitives@.len() ==> (!done && spans[stack.last() as int].lo <= k
                    < spans[stack.last() as int].hi) || waiting(spans, stack.drop_last(), k)
                    || !after.admits_hit(
                    (#[trigger] self.primitives@[k]).first_hit(before.o, before.d),
                ),
            done ==> forall|k: int|
                0 <= k < self.primitives@.len() ==> !after.admits_hit(
                    (#[trigger] self.primitives@[k]).first_hit(before.o, before.d),
                ),
            !done ==> stack_weight(spans, stack) == stack_weight(spans, stack.drop_last())
                + spans[stack.last() as int].end - stack.last(),
            !done ==> stack_weight(spans, stack.drop_last()) >= 0,
    {
        assert forall|k: int| 0 <= k < self.primitives@.len() implies (!done && spans[stack.last() as int].lo
            <= k < spans[stack.last() as int].hi) || waiting(spans, stack.drop_last(), k)
            || !after.admits_hit((#[trigger] self.primitives@[k]).first_hit(before.o, before.d)) by {
            if stack.len() > 0 {
                lemma_waiting_pop(spans, stack, k);
            }
        }
        if !done {
            lemma_waiting_pop(spans, stack, 0);
            let rest = stack.drop_last();
            assert forall|j: int| 0 <= j < rest.len() implies (#[trigger] rest[j]) < spans[rest[j] as int].end by {
                assert(rest[j] == stack[j]);
            }
            lemma_stack_weight_nonneg(spans, rest);
        }
    }
}

impl<P: Primitive> BVHAccel<P> {
    /// The flat list of nodes, root first.
    pub fn nodes(&self) -> (r: &Vec<LinearBVHNode>)
        ensures
            r@ == self.node_list(),
    {
        &self.nodes
    }

    /// The objects: as they were added, or after `build` in the order of the
    /// leaves.
    pub fn primitives(&self) -> (r: &Vec<Arc<P>>)
        ensures
            r@ == self.objects(),
    {
        &self.primitives
    }

    /// Whether `build` was called.
    pub fn is_built(&self) -> (r: bool)
        ensures
            r == self.built(),
    {
        self.is_built
    }

    /// The bound of a hierarchy that is built holds the bound of each of its
    /// objects.
    pub proof fn lemma_bound_contains(&self, k: int)
        requires
            self.ready(),
            0 <= k < self.objects().len(),
        ensures
            self.bound().contains_box(self.objects()[k].bound()),
    {
        let spans = self.lemma_flat_tree();
        let infos = infos_of(self.primitives@);
        assert(node_ok(self.nodes@, spans, 0, infos, self.max_primitives_in_node as int));
        lemma_range_bounds_contains(infos, 0, infos.len() as int, k);
    }

    /// The bound of a hierarchy that is built is the smallest box around the
    /// bounds of its objects.
    pub proof fn lemma_bound_exact(&self)
        requires
            self.ready(),
        ensures
            self.bound() == range_bounds(
                infos_of(self.objects()),
                0,
                self.objects().len() as int,
            ),
    {
        let spans = self.lemma_flat_tree();
        let infos = infos_of(self.primitives@);
        if self.nodes@.len() > 0 {
            assert(node_ok(self.nodes@, spans, 0, infos, self.max_primitives_in_node as int));
        } else {
            lemma_fold_empty(infos, 0, Bounds3f::empty(), join_bounds());
        }
    }

    /// Objects whose bounds all have the same centre end up in one leaf: the
    /// hierarchy that is built over them is a single node that holds them
    /// all.
    pub proof fn lemma_same_centres_one_leaf(&self)
        requires
            self.ready(),
            self.objects().len() > 0,
            forall|i: int, j: int|
                0 <= i < self.objects().len() && 0 <= j < self.objects().len() ==> center_of(
                    (#[trigger] self.objects()[i]).bound(),
                ) == center_of((#[trigger] self.objects()[j]).bound()),
        ensures
            self.node_list().len() == 1,
            self.node_list()[0].n_primitives == self.objects().len(),
            self.node_list()[0].primitives_offset == Some(0usize),
    {
        let spans = self.lemma_flat_tree();
        let infos = infos_of(self.primitives@);
        let max_prims = self.max_primitives_in_node as int;
        assert(node_ok(self.nodes@, spans, 0, infos, max_prims));
        assert forall|i: int, j: int| 0 <= i < infos.len() && 0 <= j < infos.len() implies (
        #[trigger] infos[i]).centroid == (#[trigger] infos[j]).centroid by {
            assert(center_of(self.objects()[i].bound()) == center_of(self.objects()[j].bound()));
        }
        lemma_same_centroids_make_leaf(infos, 0, infos.len() as int, max_prims);
    }
}

/// The box around the entries of a list of objects is the box around the
/// bounds of the objects.
pub proof fn lemma_range_bounds_of_objects<P: Primitive>(prims: Seq<Arc<P>>, k: int)
    requires
        0 <= k <= prims.len(),
    ensures
        range_bounds(infos_of(prims), 0, k) == bound_among(prims.take(k)),
    decreases k,
{
    let infos = infos_of(prims);
    if k == 0 {
        lemma_fold_empty(infos, 0, Bounds3f::empty(), join_bounds());
    } else {
        lemma_range_bounds_of_objects(prims, k - 1);
        lemma_fold_step(infos, 0, k - 1, Bounds3f::empty(), join_bounds());
        assert(prims.take(k).drop_last() == prims.take(k - 1));
    }
}

/// A hierarchy that is built has the same bound as a plain collection of its
/// objects in their order: the box around the bounds of them all.
pub proof fn lemma_bound_of_hierarchy<P: Primitive>(bvh: &BVHAccel<P>)
    requires
        bvh.ready(),
    ensures
        bvh.bound() == bound_among(bvh.objects()),
{
    bvh.lemma_bound_exact();
    lemma_range_bounds_of_objects(bvh.objects(), bvh.objects().len() as int);
    assert(bvh.objects().take(bvh.objects().len() as int) == bvh.objects());
}

/// A hierarchy and a plain collection over the same objects give the same
/// answer to every ray: both report a hit or both report none, and where they
/// report one it is at the same parameter.
pub proof fn lemma_same_answer<P: Primitive>(bvh: &BVHAccel<P>, brute: &BruteForceAggregate<P>, ray: Ray)
    requires
        bvh.objects().to_multiset() == brute.objects().to_multiset(),
    ensures
        bvh.first_hit(ray.o, ray.d) == brute.first_hit(ray.o, ray.d),
        ray.admits_hit(bvh.first_hit(ray.o, ray.d)) == ray.admits_hit(brute.first_hit(ray.o, ray.d)),
{
    lemma_first_hit_same_objects(bvh.objects(), brute.objects(), ray.o, ray.d);
}

} // verus!
