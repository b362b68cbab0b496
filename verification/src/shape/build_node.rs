use vstd::prelude::*;
use crate::geometry::bounding_box_3::Bounds3f;
use crate::shape::build_rules::{
    lemma_rules_similar, lemma_split_valid_similar, makes_leaf, split_dim, split_is_valid,
};
use crate::shape::primitive_info::{range_bounds, similar_on, BVHPrimitiveInfo};

verus! {

/// A node of the tree as the builder makes it. A leaf holds a run of objects
/// of the ordered list; an inner node holds two children.
pub struct BVHBuildNode {
    pub bounds: Bounds3f,
    pub split_axis: usize,
    pub first_prim_offset: usize,
    pub n_primitives: usize,
    pub left: Option<Box<BVHBuildNode>>,
    pub right: Option<Box<BVHBuildNode>>,
}

impl BVHBuildNode {
    /// The number of objects under the node.
    pub open spec fn prim_count(&self) -> nat
        decreases self,
    {
        if self.n_primitives > 0 {
            self.n_primitives as nat
        } else {
            (match self.left {
                Some(l) => l.prim_count(),
                None => 0,
            }) + (match self.right {
                Some(r) => r.prim_count(),
                None => 0,
            })
        }
    }

    /// The number of nodes of the tree.
    pub open spec fn node_count(&self) -> nat
        decreases self,
    {
        if self.n_primitives > 0 {
            1
        } else {
            1 + (match self.left {
                Some(l) => l.node_count(),
                None => 0,
            }) + (match self.right {
                Some(r) => r.node_count(),
                None => 0,
            })
        }
    }

    /// The tree is the one that the rules make of the objects that start at
    /// place `s` of the list, in the order of the list: every node is bounded
    /// by the box around its objects; a leaf stands where the rules make a
    /// leaf and holds its objects from its place on; an inner node stands
    /// where they do not, has two children, and splits its objects between
    /// them as the rules ask.
    pub open spec fn tree_ok(&self, infos: Seq<BVHPrimitiveInfo>, s: int, max_prims: int) -> bool
        decreases self,
    {
        let e = s + self.prim_count();
        &&& 0 <= s < e <= infos.len()
        &&& self.bounds == range_bounds(infos, s, e)
        &&& if self.n_primitives > 0 {
            &&& self.left is None
            &&& self.right is None
            &&& self.first_prim_offset == s
            &&& makes_leaf(infos, s, e, max_prims)
        } else {
            match (self.left, self.right) {
                (Some(l), Some(r)) => {
                    let mid = s + l.prim_count();
                    &&& l.tree_ok(infos, s, max_prims)
                    &&& r.tree_ok(infos, mid, max_prims)
                    &&& !makes_leaf(infos, s, e, max_prims)
                    &&& self.split_axis == split_dim(infos, s, e)
                    &&& split_is_valid(infos, s, mid, e)
                },
                _ => false,
            }
        }
    }

    /// A node that is neither leaf nor inner node yet.
    pub fn new() -> (r: Self)
        ensures
            r.bounds == Bounds3f::empty(),
            r.split_axis == 0,
            r.first_prim_offset == 0,
            r.n_primitives == 0,
            r.left is None,
            r.right is None,
    {
        Self {
            bounds: Bounds3f::new(),
            split_axis: 0usize,
            first_prim_offset: 0usize,
            n_primitives: 0usize,
            left: None,
            right: None,
        }
    }

    /// Makes the node a leaf over the `n` objects from `first` on, with the
    /// bound `b`.
    pub fn init_leaf(&mut self, first: usize, n: usize, b: Bounds3f)
        ensures
            final(self).first_prim_offset == first,
            final(self).n_primitives == n,
            final(self).bounds == b,
            final(self).left is None,
            final(self).right is None,
            final(self).split_axis == old(self).split_axis,
    {
        self.first_prim_offset = first;
        self.n_primitives = n;
        self.bounds = b;
        self.left = None;
        self.right = None;
    }

    /// Makes the node an inner node over the children that are there. Its
    /// bound is the union of their bounds; with no child it keeps its own.
    pub fn init_interior(
        &mut self,
        axis: usize,
        left: Option<Box<BVHBuildNode>>,
        right: Option<Box<BVHBuildNode>>,
    )
        ensures
            final(self).split_axis == axis,
            final(self).n_primitives == 0,
            final(self).first_prim_offset == old(self).first_prim_offset,
            final(self).left == left,
            final(self).right == right,
            final(self).bounds == (match (left, right) {
                (Some(l), Some(r)) => Bounds3f::union_of(l.bounds, r.bounds),
                (Some(l), None) => l.bounds,
                (None, Some(r)) => r.bounds,
                (None, None) => old(self).bounds,
            }),
    {
        self.split_axis = axis;
        self.n_primitives = 0usize;

        if let Some(left_bound) = &left {
            if let Some(right_bound) = &right {
                self.bounds = Bounds3f::union(&left_bound.bounds, &right_bound.bounds);
            } else {
                self.bounds = left_bound.bounds;
            }
        } else if let Some(right_bound) = &right {
            self.bounds = right_bound.bounds;
        }
        self.left = left;
        self.right = right;
    }
}

/// A tree that follows the rules has at least one object and fewer nodes
/// than twice its objects.
pub proof fn lemma_tree_size(t: BVHBuildNode, infos: Seq<BVHPrimitiveInfo>, s: int, max_prims: int)
    requires
        t.tree_ok(infos, s, max_prims),
    ensures
        t.prim_count() >= 1,
        1 <= t.node_count() <= 2 * t.prim_count() - 1,
    decreases t,
{
    if t.n_primitives == 0 {
        let l = t.left->0;
        let r = t.right->0;
        lemma_tree_size(*l, infos, s, max_prims);
        lemma_tree_size(*r, infos, s + l.prim_count(), max_prims);
    }
}

/// A tree that follows the rules for one list follows them for any list with
/// similar entries in the places of its objects.
pub proof fn lemma_tree_similar(
    t: BVHBuildNode,
    a: Seq<BVHPrimitiveInfo>,
    b: Seq<BVHPrimitiveInfo>,
    s: int,
    max_prims: int,
)
    requires
        t.tree_ok(a, s, max_prims),
        similar_on(a, b, s, s + t.prim_count()),
    ensures
        t.tree_ok(b, s, max_prims),
    decreases t,
{
    let e = s + t.prim_count();
    lemma_rules_similar(a, b, s, e, max_prims);
    if t.n_primitives == 0 {
        let l = t.left->0;
        let r = t.right->0;
        let mid = s + l.prim_count();
        lemma_tree_size(*l, a, s, max_prims);
        lemma_tree_size(*r, a, mid, max_prims);
        assert(similar_on(a, b, s, mid));
        assert(similar_on(a, b, mid, e));
        lemma_tree_similar(*l, a, b, s, max_prims);
        lemma_tree_similar(*r, a, b, mid, max_prims);
        lemma_split_valid_similar(a, b, s, mid, e);
    }
}

} // verus!
