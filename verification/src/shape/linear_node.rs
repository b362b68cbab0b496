use vstd::prelude::*;
use crate::geometry::bounding_box_3::Bounds3f;
use crate::shape::build_rules::{makes_leaf, split_dim, split_is_valid};
use crate::shape::primitive_info::{range_bounds, BVHPrimitiveInfo};

verus! {

/// A node of the tree as the queries read it, one entry of a flat list. The
/// first child of an inner node is the next entry; the second is at
/// `second_child_offset`.
#[derive(Clone, Copy, Debug)]
pub struct LinearBVHNode {
    pub bounds: Bounds3f,
    pub primitives_offset: Option<usize>,
    pub second_child_offset: Option<usize>,
    pub n_primitives: usize,
    pub axis: usize,
}

impl LinearBVHNode {
    /// A node that nothing was written to yet.
    pub open spec fn blank(&self) -> bool {
        &&& self.bounds == Bounds3f::empty()
        &&& self.primitives_offset is None
        &&& self.second_child_offset is None
        &&& self.n_primitives == 0
        &&& self.axis == 0
    }

    /// A node that nothing was written to yet.
    pub fn new() -> (r: Self)
        ensures
            r.blank(),
    {
        Self {
            bounds: Bounds3f::new(),
            primitives_offset: None,
            second_child_offset: None,
            n_primitives: 0usize,
            axis: 0usize,
        }
    }
}

/// What a node of the flat list stands for: the objects `lo..hi` of the
/// ordered list are under it, and its subtree ends before the entry `end`.
pub struct Span {
    pub lo: int,
    pub hi: int,
    pub end: int,
}

/// The entry `i` of the flat list is a node of the tree that the rules make
/// of the objects of its span: it is bounded by the box around them; it is a
/// leaf over all of them where the rules make a leaf; else it is an inner
/// node whose first child is the next entry, whose second child is at
/// `second_child_offset`, and whose children split the span as the rules ask.
pub open spec fn node_ok(
    nodes: Seq<LinearBVHNode>,
    spans: Seq<Span>,
    i: int,
    infos: Seq<BVHPrimitiveInfo>,
    max_prims: int,
) -> bool {
    let nd = nodes[i];
    let sp = spans[i];
    &&& 0 <= sp.lo < sp.hi <= infos.len()
    &&& i < sp.end <= nodes.len()
    &&& nd.bounds == range_bounds(infos, sp.lo, sp.hi)
    &&& if nd.n_primitives > 0 {
        &&& nd.primitives_offset == Some(sp.lo as usize)
        &&& nd.second_child_offset is None
        &&& nd.axis == 0
        &&& nd.n_primitives == sp.hi - sp.lo
        &&& sp.end == i + 1
        &&& makes_leaf(infos, sp.lo, sp.hi, max_prims)
    } else {
        &&& nd.primitives_offset is None
        &&& nd.second_child_offset matches Some(c2) && {
            &&& i + 1 < c2 < sp.end
            &&& spans[i + 1].lo == sp.lo
            &&& spans[i + 1].hi == spans[c2 as int].lo
            &&& spans[i + 1].end == c2
            &&& spans[c2 as int].hi == sp.hi
            &&& spans[c2 as int].end == sp.end
            &&& split_is_valid(infos, sp.lo, spans[c2 as int].lo, sp.hi)
        }
        &&& nd.axis == split_dim(infos, sp.lo, sp.hi)
        &&& !makes_leaf(infos, sp.lo, sp.hi, max_prims)
    }
}

/// The entries `lo..hi` of the flat list are nodes of the tree, and none of
/// their subtrees reaches beyond `hi`.
pub open spec fn region_ok(
    nodes: Seq<LinearBVHNode>,
    spans: Seq<Span>,
    lo: int,
    hi: int,
    infos: Seq<BVHPrimitiveInfo>,
    max_prims: int,
) -> bool {
    &&& spans.len() == nodes.len()
    &&& 0 <= lo <= hi <= nodes.len()
    &&& forall|i: int| lo <= i < hi ==> #[trigger] node_ok(nodes, spans, i, infos, max_prims)
    &&& forall|i: int| lo <= i < hi ==> (#[trigger] spans[i]).end <= hi
}

/// The flat list is the tree that the rules make of the objects: every entry
/// is a node of it, and the first entry is the root over all the objects.
/// Over no objects the list is empty.
pub open spec fn flat_ok(
    nodes: Seq<LinearBVHNode>,
    spans: Seq<Span>,
    infos: Seq<BVHPrimitiveInfo>,
    max_prims: int,
) -> bool {
    &&& region_ok(nodes, spans, 0, nodes.len() as int, infos, max_prims)
    &&& if infos.len() == 0 {
        nodes.len() == 0
    } else {
        nodes.len() > 0 && spans[0] == (Span { lo: 0, hi: infos.len() as int, end: nodes.len() as int })
    }
}

/// Nodes stay nodes of the tree when the list changes only outside of them.
pub proof fn lemma_region_frame(
    nodes1: Seq<LinearBVHNode>,
    spans1: Seq<Span>,
    nodes2: Seq<LinearBVHNode>,
    spans2: Seq<Span>,
    lo: int,
    hi: int,
    infos: Seq<BVHPrimitiveInfo>,
    max_prims: int,
)
    requires
        region_ok(nodes1, spans1, lo, hi, infos, max_prims),
        nodes2.len() == nodes1.len(),
        spans2.len() == spans1.len(),
        forall|i: int| lo <= i < hi ==> nodes2[i] == nodes1[i] && spans2[i] == spans1[i],
    ensures
        region_ok(nodes2, spans2, lo, hi, infos, max_prims),
{
    assert forall|i: int| lo <= i < hi implies #[trigger] node_ok(
        nodes2,
        spans2,
        i,
        infos,
        max_prims,
    ) by {
        assert(node_ok(nodes1, spans1, i, infos, max_prims));
        assert(spans1[i].end <= hi);
        if nodes1[i].n_primitives == 0 {
            let c2 = nodes1[i].second_child_offset->0 as int;
            assert(spans2[i + 1] == spans1[i + 1]);
            assert(spans2[c2] == spans1[c2]);
        }
    }
    assert forall|i: int| lo <= i < hi implies (#[trigger] spans2[i]).end <= hi by {
        assert(spans1[i].end <= hi);
    }
}

} // verus!
