use vstd::prelude::*;
use vstd::std_specs::iter::IteratorSpec;
use std::collections::HashMap;
use crate::geom::{Line, Point, Rect};
use crate::quadtree_lemmas::{
    lemma_bucket_push, lemma_center_meets, lemma_covers_quadrant, lemma_push_contains,
    lemma_quadrant_inside, lemma_quadrant_reaches, lemma_shared_quadrant,
};

verus! {

/// Boxes whose corners are both nearer than this many ticks count as
/// duplicates of one another.
pub const EPSILON: i32 = 10;

/// Names one inserted item for as long as it stays in its tree.
#[derive(Eq, PartialEq, Hash, Clone, Copy, Debug, Structural)]
pub struct ItemId(pub u32);

/// What the tree keeps of an item: its id and its bounding box.
pub type Entry = (ItemId, Rect);

/// Something that has a bounding box.
pub trait Spatial {
    spec fn spec_aabb(&self) -> Rect;

    fn aabb(&self) -> (r: Rect)
        ensures
            r == self.spec_aabb(),
    ;
}

impl Spatial for Rect {
    open spec fn spec_aabb(&self) -> Rect {
        *self
    }

    fn aabb(&self) -> (r: Rect) {
        *self
    }
}

impl Spatial for Point {
    open spec fn spec_aabb(&self) -> Rect {
        Rect::spec_null_at(*self)
    }

    fn aabb(&self) -> (r: Rect) {
        Rect::null_at(self)
    }
}

impl Spatial for Line {
    open spec fn spec_aabb(&self) -> Rect {
        Rect::spec_null_at(self.0).spec_expanded_by(self.1)
    }

    fn aabb(&self) -> (r: Rect) {
        Rect::from_points(&self.0, &self.1)
    }
}

#[derive(Debug, Clone)]
pub struct QuadTreeConfig {
    pub allow_duplicates: bool,
    pub max_children: usize,
    pub min_children: usize,
    pub max_depth: usize,
}

/// A bucketed quadtree over bounding boxes. The items live in a map from
/// id to item and box; the tree proper holds ids and boxes.
pub struct QuadTree<T> {
    root: QuadNode,
    config: QuadTreeConfig,
    id: u32,
    elements: HashMap<u32, (T, Rect)>,
}

#[derive(Debug)]
pub enum QuadNode {
    Branch {
        aabb: Rect,
        c0: Box<QuadNode>,
        c1: Box<QuadNode>,
        c2: Box<QuadNode>,
        c3: Box<QuadNode>,
        in_all: Vec<Entry>,
        element_count: usize,
        depth: usize,
    },
    Leaf { aabb: Rect, elements: Vec<Entry>, depth: usize },
}

/// A bucket holds well-formed boxes under pairwise different ids.
pub open spec fn bucket_ok(s: Seq<Entry>) -> bool {
    &&& forall|k: int| 0 <= k < s.len() ==> (#[trigger] s[k]).1.wf()
    &&& forall|j: int, k: int| 0 <= j < k < s.len() ==> (#[trigger] s[j]).0 != (#[trigger] s[k]).0
}

/// The ids of `s` grow strictly from each entry to the next.
pub open spec fn ids_ascend(s: Seq<Entry>) -> bool {
    forall|j: int, k: int| 0 <= j < k < s.len() ==> (#[trigger] s[j]).0.0 < (#[trigger] s[k]).0.0
}

/// Equal ids in `s` carry equal boxes.
pub open spec fn one_box_per_id(s: Seq<Entry>) -> bool {
    forall|j: int, k: int|
        0 <= j < s.len() && 0 <= k < s.len() && (#[trigger] s[j]).0 == (#[trigger] s[k]).0 ==> s[j]
            == s[k]
}

/// No box of the bucket is a duplicate of a box that comes before it.
pub open spec fn bucket_sparse(s: Seq<Entry>) -> bool {
    forall|j: int, k: int|
        0 <= j < k < s.len() ==> !(#[trigger] s[j]).1.spec_close_to((#[trigger] s[k]).1, EPSILON)
}

/// A bucket stays sparse when a box is pushed that is a duplicate of none
/// of its boxes.
pub proof fn lemma_sparse_push(s: Seq<Entry>, x: Entry)
    requires
        bucket_sparse(s),
        forall|k: int| 0 <= k < s.len() ==> !(#[trigger] s[k]).1.spec_close_to(x.1, EPSILON),
    ensures
        bucket_sparse(s.push(x)),
{
    let t = s.push(x);
    assert forall|j: int, k: int| 0 <= j < k < t.len() implies !(#[trigger] t[j]).1.spec_close_to(
        (#[trigger] t[k]).1,
        EPSILON,
    ) by {
        assert(t[j] == s[j]);
        if k < s.len() {
            assert(t[k] == s[k]);
        }
    }
}

/// Whether some box of the bucket is a duplicate of `aabb`.
pub fn any_close(v: &Vec<Entry>, aabb: &Rect) -> (r: bool)
    ensures
        r == exists|k: int| 0 <= k < v@.len() && (#[trigger] v@[k]).1.spec_close_to(*aabb, EPSILON),
{
    let mut i: usize = 0;
    while i < v.len()
        invariant
            i <= v@.len(),
            forall|k: int| 0 <= k < i ==> !(#[trigger] v@[k]).1.spec_close_to(*aabb, EPSILON),
        decreases v@.len() - i,
    {
        if v[i].1.close_to(aabb, EPSILON) {
            return true;
        }
        i += 1;
    }
    false
}

/// Takes the entry with the given id out of the bucket, if there is one.
pub fn remove_from(v: &mut Vec<Entry>, item: ItemId) -> (r: bool)
    requires
        bucket_ok(old(v)@),
    ensures
        bucket_ok(final(v)@),
        forall|e: Entry| #[trigger] final(v)@.contains(e) <==> old(v)@.contains(e) && e.0 != item,
        r == exists|k: int| 0 <= k < old(v)@.len() && (#[trigger] old(v)@[k]).0 == item,
{
    let mut i: usize = 0;
    while i < v.len()
        invariant
            i <= v@.len(),
            v@ == old(v)@,
            bucket_ok(v@),
            forall|k: int| 0 <= k < i ==> (#[trigger] v@[k]).0 != item,
        decreases v@.len() - i,
    {
        if v[i].0 == item {
            let ghost before = v@;
            v.swap_remove(i);
            proof {
                let after = v@;
                let last = before.len() - 1;
                assert forall|e: Entry| #[trigger] after.contains(e) <==> before.contains(e) && e.0
                    != item by {
                    if after.contains(e) {
                        let k = choose|k: int| 0 <= k < after.len() && after[k] == e;
                        if k == i {
                            assert(before[last] == e);
                            assert(before[i as int].0 != before[last].0);
                        } else {
                            assert(before[k] == e);
                            if k < i {
                                assert(before[k].0 != before[i as int].0);
                            } else {
                                assert(before[i as int].0 != before[k].0);
                            }
                        }
                    }
                    if before.contains(e) && e.0 != item {
                        let k = choose|k: int| 0 <= k < before.len() && before[k] == e;
                        if k == last {
                            assert(after[i as int] == e);
                        } else {
                            assert(after[k] == e);
                        }
                    }
                }
                assert(bucket_ok(after)) by {
                    assert forall|k: int| 0 <= k < after.len() implies (#[trigger] after[k]).1.wf() by {
                        if k == i {
                            assert(before[last].1.wf());
                        } else {
                            assert(before[k].1.wf());
                        }
                    }
                    assert forall|j: int, k: int| 0 <= j < k < after.len() implies (
                    #[trigger] after[j]).0 != (#[trigger] after[k]).0 by {
                        let bj = if j == i { last } else { j };
                        let bk = if k == i { last } else { k };
                        assert(after[j] == before[bj]);
                        assert(after[k] == before[bk]);
                        if bj < bk {
                            assert(before[bj].0 != before[bk].0);
                        } else {
                            assert(before[bk].0 != before[bj].0);
                        }
                    }
                }
                assert(before[i as int].0 == item);
            }
            return true;
        }
        i += 1;
    }
    proof {
        assert forall|e: Entry| #[trigger] v@.contains(e) <==> old(v)@.contains(e) && e.0
            != item by {
            if v@.contains(e) {
                let k = choose|k: int| 0 <= k < v@.len() && v@[k] == e;
                assert(v@[k].0 != item);
            }
        }
    }
    false
}

/// Appends to `out` the entries of the bucket whose boxes intersect the
/// query box.
pub fn match_all(elements: &Vec<Entry>, query_aabb: Rect, out: &mut Vec<Entry>)
    ensures
        final(out)@.len() >= old(out)@.len(),
        final(out)@.subrange(0, old(out)@.len() as int) == old(out)@,
        forall|k: int|
            old(out)@.len() <= k < final(out)@.len() ==> elements@.contains(
                #[trigger] final(out)@[k],
            ) && query_aabb.spec_does_intersect(final(out)@[k].1),
        forall|e: Entry|
            elements@.contains(e) && query_aabb.spec_does_intersect(e.1) ==> exists|k: int|
                old(out)@.len() <= k < final(out)@.len() && #[trigger] final(out)@[k] == e,
{
    let mut i: usize = 0;
    while i < elements.len()
        invariant
            i <= elements@.len(),
            out@.len() >= old(out)@.len(),
            out@.subrange(0, old(out)@.len() as int) == old(out)@,
            forall|k: int|
                old(out)@.len() <= k < out@.len() ==> elements@.contains(#[trigger] out@[k])
                    && query_aabb.spec_does_intersect(out@[k].1),
            forall|j: int|
                0 <= j < i && query_aabb.spec_does_intersect((#[trigger] elements@[j]).1)
                    ==> exists|k: int|
                    old(out)@.len() <= k < out@.len() && #[trigger] out@[k] == elements@[j],
        decreases elements@.len() - i,
    {
        let child_id: ItemId = elements[i].0;
        let child_aabb: Rect = elements[i].1;
        if query_aabb.does_intersect(&child_aabb) {
            let ghost before = out@;
            out.push((child_id, child_aabb));
            proof {
                assert(out@[before.len() as int] == elements@[i as int]);
                assert(out@.subrange(0, old(out)@.len() as int) =~= before.subrange(
                    0,
                    old(out)@.len() as int,
                ));
                assert forall|k: int| old(out)@.len() <= k < out@.len() implies elements@.contains(
                    #[trigger] out@[k],
                ) && query_aabb.spec_does_intersect(out@[k].1) by {
                    if k < before.len() {
                        assert(out@[k] == before[k]);
                    }
                }
                assert forall|j: int|
                    0 <= j < i + 1 && query_aabb.spec_does_intersect(
                        (#[trigger] elements@[j]).1,
                    ) implies exists|k: int|
                    old(out)@.len() <= k < out@.len() && #[trigger] out@[k] == elements@[j] by {
                    if j < i {
                        let k = choose|k: int|
                            old(out)@.len() <= k < before.len() && #[trigger] before[k]
                                == elements@[j];
                        assert(out@[k] == elements@[j]);
                    } else {
                        assert(out@[before.len() as int] == elements@[j]);
                    }
                }
            }
        }
        i += 1;
    }
    proof {
        assert forall|e: Entry|
            elements@.contains(e) && query_aabb.spec_does_intersect(e.1) implies exists|k: int|
            old(out)@.len() <= k < out@.len() && #[trigger] out@[k] == e by {
            let j = choose|j: int| 0 <= j < elements@.len() && elements@[j] == e;
            assert(query_aabb.spec_does_intersect(elements@[j].1));
        }
    }
}

/// A copy of the bucket.
pub fn copy_entries(v: &Vec<Entry>) -> (r: Vec<Entry>)
    ensures
        r@ == v@,
{
    let mut out: Vec<Entry> = Vec::with_capacity(v.len());
    let mut i: usize = 0;
    while i < v.len()
        invariant
            i <= v@.len(),
            out@ == v@.subrange(0, i as int),
        decreases v@.len() - i,
    {
        out.push(v[i]);
        proof {
            assert(out@ =~= v@.subrange(0, i + 1));
        }
        i += 1;
    }
    proof {
        assert(out@ =~= v@);
    }
    out
}

/// Sorts the entries by id and keeps one entry of each id.
pub fn sort_dedup(v: &Vec<Entry>) -> (r: Vec<Entry>)
    requires
        one_box_per_id(v@),
    ensures
        ids_ascend(r@),
        forall|e: Entry| #[trigger] r@.contains(e) <==> v@.contains(e),
{
    let mut out: Vec<Entry> = Vec::new();
    let mut i: usize = 0;
    while i < v.len()
        invariant
            i <= v@.len(),
            one_box_per_id(v@),
            ids_ascend(out@),
            forall|k: int| 0 <= k < out@.len() ==> v@.contains(#[trigger] out@[k]),
            forall|j: int| 0 <= j < i ==> out@.contains(#[trigger] v@[j]),
        decreases v@.len() - i,
    {
        let e: Entry = v[i];
        // Find the first position whose id is not below that of `e`.
        let mut p: usize = 0;
        while p < out.len() && out[p].0.0 < e.0.0
            invariant
                p <= out@.len(),
                forall|k: int| 0 <= k < p ==> (#[trigger] out@[k]).0.0 < e.0.0,
            decreases out@.len() - p,
        {
            p += 1;
        }
        if p < out.len() && out[p].0.0 == e.0.0 {
            proof {
                let w = choose|w: int| 0 <= w < v@.len() && v@[w] == out@[p as int];
                assert(v@[w].0 == v@[i as int].0);
                assert(out@[p as int] == e);
                assert forall|j: int| 0 <= j < i + 1 implies out@.contains(#[trigger] v@[j]) by {
                    if j == i {
                        assert(out@[p as int] == v@[j]);
                    }
                }
            }
        } else {
            let ghost before = out@;
            out.insert(p, e);
            proof {
                assert forall|j: int, k: int| 0 <= j < k < out@.len() implies (#[trigger] out@[j]).0.0
                    < (#[trigger] out@[k]).0.0 by {
                    let bj = if j < p { j } else { j - 1 };
                    let bk = if k < p { k } else { k - 1 };
                    if j != p && k != p {
                        assert(out@[j] == before[bj]);
                        assert(out@[k] == before[bk]);
                        assert(before[bj].0.0 < before[bk].0.0);
                    } else if j == p {
                        assert(out@[k] == before[bk]);
                        if bk > p {
                            assert(before[p as int].0.0 < before[bk].0.0);
                        }
                    } else {
                        assert(out@[j] == before[bj]);
                    }
                }
                assert forall|k: int| 0 <= k < out@.len() implies v@.contains(#[trigger] out@[k]) by {
                    if k < p {
                        assert(out@[k] == before[k]);
                    } else if k == p {
                        assert(v@[i as int] == e);
                    } else {
                        assert(out@[k] == before[k - 1]);
                    }
                }
                assert forall|j: int| 0 <= j < i + 1 implies out@.contains(#[trigger] v@[j]) by {
                    if j == i {
                        assert(out@[p as int] == v@[j]);
                    } else {
                        let k = choose|k: int| 0 <= k < before.len() && before[k] == v@[j];
                        if k < p {
                            assert(out@[k] == v@[j]);
                        } else {
                            assert(out@[k + 1] == v@[j]);
                        }
                    }
                }
            }
        }
        i += 1;
    }
    proof {
        assert forall|e: Entry| #[trigger] out@.contains(e) <==> v@.contains(e) by {
            if out@.contains(e) {
                let k = choose|k: int| 0 <= k < out@.len() && out@[k] == e;
                assert(v@.contains(out@[k]));
            }
            if v@.contains(e) {
                let j = choose|j: int| 0 <= j < v@.len() && v@[j] == e;
                assert(out@.contains(v@[j]));
            }
        }
    }
    out
}


impl QuadNode {
    /// The box of the node.
    pub open spec fn spec_aabb(self) -> Rect {
        match self {
            QuadNode::Branch { aabb, .. } => aabb,
            QuadNode::Leaf { aabb, .. } => aabb,
        }
    }

    /// How many branches lie above the node.
    pub open spec fn spec_depth(self) -> usize {
        match self {
            QuadNode::Branch { depth, .. } => depth,
            QuadNode::Leaf { depth, .. } => depth,
        }
    }

    /// Whether the node is a leaf.
    pub open spec fn is_leaf(self) -> bool {
        self is Leaf
    }

    /// Whether the entry is stored somewhere in this subtree.
    pub open spec fn holds(self, e: Entry) -> bool
        decreases self,
    {
        match self {
            QuadNode::Leaf { elements, .. } => elements@.contains(e),
            QuadNode::Branch { in_all, c0, c1, c2, c3, .. } => in_all@.contains(e) || c0.holds(e)
                || c1.holds(e) || c2.holds(e) || c3.holds(e),
        }
    }

    /// Whether the entry is stored in one of the four children.
    pub open spec fn below(self, e: Entry) -> bool {
        match self {
            QuadNode::Leaf { .. } => false,
            QuadNode::Branch { c0, c1, c2, c3, .. } => c0.holds(e) || c1.holds(e) || c2.holds(e)
                || c3.holds(e),
        }
    }

    /// The entry sits where insertion puts it: at this level only if its box
    /// contains the midpoint, and in a child only if its box does not and
    /// intersects the box of that child.
    pub open spec fn entry_ok(self, e: Entry) -> bool {
        match self {
            QuadNode::Leaf { .. } => true,
            QuadNode::Branch { aabb, in_all, c0, c1, c2, c3, .. } => {
                &&& in_all@.contains(e) ==> e.1.spec_holds_center_of(aabb)
                &&& self.below(e) ==> !e.1.spec_holds_center_of(aabb)
                &&& c0.holds(e) ==> c0.spec_aabb().spec_does_intersect(e.1)
                &&& c1.holds(e) ==> c1.spec_aabb().spec_does_intersect(e.1)
                &&& c2.holds(e) ==> c2.spec_aabb().spec_does_intersect(e.1)
                &&& c3.holds(e) ==> c3.spec_aabb().spec_does_intersect(e.1)
            },
        }
    }

    /// An entry stored in one child is stored in every child whose box its
    /// box intersects.
    pub open spec fn entry_spread(self, e: Entry) -> bool {
        match self {
            QuadNode::Leaf { .. } => true,
            QuadNode::Branch { c0, c1, c2, c3, .. } => self.below(e) ==> {
                &&& c0.spec_aabb().spec_does_intersect(e.1) ==> c0.holds(e)
                &&& c1.spec_aabb().spec_does_intersect(e.1) ==> c1.holds(e)
                &&& c2.spec_aabb().spec_does_intersect(e.1) ==> c2.holds(e)
                &&& c3.spec_aabb().spec_does_intersect(e.1) ==> c3.holds(e)
            },
        }
    }

    /// The shape of the subtree: boxes of children are the quadrants, depths
    /// count up, buckets are in order, every entry sits where insertion
    /// puts it.
    pub open spec fn placed(self) -> bool
        decreases self,
    {
        match self {
            QuadNode::Leaf { aabb, elements, .. } => aabb.wf() && bucket_ok(elements@),
            QuadNode::Branch { aabb, in_all, c0, c1, c2, c3, depth, .. } => {
                &&& aabb.wf()
                &&& bucket_ok(in_all@)
                &&& c0.placed()
                &&& c1.placed()
                &&& c2.placed()
                &&& c3.placed()
                &&& c0.spec_aabb() == aabb.spec_quadrant(0)
                &&& c1.spec_aabb() == aabb.spec_quadrant(1)
                &&& c2.spec_aabb() == aabb.spec_quadrant(2)
                &&& c3.spec_aabb() == aabb.spec_quadrant(3)
                &&& c0.spec_depth() == depth + 1
                &&& c1.spec_depth() == depth + 1
                &&& c2.spec_depth() == depth + 1
                &&& c3.spec_depth() == depth + 1
                &&& forall|e: Entry| #[trigger] self.entry_ok(e)
            },
        }
    }

    /// Every branch of the subtree spreads its entries over all the children
    /// they reach.
    pub open spec fn spread(self) -> bool
        decreases self,
    {
        match self {
            QuadNode::Leaf { .. } => true,
            QuadNode::Branch { c0, c1, c2, c3, .. } => {
                &&& c0.spread()
                &&& c1.spread()
                &&& c2.spread()
                &&& c3.spread()
                &&& forall|e: Entry| #[trigger] self.entry_spread(e)
            },
        }
    }

    /// No bucket of the subtree holds a box that is a duplicate of a box
    /// before it in that bucket.
    pub open spec fn sparse(self) -> bool
        decreases self,
    {
        match self {
            QuadNode::Leaf { elements, .. } => bucket_sparse(elements@),
            QuadNode::Branch { in_all, c0, c1, c2, c3, .. } => {
                &&& bucket_sparse(in_all@)
                &&& c0.sparse()
                &&& c1.sparse()
                &&& c2.sparse()
                &&& c3.sparse()
            },
        }
    }

    /// A subtree in which no two entries under different ids have boxes
    /// that are duplicates of each other is sparse.
    pub proof fn lemma_apart_sparse(self)
        requires
            self.placed(),
            forall|a: Entry, b: Entry|
                #[trigger] self.holds(a) && #[trigger] self.holds(b) && a.0 != b.0
                    ==> !a.1.spec_close_to(b.1, EPSILON),
        ensures
            self.sparse(),
        decreases self,
    {
        match self {
            QuadNode::Leaf { elements, .. } => {
                assert forall|j: int, k: int| 0 <= j < k < elements@.len() implies !(
                #[trigger] elements@[j]).1.spec_close_to((#[trigger] elements@[k]).1, EPSILON) by {
                    assert(self.holds(elements@[j]) && self.holds(elements@[k]));
                }
            },
            QuadNode::Branch { in_all, c0, c1, c2, c3, .. } => {
                assert forall|j: int, k: int| 0 <= j < k < in_all@.len() implies !(
                #[trigger] in_all@[j]).1.spec_close_to((#[trigger] in_all@[k]).1, EPSILON) by {
                    assert(in_all@.contains(in_all@[j]) && in_all@.contains(in_all@[k]));
                    assert(self.holds(in_all@[j]) && self.holds(in_all@[k]));
                }
                assert forall|a: Entry, b: Entry|
                    #[trigger] c0.holds(a) && #[trigger] c0.holds(b) && a.0
                        != b.0 implies !a.1.spec_close_to(b.1, EPSILON) by {
                    assert(self.holds(a) && self.holds(b));
                }
                assert forall|a: Entry, b: Entry|
                    #[trigger] c1.holds(a) && #[trigger] c1.holds(b) && a.0
                        != b.0 implies !a.1.spec_close_to(b.1, EPSILON) by {
                    assert(self.holds(a) && self.holds(b));
                }
                assert forall|a: Entry, b: Entry|
                    #[trigger] c2.holds(a) && #[trigger] c2.holds(b) && a.0
                        != b.0 implies !a.1.spec_close_to(b.1, EPSILON) by {
                    assert(self.holds(a) && self.holds(b));
                }
                assert forall|a: Entry, b: Entry|
                    #[trigger] c3.holds(a) && #[trigger] c3.holds(b) && a.0
                        != b.0 implies !a.1.spec_close_to(b.1, EPSILON) by {
                    assert(self.holds(a) && self.holds(b));
                }
                c0.lemma_apart_sparse();
                c1.lemma_apart_sparse();
                c2.lemma_apart_sparse();
                c3.lemma_apart_sparse();
            },
        }
    }

    /// No leaf of the subtree holds more than `max_children` entries,
    /// unless it lies at the greatest depth, where leaves are not split.
    pub open spec fn roomy(self, config: QuadTreeConfig) -> bool
        decreases self,
    {
        match self {
            QuadNode::Leaf { elements, depth, .. } => elements@.len() <= config.max_children
                || depth == config.max_depth,
            QuadNode::Branch { c0, c1, c2, c3, .. } => {
                &&& c0.roomy(config)
                &&& c1.roomy(config)
                &&& c2.roomy(config)
                &&& c3.roomy(config)
            },
        }
    }

    /// No leaf lies deeper than `max_depth`, no branch as deep.
    pub open spec fn within(self, max_depth: usize) -> bool
        decreases self,
    {
        match self {
            QuadNode::Leaf { depth, .. } => depth <= max_depth,
            QuadNode::Branch { c0, c1, c2, c3, depth, .. } => {
                &&& depth < max_depth
                &&& c0.within(max_depth)
                &&& c1.within(max_depth)
                &&& c2.within(max_depth)
                &&& c3.within(max_depth)
            },
        }
    }

    /// The subtree is in shape and no deeper than the configuration allows.
    pub open spec fn wf(self, config: QuadTreeConfig) -> bool {
        self.placed() && self.within(config.max_depth)
    }

    /// Equal ids in the subtree carry equal boxes.
    pub open spec fn one_box_per_id(self) -> bool {
        forall|a: Entry, b: Entry| #[trigger]
            self.holds(a) && #[trigger] self.holds(b) && a.0 == b.0 ==> a == b
    }

    /// 1 for a leaf, 0 for a branch.
    pub open spec fn leaf_rank(self) -> int {
        if self.is_leaf() {
            1
        } else {
            0
        }
    }

    /// Every stored box is well formed.
    pub proof fn lemma_held_wf(self, e: Entry)
        requires
            self.placed(),
            self.holds(e),
        ensures
            e.1.wf(),
        decreases self,
    {
        match self {
            QuadNode::Leaf { elements, .. } => {
                let k = choose|k: int| 0 <= k < elements@.len() && elements@[k] == e;
                assert(elements@[k].1.wf());
            },
            QuadNode::Branch { in_all, c0, c1, c2, c3, .. } => {
                if in_all@.contains(e) {
                    let k = choose|k: int| 0 <= k < in_all@.len() && in_all@[k] == e;
                    assert(in_all@[k].1.wf());
                } else if c0.holds(e) {
                    c0.lemma_held_wf(e);
                } else if c1.holds(e) {
                    c1.lemma_held_wf(e);
                } else if c2.holds(e) {
                    c2.lemma_held_wf(e);
                } else {
                    c3.lemma_held_wf(e);
                }
            },
        }
    }

    /// Every box stored in a branch intersects the box of the branch.
    pub proof fn lemma_held_meets(self, e: Entry)
        requires
            self.placed(),
            !self.is_leaf(),
            self.holds(e),
        ensures
            self.spec_aabb().spec_does_intersect(e.1),
    {
        let aabb = self.spec_aabb();
        assert(self.entry_ok(e));
        match self {
            QuadNode::Leaf { .. } => {},
            QuadNode::Branch { in_all, c0, c1, c2, c3, .. } => {
                if in_all@.contains(e) {
                    lemma_center_meets(aabb, e.1);
                } else if c0.holds(e) {
                    lemma_quadrant_inside(aabb, 0, e.1);
                } else if c1.holds(e) {
                    lemma_quadrant_inside(aabb, 1, e.1);
                } else if c2.holds(e) {
                    lemma_quadrant_inside(aabb, 2, e.1);
                } else {
                    lemma_quadrant_inside(aabb, 3, e.1);
                }
            },
        }
    }

    /// When a search with the query box is sure to come past a stored entry
    /// whose box the query box intersects: the query box covers the box of
    /// this node, or it covers the box of the entry, or the subtree spreads
    /// its entries and the query box, the box of the entry and the box of
    /// this node intersect pairwise.
    pub open spec fn reaches(self, query_aabb: Rect, e: Entry) -> bool {
        &&& query_aabb.spec_does_intersect(e.1)
        &&& query_aabb.spec_covers(self.spec_aabb()) || query_aabb.spec_covers(e.1) || (
        self.spread() && query_aabb.wf() && query_aabb.spec_does_intersect(self.spec_aabb())
            && self.spec_aabb().spec_does_intersect(e.1))
    }

    /// An entry that a search is sure to come past lies at this level, or in
    /// a child that the search enters and where it is sure to come past it.
    pub proof fn lemma_reaches_step(self, query_aabb: Rect, e: Entry)
        requires
            self.placed(),
            self.holds(e),
            self.reaches(query_aabb, e),
            self is Branch,
        ensures
            self->Branch_in_all@.contains(e) || (self->Branch_c0.holds(e)
                && self->Branch_c0.reaches(query_aabb, e) && query_aabb.spec_does_intersect(
                self->Branch_c0.spec_aabb(),
            )) || (self->Branch_c1.holds(e) && self->Branch_c1.reaches(query_aabb, e)
                && query_aabb.spec_does_intersect(self->Branch_c1.spec_aabb()))
                || (self->Branch_c2.holds(e) && self->Branch_c2.reaches(query_aabb, e)
                && query_aabb.spec_does_intersect(self->Branch_c2.spec_aabb()))
                || (self->Branch_c3.holds(e) && self->Branch_c3.reaches(query_aabb, e)
                && query_aabb.spec_does_intersect(self->Branch_c3.spec_aabb())),
    {
        let aabb = self.spec_aabb();
        assert(self.entry_ok(e));
        self.lemma_held_wf(e);
        lemma_quadrant_inside(aabb, 0, e.1);
        lemma_quadrant_inside(aabb, 1, e.1);
        lemma_quadrant_inside(aabb, 2, e.1);
        lemma_quadrant_inside(aabb, 3, e.1);
        if !self->Branch_in_all@.contains(e) {
            assert(self.below(e));
            if query_aabb.spec_covers(aabb) {
                lemma_covers_quadrant(query_aabb, aabb, 0);
                lemma_covers_quadrant(query_aabb, aabb, 1);
                lemma_covers_quadrant(query_aabb, aabb, 2);
                lemma_covers_quadrant(query_aabb, aabb, 3);
            } else if query_aabb.spec_covers(e.1) {
                // What intersects the box of the entry intersects a box
                // that covers it.
            } else {
                assert(self.entry_spread(e));
                let i = lemma_shared_quadrant(aabb, query_aabb, e.1);
                if i == 0 {
                    assert(self->Branch_c0.holds(e));
                } else if i == 1 {
                    assert(self->Branch_c1.holds(e));
                } else if i == 2 {
                    assert(self->Branch_c2.holds(e));
                } else {
                    assert(self->Branch_c3.holds(e));
                }
            }
        }
    }

    /// The nodes of the subtree, each parent before its children: the box
    /// of the node, its depth, and whether it is a leaf.
    pub open spec fn outline(self) -> Seq<(Rect, usize, bool)>
        decreases self,
    {
        match self {
            QuadNode::Leaf { aabb, depth, .. } => seq![(aabb, depth, true)],
            QuadNode::Branch { aabb, depth, c0, c1, c2, c3, .. } => seq![(aabb, depth, false)]
                + c0.outline() + c1.outline() + c2.outline() + c3.outline(),
        }
    }

    /// Appends to `out` the box, the depth and the kind of every node of the
    /// subtree, each parent before its children; the flag is true for a leaf.
    pub fn inspect(&self, out: &mut Vec<(Rect, usize, bool)>)
        ensures
            final(out)@ == old(out)@ + self.outline(),
        decreases self,
    {
        match self {
            QuadNode::Branch { depth, aabb, c0, c1, c2, c3, .. } => {
                out.push((*aabb, *depth, false));
                let ghost s1 = out@;
                c0.inspect(out);
                c1.inspect(out);
                c2.inspect(out);
                c3.inspect(out);
                proof {
                    assert(s1 == old(out)@ + seq![(*aabb, *depth, false)]);
                    assert(out@ =~= old(out)@ + self.outline());
                }
            },
            QuadNode::Leaf { depth, aabb, .. } => {
                out.push((*aabb, *depth, true));
                proof {
                    assert(out@ =~= old(out)@ + self.outline());
                }
            },
        }
    }

    /// A copy of this subtree.
    pub fn duplicate(&self) -> (r: QuadNode)
        ensures
            r.placed() == self.placed(),
            r.spread() == self.spread(),
            r.spec_aabb() == self.spec_aabb(),
            r.spec_depth() == self.spec_depth(),
            r.is_leaf() == self.is_leaf(),
            r.outline() == self.outline(),
            r.sparse() == self.sparse(),
            forall|config: QuadTreeConfig|
                #![trigger r.roomy(config)]
                #![trigger self.roomy(config)]
                r.roomy(config) == self.roomy(config),
            forall|m: usize|
                #![trigger r.within(m)]
                #![trigger self.within(m)]
                r.within(m) == self.within(m),
            forall|e: Entry|
                #![trigger r.holds(e)]
                #![trigger self.holds(e)]
                r.holds(e) == self.holds(e),
        decreases self,
    {
        match self {
            QuadNode::Branch { aabb, c0, c1, c2, c3, in_all, element_count, depth } => {
                let leaf0 = c0.duplicate();
                let leaf1 = c1.duplicate();
                let leaf2 = c2.duplicate();
                let leaf3 = c3.duplicate();
                let r = QuadNode::Branch {
                    aabb: *aabb,
                    c0: Box::new(leaf0),
                    c1: Box::new(leaf1),
                    c2: Box::new(leaf2),
                    c3: Box::new(leaf3),
                    in_all: copy_entries(in_all),
                    element_count: *element_count,
                    depth: *depth,
                };
                proof {
                    assert forall|e: Entry| r.holds(e) == self.holds(e) by {
                        assert(leaf0.holds(e) == c0.holds(e));
                        assert(leaf1.holds(e) == c1.holds(e));
                        assert(leaf2.holds(e) == c2.holds(e));
                        assert(leaf3.holds(e) == c3.holds(e));
                    }
                    assert forall|e: Entry| r.entry_ok(e) == self.entry_ok(e) by {
                        assert(leaf0.holds(e) == c0.holds(e));
                        assert(leaf1.holds(e) == c1.holds(e));
                        assert(leaf2.holds(e) == c2.holds(e));
                        assert(leaf3.holds(e) == c3.holds(e));
                    }
                    assert forall|e: Entry| r.entry_spread(e) == self.entry_spread(e) by {
                        assert(leaf0.holds(e) == c0.holds(e));
                        assert(leaf1.holds(e) == c1.holds(e));
                        assert(leaf2.holds(e) == c2.holds(e));
                        assert(leaf3.holds(e) == c3.holds(e));
                    }
                    if self.placed() {
                        assert forall|e: Entry| #[trigger] r.entry_ok(e) by {
                            assert(self.entry_ok(e));
                        }
                    }
                    if r.placed() {
                        assert forall|e: Entry| #[trigger] self.entry_ok(e) by {
                            assert(r.entry_ok(e));
                        }
                    }
                    if self.spread() {
                        assert forall|e: Entry| #[trigger] r.entry_spread(e) by {
                            assert(self.entry_spread(e));
                        }
                    }
                    if r.spread() {
                        assert forall|e: Entry| #[trigger] self.entry_spread(e) by {
                            assert(r.entry_spread(e));
                        }
                    }
                    assert forall|m: usize| r.within(m) == self.within(m) by {
                        assert(leaf0.within(m) == c0.within(m));
                        assert(leaf1.within(m) == c1.within(m));
                        assert(leaf2.within(m) == c2.within(m));
                        assert(leaf3.within(m) == c3.within(m));
                    }
                    assert forall|config: QuadTreeConfig| r.roomy(config) == self.roomy(config) by {
                        assert(leaf0.roomy(config) == c0.roomy(config));
                        assert(leaf1.roomy(config) == c1.roomy(config));
                        assert(leaf2.roomy(config) == c2.roomy(config));
                        assert(leaf3.roomy(config) == c3.roomy(config));
                    }
                }
                r
            },
            QuadNode::Leaf { aabb, elements, depth } => {
                QuadNode::Leaf { aabb: *aabb, elements: copy_entries(elements), depth: *depth }
            },
        }
    }

    /// The box of the node.
    pub fn bounding_box(&self) -> (r: Rect)
        ensures
            r == self.spec_aabb(),
    {
        match self {
            QuadNode::Branch { aabb, .. } => *aabb,
            QuadNode::Leaf { aabb, .. } => *aabb,
        }
    }

    /// How many branches lie above the node.
    pub fn depth(&self) -> (r: usize)
        ensures
            r == self.spec_depth(),
    {
        match self {
            QuadNode::Branch { depth, .. } => *depth,
            QuadNode::Leaf { depth, .. } => *depth,
        }
    }

    /// An empty leaf with the given box at the given depth.
    pub fn new_leaf(aabb: Rect, depth: usize, config: &QuadTreeConfig) -> (r: QuadNode)
        ensures
            r == (QuadNode::Leaf { aabb, elements: r->Leaf_elements, depth }),
            r->Leaf_elements@.len() == 0,
            r.is_leaf(),
    {
        QuadNode::Leaf { aabb, elements: Vec::with_capacity(config.max_children / 2), depth }
    }

    /// Appends to `out` the stored entries whose boxes intersect the query
    /// box, as far as the search comes past them: it enters a child only if
    /// the query box intersects the box of the child.
    pub fn query(&self, query_aabb: Rect, out: &mut Vec<Entry>)
        requires
            self.placed(),
        ensures
            final(out)@.len() >= old(out)@.len(),
            final(out)@.subrange(0, old(out)@.len() as int) == old(out)@,
            forall|k: int|
                old(out)@.len() <= k < final(out)@.len() ==> self.holds(#[trigger] final(out)@[k])
                    && query_aabb.spec_does_intersect(final(out)@[k].1),
            forall|e: Entry|
                self.holds(e) && self.reaches(query_aabb, e) ==> exists|k: int|
                    old(out)@.len() <= k < final(out)@.len() && #[trigger] final(out)@[k] == e,
        decreases self,
    {
        match self {
            QuadNode::Branch { aabb, in_all, c0, c1, c2, c3, .. } => {
                let ghost s0 = out@;
                match_all(in_all, query_aabb, out);
                let ghost s1 = out@;
                if query_aabb.does_intersect(&c0.bounding_box()) {
                    c0.query(query_aabb, out);
                }
                let ghost s2 = out@;
                if query_aabb.does_intersect(&c1.bounding_box()) {
                    c1.query(query_aabb, out);
                }
                let ghost s3 = out@;
                if query_aabb.does_intersect(&c2.bounding_box()) {
                    c2.query(query_aabb, out);
                }
                let ghost s4 = out@;
                if query_aabb.does_intersect(&c3.bounding_box()) {
                    c3.query(query_aabb, out);
                }
                let ghost s5 = out@;
                proof {
                    let leaf0 = s0.len() as int;
                    let leaf1 = s1.len() as int;
                    let leaf2 = s2.len() as int;
                    let leaf3 = s3.len() as int;
                    let n4 = s4.len() as int;
                    assert(s1 == s2.subrange(0, leaf1));
                    assert(s2 == s3.subrange(0, leaf2));
                    assert(s3 == s4.subrange(0, leaf3));
                    assert(s4 == s5.subrange(0, n4));
                    assert(s0 == s1.subrange(0, leaf0));
                    assert(s5.subrange(0, leaf0) =~= s0) by {
                        assert forall|k: int| 0 <= k < leaf0 implies s5[k] == s0[k] by {
                            assert(s4[k] == s4.subrange(0, n4)[k]);
                            assert(s3[k] == s4.subrange(0, leaf3)[k]);
                            assert(s2[k] == s3.subrange(0, leaf2)[k]);
                            assert(s1[k] == s2.subrange(0, leaf1)[k]);
                            assert(s0[k] == s1.subrange(0, leaf0)[k]);
                        }
                    }
                    assert forall|k: int| leaf0 <= k < s5.len() implies self.holds(#[trigger] s5[k])
                        && query_aabb.spec_does_intersect(s5[k].1) by {
                        if k < leaf1 {
                            assert(s4[k] == s4.subrange(0, n4)[k]);
                            assert(s3[k] == s4.subrange(0, leaf3)[k]);
                            assert(s2[k] == s3.subrange(0, leaf2)[k]);
                            assert(s1[k] == s2.subrange(0, leaf1)[k]);
                            assert(in_all@.contains(s1[k]));
                        } else if k < leaf2 {
                            assert(s4[k] == s4.subrange(0, n4)[k]);
                            assert(s3[k] == s4.subrange(0, leaf3)[k]);
                            assert(s2[k] == s3.subrange(0, leaf2)[k]);
                            assert(c0.holds(s2[k]));
                        } else if k < leaf3 {
                            assert(s4[k] == s4.subrange(0, n4)[k]);
                            assert(s3[k] == s4.subrange(0, leaf3)[k]);
                            assert(c1.holds(s3[k]));
                        } else if k < n4 {
                            assert(s4[k] == s4.subrange(0, n4)[k]);
                            assert(c2.holds(s4[k]));
                        } else {
                            assert(c3.holds(s5[k]));
                        }
                    }
                    assert forall|e: Entry|
                        self.holds(e) && self.reaches(query_aabb, e) implies exists|k: int|
                        leaf0 <= k < s5.len() && #[trigger] s5[k] == e by {
                        self.lemma_reaches_step(query_aabb, e);
                        if in_all@.contains(e) {
                            let k = choose|k: int| leaf0 <= k < leaf1 && #[trigger] s1[k] == e;
                            assert(s4[k] == s4.subrange(0, n4)[k]);
                            assert(s3[k] == s4.subrange(0, leaf3)[k]);
                            assert(s2[k] == s3.subrange(0, leaf2)[k]);
                            assert(s1[k] == s2.subrange(0, leaf1)[k]);
                            assert(s5[k] == e);
                        } else if c0.holds(e) && c0.reaches(query_aabb, e)
                            && query_aabb.spec_does_intersect(c0.spec_aabb()) {
                            let k = choose|k: int| leaf1 <= k < leaf2 && #[trigger] s2[k] == e;
                            assert(s4[k] == s4.subrange(0, n4)[k]);
                            assert(s3[k] == s4.subrange(0, leaf3)[k]);
                            assert(s2[k] == s3.subrange(0, leaf2)[k]);
                            assert(s5[k] == e);
                        } else if c1.holds(e) && c1.reaches(query_aabb, e)
                            && query_aabb.spec_does_intersect(c1.spec_aabb()) {
                            let k = choose|k: int| leaf2 <= k < leaf3 && #[trigger] s3[k] == e;
                            assert(s4[k] == s4.subrange(0, n4)[k]);
                            assert(s3[k] == s4.subrange(0, leaf3)[k]);
                            assert(s5[k] == e);
                        } else if c2.holds(e) && c2.reaches(query_aabb, e)
                            && query_aabb.spec_does_intersect(c2.spec_aabb()) {
                            let k = choose|k: int| leaf3 <= k < n4 && #[trigger] s4[k] == e;
                            assert(s4[k] == s4.subrange(0, n4)[k]);
                            assert(s5[k] == e);
                        } else {
                            assert(c3.holds(e) && c3.reaches(query_aabb, e)
                                && query_aabb.spec_does_intersect(c3.spec_aabb()));
                            let k = choose|k: int| n4 <= k < s5.len() && #[trigger] s5[k] == e;
                            assert(s5[k] == e);
                        }
                    }
                }
            },
            QuadNode::Leaf { elements, .. } => match_all(elements, query_aabb, out),
        }
    }

    /// What one insertion makes of a subtree: nothing appears but the new
    /// entry, and full leaves are split, so that a roomy subtree stays
    /// roomy; and where duplicates are allowed, every entry whose box
    /// intersects the box of the node stays, the new entry is stored if its
    /// box intersects the box of the node, and entries stay spread.
    pub open spec fn grown(
        pre: QuadNode,
        post: QuadNode,
        item: Entry,
        config: QuadTreeConfig,
    ) -> bool {
        &&& post.wf(config)
        &&& post.spec_aabb() == pre.spec_aabb()
        &&& post.spec_depth() == pre.spec_depth()
        &&& !pre.is_leaf() ==> !post.is_leaf()
        &&& forall|e: Entry| #[trigger] post.holds(e) ==> pre.holds(e) || e == item
        &&& config.allow_duplicates ==> forall|e: Entry| #[trigger]
            pre.holds(e) && pre.spec_aabb().spec_does_intersect(e.1) ==> post.holds(e)
        &&& config.allow_duplicates && pre.spec_aabb().spec_does_intersect(item.1) ==> post.holds(
            item,
        )
        &&& config.allow_duplicates && pre.spread() ==> post.spread()
        &&& QuadNode::stands_for(pre, post, item, config)
        &&& QuadNode::kept_apart(pre, post, item, config)
        &&& pre.roomy(config) ==> post.roomy(config)
        &&& QuadNode::grown_shape(pre, post, item, config)
    }

    /// What an insertion makes of the node itself. A leaf that is full and
    /// not at the greatest depth becomes a branch that has counted what the
    /// leaf held and the new entry. Another leaf takes the new entry at the
    /// end of its bucket, unless duplicates are not allowed and it holds a
    /// duplicate. A branch stays a branch and counts one entry more.
    pub open spec fn grown_shape(
        pre: QuadNode,
        post: QuadNode,
        item: Entry,
        config: QuadTreeConfig,
    ) -> bool {
        match pre {
            QuadNode::Leaf { elements, depth, .. } => {
                if elements@.len() == config.max_children && depth != config.max_depth {
                    post is Branch && post->Branch_element_count == elements@.len() + 1
                } else if config.allow_duplicates || !(exists|k: int|
                    0 <= k < elements@.len() && (#[trigger] elements@[k]).1.spec_close_to(
                        item.1,
                        EPSILON,
                    )) {
                    post is Leaf && post->Leaf_elements@ == elements@.push(item)
                } else {
                    post is Leaf && post->Leaf_elements@ == elements@
                }
            },
            QuadNode::Branch { element_count, .. } => {
                post is Branch && post->Branch_element_count == (if element_count < usize::MAX {
                    element_count + 1
                } else {
                    element_count as int
                })
            },
        }
    }

    /// Where duplicates are not allowed, a new entry whose box intersects
    /// the box of the node is left out only if the subtree held an entry
    /// with a box that is a duplicate of its box; and a sparse subtree stays
    /// sparse and keeps every entry whose box intersects the box of the
    /// node.
    pub open spec fn kept_apart(
        pre: QuadNode,
        post: QuadNode,
        item: Entry,
        config: QuadTreeConfig,
    ) -> bool {
        !config.allow_duplicates ==> {
            &&& pre.spec_aabb().spec_does_intersect(item.1) && !post.holds(item) ==> exists|e: Entry|
                #[trigger] pre.holds(e) && e.1.spec_close_to(item.1, EPSILON)
            &&& pre.sparse() ==> post.sparse()
            &&& pre.sparse() ==> forall|e: Entry| #[trigger]
                pre.holds(e) && pre.spec_aabb().spec_does_intersect(e.1) ==> post.holds(e)
        }
    }

    /// Where duplicates are not allowed, a new entry whose box intersects
    /// the box of the node is left out only if the subtree then holds an
    /// entry with a box that is a duplicate of its box.
    pub open spec fn stands_for(
        pre: QuadNode,
        post: QuadNode,
        item: Entry,
        config: QuadTreeConfig,
    ) -> bool {
        !config.allow_duplicates && pre.spec_aabb().spec_does_intersect(item.1) && !post.holds(item)
            ==> exists|e: Entry| #[trigger] post.holds(e) && e.1.spec_close_to(item.1, EPSILON)
    }

    /// What an insertion at a branch makes of one child: the child grows if
    /// its box intersects the box of the new entry, and stays as it is
    /// otherwise.
    pub open spec fn child_step(
        pre: QuadNode,
        post: QuadNode,
        item: Entry,
        config: QuadTreeConfig,
    ) -> bool {
        if pre.spec_aabb().spec_does_intersect(item.1) {
            QuadNode::grown(pre, post, item, config)
        } else {
            post == pre
        }
    }

    /// A branch whose children took their steps has grown.
    pub proof fn lemma_branch_grown(
        pre: QuadNode,
        post: QuadNode,
        item: Entry,
        config: QuadTreeConfig,
    )
        requires
            pre.wf(config),
            pre is Branch,
            post is Branch,
            item.1.wf(),
            forall|e: Entry| pre.holds(e) ==> e.0 != item.0,
            !item.1.spec_holds_center_of(pre.spec_aabb()),
            post->Branch_aabb == pre->Branch_aabb,
            post->Branch_depth == pre->Branch_depth,
            post->Branch_in_all == pre->Branch_in_all,
            QuadNode::grown_shape(pre, post, item, config),
            QuadNode::child_step(*pre->Branch_c0, *post->Branch_c0, item, config),
            QuadNode::child_step(*pre->Branch_c1, *post->Branch_c1, item, config),
            QuadNode::child_step(*pre->Branch_c2, *post->Branch_c2, item, config),
            QuadNode::child_step(*pre->Branch_c3, *post->Branch_c3, item, config),
        ensures
            QuadNode::grown(pre, post, item, config),
            forall|e: Entry| #[trigger] pre.holds(e) ==> post.holds(e) || !config.allow_duplicates,
    {
        let aabb = pre.spec_aabb();
        let was0 = *pre->Branch_c0;
        let was1 = *pre->Branch_c1;
        let was2 = *pre->Branch_c2;
        let was3 = *pre->Branch_c3;
        let now0 = *post->Branch_c0;
        let now1 = *post->Branch_c1;
        let now2 = *post->Branch_c2;
        let now3 = *post->Branch_c3;
        assert(was0.wf(config) && was1.wf(config) && was2.wf(config) && was3.wf(config));
        assert(now0.wf(config) && now1.wf(config) && now2.wf(config) && now3.wf(config));
        assert forall|e: Entry| #[trigger] post.holds(e) implies pre.holds(e) || e == item by {
            if now0.holds(e) {
                assert(was0.holds(e) || e == item);
            } else if now1.holds(e) {
                assert(was1.holds(e) || e == item);
            } else if now2.holds(e) {
                assert(was2.holds(e) || e == item);
            } else if now3.holds(e) {
                assert(was3.holds(e) || e == item);
            }
        }
        assert forall|e: Entry| #[trigger] post.entry_ok(e) by {
            assert(pre.entry_ok(e));
            if now0.holds(e) {
                assert(was0.holds(e) || e == item);
            }
            if now1.holds(e) {
                assert(was1.holds(e) || e == item);
            }
            if now2.holds(e) {
                assert(was2.holds(e) || e == item);
            }
            if now3.holds(e) {
                assert(was3.holds(e) || e == item);
            }
        }
        assert(post.placed());
        assert(post.within(config.max_depth));
        if config.allow_duplicates {
            assert forall|e: Entry| #[trigger] pre.holds(e) implies post.holds(e) by {
                assert(pre.entry_ok(e));
                if was0.holds(e) {
                    assert(now0.holds(e));
                } else if was1.holds(e) {
                    assert(now1.holds(e));
                } else if was2.holds(e) {
                    assert(now2.holds(e));
                } else if was3.holds(e) {
                    assert(now3.holds(e));
                }
            }
            if aabb.spec_does_intersect(item.1) {
                let i = lemma_quadrant_reaches(aabb, item.1);
                if i == 0 {
                    assert(now0.holds(item));
                } else if i == 1 {
                    assert(now1.holds(item));
                } else if i == 2 {
                    assert(now2.holds(item));
                } else {
                    assert(now3.holds(item));
                }
                assert(post.holds(item));
            }
            if pre.spread() {
                assert forall|e: Entry| #[trigger] post.entry_spread(e) by {
                    assert(pre.entry_spread(e));
                    assert(pre.entry_ok(e));
                    assert(post.entry_ok(e));
                }
                assert(post.spread());
            }
        } else {
            if aabb.spec_does_intersect(item.1) && !post.holds(item) {
                let i = lemma_quadrant_reaches(aabb, item.1);
                let q = if i == 0 { now0 } else if i == 1 { now1 } else if i == 2 { now2 } else { now3 };
                let p = if i == 0 { was0 } else if i == 1 { was1 } else if i == 2 { was2 } else { was3 };
                assert(QuadNode::stands_for(p, q, item, config));
                assert(QuadNode::kept_apart(p, q, item, config));
                assert(!q.holds(item));
                let e = choose|e: Entry| #[trigger] q.holds(e) && e.1.spec_close_to(item.1, EPSILON);
                assert(post.holds(e));
                let f = choose|f: Entry| #[trigger] p.holds(f) && f.1.spec_close_to(item.1, EPSILON);
                assert(pre.holds(f));
            }
            if pre.sparse() {
                assert(QuadNode::kept_apart(was0, now0, item, config) || now0 == was0);
                assert(QuadNode::kept_apart(was1, now1, item, config) || now1 == was1);
                assert(QuadNode::kept_apart(was2, now2, item, config) || now2 == was2);
                assert(QuadNode::kept_apart(was3, now3, item, config) || now3 == was3);
                assert(post.sparse());
                assert forall|e: Entry| #[trigger]
                    pre.holds(e) && aabb.spec_does_intersect(e.1) implies post.holds(e) by {
                    assert(pre.entry_ok(e));
                    if was0.holds(e) {
                        assert(now0.holds(e));
                    } else if was1.holds(e) {
                        assert(now1.holds(e));
                    } else if was2.holds(e) {
                        assert(now2.holds(e));
                    } else if was3.holds(e) {
                        assert(now3.holds(e));
                    }
                }
            }
        }
    }

    /// A branch that took a new entry into its own bucket, or left it out,
    /// has grown.
    pub proof fn lemma_branch_grown_center(
        pre: QuadNode,
        post: QuadNode,
        item: Entry,
        config: QuadTreeConfig,
    )
        requires
            pre.wf(config),
            pre is Branch,
            post is Branch,
            item.1.wf(),
            forall|e: Entry| pre.holds(e) ==> e.0 != item.0,
            item.1.spec_holds_center_of(pre.spec_aabb()),
            post->Branch_aabb == pre->Branch_aabb,
            post->Branch_depth == pre->Branch_depth,
            QuadNode::grown_shape(pre, post, item, config),
            post->Branch_c0 == pre->Branch_c0,
            post->Branch_c1 == pre->Branch_c1,
            post->Branch_c2 == pre->Branch_c2,
            post->Branch_c3 == pre->Branch_c3,
            post->Branch_in_all@ == pre->Branch_in_all@ || post->Branch_in_all@
                == pre->Branch_in_all@.push(item),
            config.allow_duplicates ==> post->Branch_in_all@ == pre->Branch_in_all@.push(item),
            post->Branch_in_all@ == pre->Branch_in_all@ ==> exists|k: int|
                0 <= k < pre->Branch_in_all@.len() && (#[trigger] pre->Branch_in_all@[k]).1.spec_close_to(
                    item.1,
                    EPSILON,
                ),
            !config.allow_duplicates && post->Branch_in_all@ != pre->Branch_in_all@ ==> forall|k: int|
                0 <= k < pre->Branch_in_all@.len() ==> !(#[trigger] pre->Branch_in_all@[k]).1.spec_close_to(
                    item.1,
                    EPSILON,
                ),
        ensures
            QuadNode::grown(pre, post, item, config),
    {
        let old_in = pre->Branch_in_all@;
        if post->Branch_in_all@ == old_in {
            let k = choose|k: int|
                0 <= k < old_in.len() && (#[trigger] old_in[k]).1.spec_close_to(item.1, EPSILON);
            assert(post.holds(old_in[k]));
            assert(pre.holds(old_in[k]));
        } else if !config.allow_duplicates && pre.sparse() {
            lemma_sparse_push(old_in, item);
        }
        lemma_push_contains(old_in, item);
        if post->Branch_in_all@ == old_in.push(item) {
            assert forall|e: Entry| old_in.contains(e) implies e.0 != item.0 by {
                assert(pre.holds(e));
            }
            lemma_bucket_push(old_in, item);
        }
        assert forall|e: Entry| #[trigger] post.holds(e) implies pre.holds(e) || e == item by {}
        assert forall|e: Entry| #[trigger] post.entry_ok(e) by {
            assert(pre.entry_ok(e));
        }
        assert(post.placed());
        assert(post.within(config.max_depth));
        if config.allow_duplicates {
            assert forall|e: Entry| #[trigger] pre.holds(e) implies post.holds(e) by {}
            assert(post.holds(item));
            if pre.spread() {
                assert forall|e: Entry| #[trigger] post.entry_spread(e) by {
                    assert(pre.entry_spread(e));
                }
                assert(post.spread());
            }
        }
    }

    /// Inserts the entry into this child of a branch if the box of the
    /// child intersects its box.
    pub fn insert_if_meets(&mut self, item_id: ItemId, item_aabb: Rect, config: &QuadTreeConfig)
        requires
            old(self).wf(*config),
            item_aabb.wf(),
            forall|e: Entry| old(self).holds(e) ==> e.0 != item_id,
        ensures
            QuadNode::child_step(*old(self), *final(self), (item_id, item_aabb), *config),
        decreases config.max_depth - old(self).spec_depth(), 2int,
    {
        if self.bounding_box().does_intersect(&item_aabb) {
            self.insert(item_id, item_aabb, config);
        }
    }

    /// Stores the entry in the subtree. At a branch it goes into the bucket
    /// of the branch if its box contains the midpoint, and otherwise into
    /// every child whose box its box intersects. A leaf that is full and not
    /// at the greatest depth is split first: it becomes a branch with four
    /// empty leaves, which takes what the leaf held, in order, and then the
    /// new entry. Where duplicates are not allowed, a bucket does not take an
    /// entry whose box is a duplicate of one that it holds.
    #[verifier::rlimit(40)]
    pub fn insert(&mut self, item_id: ItemId, item_aabb: Rect, config: &QuadTreeConfig)
        requires
            old(self).wf(*config),
            item_aabb.wf(),
            forall|e: Entry| old(self).holds(e) ==> e.0 != item_id,
        ensures
            QuadNode::grown(*old(self), *final(self), (item_id, item_aabb), *config),
        decreases config.max_depth - old(self).spec_depth(), old(self).leaf_rank(),
    {
        let ghost pre = *self;
        let ghost item: Entry = (item_id, item_aabb);
        let mut into: Option<Vec<Entry>> = None;
        match self {
            QuadNode::Branch { aabb, in_all, c0, c1, c2, c3, element_count, .. } => {
                if item_aabb.holds_center_of(aabb) {
                    // Only insert if there isn't another item with a very similar box.
                    if config.allow_duplicates || !any_close(in_all, &item_aabb) {
                        in_all.push((item_id, item_aabb));
                    }
                } else {
                    proof {
                        assert forall|e: Entry|
                            c0.holds(e) || c1.holds(e) || c2.holds(e) || c3.holds(
                                e,
                            ) implies e.0 != item_id by {
                            assert(pre.holds(e));
                        }
                    }
                    c0.insert_if_meets(item_id, item_aabb, config);
                    c1.insert_if_meets(item_id, item_aabb, config);
                    c2.insert_if_meets(item_id, item_aabb, config);
                    c3.insert_if_meets(item_id, item_aabb, config);
                }
                if *element_count < usize::MAX {
                    *element_count += 1;
                }
            },
            QuadNode::Leaf { elements, depth, .. } => {
                if elements.len() == config.max_children && *depth != config.max_depth {
                    let mut extracted_children: Vec<Entry> = Vec::new();
                    core::mem::swap(&mut extracted_children, elements);
                    extracted_children.push((item_id, item_aabb));
                    into = Some(extracted_children);
                } else {
                    if config.allow_duplicates || !any_close(elements, &item_aabb) {
                        elements.push((item_id, item_aabb));
                    }
                }
            },
        }
        proof {
            if pre is Branch {
                if item_aabb.spec_holds_center_of(pre.spec_aabb()) {
                    QuadNode::lemma_branch_grown_center(pre, *self, item, *config);
                } else {
                    QuadNode::lemma_branch_grown(pre, *self, item, *config);
                }
            } else if into is None {
                let old_el = pre->Leaf_elements@;
                lemma_push_contains(old_el, item);
                if self->Leaf_elements@ == old_el.push(item) {
                    assert forall|e: Entry| old_el.contains(e) implies e.0 != item.0 by {
                        assert(pre.holds(e));
                    }
                    lemma_bucket_push(old_el, item);
                    if !config.allow_duplicates && pre.sparse() {
                        lemma_sparse_push(old_el, item);
                    }
                } else {
                    let k = choose|k: int|
                        0 <= k < old_el.len() && (#[trigger] old_el[k]).1.spec_close_to(
                            item_aabb,
                            EPSILON,
                        );
                    assert(self.holds(old_el[k]));
                    assert(pre.holds(old_el[k]));
                }
            }
        }

        // If this leaf is full, it becomes a branch, and what it held goes
        // through the branch into four new leaves.
        if let Some(extracted_children) = into {
            let aabb = self.bounding_box();
            let depth = self.depth();
            let split = aabb.split_quad();
            proof {
                lemma_quadrant_inside(aabb, 0, item_aabb);
                lemma_quadrant_inside(aabb, 1, item_aabb);
                lemma_quadrant_inside(aabb, 2, item_aabb);
                lemma_quadrant_inside(aabb, 3, item_aabb);
                assert(split[0] == aabb.spec_quadrant(0));
                assert(split[1] == aabb.spec_quadrant(1));
                assert(split[2] == aabb.spec_quadrant(2));
                assert(split[3] == aabb.spec_quadrant(3));
                let old_el = pre->Leaf_elements@;
                assert(extracted_children@ == old_el.push(item));
                lemma_push_contains(old_el, item);
                assert forall|e: Entry| old_el.contains(e) implies e.0 != item.0 by {
                    assert(pre.holds(e));
                }
                lemma_bucket_push(old_el, item);
            }
            *self = QuadNode::Branch {
                aabb,
                in_all: Vec::new(),
                c0: Box::new(QuadNode::new_leaf(split[0], depth + 1, config)),
                c1: Box::new(QuadNode::new_leaf(split[1], depth + 1, config)),
                c2: Box::new(QuadNode::new_leaf(split[2], depth + 1, config)),
                c3: Box::new(QuadNode::new_leaf(split[3], depth + 1, config)),
                element_count: 0,
                depth,
            };
            proof {
                let leaf0 = *self->Branch_c0;
                let leaf1 = *self->Branch_c1;
                let leaf2 = *self->Branch_c2;
                let leaf3 = *self->Branch_c3;
                assert forall|e: Entry| !self.holds(e) by {
                    assert(!leaf0.holds(e) && !leaf1.holds(e) && !leaf2.holds(e) && !leaf3.holds(e));
                }
                assert forall|e: Entry| #[trigger] self.entry_ok(e) by {
                    assert(!self.holds(e));
                }
                assert forall|e: Entry| #[trigger] self.entry_spread(e) by {
                    assert(!self.holds(e));
                }
                assert(leaf0.placed() && leaf1.placed() && leaf2.placed() && leaf3.placed());
                assert(leaf0.spread() && leaf1.spread() && leaf2.spread() && leaf3.spread());
                assert(leaf0.within(config.max_depth) && leaf1.within(config.max_depth) && leaf2.within(
                    config.max_depth,
                ) && leaf3.within(config.max_depth));
                assert(self.placed());
                assert(self.spread());
                assert(leaf0.sparse() && leaf1.sparse() && leaf2.sparse() && leaf3.sparse());
                assert(bucket_sparse(self->Branch_in_all@));
                assert(self.sparse());
                assert(leaf0.roomy(*config) && leaf1.roomy(*config) && leaf2.roomy(*config)
                    && leaf3.roomy(*config));
                assert(self.roomy(*config));
                assert(extracted_children@.subrange(0, extracted_children@.len() - 1)
                    =~= pre->Leaf_elements@);
            }
            let mut i: usize = 0;
            while i < extracted_children.len()
                invariant
                    i <= extracted_children@.len(),
                    bucket_ok(extracted_children@),
                    self.wf(*config),
                    self.spec_aabb() == aabb,
                    self.spec_depth() == depth,
                    depth == pre.spec_depth(),
                    depth <= config.max_depth,
                    pre == *old(self),
                    item_aabb.wf(),
                    pre.is_leaf(),
                    !self.is_leaf(),
                    forall|e: Entry| #[trigger]
                        self.holds(e) ==> exists|j: int|
                            0 <= j < i && extracted_children@[j] == e,
                    config.allow_duplicates ==> self.spread(),
                    config.allow_duplicates || pre.sparse() ==> forall|j: int|
                        0 <= j < i && j < extracted_children@.len() - 1 && aabb.spec_does_intersect(
                            (#[trigger] extracted_children@[j]).1,
                        ) ==> self.holds(extracted_children@[j]),
                    config.allow_duplicates && i == extracted_children@.len()
                        && aabb.spec_does_intersect(extracted_children@[i - 1].1) ==> self.holds(
                        extracted_children@[i - 1],
                    ),
                    extracted_children@.len() > 0,
                    bucket_sparse(pre->Leaf_elements@) ==> bucket_sparse(
                        extracted_children@.subrange(0, extracted_children@.len() - 1),
                    ),
                    !config.allow_duplicates && pre.sparse() ==> self.sparse(),
                    self.roomy(*config),
                    self->Branch_element_count == i,
                    i > 0 && !config.allow_duplicates && aabb.spec_does_intersect(
                        extracted_children@[i - 1].1,
                    ) && !self.holds(extracted_children@[i - 1]) ==> exists|j: int|
                        0 <= j < i - 1 && (#[trigger] extracted_children@[j]).1.spec_close_to(
                            extracted_children@[i - 1].1,
                            EPSILON,
                        ),
                    i > 0 && !config.allow_duplicates && aabb.spec_does_intersect(
                        extracted_children@[i - 1].1,
                    ) && !self.holds(extracted_children@[i - 1]) ==> exists|e: Entry| #[trigger]
                        self.holds(e) && e.1.spec_close_to(extracted_children@[i - 1].1, EPSILON),
                decreases extracted_children@.len() - i,
            {
                let child_id: ItemId = extracted_children[i].0;
                let child_aabb: Rect = extracted_children[i].1;
                let ghost before = *self;
                proof {
                    assert(extracted_children@[i as int].1.wf());
                    assert forall|e: Entry| self.holds(e) implies e.0 != child_id by {
                        let j = choose|j: int| 0 <= j < i && extracted_children@[j] == e;
                        assert(extracted_children@[j].0 != extracted_children@[i as int].0);
                    }
                }
                self.insert(child_id, child_aabb, config);
                proof {
                    assert forall|e: Entry| #[trigger] self.holds(e) implies exists|j: int|
                        0 <= j < i + 1 && extracted_children@[j] == e by {
                        if before.holds(e) {
                            let j = choose|j: int| 0 <= j < i && extracted_children@[j] == e;
                            assert(extracted_children@[j] == e);
                        } else {
                            assert(extracted_children@[i as int] == e);
                        }
                    }
                    let now: Entry = extracted_children@[i as int];
                    assert(QuadNode::kept_apart(before, *self, now, *config));
                    if !config.allow_duplicates && aabb.spec_does_intersect(now.1) && !self.holds(
                        now,
                    ) {
                        let e = choose|e: Entry| #[trigger]
                            before.holds(e) && e.1.spec_close_to(now.1, EPSILON);
                        let j = choose|j: int| 0 <= j < i && extracted_children@[j] == e;
                        assert(extracted_children@[j].1.spec_close_to(now.1, EPSILON));
                        if pre.sparse() && i < extracted_children@.len() - 1 {
                            let head = extracted_children@.subrange(
                                0,
                                extracted_children@.len() - 1,
                            );
                            assert(head[j] == extracted_children@[j]);
                            assert(head[i as int] == now);
                            assert(false);
                        }
                    }
                    if config.allow_duplicates || pre.sparse() {
                        assert forall|j: int|
                            0 <= j < i + 1 && j < extracted_children@.len() - 1
                                && aabb.spec_does_intersect(
                                (#[trigger] extracted_children@[j]).1,
                            ) implies self.holds(extracted_children@[j]) by {
                            if j < i {
                                assert(before.holds(extracted_children@[j]));
                            }
                        }
                    }
                }
                i += 1;
            }
            proof {
                let old_el = pre->Leaf_elements@;
                assert forall|e: Entry| #[trigger] self.holds(e) implies pre.holds(e) || e
                    == item by {
                    let j = choose|j: int|
                        0 <= j < extracted_children@.len() && extracted_children@[j] == e;
                    assert(old_el.push(item).contains(e));
                }
                if config.allow_duplicates || pre.sparse() {
                    assert forall|e: Entry| #[trigger]
                        pre.holds(e) && pre.spec_aabb().spec_does_intersect(
                            e.1,
                        ) implies self.holds(e) by {
                        let j = choose|j: int| 0 <= j < old_el.len() && old_el[j] == e;
                        assert(extracted_children@[j] == e);
                    }
                }
                if config.allow_duplicates && pre.spec_aabb().spec_does_intersect(item.1) {
                    assert(extracted_children@[old_el.len() as int] == item);
                }
                assert(extracted_children@[extracted_children@.len() - 1] == item);
                if !config.allow_duplicates && pre.spec_aabb().spec_does_intersect(item.1)
                    && !self.holds(item) {
                    let j = choose|j: int|
                        0 <= j < extracted_children@.len() - 1 && (
                        #[trigger] extracted_children@[j]).1.spec_close_to(item.1, EPSILON);
                    assert(old_el[j] == extracted_children@[j]);
                    assert(pre.holds(old_el[j]));
                }
            }
        }
    }

    /// What one removal makes of a subtree: exactly the entries under the
    /// removed id are gone, and entries stay spread.
    pub open spec fn shrunk(pre: QuadNode, post: QuadNode, id: ItemId, config: QuadTreeConfig) -> bool {
        &&& post.wf(config)
        &&& post.spec_aabb() == pre.spec_aabb()
        &&& post.spec_depth() == pre.spec_depth()
        &&& forall|e: Entry| #[trigger] post.holds(e) <==> pre.holds(e) && e.0 != id
        &&& pre.spread() ==> post.spread()
    }

    /// What a removal makes of the node itself. A leaf stays a leaf. A
    /// branch that held the entry counts one entry less, and if it then
    /// counts fewer than `min_children` it becomes a leaf whose bucket holds
    /// the entries in the order of their ids.
    pub open spec fn cut_shape(
        pre: QuadNode,
        post: QuadNode,
        removed: bool,
        config: QuadTreeConfig,
    ) -> bool {
        match pre {
            QuadNode::Leaf { .. } => post is Leaf,
            QuadNode::Branch { element_count, .. } => {
                let left = if removed && element_count > 0 {
                    element_count - 1
                } else {
                    element_count as int
                };
                if removed && left < config.min_children {
                    post is Leaf && ids_ascend(post->Leaf_elements@)
                } else {
                    post is Branch && post->Branch_element_count == left
                }
            },
        }
    }

    /// What a removal at a branch makes of one child: the child shrinks if
    /// its box intersects the box of the entry, and stays as it is otherwise.
    pub open spec fn child_cut(
        pre: QuadNode,
        post: QuadNode,
        item: Entry,
        config: QuadTreeConfig,
    ) -> bool {
        if pre.spec_aabb().spec_does_intersect(item.1) {
            QuadNode::shrunk(pre, post, item.0, config) && QuadNode::cut_shape(
                pre,
                post,
                pre.holds(item),
                config,
            )
        } else {
            post == pre
        }
    }

    /// A branch whose children took their cuts has shrunk.
    pub proof fn lemma_branch_shrunk(
        pre: QuadNode,
        post: QuadNode,
        item: Entry,
        config: QuadTreeConfig,
    )
        requires
            pre.wf(config),
            pre is Branch,
            post is Branch,
            forall|e: Entry| pre.holds(e) && e.0 == item.0 ==> e.1 == item.1,
            !item.1.spec_holds_center_of(pre.spec_aabb()),
            post->Branch_aabb == pre->Branch_aabb,
            post->Branch_depth == pre->Branch_depth,
            post->Branch_in_all == pre->Branch_in_all,
            QuadNode::child_cut(*pre->Branch_c0, *post->Branch_c0, item, config),
            QuadNode::child_cut(*pre->Branch_c1, *post->Branch_c1, item, config),
            QuadNode::child_cut(*pre->Branch_c2, *post->Branch_c2, item, config),
            QuadNode::child_cut(*pre->Branch_c3, *post->Branch_c3, item, config),
        ensures
            QuadNode::shrunk(pre, post, item.0, config),
            pre.holds(item) == ((pre->Branch_c0.spec_aabb().spec_does_intersect(item.1)
                && pre->Branch_c0.holds(item)) || (pre->Branch_c1.spec_aabb().spec_does_intersect(
                item.1,
            ) && pre->Branch_c1.holds(item)) || (pre->Branch_c2.spec_aabb().spec_does_intersect(
                item.1,
            ) && pre->Branch_c2.holds(item)) || (pre->Branch_c3.spec_aabb().spec_does_intersect(
                item.1,
            ) && pre->Branch_c3.holds(item))),
    {
        let was0 = *pre->Branch_c0;
        let was1 = *pre->Branch_c1;
        let was2 = *pre->Branch_c2;
        let was3 = *pre->Branch_c3;
        let now0 = *post->Branch_c0;
        let now1 = *post->Branch_c1;
        let now2 = *post->Branch_c2;
        let now3 = *post->Branch_c3;
        assert(was0.wf(config) && was1.wf(config) && was2.wf(config) && was3.wf(config));
        assert(now0.wf(config) && now1.wf(config) && now2.wf(config) && now3.wf(config));
        assert(pre.entry_ok(item));
        assert forall|e: Entry| #[trigger] post.holds(e) <==> pre.holds(e) && e.0 != item.0 by {
            assert(pre.entry_ok(e));
            if pre.holds(e) && e.0 == item.0 {
                assert(e == item);
            }
            assert(now0.holds(e) <==> was0.holds(e) && e.0 != item.0);
            assert(now1.holds(e) <==> was1.holds(e) && e.0 != item.0);
            assert(now2.holds(e) <==> was2.holds(e) && e.0 != item.0);
            assert(now3.holds(e) <==> was3.holds(e) && e.0 != item.0);
        }
        assert forall|e: Entry| #[trigger] post.entry_ok(e) by {
            assert(pre.entry_ok(e));
            assert(post.holds(e) <==> pre.holds(e) && e.0 != item.0);
            assert(now0.holds(e) ==> was0.holds(e));
            assert(now1.holds(e) ==> was1.holds(e));
            assert(now2.holds(e) ==> was2.holds(e));
            assert(now3.holds(e) ==> was3.holds(e));
        }
        assert(post.placed());
        assert(post.within(config.max_depth));
        if pre.spread() {
            assert forall|e: Entry| #[trigger] post.entry_spread(e) by {
                assert(pre.entry_spread(e));
                assert(pre.entry_ok(e));
                if pre.holds(e) && e.0 == item.0 {
                    assert(e == item);
                }
                assert(now0.holds(e) <==> was0.holds(e) && e.0 != item.0);
                assert(now1.holds(e) <==> was1.holds(e) && e.0 != item.0);
                assert(now2.holds(e) <==> was2.holds(e) && e.0 != item.0);
                assert(now3.holds(e) <==> was3.holds(e) && e.0 != item.0);
            }
            assert(post.spread());
        }
    }

    /// A branch that took an entry out of its own bucket has shrunk.
    pub proof fn lemma_branch_shrunk_center(
        pre: QuadNode,
        post: QuadNode,
        item: Entry,
        config: QuadTreeConfig,
    )
        requires
            pre.wf(config),
            pre is Branch,
            post is Branch,
            forall|e: Entry| pre.holds(e) && e.0 == item.0 ==> e.1 == item.1,
            item.1.spec_holds_center_of(pre.spec_aabb()),
            post->Branch_aabb == pre->Branch_aabb,
            post->Branch_depth == pre->Branch_depth,
            post->Branch_c0 == pre->Branch_c0,
            post->Branch_c1 == pre->Branch_c1,
            post->Branch_c2 == pre->Branch_c2,
            post->Branch_c3 == pre->Branch_c3,
            bucket_ok(post->Branch_in_all@),
            forall|e: Entry| #[trigger]
                post->Branch_in_all@.contains(e) <==> pre->Branch_in_all@.contains(e) && e.0
                    != item.0,
        ensures
            QuadNode::shrunk(pre, post, item.0, config),
            pre.holds(item) == pre->Branch_in_all@.contains(item),
    {
        assert(pre.entry_ok(item));
        assert forall|e: Entry| #[trigger] post.holds(e) <==> pre.holds(e) && e.0 != item.0 by {
            assert(pre.entry_ok(e));
            if pre.holds(e) && e.0 == item.0 {
                assert(e == item);
            }
            assert(post->Branch_in_all@.contains(e) <==> pre->Branch_in_all@.contains(e) && e.0
                != item.0);
        }
        assert forall|e: Entry| #[trigger] post.entry_ok(e) by {
            assert(pre.entry_ok(e));
            assert(post->Branch_in_all@.contains(e) <==> pre->Branch_in_all@.contains(e) && e.0
                != item.0);
        }
        assert(post.placed());
        assert(post.within(config.max_depth));
        if pre.spread() {
            assert forall|e: Entry| #[trigger] post.entry_spread(e) by {
                assert(pre.entry_spread(e));
            }
            assert(post.spread());
        }
    }

    /// Removes the entry from this child of a branch if the box of the
    /// child intersects its box.
    pub fn remove_if_meets(
        &mut self,
        item_id: ItemId,
        item_aabb: Rect,
        config: &QuadTreeConfig,
    ) -> (removed: bool)
        requires
            old(self).wf(*config),
            old(self).one_box_per_id(),
            forall|e: Entry| old(self).holds(e) && e.0 == item_id ==> e.1 == item_aabb,
        ensures
            QuadNode::child_cut(*old(self), *final(self), (item_id, item_aabb), *config),
            removed == (old(self).spec_aabb().spec_does_intersect(item_aabb) && old(self).holds(
                (item_id, item_aabb),
            )),
        decreases config.max_depth - old(self).spec_depth(), 1int,
    {
        if self.bounding_box().does_intersect(&item_aabb) {
            self.remove(item_id, item_aabb, config)
        } else {
            false
        }
    }

    /// Takes the entry with the given id and box out of the subtree, along
    /// the way that insertion took, and says whether it was there. A branch
    /// that then counts fewer entries than `min_children` becomes a leaf that
    /// holds what a search over its whole box finds, each entry once, in the
    /// order of the ids.
    #[verifier::rlimit(40)]
    pub fn remove(&mut self, item_id: ItemId, item_aabb: Rect, config: &QuadTreeConfig) -> (removed:
        bool)
        requires
            old(self).wf(*config),
            old(self).one_box_per_id(),
            forall|e: Entry| old(self).holds(e) && e.0 == item_id ==> e.1 == item_aabb,
        ensures
            QuadNode::shrunk(*old(self), *final(self), item_id, *config),
            QuadNode::cut_shape(*old(self), *final(self), removed, *config),
            removed == old(self).holds((item_id, item_aabb)),
        decreases config.max_depth - old(self).spec_depth(), 0int,
    {
        let ghost pre = *self;
        let ghost item: Entry = (item_id, item_aabb);
        let mut compact: Option<(usize, Rect, usize)> = None;
        let removed = match self {
            QuadNode::Branch { depth, aabb, in_all, c0, c1, c2, c3, element_count } => {
                let mut did_remove = false;
                if item_aabb.holds_center_of(aabb) {
                    did_remove = remove_from(in_all, item_id);
                } else {
                    proof {
                        assert forall|a: Entry, b: Entry| #[trigger]
                            c0.holds(a) && #[trigger] c0.holds(b) && a.0 == b.0 implies a == b by {
                            assert(pre.holds(a) && pre.holds(b));
                        }
                        assert forall|a: Entry, b: Entry| #[trigger]
                            c1.holds(a) && #[trigger] c1.holds(b) && a.0 == b.0 implies a == b by {
                            assert(pre.holds(a) && pre.holds(b));
                        }
                        assert forall|a: Entry, b: Entry| #[trigger]
                            c2.holds(a) && #[trigger] c2.holds(b) && a.0 == b.0 implies a == b by {
                            assert(pre.holds(a) && pre.holds(b));
                        }
                        assert forall|a: Entry, b: Entry| #[trigger]
                            c3.holds(a) && #[trigger] c3.holds(b) && a.0 == b.0 implies a == b by {
                            assert(pre.holds(a) && pre.holds(b));
                        }
                        assert forall|e: Entry|
                            (c0.holds(e) || c1.holds(e) || c2.holds(e) || c3.holds(e)) && e.0
                                == item_id implies e.1 == item_aabb by {
                            assert(pre.holds(e));
                        }
                    }
                    let r0 = c0.remove_if_meets(item_id, item_aabb, config);
                    let r1 = c1.remove_if_meets(item_id, item_aabb, config);
                    let r2 = c2.remove_if_meets(item_id, item_aabb, config);
                    let r3 = c3.remove_if_meets(item_id, item_aabb, config);
                    did_remove = r0 || r1 || r2 || r3;
                }
                if did_remove {
                    if *element_count > 0 {
                        *element_count -= 1;
                    }
                    if *element_count < config.min_children {
                        compact = Some((*element_count, *aabb, *depth));
                    }
                }
                did_remove
            },
            QuadNode::Leaf { elements, .. } => remove_from(elements, item_id),
        };
        proof {
            if pre is Branch {
                if item_aabb.spec_holds_center_of(pre.spec_aabb()) {
                    QuadNode::lemma_branch_shrunk_center(pre, *self, item, *config);
                    let old_in = pre->Branch_in_all@;
                    if removed {
                        let k = choose|k: int| 0 <= k < old_in.len() && (#[trigger] old_in[k]).0
                            == item_id;
                        assert(pre.holds(old_in[k]));
                        assert(old_in[k] == item);
                    } else if old_in.contains(item) {
                        let k = choose|k: int| 0 <= k < old_in.len() && old_in[k] == item;
                        assert(old_in[k].0 == item_id);
                    }
                } else {
                    QuadNode::lemma_branch_shrunk(pre, *self, item, *config);
                }
            } else {
                let old_el = pre->Leaf_elements@;
                if removed {
                    let k = choose|k: int| 0 <= k < old_el.len() && (#[trigger] old_el[k]).0
                        == item_id;
                    assert(pre.holds(old_el[k]));
                    assert(old_el[k] == item);
                } else if old_el.contains(item) {
                    let k = choose|k: int| 0 <= k < old_el.len() && old_el[k] == item;
                    assert(old_el[k].0 == item_id);
                }
            }
            assert(QuadNode::shrunk(pre, *self, item_id, *config));
        }

        // A branch that has become too small turns back into a leaf that
        // holds what a search over its whole box finds.
        if let Some((size, aabb, depth)) = compact {
            let ghost branch = *self;
            let mut found: Vec<Entry> = Vec::with_capacity(size);
            self.query(aabb, &mut found);
            proof {
                assert forall|j: int, k: int|
                    0 <= j < found@.len() && 0 <= k < found@.len() && (#[trigger] found@[j]).0 == (
                    #[trigger] found@[k]).0 implies found@[j] == found@[k] by {
                    assert(branch.holds(found@[j]) && branch.holds(found@[k]));
                    assert(pre.holds(found@[j]) && pre.holds(found@[k]));
                }
            }
            let elements = sort_dedup(&found);
            proof {
                assert forall|e: Entry| #[trigger] elements@.contains(e) <==> branch.holds(e) by {
                    if elements@.contains(e) {
                        let k = choose|k: int| 0 <= k < found@.len() && found@[k] == e;
                        assert(branch.holds(found@[k]));
                    }
                    if branch.holds(e) {
                        branch.lemma_held_meets(e);
                        assert(branch.reaches(aabb, e));
                        let k = choose|k: int| 0 <= k < found@.len() && #[trigger] found@[k] == e;
                        assert(found@.contains(e));
                    }
                }
                assert(bucket_ok(elements@)) by {
                    assert forall|k: int| 0 <= k < elements@.len() implies (
                    #[trigger] elements@[k]).1.wf() by {
                        assert(elements@.contains(elements@[k]));
                        branch.lemma_held_wf(elements@[k]);
                    }
                }
            }
            *self = QuadNode::Leaf { aabb, elements, depth };
        }
        removed
    }
}

impl Clone for QuadNode {
    /// A copy of this subtree: the same nodes with the same entries.
    fn clone(&self) -> (r: QuadNode)
        ensures
            r.placed() == self.placed(),
            r.spread() == self.spread(),
            r.sparse() == self.sparse(),
            r.spec_aabb() == self.spec_aabb(),
            r.spec_depth() == self.spec_depth(),
            r.outline() == self.outline(),
            forall|e: Entry|
                #![trigger r.holds(e)]
                #![trigger self.holds(e)]
                r.holds(e) == self.holds(e),
    {
        self.duplicate()
    }
}

impl<T> View for QuadTree<T> {
    type V = Map<ItemId, (T, Rect)>;

    /// The items of the tree, each with its box, by id.
    closed spec fn view(&self) -> Map<ItemId, (T, Rect)> {
        Map::new(|k: ItemId| self.elements@.contains_key(k.0), |k: ItemId| self.elements@[k.0])
    }
}

impl<T> QuadTree<T> {
    /// The box that the tree was made for.
    pub closed spec fn bounds(&self) -> Rect {
        self.root.spec_aabb()
    }

    /// Whether the tree indexes an item whose box is a duplicate of a box
    /// that it has indexed.
    pub closed spec fn allows_duplicates(&self) -> bool {
        self.config.allow_duplicates
    }

    /// The id that the next inserted item gets.
    pub closed spec fn next_id(&self) -> u32 {
        self.id
    }

    /// The ids of the items that the nodes of the tree hold. An item of the
    /// map is missing here if insertion found no place for it: its box
    /// misses the box of the tree, or it was taken for a duplicate.
    pub closed spec fn indexed(&self) -> Set<ItemId> {
        Set::new(|k: ItemId| self@.contains_key(k) && self.root.holds((k, self@[k].1)))
    }

    /// The nodes are in shape, spread their entries where duplicates are
    /// allowed, and index only items of the map, under boxes that are the
    /// boxes in the map; ids lie below the next id.
    pub closed spec fn wf(&self) -> bool {
        &&& self.root.wf(self.config)
        &&& self.config.allow_duplicates ==> self.root.spread()
        &&& forall|e: Entry| #[trigger]
            self.root.holds(e) ==> self.elements@.contains_key(e.0.0) && self.elements@[e.0.0].1
                == e.1
        &&& forall|k: u32| #[trigger]
            self.elements@.contains_key(k) ==> k < self.id && self.elements@[k].1.wf()
    }

    /// No leaf of the tree holds more entries than the tree was made to
    /// hold in one leaf, unless it lies at the greatest depth. A new tree is
    /// like this and stays so while items are only inserted: a leaf that is
    /// full is split when the next entry comes.
    pub closed spec fn roomy(&self) -> bool {
        self.root.roomy(self.config)
    }

    /// No node of the tree holds, in one bucket, a box that is a duplicate
    /// of a box before it. A new tree is sparse, and a tree that takes no
    /// duplicates stays so while items are only inserted.
    pub closed spec fn sparse(&self) -> bool {
        self.root.sparse()
    }

    /// The node at the top of the tree.
    pub closed spec fn root(&self) -> QuadNode {
        self.root
    }

    /// What the tree was made with: whether it takes duplicates, and its
    /// three limits.
    pub closed spec fn config(&self) -> QuadTreeConfig {
        self.config
    }

    /// The number of entries below which a branch becomes a leaf again
    /// after a removal.
    pub open spec fn min_children(&self) -> usize {
        self.config().min_children
    }

    /// The number of entries with which a leaf is full, so that it is split
    /// when the next one comes.
    pub open spec fn max_children(&self) -> usize {
        self.config().max_children
    }

    /// The depth at which leaves are no longer split.
    pub open spec fn max_depth(&self) -> usize {
        self.config().max_depth
    }

    /// How the other names for parts of the tree go back to its top node
    /// and to what it was made with.
    pub proof fn lemma_parts(&self)
        ensures
            self.bounds() == self.root().spec_aabb(),
            self.allows_duplicates() == self.config().allow_duplicates,
            self.roomy() == self.root().roomy(self.config()),
            self.sparse() == self.root().sparse(),
            self.outline() == self.root().outline(),
            self.wf() ==> self.root().wf(self.config()),
            forall|k: ItemId| #[trigger]
                self.indexed().contains(k) <==> self@.contains_key(k) && self.root().holds(
                    (k, self@[k].1),
                ),
    {
    }

    /// Whether the top node of `post` is what an insertion of the entry
    /// makes of the top node of `pre`, as `QuadNode::grown` says.
    pub closed spec fn grew(pre: QuadTree<T>, post: QuadTree<T>, e: Entry) -> bool {
        QuadNode::grown(pre.root, post.root, e, pre.config)
    }

    /// What `grew` says of the top nodes.
    pub proof fn lemma_grew(pre: QuadTree<T>, post: QuadTree<T>, e: Entry)
        requires
            QuadTree::grew(pre, post, e),
        ensures
            QuadNode::grown(pre.root(), post.root(), e, pre.config()),
    {
    }

    /// Whether the top node of `post` is what the removal of the item with
    /// the given id makes of the top node of `pre`: the node as it was if
    /// there is no such item, and otherwise what `QuadNode::shrunk` and
    /// `QuadNode::cut_shape` say.
    pub closed spec fn shrank(pre: QuadTree<T>, post: QuadTree<T>, id: ItemId) -> bool {
        if pre@.contains_key(id) {
            QuadNode::shrunk(pre.root, post.root, id, pre.config) && QuadNode::cut_shape(
                pre.root,
                post.root,
                pre.indexed().contains(id),
                pre.config,
            )
        } else {
            post.root == pre.root
        }
    }

    /// What `shrank` says of the top nodes.
    pub proof fn lemma_shrank(pre: QuadTree<T>, post: QuadTree<T>, id: ItemId)
        requires
            QuadTree::shrank(pre, post, id),
        ensures
            pre@.contains_key(id) ==> QuadNode::shrunk(pre.root(), post.root(), id, pre.config())
                && QuadNode::cut_shape(
                pre.root(),
                post.root(),
                pre.indexed().contains(id),
                pre.config(),
            ),
            !pre@.contains_key(id) ==> post.root() == pre.root(),
    {
    }

    /// No two items of the map have boxes that are duplicates of each
    /// other.
    pub open spec fn apart(&self) -> bool {
        forall|a: ItemId, b: ItemId|
            self@.contains_key(a) && self@.contains_key(b) && a != b ==> !(#[trigger] self@[a]).1.spec_close_to(
                (#[trigger] self@[b]).1,
                EPSILON,
            )
    }

    /// No item of the map has a box of which `aabb` is a duplicate.
    pub open spec fn has_no_duplicate_of(&self, aabb: Rect) -> bool {
        forall|k: ItemId| self@.contains_key(k) ==> !(#[trigger] self@[k]).1.spec_close_to(aabb, EPSILON)
    }

    /// A tree whose items lie apart is sparse.
    pub proof fn lemma_apart_sparse(&self)
        requires
            self.wf(),
            self.apart(),
        ensures
            self.sparse(),
    {
        assert forall|a: Entry, b: Entry|
            #[trigger] self.root.holds(a) && #[trigger] self.root.holds(b) && a.0
                != b.0 implies !a.1.spec_close_to(b.1, EPSILON) by {
            assert(self.elements@.contains_key(a.0.0) && self.elements@[a.0.0].1 == a.1);
            assert(self.elements@.contains_key(b.0.0) && self.elements@[b.0.0].1 == b.1);
            assert(self@.contains_key(a.0) && self@.contains_key(b.0));
            assert(self@[a.0].1 == a.1 && self@[b.0].1 == b.1);
        }
        self.root.lemma_apart_sparse();
    }

    /// When a query is sure to return an indexed item with the given box:
    /// the boxes intersect, and either the query box covers the box of the
    /// tree, or it covers the box of the item, or the tree allows
    /// duplicates and the query box, the box of the item and the box of the
    /// tree are well formed and intersect pairwise.
    pub open spec fn reaches(&self, query_aabb: Rect, aabb: Rect) -> bool {
        &&& query_aabb.spec_does_intersect(aabb)
        &&& query_aabb.spec_covers(self.bounds()) || query_aabb.spec_covers(aabb) || (
        self.allows_duplicates() && query_aabb.wf() && query_aabb.spec_does_intersect(
            self.bounds(),
        ) && self.bounds().spec_does_intersect(aabb))
    }

    /// Every item of the map has a box that intersects the box of the tree
    /// and is indexed.
    pub open spec fn holds_every_item(&self) -> bool {
        forall|k: ItemId| #[trigger]
            self@.contains_key(k) ==> self.bounds().spec_does_intersect(self@[k].1)
                && self.indexed().contains(k)
    }

    /// Every box of the map is well formed, ids lie below the next id, and
    /// only items of the map are indexed.
    pub proof fn lemma_wf_facts(&self)
        requires
            self.wf(),
        ensures
            self.bounds().wf(),
            forall|k: ItemId| #[trigger] self@.contains_key(k) ==> self@[k].1.wf() && k.0
                < self.next_id(),
            forall|k: ItemId| #[trigger] self.indexed().contains(k) ==> self@.contains_key(k),
            self@.dom().finite(),
    {
        broadcast use vstd::std_specs::hash::group_hash_axioms;

        assert forall|k: ItemId| #[trigger] self@.contains_key(k) implies self@[k].1.wf() && k.0
            < self.next_id() by {
            assert(self.elements@.contains_key(k.0));
        }
        let f = |k: ItemId| k.0;
        let dom = self@.dom();
        let keys = self.elements@.dom();
        assert(keys.finite());
        assert(dom =~= keys.map(|k: u32| ItemId(k))) by {
            assert forall|k: ItemId| dom.contains(k) <==> keys.map(|k: u32| ItemId(k)).contains(
                k,
            ) by {
                if dom.contains(k) {
                    assert(keys.contains(k.0));
                    assert(ItemId(k.0) == k);
                }
            }
        }
        keys.lemma_map_finite(|k: u32| ItemId(k));
    }

    /// A query with the box of the tree itself is sure to return every
    /// indexed item whose box intersects that box.
    pub proof fn lemma_own_box_reaches(&self, aabb: Rect)
        requires
            self.wf(),
            self.bounds().spec_does_intersect(aabb),
        ensures
            self.reaches(self.bounds(), aabb),
    {
    }

    /// An empty tree over the box `size`. A leaf is split when it holds
    /// `max_children` entries and another one comes, unless it lies at depth
    /// `max_depth`; a branch that counts fewer than `min_children` entries
    /// after a removal becomes a leaf again.
    pub fn new(
        size: Rect,
        allow_duplicates: bool,
        min_children: usize,
        max_children: usize,
        max_depth: usize,
    ) -> (r: QuadTree<T>)
        requires
            size.wf(),
        ensures
            r.wf(),
            r@ == Map::<ItemId, (T, Rect)>::empty(),
            r.indexed() == Set::<ItemId>::empty(),
            r.bounds() == size,
            r.allows_duplicates() == allow_duplicates,
            r.next_id() == 0,
            r.min_children() == min_children,
            r.max_children() == max_children,
            r.max_depth() == max_depth,
            r.root() == (QuadNode::Leaf { aabb: size, elements: r.root()->Leaf_elements, depth: 0 }),
            r.root()->Leaf_elements@.len() == 0,
            r.sparse(),
            r.roomy(),
            r.apart(),
            r.holds_every_item(),
    {
        let r = QuadTree {
            root: QuadNode::Leaf { aabb: size, elements: Vec::with_capacity(max_children), depth: 0 },
            config: QuadTreeConfig { allow_duplicates, max_children, min_children, max_depth },
            id: 0,
            elements: HashMap::new(),
        };
        proof {
            assert(r@ =~= Map::<ItemId, (T, Rect)>::empty());
            assert(r.indexed() =~= Set::<ItemId>::empty());
        }
        r
    }

    /// An empty tree over the box `size` that allows duplicates, keeps 4 to
    /// 16 entries in a node and is at most 8 deep.
    pub fn default(size: Rect) -> (r: QuadTree<T>)
        requires
            size.wf(),
        ensures
            r.wf(),
            r@ == Map::<ItemId, (T, Rect)>::empty(),
            r.indexed() == Set::<ItemId>::empty(),
            r.bounds() == size,
            r.allows_duplicates(),
            r.next_id() == 0,
            r.min_children() == 4,
            r.max_children() == 16,
            r.max_depth() == 8,
            r.root() == (QuadNode::Leaf { aabb: size, elements: r.root()->Leaf_elements, depth: 0 }),
            r.root()->Leaf_elements@.len() == 0,
            r.sparse(),
            r.roomy(),
            r.apart(),
            r.holds_every_item(),
    {
        QuadTree::new(size, true, 4, 16, 8)
    }

    /// Takes the item into the tree under a new id and indexes it by the
    /// given box. The item is in the map from then on. It may be missing in
    /// the index if its box misses the box of the tree; and where
    /// duplicates are not allowed, no bucket takes it that holds a duplicate
    /// of its box. It is indexed if its box intersects the box of the tree
    /// and the tree allows duplicates or has no item of whose box the new
    /// box is a duplicate. What was indexed under a box that intersects the
    /// box of the tree stays indexed if the tree allows duplicates, is
    /// sparse, or holds its items apart. The top node grows as `grew`
    /// says.
    #[verifier::rlimit(40)]
    pub fn insert_with_box(&mut self, t: T, aabb: Rect) -> (r: ItemId)
        requires
            old(self).wf(),
            aabb.wf(),
            old(self).next_id() < u32::MAX,
        ensures
            final(self).wf(),
            r == ItemId(old(self).next_id()),
            final(self).next_id() == old(self).next_id() + 1,
            final(self)@ == old(self)@.insert(r, (t, aabb)),
            final(self).bounds() == old(self).bounds(),
            final(self).allows_duplicates() == old(self).allows_duplicates(),
            final(self).indexed().subset_of(old(self).indexed().insert(r)),
            final(self).config() == old(self).config(),
            QuadTree::grew(*old(self), *final(self), (r, aabb)),
            old(self).allows_duplicates() || old(self).sparse() || old(self).apart() ==> forall|
                k: ItemId,
            | #[trigger]
                old(self).indexed().contains(k) && old(self).bounds().spec_does_intersect(
                    old(self)@[k].1,
                ) ==> final(self).indexed().contains(k),
            !old(self).allows_duplicates() && old(self).sparse() ==> final(self).sparse(),
            old(self).roomy() ==> final(self).roomy(),
            old(self).apart() && old(self).has_no_duplicate_of(aabb) ==> final(self).apart(),
            old(self).bounds().spec_does_intersect(aabb) && (old(self).allows_duplicates()
                || old(self).has_no_duplicate_of(aabb)) ==> final(self).indexed().contains(r),
            old(self).holds_every_item() && old(self).bounds().spec_does_intersect(aabb) && (
            old(self).allows_duplicates() || (old(self).apart() && old(self).has_no_duplicate_of(
                aabb,
            ))) ==> final(self).holds_every_item(),
            !old(self).allows_duplicates() && old(self).bounds().spec_does_intersect(aabb)
                && !final(self).indexed().contains(r) ==> exists|k: ItemId| #[trigger]
                final(self).indexed().contains(k) && final(self)@[k].1.spec_close_to(aabb, EPSILON),
    {
        broadcast use vstd::std_specs::hash::group_hash_axioms;

        let ghost pre = *self;
        let item_id = ItemId(self.id);
        self.id += 1;
        self.elements.insert(item_id.0, (t, aabb));
        proof {
            assert forall|e: Entry| pre.root.holds(e) implies e.0 != item_id by {
                assert(pre.elements@.contains_key(e.0.0));
            }
        }
        self.root.insert(item_id, aabb, &self.config);
        proof {
            assert(self@ =~= pre@.insert(item_id, (t, aabb)));
            assert forall|e: Entry| #[trigger] self.root.holds(e) implies self.elements@.contains_key(
                e.0.0,
            ) && self.elements@[e.0.0].1 == e.1 by {
                if pre.root.holds(e) {
                    assert(pre.elements@.contains_key(e.0.0));
                }
            }
            assert forall|k: ItemId| #[trigger] self.indexed().contains(k) implies pre.indexed().insert(
                item_id,
            ).contains(k) by {
                if k != item_id {
                    assert(self.root.holds((k, self@[k].1)));
                    assert(pre.root.holds((k, self@[k].1)));
                }
            }
            if pre.apart() {
                pre.lemma_apart_sparse();
            }
            if pre.config.allow_duplicates || pre.sparse() {
                assert forall|k: ItemId| #[trigger]
                    pre.indexed().contains(k) && pre.bounds().spec_does_intersect(
                        pre@[k].1,
                    ) implies self.indexed().contains(k) by {
                    assert(pre.root.holds((k, pre@[k].1)));
                    assert(pre.elements@.contains_key(k.0));
                    assert(k != item_id);
                }
                if pre.config.allow_duplicates && pre.bounds().spec_does_intersect(aabb) {
                    assert(self.root.holds((item_id, aabb)));
                    assert(self.indexed().contains(item_id));
                }
            }
            if !pre.config.allow_duplicates && pre.bounds().spec_does_intersect(aabb)
                && !self.indexed().contains(item_id) {
                assert(!self.root.holds((item_id, aabb)));
                assert(QuadNode::stands_for(pre.root, self.root, (item_id, aabb), self.config));
                let e = choose|e: Entry| #[trigger]
                    self.root.holds(e) && e.1.spec_close_to(aabb, EPSILON);
                assert(self.elements@.contains_key(e.0.0));
                assert(self.indexed().contains(e.0));
                assert(e.0 != item_id);
                assert(pre@.contains_key(e.0) && pre@[e.0].1 == e.1);
                assert(!pre.has_no_duplicate_of(aabb));
            }
            if pre.holds_every_item() && pre.bounds().spec_does_intersect(aabb) && (
            pre.config.allow_duplicates || (pre.apart() && pre.has_no_duplicate_of(aabb))) {
                assert(self.indexed().contains(item_id));
                assert forall|k: ItemId| #[trigger] self@.contains_key(k) implies self.bounds().spec_does_intersect(
                    self@[k].1,
                ) && self.indexed().contains(k) by {
                    if k != item_id {
                        assert(pre@.contains_key(k));
                        assert(pre.indexed().contains(k));
                    }
                }
            }
            if pre.apart() && pre.has_no_duplicate_of(aabb) {
                assert forall|a: ItemId, b: ItemId|
                    self@.contains_key(a) && self@.contains_key(b) && a != b implies !(
                    #[trigger] self@[a]).1.spec_close_to((#[trigger] self@[b]).1, EPSILON) by {
                    if a == item_id {
                        assert(pre@.contains_key(b));
                        pre@[b].1.lemma_close_symmetric(aabb, EPSILON);
                    } else if b == item_id {
                        assert(pre@.contains_key(a));
                    } else {
                        assert(pre@.contains_key(a) && pre@.contains_key(b));
                        assert(self@[a] == pre@[a] && self@[b] == pre@[b]);
                    }
                }
            }
        }
        item_id
    }

    /// The id of some item of the tree; which one is not determined.
    pub fn first(&self) -> (r: Option<ItemId>)
        ensures
            r is None <==> self@.dom() =~= Set::<ItemId>::empty(),
            r is Some ==> self@.contains_key(r->0),
    {
        broadcast use vstd::std_specs::hash::group_hash_axioms;
        broadcast use vstd::std_specs::hash::axiom_spec_hash_map_iter;

        let it = self.elements.iter();
        let ghost rem = it.remaining();
        let mut walk = vstd::std_specs::iter::VerusForLoopWrapper::new(it, Ghost(None));
        match walk.next() {
            Some((id, _)) => {
                proof {
                    assert(self.elements@.contains_key(*rem[0].0));
                    assert(self@.contains_key(ItemId(*id)));
                }
                Some(ItemId(*id))
            },
            None => {
                proof {
                    assert(rem.len() == 0);
                    assert(self.elements@.dom().len() == 0);
                    assert(self.elements@.dom().finite());
                    assert forall|k: ItemId| !self@.contains_key(k) by {
                        if self.elements@.dom().contains(k.0) {
                            vstd::set_lib::lemma_set_empty_equivalency_len(self.elements@.dom());
                        }
                    }
                }
                None
            },
        }
    }

    /// Takes the item into the tree under a new id and indexes it by its own
    /// box.
    pub fn insert(&mut self, t: T) -> (r: ItemId) where T: Spatial
        requires
            old(self).wf(),
            t.spec_aabb().wf(),
            old(self).next_id() < u32::MAX,
        ensures
            final(self).wf(),
            r == ItemId(old(self).next_id()),
            final(self).next_id() == old(self).next_id() + 1,
            final(self)@ == old(self)@.insert(r, (t, t.spec_aabb())),
            final(self).bounds() == old(self).bounds(),
            final(self).allows_duplicates() == old(self).allows_duplicates(),
            final(self).indexed().subset_of(old(self).indexed().insert(r)),
            final(self).config() == old(self).config(),
            QuadTree::grew(*old(self), *final(self), (r, t.spec_aabb())),
            old(self).allows_duplicates() || old(self).sparse() || old(self).apart() ==> forall|
                k: ItemId,
            | #[trigger]
                old(self).indexed().contains(k) && old(self).bounds().spec_does_intersect(
                    old(self)@[k].1,
                ) ==> final(self).indexed().contains(k),
            !old(self).allows_duplicates() && old(self).sparse() ==> final(self).sparse(),
            old(self).roomy() ==> final(self).roomy(),
            old(self).apart() && old(self).has_no_duplicate_of(t.spec_aabb()) ==> final(self).apart(),
            old(self).bounds().spec_does_intersect(t.spec_aabb()) && (old(self).allows_duplicates()
                || old(self).has_no_duplicate_of(t.spec_aabb())) ==> final(self).indexed().contains(r),
            old(self).holds_every_item() && old(self).bounds().spec_does_intersect(t.spec_aabb()) && (
            old(self).allows_duplicates() || (old(self).apart() && old(self).has_no_duplicate_of(
                t.spec_aabb(),
            ))) ==> final(self).holds_every_item(),
            !old(self).allows_duplicates() && old(self).bounds().spec_does_intersect(
                t.spec_aabb(),
            ) && !final(self).indexed().contains(r) ==> exists|k: ItemId| #[trigger]
                final(self).indexed().contains(k) && final(self)@[k].1.spec_close_to(
                    t.spec_aabb(),
                    EPSILON,
                ),
    {
        let b = t.aabb();
        self.insert_with_box(t, b)
    }

    /// The indexed items whose boxes intersect the query box, in the order
    /// of their ids, each once. An item is sure to be among them where
    /// `reaches` holds of its box.
    pub fn query<'a>(&'a self, bounding_box: Rect) -> (r: Vec<(&'a T, &'a Rect, ItemId)>)
        requires
            self.wf(),
        ensures
            forall|j: int, k: int| 0 <= j < k < r@.len() ==> (#[trigger] r@[j]).2.0 < (#[trigger] r@[k]).2.0,
            forall|k: int|
                0 <= k < r@.len() ==> {
                    let row = #[trigger] r@[k];
                    &&& self@.contains_key(row.2)
                    &&& self.indexed().contains(row.2)
                    &&& self@[row.2] == (*row.0, *row.1)
                    &&& bounding_box.spec_does_intersect(*row.1)
                },
            forall|id: ItemId|
                self.indexed().contains(id) && self.reaches(bounding_box, self@[id].1)
                    ==> exists|k: int| 0 <= k < r@.len() && (#[trigger] r@[k]).2 == id,
            self.holds_every_item() && bounding_box == self.bounds() ==> forall|id: ItemId|
                self@.contains_key(id) <==> exists|k: int| 0 <= k < r@.len() && (#[trigger] r@[k]).2 == id,
    {
        broadcast use vstd::std_specs::hash::group_hash_axioms;

        let mut found: Vec<Entry> = Vec::new();
        self.root.query(bounding_box, &mut found);
        proof {
            assert forall|j: int, k: int|
                0 <= j < found@.len() && 0 <= k < found@.len() && (#[trigger] found@[j]).0 == (
                #[trigger] found@[k]).0 implies found@[j] == found@[k] by {
                assert(self.root.holds(found@[j]) && self.root.holds(found@[k]));
            }
        }
        let ids = sort_dedup(&found);
        proof {
            assert forall|k: int| 0 <= k < ids@.len() implies self.root.holds(#[trigger] ids@[k])
                && bounding_box.spec_does_intersect(ids@[k].1) by {
                assert(ids@.contains(ids@[k]));
                let w = choose|w: int| 0 <= w < found@.len() && found@[w] == ids@[k];
                assert(self.root.holds(found@[w]));
            }
        }
        let mut out: Vec<(&'a T, &'a Rect, ItemId)> = Vec::new();
        let mut i: usize = 0;
        while i < ids.len()
            invariant
                i <= ids@.len(),
                out@.len() == i,
                self.wf(),
                forall|k: int|
                    0 <= k < ids@.len() ==> self.root.holds(#[trigger] ids@[k])
                        && bounding_box.spec_does_intersect(ids@[k].1),
                forall|k: int|
                    0 <= k < i ==> {
                        let row = #[trigger] out@[k];
                        &&& row.2 == ids@[k].0
                        &&& *row.1 == ids@[k].1
                        &&& self@.contains_key(row.2)
                        &&& self@[row.2] == (*row.0, *row.1)
                    },
            decreases ids@.len() - i,
        {
            let id: ItemId = ids[i].0;
            proof {
                assert(self.root.holds(ids@[i as int]));
                assert(self.elements@.contains_key(id.0));
            }
            match self.elements.get(&id.0) {
                Some(e) => {
                    out.push((&e.0, &e.1, id));
                },
                None => {
                    vstd::pervasive::unreached::<()>();
                },
            }
            i += 1;
        }
        proof {
            assert forall|k: int| 0 <= k < out@.len() implies {
                let row = #[trigger] out@[k];
                &&& self@.contains_key(row.2)
                &&& self.indexed().contains(row.2)
                &&& self@[row.2] == (*row.0, *row.1)
                &&& bounding_box.spec_does_intersect(*row.1)
            } by {
                assert(self.root.holds(ids@[k]));
            }
            assert forall|id: ItemId|
                self.indexed().contains(id) && self.reaches(
                    bounding_box,
                    self@[id].1,
                ) implies exists|k: int| 0 <= k < out@.len() && (#[trigger] out@[k]).2 == id by {
                let e: Entry = (id, self@[id].1);
                assert(self.root.holds(e));
                assert(self.root.reaches(bounding_box, e));
                let w = choose|w: int| 0 <= w < found@.len() && #[trigger] found@[w] == e;
                assert(found@.contains(e));
                assert(ids@.contains(e));
                let k = choose|k: int| 0 <= k < ids@.len() && ids@[k] == e;
                assert(out@[k].2 == id);
            }
            if self.holds_every_item() && bounding_box == self.bounds() {
                assert forall|id: ItemId| self@.contains_key(id) implies exists|k: int|
                    0 <= k < out@.len() && (#[trigger] out@[k]).2 == id by {
                    self.lemma_own_box_reaches(self@[id].1);
                    assert(self.indexed().contains(id));
                }
            }
        }
        out
    }

    /// Takes the item with the given id out of the map and the index and
    /// returns it with its box; nothing happens and nothing is returned if
    /// there is no such item. The top node shrinks as `shrank` says. Items
    /// that lay apart still do; that the tree is sparse or roomy may be
    /// lost where a branch becomes a leaf.
    pub fn remove(&mut self, item_id: ItemId) -> (r: Option<(T, Rect)>)
        requires
            old(self).wf(),
        ensures
            final(self).wf(),
            r == (if old(self)@.contains_key(item_id) {
                Some(old(self)@[item_id])
            } else {
                None
            }),
            final(self)@ == old(self)@.remove(item_id),
            final(self).indexed() == old(self).indexed().remove(item_id),
            final(self).bounds() == old(self).bounds(),
            final(self).allows_duplicates() == old(self).allows_duplicates(),
            final(self).next_id() == old(self).next_id(),
            final(self).config() == old(self).config(),
            QuadTree::shrank(*old(self), *final(self), item_id),
            old(self).holds_every_item() ==> final(self).holds_every_item(),
            old(self).apart() ==> final(self).apart(),
    {
        broadcast use vstd::std_specs::hash::group_hash_axioms;

        let ghost pre = *self;
        match self.elements.remove(&item_id.0) {
            Some((item, aabb)) => {
                proof {
                    assert(pre.elements@.contains_key(item_id.0));
                    assert(pre.elements@[item_id.0] == (item, aabb));
                    assert forall|a: Entry, b: Entry| #[trigger]
                        pre.root.holds(a) && #[trigger] pre.root.holds(b) && a.0
                            == b.0 implies a == b by {
                        assert(pre.elements@[a.0.0].1 == a.1);
                        assert(pre.elements@[b.0.0].1 == b.1);
                    }
                }
                self.root.remove(item_id, aabb, &self.config);
                proof {
                    assert(self@ =~= pre@.remove(item_id));
                    assert forall|e: Entry| #[trigger] self.root.holds(e) implies self.elements@.contains_key(
                        e.0.0,
                    ) && self.elements@[e.0.0].1 == e.1 by {
                        assert(pre.root.holds(e));
                    }
                    assert(self.indexed() =~= pre.indexed().remove(item_id)) by {
                        assert forall|k: ItemId| self.indexed().contains(k)
                            <==> pre.indexed().remove(item_id).contains(k) by {
                            if k != item_id && pre@.contains_key(k) {
                                assert(self@[k] == pre@[k]);
                                let e: Entry = (k, pre@[k].1);
                                assert(self.root.holds(e) <==> pre.root.holds(e) && e.0 != item_id);
                            }
                        }
                    }
                    if pre.holds_every_item() {
                        assert forall|k: ItemId| #[trigger] self@.contains_key(k) implies self.bounds().spec_does_intersect(
                            self@[k].1,
                        ) && self.indexed().contains(k) by {
                            assert(pre@.contains_key(k));
                            assert(pre.indexed().contains(k));
                        }
                    }
                }
                Some((item, aabb))
            },
            None => {
                proof {
                    assert(!pre.elements@.contains_key(item_id.0));
                    assert(self@ =~= pre@.remove(item_id));
                    assert(self.indexed() =~= pre.indexed().remove(item_id));
                }
                None
            },
        }
    }

    /// Every item of the tree with its id, each once, in no determined
    /// order.
    pub fn iter<'a>(&'a self) -> (r: Vec<(ItemId, &'a T, &'a Rect)>)
        ensures
            r@.len() == self@.dom().len(),
            forall|k: int|
                0 <= k < r@.len() ==> {
                    let row = #[trigger] r@[k];
                    self@.contains_key(row.0) && self@[row.0] == (*row.1, *row.2)
                },
            forall|j: int, k: int| 0 <= j < k < r@.len() ==> (#[trigger] r@[j]).0 != (#[trigger] r@[k]).0,
            forall|id: ItemId|
                self@.contains_key(id) ==> exists|k: int| 0 <= k < r@.len() && (#[trigger] r@[k]).0 == id,
    {
        broadcast use vstd::std_specs::hash::group_hash_axioms;
        broadcast use vstd::std_specs::hash::axiom_spec_hash_map_iter;

        let it = self.elements.iter();
        let ghost rem = it.remaining();
        let mut walk = vstd::std_specs::iter::VerusForLoopWrapper::new(it, Ghost(None));
        let mut out: Vec<(ItemId, &'a T, &'a Rect)> = Vec::new();
        loop
            invariant
                walk.wf(),
                walk.seq() == rem,
                walk.iter.obeys_prophetic_iter_laws(),
                0 <= walk.index() <= rem.len(),
                rem.len() == self.elements@.dom().len(),
                out@.len() == walk.index(),
                forall|k: int|
                    0 <= k < out@.len() ==> {
                        let row = #[trigger] out@[k];
                        row.0.0 == *rem[k].0 && *row.1 == (*rem[k].1).0 && *row.2 == (*rem[k].1).1
                    },
            ensures
                out@.len() == rem.len(),
            decreases self.elements@.dom().len() - out@.len(),
        {
            match walk.next() {
                Some((id, v)) => {
                    out.push((ItemId(*id), &v.0, &v.1));
                },
                None => {
                    break ;
                },
            }
        }
        proof {
            self.lemma_len();
            assert forall|k: int| 0 <= k < out@.len() implies {
                let row = #[trigger] out@[k];
                self@.contains_key(row.0) && self@[row.0] == (*row.1, *row.2)
            } by {
                assert(self.elements@.contains_key(*rem[k].0));
                assert(self.elements@[*rem[k].0] == *rem[k].1);
            }
            assert forall|j: int, k: int| 0 <= j < k < out@.len() implies (#[trigger] out@[j]).0 != (
            #[trigger] out@[k]).0 by {
                assert(self.elements@[*rem[j].0] == *rem[j].1);
                assert(self.elements@[*rem[k].0] == *rem[k].1);
                if out@[j].0 == out@[k].0 {
                    assert(*rem[j].0 == *rem[k].0);
                    assert(rem[j] == rem[k]);
                }
            }
            assert forall|id: ItemId| self@.contains_key(id) implies exists|k: int|
                0 <= k < out@.len() && (#[trigger] out@[k]).0 == id by {
                assert(self.elements@.contains_key(id.0));
                assert(rem.contains((&id.0, &self.elements@[id.0])));
                let k = choose|k: int| 0 <= k < rem.len() && rem[k] == (&id.0, &self.elements@[id.0]);
                assert(out@[k].0 == id);
            }
        }
        out
    }

    /// The nodes of the tree, each parent before its children.
    pub closed spec fn outline(&self) -> Seq<(Rect, usize, bool)> {
        self.root.outline()
    }

    /// The box, the depth and the kind of every node, each parent before
    /// its children; the flag is true for a leaf.
    pub fn inspect(&self) -> (r: Vec<(Rect, usize, bool)>)
        ensures
            r@ == self.outline(),
            r@.len() > 0,
            r@[0].0 == self.bounds(),
    {
        let mut out: Vec<(Rect, usize, bool)> = Vec::new();
        self.root.inspect(&mut out);
        proof {
            assert(out@ =~= self.root.outline());
        }
        out
    }

    /// Runs a query over the whole box of the tree; true when it is through.
    pub fn validate(&self) -> (r: bool)
        requires
            self.wf(),
        ensures
            r,
    {
        let _found = self.query(self.root.bounding_box());
        true
    }

    /// The number of items in the map, indexed or not.
    pub fn len(&self) -> (r: usize)
        ensures
            r == self@.dom().len(),
    {
        broadcast use vstd::std_specs::hash::group_hash_axioms;

        proof {
            self.lemma_len();
        }
        self.elements.len()
    }

    /// Whether the map holds no item.
    pub fn is_empty(&self) -> (r: bool)
        ensures
            r <==> self@.dom() =~= Set::<ItemId>::empty(),
            r <==> self@.dom().len() == 0,
    {
        broadcast use vstd::std_specs::hash::group_hash_axioms;

        proof {
            self.lemma_len();
            if self.elements@.is_empty() {
                assert forall|k: ItemId| !self@.contains_key(k) by {
                    assert(!self.elements@.dom().contains(k.0));
                }
                assert(self@.dom() =~= Set::<ItemId>::empty());
            } else {
                let k = choose|k: u32| self.elements@.dom().contains(k);
                assert(self@.contains_key(ItemId(k)));
            }
        }
        self.elements.is_empty()
    }

    /// The map by id has as many items as the map by number underneath.
    proof fn lemma_len(&self)
        ensures
            self@.dom().len() == self.elements@.dom().len(),
    {
        broadcast use vstd::std_specs::hash::group_hash_axioms;

        let keys = self.elements@.dom();
        let wrap = |k: u32| ItemId(k);
        assert(self@.dom() =~= keys.map(wrap)) by {
            assert forall|k: ItemId| self@.dom().contains(k) <==> keys.map(wrap).contains(k) by {
                if self@.dom().contains(k) {
                    assert(keys.contains(k.0));
                    assert(wrap(k.0) == k);
                }
            }
        }
        assert(vstd::relations::injective(wrap));
        vstd::set_lib::lemma_map_size(keys, keys.map(wrap), wrap);
    }
}

impl<T: Clone> Clone for QuadTree<T> {
    /// A tree of the same shape over the same ids and boxes, with a clone
    /// of every item.
    fn clone(&self) -> (r: QuadTree<T>)
        ensures
            r.wf() == self.wf(),
            r.bounds() == self.bounds(),
            r.allows_duplicates() == self.allows_duplicates(),
            r.next_id() == self.next_id(),
            r.indexed() == self.indexed(),
            r@ == self@,
            r.outline() == self.outline(),
            r.sparse() == self.sparse(),
            r.roomy() == self.roomy(),
            r.config() == self.config(),
    {
        let r = QuadTree {
            root: self.root.duplicate(),
            config: QuadTreeConfig {
                allow_duplicates: self.config.allow_duplicates,
                max_children: self.config.max_children,
                min_children: self.config.min_children,
                max_depth: self.config.max_depth,
            },
            id: self.id,
            elements: self.elements.clone(),
        };
        proof {
            assert(r@ =~= self@);
            assert(r.indexed() =~= self.indexed());
            assert(r.config == self.config);
            assert(r.root.within(self.config.max_depth) == self.root.within(self.config.max_depth));
        }
        r
    }
}

} // verus!
