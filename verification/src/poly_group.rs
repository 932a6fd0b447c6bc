use vstd::prelude::*;
use crate::geom::{Line, Point, Rect};
use crate::implementations::{PolyGroup, Polygon};
use crate::quadtree::{ItemId, QuadTree, Spatial};
use crate::Implicit;

verus! {

/// An edge of a polygon of a group, and whether the polygon adds to the
/// group or takes away from it.
#[derive(Copy, Clone, Debug)]
pub struct PolySegment {
    pub line: Line,
    pub additive: bool,
}

impl Spatial for PolySegment {
    open spec fn spec_aabb(&self) -> Rect {
        self.line.spec_aabb()
    }

    fn aabb(&self) -> (r: Rect) {
        self.line.aabb()
    }
}

/// How many of the polygons hold the point `q` inside.
pub open spec fn holding(polys: Seq<Polygon>, q: Point) -> int
    decreases polys.len(),
{
    if polys.len() == 0 {
        0
    } else {
        holding(polys.drop_last(), q) + if polys.last().value(q) < 0 {
            1int
        } else {
            0int
        }
    }
}

/// Whether the polygon at `i` adds to the group: its first corner lies
/// inside an even number of the other polygons.
pub open spec fn is_additive(polys: Seq<Polygon>, i: int) -> bool {
    (holding(polys.take(i), polys[i]@[0]) + holding(polys.skip(i + 1), polys[i]@[0])) % 2 == 0
}

/// The polygons from place `n` on that add to the group, if `adds` is set,
/// or those that take away from it, the last one first.
pub open spec fn picked(polys: Seq<Polygon>, adds: bool, n: int) -> Seq<Polygon>
    decreases polys.len() - n,
{
    if n < 0 || n >= polys.len() {
        seq![]
    } else if is_additive(polys, n) == adds {
        picked(polys, adds, n + 1).push(polys[n])
    } else {
        picked(polys, adds, n + 1)
    }
}

/// The union of the boxes of the polygons from place `n` on, taken from
/// the last one to the first.
pub open spec fn box_from(polys: Seq<Polygon>, n: int) -> Rect
    decreases polys.len() - n,
{
    if n < 0 || n >= polys.len() {
        Rect::spec_null()
    } else {
        box_from(polys, n + 1).spec_union(polys[n].bounds()->0)
    }
}

/// The first polygon counts as the others do.
pub proof fn lemma_holding_first(polys: Seq<Polygon>, q: Point)
    requires
        polys.len() > 0,
    ensures
        holding(polys, q) == holding(polys.skip(1), q) + if polys[0].value(q) < 0 {
            1int
        } else {
            0int
        },
    decreases polys.len(),
{
    if polys.len() == 1 {
        assert(polys.drop_last() =~= Seq::<Polygon>::empty());
        assert(polys.skip(1) =~= Seq::<Polygon>::empty());
    } else {
        lemma_holding_first(polys.drop_last(), q);
        assert(polys.drop_last().skip(1) =~= polys.skip(1).drop_last());
        assert(polys.skip(1).last() == polys.last());
        assert(polys.drop_last()[0] == polys[0]);
    }
}

/// How many of the polygons hold the point `q` inside.
fn count_holding(polys: &Vec<Polygon>, q: Point) -> (r: usize)
    ensures
        r == holding(polys@, q),
{
    let mut count: usize = 0;
    let mut i: usize = 0;
    while i < polys.len()
        invariant
            i <= polys@.len(),
            count == holding(polys@.take(i as int), q),
            count <= i,
        decreases polys@.len() - i,
    {
        proof {
            assert(polys@.take(i + 1).drop_last() =~= polys@.take(i as int));
        }
        if polys[i].sample(q) < 0 {
            count += 1;
        }
        i += 1;
    }
    proof {
        assert(polys@.take(polys@.len() as int) =~= polys@);
    }
    count
}

/// The edges of the polygons, one polygon after the other, each marked as
/// `adds` says.
pub open spec fn segments_of(polys: Seq<Polygon>, adds: bool) -> Seq<PolySegment>
    decreases polys.len(),
{
    if polys.len() == 0 {
        seq![]
    } else {
        segments_of(polys.drop_last(), adds) + marked(polys.last().spec_edges(), adds)
    }
}

/// The edges, each marked as `adds` says.
pub open spec fn marked(lines: Seq<Line>, adds: bool) -> Seq<PolySegment> {
    Seq::new(lines.len(), |k: int| PolySegment { line: lines[k], additive: adds })
}

/// The items of a tree that has taken the segments in their order: each
/// under its place as id, with the box of its edge.
pub open spec fn listed(segments: Seq<PolySegment>) -> Map<ItemId, (PolySegment, Rect)> {
    Map::new(
        |id: ItemId| id.0 < segments.len(),
        |id: ItemId| (segments[id.0 as int], segments[id.0 as int].line.spec_aabb()),
    )
}

/// Inserts into the tree the edges of the polygons, marked as `adds` says.
fn insert_edges(
    qt: &mut QuadTree<PolySegment>,
    polys: &Vec<Polygon>,
    adds: bool,
    Ghost(before): Ghost<Seq<PolySegment>>,
)
    requires
        old(qt).wf(),
        old(qt).allows_duplicates(),
        old(qt)@ == listed(before),
        old(qt).next_id() == before.len(),
        before.len() + segments_of(polys@, adds).len() < u32::MAX,
    ensures
        final(qt).wf(),
        final(qt).allows_duplicates(),
        final(qt).bounds() == old(qt).bounds(),
        final(qt)@ == listed(before + segments_of(polys@, adds)),
        final(qt).next_id() == before.len() + segments_of(polys@, adds).len(),
{
    let mut i: usize = 0;
    proof {
        assert(polys@.take(0) =~= Seq::<Polygon>::empty());
        assert(before + segments_of(polys@.take(0), adds) =~= before);
    }
    while i < polys.len()
        invariant
            i <= polys@.len(),
            qt.wf(),
            qt.allows_duplicates(),
            qt.bounds() == old(qt).bounds(),
            qt@ == listed(before + segments_of(polys@.take(i as int), adds)),
            qt.next_id() == before.len() + segments_of(polys@.take(i as int), adds).len(),
            before.len() + segments_of(polys@, adds).len() < u32::MAX,
        decreases polys@.len() - i,
    {
        let lines = polys[i].lines();
        let ghost head = before + segments_of(polys@.take(i as int), adds);
        proof {
            assert(polys@.take(i + 1).drop_last() =~= polys@.take(i as int));
            assert(polys@.take(i + 1).last() == polys@[i as int]);
            lemma_segments_grow(polys@, adds, i + 1);
            assert(marked(lines@.take(0), adds) =~= Seq::<PolySegment>::empty());
            assert(head + marked(lines@.take(0), adds) =~= head);
        }
        let mut j: usize = 0;
        while j < lines.len()
            invariant
                j <= lines@.len(),
                qt.wf(),
                qt.allows_duplicates(),
                qt.bounds() == old(qt).bounds(),
                qt@ == listed(head + marked(lines@.take(j as int), adds)),
                qt.next_id() == head.len() + j,
                head.len() + lines@.len() < u32::MAX,
            decreases lines@.len() - j,
        {
            let segment = PolySegment { line: lines[j], additive: adds };
            let ghost so_far = head + marked(lines@.take(j as int), adds);
            qt.insert(segment);
            proof {
                let now = head + marked(lines@.take(j + 1), adds);
                assert(now =~= so_far.push(segment));
                assert(listed(now) =~= listed(so_far).insert(
                    ItemId(so_far.len() as u32),
                    (segment, segment.spec_aabb()),
                ));
            }
            j += 1;
        }
        proof {
            assert(lines@.take(lines@.len() as int) =~= lines@);
            assert(segments_of(polys@.take(i + 1), adds) == segments_of(polys@.take(i as int), adds)
                + marked(lines@, adds));
            assert(before + segments_of(polys@.take(i + 1), adds) =~= head + marked(lines@, adds));
        }
        i += 1;
    }
    proof {
        assert(polys@.take(polys@.len() as int) =~= polys@);
    }
}

/// The edges of the first `k` polygons are no more than the edges of all
/// of them.
pub proof fn lemma_segments_grow(polys: Seq<Polygon>, adds: bool, k: int)
    requires
        0 <= k <= polys.len(),
    ensures
        segments_of(polys.take(k), adds).len() <= segments_of(polys, adds).len(),
    decreases polys.len() - k,
{
    if k < polys.len() {
        lemma_segments_grow(polys, adds, k + 1);
        assert(polys.take(k + 1).drop_last() =~= polys.take(k));
    } else {
        assert(polys.take(k) =~= polys);
    }
}

impl PolyGroup {
    /// Finds out which polygons add to the group and which take away from
    /// it: a polygon whose first corner lies inside an even number of the
    /// others adds to it. The first list holds those that add, the second
    /// those that take away, both from the last polygon to the first; the
    /// box is the union of the boxes of all of them.
    #[verifier::rlimit(40)]
    pub fn segregate_polys(v: Vec<Polygon>) -> (r: (Vec<Polygon>, Vec<Polygon>, Rect))
        requires
            v@.len() > 1 ==> forall|i: int| 0 <= i < v@.len() ==> (#[trigger] v@[i])@.len() > 0,
        ensures
            r.0@ == picked(v@, true, 0),
            r.1@ == picked(v@, false, 0),
            r.2 == box_from(v@, 0),
    {
        let ghost all = v@;
        let mut v = v;
        let mut additive: Vec<Polygon> = Vec::new();
        let mut subtractive: Vec<Polygon> = Vec::new();
        let mut bounding_box = Rect::null();
        proof {
            assert(all.take(all.len() as int) =~= all);
            assert(all.skip(all.len() as int) =~= Seq::<Polygon>::empty());
        }
        while v.len() > 0
            invariant
                v@.len() <= all.len(),
                v@ == all.take(v@.len() as int),
                additive@ == picked(all, true, v@.len() as int),
                subtractive@ == picked(all, false, v@.len() as int),
                bounding_box == box_from(all, v@.len() as int),
                forall|q: Point|
                    holding(additive@, q) + holding(subtractive@, q) == #[trigger] holding(
                        all.skip(v@.len() as int),
                        q,
                    ),
                all.len() > 1 ==> forall|i: int| 0 <= i < all.len() ==> (#[trigger] all[i])@.len() > 0,
            decreases v@.len(),
        {
            let ghost n = v@.len() - 1;
            let ghost was_additive = additive@;
            let ghost was_subtractive = subtractive@;
            let p = match v.pop() {
                Some(p) => p,
                None => {
                    proof {
                        assert(false);
                    }
                    return (additive, subtractive, bounding_box);
                },
            };
            proof {
                assert(p == all[n]);
                assert(v@ =~= all.take(n));
            }
            let mut inside_count: usize = 0;
            if v.len() > 0 || additive.len() > 0 || subtractive.len() > 0 {
                proof {
                    assert(all.len() > 1);
                }
                let first_point = p.points()[0];
                let rest = count_holding(&v, first_point);
                let added = count_holding(&additive, first_point);
                let taken = count_holding(&subtractive, first_point);
                // Only whether the number is even matters.
                inside_count = (rest % 2 + added % 2 + taken % 2) % 2;
            } else {
                proof {
                    assert(all.take(n) =~= Seq::<Polygon>::empty());
                }
            }
            proof {
                assert(inside_count % 2 == 0 <==> is_additive(all, n));
            }
            let own = match p.bounding_box() {
                Some(b) => b,
                None => Rect::null(),
            };
            bounding_box = bounding_box.union_with(&own);
            if inside_count % 2 == 0 {
                additive.push(p);
            } else {
                subtractive.push(p);
            }
            proof {
                assert forall|q: Point|
                    holding(additive@, q) + holding(subtractive@, q) == #[trigger] holding(
                        all.skip(n),
                        q,
                    ) by {
                    lemma_holding_first(all.skip(n), q);
                    assert(all.skip(n).skip(1) =~= all.skip(n + 1));
                    assert(holding(was_additive, q) + holding(was_subtractive, q) == holding(
                        all.skip(n + 1),
                        q,
                    ));
                    if inside_count % 2 == 0 {
                        assert(additive@.drop_last() =~= was_additive);
                    } else {
                        assert(subtractive@.drop_last() =~= was_subtractive);
                    }
                }
            }
        }
        (additive, subtractive, bounding_box)
    }

    /// A tree over the box `bb` that holds the edges of the polygons that
    /// add to a group, and after them the edges of those that take away
    /// from it, each under its place as id.
    pub fn build_qt(additive: Vec<Polygon>, subtractive: Vec<Polygon>, bb: Rect) -> (qt: QuadTree<
        PolySegment,
    >)
        requires
            bb.wf(),
            segments_of(additive@, true).len() + segments_of(subtractive@, false).len() < u32::MAX,
        ensures
            qt.wf(),
            qt.bounds() == bb,
            qt.allows_duplicates(),
            qt@ == listed(segments_of(additive@, true) + segments_of(subtractive@, false)),
            qt.next_id() == segments_of(additive@, true).len() + segments_of(
                subtractive@,
                false,
            ).len(),
    {
        let mut qt: QuadTree<PolySegment> = QuadTree::default(bb);
        let ghost none = Seq::<PolySegment>::empty();
        proof {
            assert(qt@ =~= listed(none));
        }
        insert_edges(&mut qt, &additive, true, Ghost(none));
        let ghost first = segments_of(additive@, true);
        proof {
            assert(none + first =~= first);
        }
        insert_edges(&mut qt, &subtractive, false, Ghost(first));
        qt
    }
}

} // verus!
