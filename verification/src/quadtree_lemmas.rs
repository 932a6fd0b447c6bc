use vstd::prelude::*;
use crate::arith::lemma_trunc_div_bound;
use crate::geom::{lemma_quadrants_cover, Point, Rect};
use crate::quadtree::{bucket_ok, Entry};

verus! {

/// What a sequence contains after a push.
pub proof fn lemma_push_contains<T>(s: Seq<T>, x: T)
    ensures
        forall|e: T| #[trigger] s.push(x).contains(e) <==> s.contains(e) || e == x,
{
    assert forall|e: T| #[trigger] s.push(x).contains(e) <==> s.contains(e) || e == x by {
        if s.push(x).contains(e) {
            let k = choose|k: int| 0 <= k < s.push(x).len() && s.push(x)[k] == e;
            if k < s.len() {
                assert(s[k] == e);
            }
        }
        if s.contains(e) {
            let k = choose|k: int| 0 <= k < s.len() && s[k] == e;
            assert(s.push(x)[k] == e);
        }
        if e == x {
            assert(s.push(x)[s.len() as int] == e);
        }
    }
}

/// A bucket stays in order when an entry with a new id is pushed.
pub proof fn lemma_bucket_push(s: Seq<Entry>, x: Entry)
    requires
        bucket_ok(s),
        x.1.wf(),
        forall|e: Entry| s.contains(e) ==> e.0 != x.0,
    ensures
        bucket_ok(s.push(x)),
{
    let t = s.push(x);
    assert forall|k: int| 0 <= k < t.len() implies (#[trigger] t[k]).1.wf() by {
        if k < s.len() {
            assert(t[k] == s[k]);
        }
    }
    assert forall|j: int, k: int| 0 <= j < k < t.len() implies (#[trigger] t[j]).0 != (
    #[trigger] t[k]).0 by {
        assert(t[j] == s[j]);
        if k < s.len() {
            assert(t[k] == s[k]);
        } else {
            assert(s.contains(s[j]));
        }
    }
}

/// The corner-wise maximum of the top-left corners of two intersecting
/// boxes lies in both.
pub proof fn lemma_common_point(a: Rect, b: Rect) -> (p: Point)
    requires
        a.wf(),
        b.wf(),
        !a.null,
        !b.null,
        a.spec_does_intersect(b),
    ensures
        a.spec_contains(p),
        b.spec_contains(p),
{
    Point {
        x: if a.top_left.x >= b.top_left.x { a.top_left.x } else { b.top_left.x },
        y: if a.top_left.y >= b.top_left.y { a.top_left.y } else { b.top_left.y },
    }
}

/// A box that contains the midpoint of a region intersects the region.
pub proof fn lemma_center_meets(region: Rect, b: Rect)
    requires
        region.wf(),
        b.spec_holds_center_of(region),
    ensures
        region.spec_does_intersect(b),
{
    lemma_trunc_div_bound(region.spec_width(), 2);
    lemma_trunc_div_bound(region.spec_height(), 2);
}

/// Each quadrant of a well-formed box is well formed, and what intersects
/// a quadrant intersects the box.
pub proof fn lemma_quadrant_inside(region: Rect, i: int, b: Rect)
    requires
        region.wf(),
        0 <= i < 4,
    ensures
        region.spec_quadrant(i).wf(),
        region.spec_quadrant(i).null == region.null,
        region.spec_does_intersect(region.spec_quadrant(i)),
        region.spec_quadrant(i).spec_does_intersect(b) ==> region.spec_does_intersect(b),
{
    lemma_trunc_div_bound(region.spec_width(), 2);
    lemma_trunc_div_bound(region.spec_height(), 2);
}

/// A box that covers a well-formed box covers its quadrants and intersects
/// each of them.
pub proof fn lemma_covers_quadrant(q: Rect, region: Rect, i: int)
    requires
        region.wf(),
        0 <= i < 4,
        q.spec_covers(region),
    ensures
        q.spec_covers(region.spec_quadrant(i)),
        q.spec_does_intersect(region.spec_quadrant(i)),
{
    lemma_trunc_div_bound(region.spec_width(), 2);
    lemma_trunc_div_bound(region.spec_height(), 2);
}

/// What intersects a well-formed box intersects one of its quadrants.
pub proof fn lemma_quadrant_reaches(region: Rect, b: Rect) -> (i: int)
    requires
        region.wf(),
        b.wf(),
        region.spec_does_intersect(b),
    ensures
        0 <= i < 4,
        region.spec_quadrant(i).spec_does_intersect(b),
{
    if region.null || b.null {
        0
    } else {
        let p = lemma_common_point(region, b);
        lemma_quadrants_cover(region, p);
        let i = choose|i: int| 0 <= i < 4 && (#[trigger] region.spec_quadrant(i)).spec_contains(p);
        i
    }
}

/// Three well-formed boxes that intersect pairwise have a point in common,
/// so one quadrant of the first intersects both others.
pub proof fn lemma_shared_quadrant(region: Rect, a: Rect, b: Rect) -> (i: int)
    requires
        region.wf(),
        a.wf(),
        b.wf(),
        region.spec_does_intersect(a),
        region.spec_does_intersect(b),
        a.spec_does_intersect(b),
    ensures
        0 <= i < 4,
        region.spec_quadrant(i).spec_does_intersect(a),
        region.spec_quadrant(i).spec_does_intersect(b),
{
    if region.null {
        0
    } else if a.null {
        lemma_quadrant_reaches(region, b)
    } else if b.null {
        lemma_quadrant_reaches(region, a)
    } else {
        let m1 = if region.top_left.x >= a.top_left.x { region.top_left.x } else { a.top_left.x };
        let m2 = if region.top_left.y >= a.top_left.y { region.top_left.y } else { a.top_left.y };
        let p = Point {
            x: if m1 >= b.top_left.x { m1 } else { b.top_left.x },
            y: if m2 >= b.top_left.y { m2 } else { b.top_left.y },
        };
        assert(region.spec_contains(p));
        assert(a.spec_contains(p));
        assert(b.spec_contains(p));
        lemma_quadrants_cover(region, p);
        let i = choose|i: int| 0 <= i < 4 && (#[trigger] region.spec_quadrant(i)).spec_contains(p);
        i
    }
}

} // verus!
