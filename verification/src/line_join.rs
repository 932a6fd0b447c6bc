use vstd::prelude::*;
use crate::arith::trunc_div;
use crate::geom::{Line, Point, Rect};
use crate::quadtree::{ItemId, QuadTree, Spatial};

verus! {

/// A point nearer than this many ticks to the segment between its
/// neighbours is dropped by the simplifier; chain ends nearer than this to
/// one another are taken for the same point.
pub const EPSILON: i32 = 10;

/// The squared distance, in ticks, below which the first and the last
/// point of a chain are fused into one.
pub const FUSE_LIMIT: i128 = 100_000;

/// A polyline. The points of a joined one form a loop: the last point is
/// followed by the first. An unjoined one is an open chain.
#[derive(Debug)]
pub enum LineType {
    Joined(Vec<Point>),
    Unjoined(Vec<Point>),
}

/// The mathematical value of a `LineType`.
pub enum Chain {
    Joined(Seq<Point>),
    Unjoined(Seq<Point>),
}

impl Chain {
    /// The points of the chain.
    pub open spec fn points(self) -> Seq<Point> {
        match self {
            Chain::Joined(p) => p,
            Chain::Unjoined(p) => p,
        }
    }
}

impl View for LineType {
    type V = Chain;

    open spec fn view(&self) -> Chain {
        match self {
            LineType::Joined(p) => Chain::Joined(p@),
            LineType::Unjoined(p) => Chain::Unjoined(p@),
        }
    }
}

/// The values of a list of polylines.
pub open spec fn chains(v: Seq<LineType>) -> Seq<Chain> {
    v.map_values(|l: LineType| l@)
}

/// How many points the polylines have together.
pub open spec fn total_points(v: Seq<Chain>) -> nat
    decreases v.len(),
{
    if v.len() == 0 {
        0
    } else {
        total_points(v.drop_last()) + v.last().points().len()
    }
}

impl LineType {
    /// The points of the polyline.
    pub fn points(self) -> (r: Vec<Point>)
        ensures
            r@ == self@.points(),
    {
        match self {
            LineType::Joined(p) => p,
            LineType::Unjoined(p) => p,
        }
    }
}

/// A copy of the points.
pub fn copy_points(v: &Vec<Point>) -> (r: Vec<Point>)
    ensures
        r@ == v@,
{
    let mut out: Vec<Point> = Vec::with_capacity(v.len());
    let mut i: usize = 0;
    while i < v.len()
        invariant
            i <= v@.len(),
            out@ == v@.subrange(0, i as int),
        decreases v@.len() - i,
    {
        out.push(v[i]);
        proof {
            assert(out@ =~= v@.subrange(0, i + 1));
        }
        i += 1;
    }
    proof {
        assert(out@ =~= v@);
    }
    out
}

/// Whether `prev` lies at least `EPSILON` from the segment between `first`
/// and `p`, so that it cannot be left out between them.
pub open spec fn bent(first: Point, prev: Point, p: Point) -> bool {
    Line(first, p).spec_dist_to_point(prev) >= EPSILON
}

/// The walk of the simplifier over the points `rest`, with `first` the
/// last point that it kept and `prev` the point that it looks at: `prev` is
/// kept if it is bent against the next point, and left out otherwise. The
/// last point is always kept.
pub open spec fn simplify_walk(first: Point, prev: Point, rest: Seq<Point>) -> Seq<Point>
    decreases rest.len(),
{
    if rest.len() == 0 {
        seq![prev]
    } else if bent(first, prev, rest[0]) {
        seq![prev] + simplify_walk(prev, rest[0], rest.drop_first())
    } else {
        simplify_walk(first, rest[0], rest.drop_first())
    }
}

/// What the simplifier makes of a list of points. Lists of at most two
/// points stay as they are.
pub open spec fn spec_simplify(pts: Seq<Point>) -> Seq<Point> {
    if pts.len() <= 2 {
        pts
    } else {
        seq![pts[0]] + simplify_walk(pts[0], pts[1], pts.skip(2))
    }
}

/// Every point but the first and the last is bent against its neighbours.
pub open spec fn all_bent(s: Seq<Point>) -> bool {
    forall|i: int| 0 <= i && i + 2 < s.len() ==> bent(#[trigger] s[i], s[i + 1], s[i + 2])
}

/// The walk keeps at least its last point and at most all points.
pub proof fn lemma_walk_len(first: Point, prev: Point, rest: Seq<Point>)
    ensures
        1 <= simplify_walk(first, prev, rest).len() <= rest.len() + 1,
        simplify_walk(first, prev, rest).last() == (if rest.len() == 0 {
            prev
        } else {
            rest.last()
        }),
    decreases rest.len(),
{
    if rest.len() > 0 {
        let tail = rest.drop_first();
        if tail.len() > 0 {
            assert(tail.last() == rest.last());
        }
        if bent(first, prev, rest[0]) {
            lemma_walk_len(prev, rest[0], tail);
        } else {
            lemma_walk_len(first, rest[0], tail);
        }
    }
}

/// The walk returns all its points exactly when each of them is bent.
pub proof fn lemma_walk_keeps_all(first: Point, prev: Point, rest: Seq<Point>)
    ensures
        simplify_walk(first, prev, rest) == seq![prev] + rest <==> all_bent(
            seq![first, prev] + rest,
        ),
    decreases rest.len(),
{
    let s = seq![first, prev] + rest;
    let w = simplify_walk(first, prev, rest);
    if rest.len() == 0 {
        assert(seq![prev] + rest =~= seq![prev]);
    } else {
        let tail = rest.drop_first();
        let t = seq![prev, rest[0]] + tail;
        assert(s[0] == first && s[1] == prev && s[2] == rest[0]);
        assert forall|i: int| 0 <= i < t.len() implies t[i] == s[i + 1] by {}
        lemma_walk_len(first, rest[0], tail);
        lemma_walk_keeps_all(prev, rest[0], tail);
        if bent(first, prev, rest[0]) {
            let inner = simplify_walk(prev, rest[0], tail);
            assert(w == seq![prev] + inner);
            if inner == seq![rest[0]] + tail {
                assert(w =~= seq![prev] + rest);
                assert forall|i: int| 0 <= i && i + 2 < s.len() implies bent(
                    #[trigger] s[i],
                    s[i + 1],
                    s[i + 2],
                ) by {
                    if i > 0 {
                        assert(bent(t[i - 1], t[i], t[i + 1]));
                    }
                }
            }
            if all_bent(s) {
                assert forall|i: int| 0 <= i && i + 2 < t.len() implies bent(
                    #[trigger] t[i],
                    t[i + 1],
                    t[i + 2],
                ) by {
                    assert(bent(s[i + 1], s[i + 2], s[i + 3]));
                }
                assert(w =~= seq![prev] + rest);
            }
            if w == seq![prev] + rest {
                assert(inner =~= w.drop_first());
                assert(seq![rest[0]] + tail =~= (seq![prev] + rest).drop_first());
            }
        } else {
            assert(w.len() <= tail.len() + 1);
            assert((seq![prev] + rest).len() == tail.len() + 2);
            if all_bent(s) {
                assert(bent(s[0], s[1], s[2]));
            }
        }
    }
}

/// A list of points is a fixed point of the simplifier exactly when each
/// point but the first and the last lies at least `EPSILON` from the
/// segment between its neighbours.
pub proof fn lemma_simplify_fixed_point(s: Seq<Point>)
    ensures
        spec_simplify(s) == s <==> all_bent(s),
{
    if s.len() > 2 {
        let rest = s.skip(2);
        lemma_walk_keeps_all(s[0], s[1], rest);
        assert(seq![s[0], s[1]] + rest =~= s);
        let w = simplify_walk(s[0], s[1], rest);
        if w == seq![s[1]] + rest {
            assert(seq![s[0]] + w =~= s);
        }
        if spec_simplify(s) == s {
            assert(w =~= s.drop_first());
            assert(seq![s[1]] + rest =~= s.drop_first());
        }
    }
}

/// Simplifying twice gives what simplifying once gives exactly when, in the
/// first result, each point but the first and the last lies at least
/// `EPSILON` from the segment between its neighbours.
pub proof fn lemma_simplify_twice(s: Seq<Point>)
    ensures
        spec_simplify(spec_simplify(s)) == spec_simplify(s) <==> all_bent(spec_simplify(s)),
{
    lemma_simplify_fixed_point(spec_simplify(s));
}

/// The simplifier keeps the first and the last point, and at least two
/// points of a list that has two.
pub proof fn lemma_simplify_ends(s: Seq<Point>)
    requires
        s.len() >= 2,
    ensures
        2 <= spec_simplify(s).len() <= s.len(),
        spec_simplify(s).first() == s.first(),
        spec_simplify(s).last() == s.last(),
{
    if s.len() > 2 {
        let rest = s.skip(2);
        lemma_walk_len(s[0], s[1], rest);
        assert(rest.last() == s.last());
    }
}

/// Leaves out every point that lies nearer than `EPSILON` to the segment
/// from the last point kept to the point that follows.
pub fn simplify_line(pts: Vec<Point>) -> (out: Vec<Point>)
    ensures
        out@ == spec_simplify(pts@),
        pts@.len() >= 2 ==> 2 <= out@.len() <= pts@.len() && out@.first() == pts@.first()
            && out@.last() == pts@.last(),
{
    if pts.len() <= 2 {
        return pts;
    }
    proof {
        lemma_simplify_ends(pts@);
    }
    let mut out: Vec<Point> = Vec::new();
    let mut first: Point = pts[0];
    let mut prev: Point = pts[1];
    out.push(first);
    let mut i: usize = 2;
    proof {
        assert(out@ =~= seq![pts@[0]]);
    }
    while i < pts.len()
        invariant
            2 <= i <= pts@.len(),
            pts@.len() > 2,
            out@ + simplify_walk(first, prev, pts@.skip(i as int)) == spec_simplify(pts@),
        decreases pts@.len() - i,
    {
        let p: Point = pts[i];
        let line = Line(first, p);
        proof {
            let rest = pts@.skip(i as int);
            assert(rest[0] == p);
            assert(rest.drop_first() =~= pts@.skip(i + 1));
        }
        let ghost before = out@;
        if line.nearer_than(&prev, EPSILON) {
            prev = p;
        } else {
            out.push(prev);
            proof {
                let tail = simplify_walk(prev, p, pts@.skip(i + 1));
                assert(out@ + tail =~= before + (seq![prev] + tail));
            }
            first = prev;
            prev = p;
        }
        i += 1;
    }
    proof {
        assert(pts@.skip(i as int).len() == 0);
        assert(out@.push(prev) =~= out@ + seq![prev]);
    }
    out.push(prev);
    out
}

/// The points without the last one, if the first and the last point lie so
/// close together that their squared distance is below `FUSE_LIMIT`; the
/// points as they are otherwise.
pub open spec fn dedup_ends(pts: Seq<Point>) -> Seq<Point> {
    if pts.len() > 0 && pts.first().dist2(pts.last()) < FUSE_LIMIT {
        pts.drop_last()
    } else {
        pts
    }
}

/// What fusing makes of one polyline: it loses its last point if that
/// repeats the first. Nothing is left of a polyline that has no point then;
/// an open chain that lost a point has become a loop.
pub open spec fn fuse_one(c: Chain) -> Option<Chain> {
    let pts = dedup_ends(c.points());
    if pts.len() == 0 {
        None
    } else {
        match c {
            Chain::Joined(_) => Some(Chain::Joined(pts)),
            Chain::Unjoined(old_pts) => if pts.len() < old_pts.len() {
                Some(Chain::Joined(pts))
            } else {
                Some(Chain::Unjoined(pts))
            },
        }
    }
}

/// Whether fusing this polyline counts as progress.
pub open spec fn fuse_progress(c: Chain) -> bool {
    let pts = dedup_ends(c.points());
    match c {
        Chain::Joined(old_pts) => pts.len() < old_pts.len(),
        Chain::Unjoined(old_pts) => pts.len() != 0 && pts.len() < old_pts.len(),
    }
}

/// What fusing makes of a list of polylines, in their order.
pub open spec fn spec_fuse(v: Seq<Chain>) -> Seq<Chain>
    decreases v.len(),
{
    if v.len() == 0 {
        seq![]
    } else {
        match fuse_one(v.last()) {
            Some(c) => spec_fuse(v.drop_last()).push(c),
            None => spec_fuse(v.drop_last()),
        }
    }
}

/// Whether fusing some polyline of the list counts as progress.
pub open spec fn spec_fuse_progress(v: Seq<Chain>) -> bool {
    exists|i: int| 0 <= i < v.len() && fuse_progress(#[trigger] v[i])
}

/// Fusing adds no point, and takes one away where it makes progress.
pub proof fn lemma_fuse_total(v: Seq<Chain>)
    ensures
        total_points(spec_fuse(v)) <= total_points(v),
        spec_fuse_progress(v) ==> total_points(spec_fuse(v)) < total_points(v),
    decreases v.len(),
{
    if v.len() > 0 {
        let head = v.drop_last();
        lemma_fuse_total(head);
        match fuse_one(v.last()) {
            Some(c) => {
                assert(spec_fuse(v).drop_last() =~= spec_fuse(head));
                assert(spec_fuse(v).last() == c);
            },
            None => {},
        }
        if spec_fuse_progress(v) {
            let i = choose|i: int| 0 <= i < v.len() && fuse_progress(#[trigger] v[i]);
            if i < v.len() - 1 {
                assert(head[i] == v[i]);
                assert(spec_fuse_progress(head));
            }
        }
    }
}

fn remove_dup(points: &mut Vec<Point>)
    ensures
        final(points)@ == dedup_ends(old(points)@),
{
    if points.len() > 0 {
        let first: Point = points[0];
        let last: Point = points[points.len() - 1];
        if first.distance_2(&last) < FUSE_LIMIT {
            points.pop();
        }
    }
}

/// Takes from every polyline a last point that repeats its first, turning
/// open chains that lose a point into loops, and leaves out polylines
/// without points.
pub fn fuse_ends(lines: Vec<LineType>) -> (r: (Vec<LineType>, bool))
    ensures
        chains(r.0@) == spec_fuse(chains(lines@)),
        r.1 == spec_fuse_progress(chains(lines@)),
        total_points(chains(r.0@)) <= total_points(chains(lines@)),
        r.1 ==> total_points(chains(r.0@)) < total_points(chains(lines@)),
{
    let ghost all = chains(lines@);
    let mut out: Vec<LineType> = Vec::new();
    let mut made_progress = false;
    let mut i: usize = 0;
    proof {
        assert(all.take(0) =~= Seq::<Chain>::empty());
        assert(chains(out@) =~= Seq::<Chain>::empty());
    }
    while i < lines.len()
        invariant
            i <= lines@.len(),
            all == chains(lines@),
            chains(out@) == spec_fuse(all.take(i as int)),
            made_progress == spec_fuse_progress(all.take(i as int)),
        decreases lines@.len() - i,
    {
        let ghost before = chains(out@);
        let ghost seen = all.take(i as int);
        let ghost next = all.take(i + 1);
        proof {
            assert(next.drop_last() =~= seen);
            assert(next.last() == lines@[i as int]@);
        }
        match &lines[i] {
            LineType::Joined(old_points) => {
                let mut points = copy_points(old_points);
                let prev_len = points.len();
                remove_dup(&mut points);
                let post_len = points.len();
                if post_len < prev_len {
                    made_progress = true;
                }
                if post_len != 0 {
                    out.push(LineType::Joined(points));
                    proof {
                        assert(chains(out@) =~= before.push(Chain::Joined(points@)));
                    }
                }
            },
            LineType::Unjoined(old_points) => {
                let mut points = copy_points(old_points);
                let prev_len = points.len();
                remove_dup(&mut points);
                let post_len = points.len();
                if post_len != 0 {
                    if post_len < prev_len {
                        made_progress = true;
                        out.push(LineType::Joined(points));
                        proof {
                            assert(chains(out@) =~= before.push(Chain::Joined(points@)));
                        }
                    } else {
                        out.push(LineType::Unjoined(points));
                        proof {
                            assert(chains(out@) =~= before.push(Chain::Unjoined(points@)));
                        }
                    }
                }
            },
        }
        proof {
            if spec_fuse_progress(next) {
                let j = choose|j: int| 0 <= j < next.len() && fuse_progress(#[trigger] next[j]);
                if j < i {
                    assert(seen[j] == next[j]);
                }
            }
            if spec_fuse_progress(seen) {
                let j = choose|j: int| 0 <= j < seen.len() && fuse_progress(#[trigger] seen[j]);
                assert(next[j] == seen[j]);
            }
            if fuse_progress(next.last()) {
                assert(fuse_progress(next[i as int]));
            }
        }
        i += 1;
    }
    proof {
        assert(all.take(i as int) =~= all);
        lemma_fuse_total(all);
    }
    (out, made_progress)
}

/// The four ways in which two open chains can meet at their ends.
#[derive(Copy, Clone, Debug, PartialEq, Eq, Structural)]
pub enum Meeting {
    FirstFirst,
    FirstLast,
    LastFirst,
    LastLast,
}

/// Whether two chain ends count as the same point.
pub open spec fn ends_meet(a: Point, b: Point) -> bool {
    a.spec_close_to(b, EPSILON)
}

/// How the chains `a` and `b` meet, if both are open and have points and
/// two of their ends count as the same point. Of several meetings the first
/// in the order of `Meeting` counts.
pub open spec fn meeting(a: Chain, b: Chain) -> Option<Meeting> {
    match (a, b) {
        (Chain::Unjoined(p), Chain::Unjoined(q)) => {
            if p.len() == 0 || q.len() == 0 {
                None
            } else if ends_meet(p.first(), q.first()) {
                Some(Meeting::FirstFirst)
            } else if ends_meet(p.first(), q.last()) {
                Some(Meeting::FirstLast)
            } else if ends_meet(p.last(), q.first()) {
                Some(Meeting::LastFirst)
            } else if ends_meet(p.last(), q.last()) {
                Some(Meeting::LastLast)
            } else {
                None
            }
        },
        _ => None,
    }
}

/// The chain that two meeting chains make together. The point at which
/// they meet is taken once, from `a`.
pub open spec fn spliced(a: Seq<Point>, b: Seq<Point>, m: Meeting) -> Seq<Point> {
    match m {
        Meeting::FirstFirst => b.reverse().drop_last() + a,
        Meeting::FirstLast => b.drop_last() + a,
        Meeting::LastFirst => a.drop_last() + b,
        Meeting::LastLast => a + b.drop_last().reverse(),
    }
}

/// The sequence without the element at `j`, whose place the last element
/// takes.
pub open spec fn swap_removed<T>(s: Seq<T>, j: int) -> Seq<T> {
    s.update(j, s.last()).drop_last()
}

/// Whether the chains at `i` and `k`, in this order, are open and meet at
/// their ends.
pub open spec fn mergeable(lines: Seq<Chain>, i: int, k: int) -> bool {
    0 <= i < k < lines.len() && meeting(lines[i], lines[k]) is Some
}

/// The list after the chains at `i` and `k` have become one. The new chain
/// stands where the chain stood whose points come last in it.
pub open spec fn merge_step(lines: Seq<Chain>, i: int, k: int) -> Seq<Chain> {
    let a = lines[i].points();
    let b = lines[k].points();
    match meeting(lines[i], lines[k]) {
        Some(Meeting::FirstFirst) => swap_removed(
            lines.update(k, Chain::Unjoined(spliced(a, b, Meeting::FirstFirst))),
            i,
        ),
        Some(Meeting::FirstLast) => swap_removed(
            lines.update(k, Chain::Unjoined(spliced(a, b, Meeting::FirstLast))),
            i,
        ),
        Some(Meeting::LastFirst) => swap_removed(
            lines.update(i, Chain::Unjoined(spliced(a, b, Meeting::LastFirst))),
            k,
        ),
        Some(Meeting::LastLast) => swap_removed(
            lines.update(i, Chain::Unjoined(spliced(a, b, Meeting::LastLast))),
            k,
        ),
        None => lines,
    }
}

/// `(i, k)` is the pair of meeting chains that a search in the order of
/// `i`, then of `k`, finds first.
pub open spec fn is_first_pair(lines: Seq<Chain>, i: int, k: int) -> bool {
    &&& mergeable(lines, i, k)
    &&& forall|i2: int, k2: int| #[trigger]
        mergeable(lines, i2, k2) ==> i < i2 || (i == i2 && k <= k2)
}

/// Whether two chains of the list meet.
pub open spec fn has_pair(lines: Seq<Chain>) -> bool {
    exists|i: int, k: int| mergeable(lines, i, k)
}

/// The pair of meeting chains that a search in the order of the first, then
/// of the second, finds first.
pub open spec fn first_pair(lines: Seq<Chain>) -> (int, int) {
    choose|p: (int, int)| is_first_pair(lines, p.0, p.1)
}

/// The list after meeting chains have been merged, the first pair each
/// time, until no two chains meet.
pub open spec fn spec_connect(lines: Seq<Chain>) -> Seq<Chain>
    decreases lines.len(),
{
    let p = first_pair(lines);
    if mergeable(lines, p.0, p.1) {
        spec_connect(merge_step(lines, p.0, p.1))
    } else {
        lines
    }
}

/// There is only one first pair.
pub proof fn lemma_first_pair(lines: Seq<Chain>, i: int, k: int)
    requires
        is_first_pair(lines, i, k),
    ensures
        first_pair(lines) == (i, k),
{
    let p = first_pair(lines);
    assert(is_first_pair(lines, (i, k).0, (i, k).1));
    assert(is_first_pair(lines, p.0, p.1));
    assert(mergeable(lines, i, k));
    assert(mergeable(lines, p.0, p.1));
}

/// How an update changes the number of points.
pub proof fn lemma_total_update(v: Seq<Chain>, j: int, c: Chain)
    requires
        0 <= j < v.len(),
    ensures
        total_points(v.update(j, c)) + v[j].points().len() == total_points(v) + c.points().len(),
    decreases v.len(),
{
    let u = v.update(j, c);
    if j == v.len() - 1 {
        assert(u.drop_last() =~= v.drop_last());
    } else {
        assert(u.drop_last() =~= v.drop_last().update(j, c));
        lemma_total_update(v.drop_last(), j, c);
    }
}

/// A merge makes one chain of two and one point of two.
pub proof fn lemma_merge_total(lines: Seq<Chain>, i: int, k: int)
    requires
        mergeable(lines, i, k),
    ensures
        merge_step(lines, i, k).len() == lines.len() - 1,
        total_points(merge_step(lines, i, k)) + 1 == total_points(lines),
{
    let a = lines[i].points();
    let b = lines[k].points();
    let m = meeting(lines[i], lines[k])->0;
    let joined = Chain::Unjoined(spliced(a, b, m));
    assert(spliced(a, b, m).len() == a.len() + b.len() - 1);
    let last = lines.len() - 1;
    if m == Meeting::FirstFirst || m == Meeting::FirstLast {
        let v1 = lines.update(k, joined);
        lemma_total_update(lines, k, joined);
        let v2 = v1.update(i, v1.last());
        lemma_total_update(v1, i, v1.last());
        assert(v2.last() == v1.last());
    } else {
        let v1 = lines.update(i, joined);
        lemma_total_update(lines, i, joined);
        let v2 = v1.update(k, v1.last());
        lemma_total_update(v1, k, v1.last());
        assert(v2.last() == v1.last());
    }
}

fn overlap(a: Option<Point>, b: Option<Point>) -> (r: bool)
    ensures
        r == (a is Some && b is Some && ends_meet(a->0, b->0)),
{
    match (a, b) {
        (Some(a), Some(b)) => a.close_to(&b, EPSILON),
        _ => false,
    }
}

fn first_of(v: &Vec<Point>) -> (r: Option<Point>)
    ensures
        r == (if v@.len() == 0 {
            None
        } else {
            Some(v@.first())
        }),
{
    if v.len() == 0 {
        None
    } else {
        Some(v[0])
    }
}

fn last_of(v: &Vec<Point>) -> (r: Option<Point>)
    ensures
        r == (if v@.len() == 0 {
            None
        } else {
            Some(v@.last())
        }),
{
    if v.len() == 0 {
        None
    } else {
        Some(v[v.len() - 1])
    }
}

fn find_meeting(a: &LineType, b: &LineType) -> (r: Option<Meeting>)
    ensures
        r == meeting(a@, b@),
{
    match (a, b) {
        (LineType::Unjoined(a), LineType::Unjoined(b)) => {
            if overlap(first_of(a), first_of(b)) {
                Some(Meeting::FirstFirst)
            } else if overlap(first_of(a), last_of(b)) {
                Some(Meeting::FirstLast)
            } else if overlap(last_of(a), first_of(b)) {
                Some(Meeting::LastFirst)
            } else if overlap(last_of(a), last_of(b)) {
                Some(Meeting::LastLast)
            } else {
                None
            }
        },
        _ => None,
    }
}

/// Appends the points of `src` from `from` up to `to` to `out`, in their
/// order or, with `backward`, in the opposite order.
fn append_range(out: &mut Vec<Point>, src: &Vec<Point>, from: usize, to: usize, backward: bool)
    requires
        from <= to <= src@.len(),
    ensures
        final(out)@ == old(out)@ + (if backward {
            src@.subrange(from as int, to as int).reverse()
        } else {
            src@.subrange(from as int, to as int)
        }),
{
    let ghost part = src@.subrange(from as int, to as int);
    let n: usize = to - from;
    let mut j: usize = 0;
    proof {
        assert(out@ =~= old(out)@ + part.reverse().take(0));
        assert(out@ =~= old(out)@ + part.take(0));
    }
    while j < n
        invariant
            j <= n,
            n == to - from,
            from <= to <= src@.len(),
            part == src@.subrange(from as int, to as int),
            out@ == old(out)@ + (if backward {
                part.reverse().take(j as int)
            } else {
                part.take(j as int)
            }),
        decreases n - j,
    {
        let ghost before = out@;
        if backward {
            out.push(src[to - 1 - j]);
            proof {
                assert(part.reverse()[j as int] == src@[to - 1 - j]);
                assert(part.reverse().take(j + 1) =~= part.reverse().take(j as int).push(
                    src@[to - 1 - j],
                ));
                assert(out@ =~= old(out)@ + part.reverse().take(j + 1));
            }
        } else {
            out.push(src[from + j]);
            proof {
                assert(part.take(j + 1) =~= part.take(j as int).push(src@[from + j]));
                assert(out@ =~= old(out)@ + part.take(j + 1));
            }
        }
        j += 1;
    }
    proof {
        assert(part.take(n as int) =~= part);
        assert(part.reverse().take(n as int) =~= part.reverse());
    }
}

fn splice(a: &Vec<Point>, b: &Vec<Point>, m: Meeting) -> (r: Vec<Point>)
    requires
        a@.len() > 0,
        b@.len() > 0,
    ensures
        r@ == spliced(a@, b@, m),
{
    let mut out: Vec<Point> = Vec::new();
    let na = a.len();
    let nb = b.len();
    match m {
        Meeting::FirstFirst => {
            append_range(&mut out, b, 1, nb, true);
            append_range(&mut out, a, 0, na, false);
            proof {
                assert(b@.subrange(1, nb as int).reverse() =~= b@.reverse().drop_last());
                assert(a@.subrange(0, na as int) =~= a@);
                assert(out@ =~= spliced(a@, b@, m));
            }
        },
        Meeting::FirstLast => {
            append_range(&mut out, b, 0, nb - 1, false);
            append_range(&mut out, a, 0, na, false);
            proof {
                assert(b@.subrange(0, nb - 1) =~= b@.drop_last());
                assert(a@.subrange(0, na as int) =~= a@);
                assert(out@ =~= spliced(a@, b@, m));
            }
        },
        Meeting::LastFirst => {
            append_range(&mut out, a, 0, na - 1, false);
            append_range(&mut out, b, 0, nb, false);
            proof {
                assert(a@.subrange(0, na - 1) =~= a@.drop_last());
                assert(b@.subrange(0, nb as int) =~= b@);
                assert(out@ =~= spliced(a@, b@, m));
            }
        },
        Meeting::LastLast => {
            append_range(&mut out, a, 0, na, false);
            append_range(&mut out, b, 0, nb - 1, true);
            proof {
                assert(b@.subrange(0, nb - 1) =~= b@.drop_last());
                assert(a@.subrange(0, na as int) =~= a@);
                assert(out@ =~= spliced(a@, b@, m));
            }
        },
    }
    out
}

/// The first pair of meeting chains, if any two chains meet.
fn find_pair(lines: &Vec<LineType>) -> (r: Option<(usize, usize, Meeting)>)
    ensures
        match r {
            Some((i, k, m)) => is_first_pair(chains(lines@), i as int, k as int) && meeting(
                lines@[i as int]@,
                lines@[k as int]@,
            ) == Some(m),
            None => !has_pair(chains(lines@)),
        },
{
    let ghost all = chains(lines@);
    let n = lines.len();
    let mut i: usize = 0;
    while i < n
        invariant
            i <= n,
            n == lines@.len(),
            all == chains(lines@),
            forall|i2: int, k2: int| #[trigger] mergeable(all, i2, k2) ==> i2 >= i,
        decreases n - i,
    {
        let mut k: usize = i + 1;
        while k < n
            invariant
                i < k <= n,
                n == lines@.len(),
                all == chains(lines@),
                forall|i2: int, k2: int| #[trigger]
                    mergeable(all, i2, k2) ==> i2 > i || (i2 == i && k2 >= k),
            decreases n - k,
        {
            match find_meeting(&lines[i], &lines[k]) {
                Some(m) => {
                    proof {
                        assert(mergeable(all, i as int, k as int));
                    }
                    return Some((i, k, m));
                },
                None => {},
            }
            k += 1;
        }
        i += 1;
    }
    None
}

/// The points of the polyline.
pub fn points_of(line: &LineType) -> (r: &Vec<Point>)
    ensures
        r@ == line@.points(),
{
    match line {
        LineType::Joined(p) => p,
        LineType::Unjoined(p) => p,
    }
}

/// Merges open chains that meet at their ends, the first pair each time,
/// until no two chains meet.
pub fn connect_linetypes(lines: Vec<LineType>) -> (r: (Vec<LineType>, bool))
    ensures
        chains(r.0@) == spec_connect(chains(lines@)),
        !has_pair(chains(r.0@)),
        r.1 == (r.0@.len() < lines@.len()),
        r.0@.len() <= lines@.len(),
        total_points(chains(r.0@)) + (lines@.len() - r.0@.len()) == total_points(chains(lines@)),
{
    let ghost orig = chains(lines@);
    let mut lines = lines;
    let mut made_progress = false;
    loop
        invariant
            spec_connect(chains(lines@)) == spec_connect(orig),
            made_progress == (lines@.len() < orig.len()),
            lines@.len() <= orig.len(),
            total_points(chains(lines@)) + (orig.len() - lines@.len()) == total_points(orig),
        ensures
            !has_pair(chains(lines@)),
            chains(lines@) == spec_connect(orig),
        decreases lines@.len(),
    {
        let ghost cur = chains(lines@);
        match find_pair(&lines) {
            Some((i, k, m)) => {
                proof {
                    lemma_first_pair(cur, i as int, k as int);
                    lemma_merge_total(cur, i as int, k as int);
                }
                let merged = splice(points_of(&lines[i]), points_of(&lines[k]), m);
                match m {
                    Meeting::FirstFirst | Meeting::FirstLast => {
                        lines.set(k, LineType::Unjoined(merged));
                        lines.swap_remove(i);
                    },
                    Meeting::LastFirst | Meeting::LastLast => {
                        lines.set(i, LineType::Unjoined(merged));
                        lines.swap_remove(k);
                    },
                }
                proof {
                    assert(chains(lines@) =~= merge_step(cur, i as int, k as int));
                }
                made_progress = true;
            },
            None => {
                proof {
                    let p = first_pair(cur);
                    assert(!mergeable(cur, p.0, p.1));
                }
                break ;
            },
        }
    }
    (lines, made_progress)
}

/// The segments that are left to join, by id, each with its bounding box.
pub type Pool = Map<ItemId, (Line, Rect)>;

/// The segments of a list by their place in it, each with its bounding
/// box.
pub open spec fn line_pool(lines: Seq<Line>) -> Pool {
    Map::new(
        |id: ItemId| id.0 < lines.len(),
        |id: ItemId| (lines[id.0 as int], lines[id.0 as int].spec_bounding_box()),
    )
}

/// The smallest box that holds all the segments; null if there is none.
pub open spec fn spec_bounds(lines: Seq<Line>) -> Rect
    decreases lines.len(),
{
    if lines.len() == 0 {
        Rect::spec_null()
    } else if lines.len() == 1 {
        lines[0].spec_bounding_box()
    } else {
        spec_bounds(lines.drop_last()).spec_union(lines.last().spec_bounding_box())
    }
}

/// `v` brought into the range of a coordinate.
pub open spec fn clamp_coord(v: int) -> i32 {
    if v < i32::MIN {
        i32::MIN
    } else if v > i32::MAX {
        i32::MAX
    } else {
        v as i32
    }
}

/// The box in which a chain that ends at `last` looks for its next
/// segment: it reaches half the resolution from `last` to every side, as
/// far as the grid goes.
pub open spec fn search_box(last: Point, resolution: i32) -> Rect {
    let r = trunc_div(resolution as int, 2);
    let a = Point { x: clamp_coord(last.x - r), y: clamp_coord(last.y - r) };
    let b = Point { x: clamp_coord(last.x + r), y: clamp_coord(last.y + r) };
    Rect::spec_null_at(a).spec_expanded_by(b)
}

/// The squared distance from `last` to the nearer end of the segment.
pub open spec fn nearness(l: Line, last: Point) -> int {
    if l.0.dist2(last) <= l.1.dist2(last) {
        l.0.dist2(last)
    } else {
        l.1.dist2(last)
    }
}

/// The end of the segment with which a chain goes on that came to it at
/// `last`: the end farther from `last`, and `.0` if both are as far.
pub open spec fn far_end(l: Line, last: Point) -> Point {
    if l.0.dist2(last) < l.1.dist2(last) {
        l.1
    } else {
        l.0
    }
}

/// Whether the segment is left and its box intersects the search box.
pub open spec fn candidate(pool: Pool, last: Point, resolution: i32, id: ItemId) -> bool {
    pool.contains_key(id) && search_box(last, resolution).spec_does_intersect(pool[id].1)
}

/// Whether the segment is the candidate that the chain takes: none is
/// nearer to `last`, and of those as near none has a smaller id.
pub open spec fn is_closest(pool: Pool, last: Point, resolution: i32, id: ItemId) -> bool {
    &&& candidate(pool, last, resolution, id)
    &&& forall|j: ItemId| #[trigger]
        candidate(pool, last, resolution, j) ==> nearness(pool[id].0, last) < nearness(
            pool[j].0,
            last,
        ) || (nearness(pool[id].0, last) == nearness(pool[j].0, last) && id.0 <= j.0)
}

/// The candidate of the pool that is closest to `last`; of several that are
/// as close, the one with the smallest id.
pub open spec fn closest(pool: Pool, last: Point, resolution: i32) -> ItemId {
    choose|id: ItemId| is_closest(pool, last, resolution, id)
}

/// The points that a chain gains after `last`: as long as there is a
/// candidate, the far end of the closest one, which leaves the pool. `budget`
/// bounds the number of steps; the size of the pool is enough.
pub open spec fn chain_tail(pool: Pool, last: Point, resolution: i32, budget: nat) -> Seq<Point>
    decreases budget,
{
    let id = closest(pool, last, resolution);
    if budget == 0 || !is_closest(pool, last, resolution, id) {
        seq![]
    } else {
        let far = far_end(pool[id].0, last);
        seq![far] + chain_tail(pool.remove(id), far, resolution, (budget - 1) as nat)
    }
}

/// The segments that are left when the chain has come to its end.
pub open spec fn chain_rest(pool: Pool, last: Point, resolution: i32, budget: nat) -> Pool
    decreases budget,
{
    let id = closest(pool, last, resolution);
    if budget == 0 || !is_closest(pool, last, resolution, id) {
        pool
    } else {
        let far = far_end(pool[id].0, last);
        chain_rest(pool.remove(id), far, resolution, (budget - 1) as nat)
    }
}

/// The chain that starts with the segment `seed` of the pool.
pub open spec fn chain_from(pool: Pool, seed: ItemId, resolution: i32) -> Chain {
    let seg = pool[seed].0;
    let left = pool.remove(seed);
    Chain::Unjoined(seq![seg.0, seg.1] + chain_tail(left, seg.1, resolution, left.dom().len()))
}

/// The segments that are left after the chain that starts with `seed`.
pub open spec fn pool_after(pool: Pool, seed: ItemId, resolution: i32) -> Pool {
    let seg = pool[seed].0;
    let left = pool.remove(seed);
    chain_rest(left, seg.1, resolution, left.dom().len())
}

/// The segments that are left after the chains that start with the given
/// segments, one after the other.
pub open spec fn after(pool: Pool, seeds: Seq<ItemId>, resolution: i32) -> Pool
    decreases seeds.len(),
{
    if seeds.len() == 0 {
        pool
    } else {
        pool_after(after(pool, seeds.drop_last(), resolution), seeds.last(), resolution)
    }
}

/// Each seed is a segment that the chains before it have left.
pub open spec fn seeds_ok(pool: Pool, seeds: Seq<ItemId>, resolution: i32) -> bool
    decreases seeds.len(),
{
    if seeds.len() == 0 {
        true
    } else {
        &&& seeds_ok(pool, seeds.drop_last(), resolution)
        &&& after(pool, seeds.drop_last(), resolution).contains_key(seeds.last())
    }
}

/// The chains that start with the given segments, one after the other.
pub open spec fn joined(pool: Pool, seeds: Seq<ItemId>, resolution: i32) -> Seq<Chain>
    decreases seeds.len(),
{
    if seeds.len() == 0 {
        seq![]
    } else {
        joined(pool, seeds.drop_last(), resolution).push(
            chain_from(after(pool, seeds.drop_last(), resolution), seeds.last(), resolution),
        )
    }
}

/// Only one candidate is the closest.
pub proof fn lemma_closest(pool: Pool, last: Point, resolution: i32, id: ItemId)
    requires
        is_closest(pool, last, resolution, id),
    ensures
        closest(pool, last, resolution) == id,
{
    let c = closest(pool, last, resolution);
    assert(is_closest(pool, last, resolution, c));
    assert(candidate(pool, last, resolution, id));
    assert(candidate(pool, last, resolution, c));
    assert(c.0 == id.0);
}

fn clamp(v: i64) -> (r: i32)
    ensures
        r == clamp_coord(v as int),
{
    if v < i32::MIN as i64 {
        i32::MIN
    } else if v > i32::MAX as i64 {
        i32::MAX
    } else {
        v as i32
    }
}

fn search_box_of(last: Point, resolution: i32) -> (r: Rect)
    ensures
        r == search_box(last, resolution),
        r.wf(),
        !r.null,
        r.spec_contains(last),
{
    let res: i64 = resolution as i64;
    let radius: i64 = if res >= 0 { res / 2 } else { -((-res) / 2) };
    let a = Point { x: clamp(last.x as i64 - radius), y: clamp(last.y as i64 - radius) };
    let b = Point { x: clamp(last.x as i64 + radius), y: clamp(last.y as i64 + radius) };
    Rect::from_points(&a, &b)
}

fn nearness_of(l: &Line, last: &Point) -> (r: i128)
    ensures
        r == nearness(*l, *last),
{
    let d0: i128 = l.0.distance_2(last);
    let d1: i128 = l.1.distance_2(last);
    if d0 <= d1 {
        d0
    } else {
        d1
    }
}

/// What holds of the tree while chains are built from it: it allows
/// duplicates and holds every one of its segments under the bounding box
/// of the segment, inside its own box.
pub open spec fn pool_ok(tree: &QuadTree<Line>) -> bool {
    &&& tree.wf()
    &&& tree.allows_duplicates()
    &&& tree.holds_every_item()
    &&& forall|id: ItemId| #[trigger]
        tree@.contains_key(id) ==> tree@[id].1 == tree@[id].0.spec_bounding_box()
            && tree.bounds().spec_contains(tree@[id].0.0) && tree.bounds().spec_contains(
            tree@[id].0.1,
        )
}

/// The closest candidate for a chain that ends at `last`, with its id.
fn pick_closest(tree: &QuadTree<Line>, last: Point, resolution: i32) -> (r: Option<(Line, ItemId)>)
    requires
        pool_ok(tree),
        tree.bounds().spec_contains(last),
    ensures
        match r {
            Some((line, id)) => is_closest(tree@, last, resolution, id) && tree@[id].0 == line,
            None => forall|id: ItemId| !candidate(tree@, last, resolution, id),
        },
{
    let query = search_box_of(last, resolution);
    let near_last = tree.query(query);
    proof {
        tree.lemma_wf_facts();
        assert forall|id: ItemId| candidate(tree@, last, resolution, id) implies exists|k: int|
            0 <= k < near_last@.len() && (#[trigger] near_last@[k]).2 == id by {
            assert(tree.indexed().contains(id));
            assert(tree.reaches(query, tree@[id].1));
        }
    }
    if near_last.len() == 0 {
        return None;
    }
    let mut best: usize = 0;
    let mut best_key: i128 = nearness_of(near_last[0].0, &last);
    let mut k: usize = 1;
    while k < near_last.len()
        invariant
            1 <= k <= near_last@.len(),
            best < k,
            best_key == nearness(*near_last@[best as int].0, last),
            forall|j: int|
                0 <= j < k ==> best_key < nearness(*(#[trigger] near_last@[j]).0, last) || (best_key
                    == nearness(*near_last@[j].0, last) && best <= j),
        decreases near_last@.len() - k,
    {
        let key: i128 = nearness_of(near_last[k].0, &last);
        if key < best_key {
            best = k;
            best_key = key;
        }
        k += 1;
    }
    let line: Line = *near_last[best].0;
    let id: ItemId = near_last[best].2;
    proof {
        let row = near_last@[best as int];
        assert(candidate(tree@, last, resolution, id));
        assert forall|j: ItemId| #[trigger]
            candidate(tree@, last, resolution, j) implies nearness(tree@[id].0, last) < nearness(
            tree@[j].0,
            last,
        ) || (nearness(tree@[id].0, last) == nearness(tree@[j].0, last) && id.0 <= j.0) by {
            let w = choose|w: int| 0 <= w < near_last@.len() && (#[trigger] near_last@[w]).2 == j;
            assert(tree@[near_last@[w].2] == (*near_last@[w].0, *near_last@[w].1));
            if (best as int) < w {
                assert(near_last@[best as int].2.0 < near_last@[w].2.0);
            }
        }
    }
    Some((line, id))
}

/// Lets the chain `points`, which ends at `last`, go on through the
/// segments of the tree for as long as it finds a candidate.
fn follow(tree: &mut QuadTree<Line>, points: &mut Vec<Point>, last: Point, resolution: i32)
    requires
        pool_ok(old(tree)),
        old(tree).bounds().spec_contains(last),
    ensures
        pool_ok(final(tree)),
        final(tree).bounds() == old(tree).bounds(),
        final(points)@ == old(points)@ + chain_tail(
            old(tree)@,
            last,
            resolution,
            old(tree)@.dom().len(),
        ),
        final(tree)@ == chain_rest(old(tree)@, last, resolution, old(tree)@.dom().len()),
        final(tree)@.dom().len() + final(points)@.len() == old(tree)@.dom().len() + old(
            points,
        )@.len(),
{
    let mut last = last;
    let ghost full = old(points)@ + chain_tail(
        old(tree)@,
        last,
        resolution,
        old(tree)@.dom().len(),
    );
    let ghost rest = chain_rest(old(tree)@, last, resolution, old(tree)@.dom().len());
    loop
        invariant
            pool_ok(tree),
            tree.bounds() == old(tree).bounds(),
            tree.bounds().spec_contains(last),
            points@ + chain_tail(tree@, last, resolution, tree@.dom().len()) == full,
            chain_rest(tree@, last, resolution, tree@.dom().len()) == rest,
            tree@.dom().len() + points@.len() == old(tree)@.dom().len() + old(points)@.len(),
        ensures
            pool_ok(tree),
            tree.bounds() == old(tree).bounds(),
            points@ == full,
            tree@ == rest,
            tree@.dom().len() + points@.len() == old(tree)@.dom().len() + old(points)@.len(),
        decreases tree@.dom().len(),
    {
        let ghost pool = tree@;
        let ghost before = points@;
        proof {
            tree.lemma_wf_facts();
        }
        match pick_closest(tree, last, resolution) {
            Some((line, id)) => {
                proof {
                    lemma_closest(pool, last, resolution, id);
                    assert(pool.dom().contains(id));
                    assert(pool.dom().len() > 0) by {
                        if pool.dom().len() == 0 {
                            vstd::set_lib::lemma_set_empty_equivalency_len(pool.dom());
                        }
                    }
                    assert(pool.remove(id).dom() =~= pool.dom().remove(id));
                    vstd::set::axiom_set_remove_len(pool.dom(), id);
                }
                tree.remove(id);
                let far: Point = if line.0.distance_2(&last) < line.1.distance_2(&last) {
                    line.1
                } else {
                    line.0
                };
                last = far;
                points.push(far);
                proof {
                    let tail = chain_tail(tree@, far, resolution, tree@.dom().len());
                    assert(points@ + tail =~= before + (seq![far] + tail));
                    assert forall|j: ItemId| #[trigger] tree@.contains_key(j) implies tree@[j].1
                        == tree@[j].0.spec_bounding_box() && tree.bounds().spec_contains(tree@[j].0.0)
                        && tree.bounds().spec_contains(tree@[j].0.1) by {
                        assert(pool.contains_key(j));
                    }
                }
            },
            None => {
                proof {
                    let c = closest(pool, last, resolution);
                    assert(!candidate(pool, last, resolution, c));
                    assert(points@ + Seq::<Point>::empty() =~= points@);
                }
                break ;
            },
        }
    }
}

/// The box of a list of segments contains the ends of each of them.
pub proof fn lemma_bounds_contain(lines: Seq<Line>, k: int)
    requires
        0 <= k < lines.len(),
    ensures
        spec_bounds(lines).wf(),
        !spec_bounds(lines).null,
        spec_bounds(lines).spec_contains(lines[k].0),
        spec_bounds(lines).spec_contains(lines[k].1),
    decreases lines.len(),
{
    if lines.len() > 1 {
        let head = lines.drop_last();
        if k < lines.len() - 1 {
            lemma_bounds_contain(head, k);
        } else {
            lemma_bounds_contain(head, 0);
        }
    }
}

/// The smallest box that holds all the segments.
fn bounds_of(lines: &Vec<Line>) -> (r: Option<Rect>)
    ensures
        r is None <==> lines@.len() == 0,
        r is Some ==> r->0 == spec_bounds(lines@),
{
    let mut aabb: Option<Rect> = None;
    let mut i: usize = 0;
    while i < lines.len()
        invariant
            i <= lines@.len(),
            aabb is None <==> i == 0,
            aabb is Some ==> aabb->0 == spec_bounds(lines@.take(i as int)),
        decreases lines@.len() - i,
    {
        let b = lines[i].bounding_box();
        proof {
            let next = lines@.take(i + 1);
            assert(next.drop_last() =~= lines@.take(i as int));
            assert(next.last() == lines@[i as int]);
            assert(next[0] == lines@[0]);
        }
        aabb = match aabb {
            Some(a) => Some(a.union_with(&b)),
            None => Some(b),
        };
        i += 1;
    }
    proof {
        assert(lines@.take(i as int) =~= lines@);
    }
    aabb
}

/// Chains the segments: each chain starts with some segment that is left,
/// from its first to its second end, and goes on with the closest segment
/// whose box lies within half the resolution of its last point, taking the
/// far end of that segment as its next point, for as long as there is one.
/// Which segments the chains start with is not determined. The second
/// result is the tree of all the segments as it was before the chains were
/// built.
pub fn join_lines(lines: Vec<Line>, resolution: i32) -> (r: (Vec<LineType>, QuadTree<Line>))
    requires
        lines@.len() < u32::MAX,
    ensures
        r.1.wf(),
        r.1@ == line_pool(lines@),
        r.1.bounds() == spec_bounds(lines@),
        exists|seeds: Seq<ItemId>|
            {
                &&& seeds_ok(line_pool(lines@), seeds, resolution)
                &&& chains(r.0@) == #[trigger] joined(line_pool(lines@), seeds, resolution)
                &&& after(line_pool(lines@), seeds, resolution).dom() =~= Set::<ItemId>::empty()
            },
        forall|k: int|
            0 <= k < r.0@.len() ==> (#[trigger] r.0@[k]) is Unjoined && r.0@[k]@.points().len() >= 2,
        total_points(chains(r.0@)) == lines@.len() + r.0@.len(),
{
    let ghost pool0 = line_pool(lines@);
    let aabb = match bounds_of(&lines) {
        Some(aabb) => aabb,
        None => {
            let tree: QuadTree<Line> = QuadTree::new(Rect::null(), true, 4, 16, 4);
            let out: Vec<LineType> = Vec::new();
            proof {
                assert(tree@ =~= pool0);
                let seeds = Seq::<ItemId>::empty();
                assert(chains(out@) =~= joined(pool0, seeds, resolution));
                assert(after(pool0, seeds, resolution).dom() =~= Set::<ItemId>::empty());
            }
            return (out, tree);
        },
    };
    proof {
        lemma_bounds_contain(lines@, 0);
    }
    let mut tree: QuadTree<Line> = QuadTree::new(aabb, true, 4, 16, 4);
    let mut i: usize = 0;
    proof {
        assert(tree@ =~= line_pool(lines@.take(0)));
    }
    while i < lines.len()
        invariant
            i <= lines@.len(),
            lines@.len() < u32::MAX,
            aabb == spec_bounds(lines@),
            tree.wf(),
            tree.allows_duplicates(),
            tree.holds_every_item(),
            tree.bounds() == aabb,
            tree.next_id() == i,
            tree@ == line_pool(lines@.take(i as int)),
        decreases lines@.len() - i,
    {
        let line: Line = lines[i];
        proof {
            lemma_bounds_contain(lines@, i as int);
        }
        tree.insert(line);
        proof {
            assert(tree@ =~= line_pool(lines@.take(i + 1))) by {
                let next = line_pool(lines@.take(i + 1));
                let prev = line_pool(lines@.take(i as int));
                assert forall|id: ItemId| tree@.contains_key(id) <==> next.contains_key(id) by {
                    if id.0 == i {
                        assert(id == ItemId(i as u32));
                    }
                }
                assert forall|id: ItemId| tree@.contains_key(id) implies tree@[id] == next[id] by {
                    if id.0 == i {
                        assert(id == ItemId(i as u32));
                    } else {
                        assert(prev.contains_key(id));
                    }
                }
            }
        }
        i += 1;
    }
    proof {
        assert(lines@.take(i as int) =~= lines@);
    }
    let tree_dup = tree.clone();
    proof {
        assert forall|id: ItemId| #[trigger] tree@.contains_key(id) implies tree@[id].1
            == tree@[id].0.spec_bounding_box() && tree.bounds().spec_contains(tree@[id].0.0)
            && tree.bounds().spec_contains(tree@[id].0.1) by {
            lemma_bounds_contain(lines@, id.0 as int);
        }
    }

    let mut out: Vec<LineType> = Vec::new();
    let ghost mut seeds = Seq::<ItemId>::empty();
    let ghost n = lines@.len();
    proof {
        assert(chains(out@) =~= joined(pool0, seeds, resolution));
        tree.lemma_wf_facts();
        lemma_pool_size(lines@);
    }
    loop
        invariant
            pool_ok(&tree),
            tree.bounds() == aabb,
            seeds_ok(pool0, seeds, resolution),
            tree@ == after(pool0, seeds, resolution),
            chains(out@) == joined(pool0, seeds, resolution),
            forall|k: int|
                0 <= k < out@.len() ==> (#[trigger] out@[k]) is Unjoined && out@[k]@.points().len()
                    >= 2,
            total_points(chains(out@)) + tree@.dom().len() == n + out@.len(),
        ensures
            tree@.dom() =~= Set::<ItemId>::empty(),
            tree@.dom().len() == 0,
        decreases tree@.dom().len(),
    {
        if tree.is_empty() {
            break ;
        }
        let ghost pool = tree@;
        let ghost done = chains(out@);
        proof {
            tree.lemma_wf_facts();
        }
        let first_id = match tree.first() {
            Some(id) => id,
            None => {
                proof {
                    assert(false);
                }
                break ;
            },
        };
        let segment: Line = match tree.remove(first_id) {
            Some((segment, _)) => segment,
            None => {
                proof {
                    assert(false);
                }
                break ;
            },
        };
        proof {
            assert(pool.remove(first_id).dom() =~= pool.dom().remove(first_id));
            vstd::set::axiom_set_remove_len(pool.dom(), first_id);
            assert forall|j: ItemId| #[trigger] tree@.contains_key(j) implies tree@[j].1
                == tree@[j].0.spec_bounding_box() && tree.bounds().spec_contains(tree@[j].0.0)
                && tree.bounds().spec_contains(tree@[j].0.1) by {
                assert(pool.contains_key(j));
            }
            assert(pool.contains_key(first_id));
        }
        let mut points: Vec<Point> = Vec::new();
        points.push(segment.0);
        points.push(segment.1);
        proof {
            assert(points@ =~= seq![segment.0, segment.1]);
        }
        follow(&mut tree, &mut points, segment.1, resolution);
        out.push(LineType::Unjoined(points));
        proof {
            let grown = seeds.push(first_id);
            assert(grown.drop_last() =~= seeds);
            assert(grown.last() == first_id);
            assert(chains(out@) =~= done.push(Chain::Unjoined(points@)));
            assert(chains(out@).drop_last() =~= done);
            seeds = grown;
        }
    }
    (out, tree_dup)
}

/// The pool of a list has as many segments as the list.
pub proof fn lemma_pool_size(lines: Seq<Line>)
    requires
        lines.len() <= u32::MAX,
    ensures
        line_pool(lines).dom().finite(),
        line_pool(lines).dom().len() == lines.len(),
    decreases lines.len(),
{
    let dom = line_pool(lines).dom();
    if lines.len() == 0 {
        assert(dom =~= Set::<ItemId>::empty());
    } else {
        let head = lines.drop_last();
        lemma_pool_size(head);
        let top = ItemId((lines.len() - 1) as u32);
        assert(dom =~= line_pool(head).dom().insert(top)) by {
            assert forall|id: ItemId| dom.contains(id) <==> line_pool(head).dom().insert(
                top,
            ).contains(id) by {
                if id.0 == lines.len() - 1 {
                    assert(id == top);
                }
            }
        }
    }
}

/// The polylines with more than one point, in their order.
pub open spec fn keep_long(v: Seq<Chain>) -> Seq<Chain>
    decreases v.len(),
{
    if v.len() == 0 {
        seq![]
    } else if v.last().points().len() > 1 {
        keep_long(v.drop_last()).push(v.last())
    } else {
        keep_long(v.drop_last())
    }
}

/// One round of fusing and merging.
pub open spec fn round(v: Seq<Chain>) -> Seq<Chain> {
    spec_connect(spec_fuse(v))
}

/// Whether a round changes anything that counts as progress: some
/// polyline is fused, or two chains are merged.
pub open spec fn round_moves(v: Seq<Chain>) -> bool {
    spec_fuse_progress(v) || has_pair(spec_fuse(v))
}

/// The list after rounds of fusing and merging, up to the first round that
/// makes no progress. `budget` bounds the number of rounds; the number of
/// points is enough.
pub open spec fn settle(v: Seq<Chain>, budget: nat) -> Seq<Chain>
    decreases budget,
{
    if budget == 0 || !round_moves(v) {
        round(v)
    } else {
        settle(round(v), (budget - 1) as nat)
    }
}

/// What merging to the end does to the numbers of chains and points:
/// every merge makes one chain of two and one point of two.
pub proof fn lemma_connect_total(v: Seq<Chain>)
    ensures
        spec_connect(v).len() <= v.len(),
        total_points(spec_connect(v)) + (v.len() - spec_connect(v).len()) == total_points(v),
        has_pair(v) ==> spec_connect(v).len() < v.len(),
        !has_pair(v) ==> spec_connect(v) == v,
    decreases v.len(),
{
    let p = first_pair(v);
    if mergeable(v, p.0, p.1) {
        lemma_merge_total(v, p.0, p.1);
        lemma_connect_total(merge_step(v, p.0, p.1));
    } else if has_pair(v) {
        let (i, k) = choose|i: int, k: int| mergeable(v, i, k);
        lemma_some_first_pair(v, i, k);
    }
}

/// Where two chains meet, there is a first pair of meeting chains.
pub proof fn lemma_some_first_pair(v: Seq<Chain>, i: int, k: int)
    requires
        mergeable(v, i, k),
    ensures
        mergeable(v, first_pair(v).0, first_pair(v).1),
    decreases i, k,
{
    if exists|i2: int, k2: int| mergeable(v, i2, k2) && (i2 < i || (i2 == i && k2 < k)) {
        let (i2, k2) = choose|i2: int, k2: int|
            mergeable(v, i2, k2) && (i2 < i || (i2 == i && k2 < k));
        lemma_some_first_pair(v, i2, k2);
    } else {
        assert(is_first_pair(v, i, k));
        lemma_first_pair(v, i, k);
    }
}

/// A round that makes progress takes at least one point away.
pub proof fn lemma_round_total(v: Seq<Chain>)
    ensures
        total_points(round(v)) <= total_points(v),
        round_moves(v) ==> total_points(round(v)) < total_points(v),
{
    lemma_fuse_total(v);
    lemma_connect_total(spec_fuse(v));
}

/// Joins the segments into polylines: chains them, then fuses the ends of
/// chains and merges chains that meet until a round makes no progress, and
/// leaves out what has at most one point. The second result is the tree of
/// all the segments.
pub fn connect_lines(lines: Vec<Line>, resolution: i32) -> (r: (Vec<LineType>, QuadTree<Line>))
    requires
        lines@.len() < u32::MAX,
    ensures
        r.1.wf(),
        r.1@ == line_pool(lines@),
        r.1.bounds() == spec_bounds(lines@),
        exists|seeds: Seq<ItemId>|
            {
                let start = #[trigger] joined(line_pool(lines@), seeds, resolution);
                &&& seeds_ok(line_pool(lines@), seeds, resolution)
                &&& after(line_pool(lines@), seeds, resolution).dom() =~= Set::<ItemId>::empty()
                &&& chains(r.0@) == keep_long(settle(start, total_points(start)))
            },
        forall|k: int| 0 <= k < r.0@.len() ==> (#[trigger] r.0@[k])@.points().len() > 1,
        total_points(chains(r.0@)) <= 2 * lines@.len(),
{
    let (joined_lines, qt) = join_lines(lines, resolution);
    let ghost start = chains(joined_lines@);
    let mut joined_lines = joined_lines;
    proof {
        assert forall|k: int| 0 <= k < start.len() implies (#[trigger] start[k]).points().len()
            >= 2 by {
            assert(joined_lines@[k]@.points().len() >= 2);
        }
        lemma_min_total(start);
    }
    loop
        invariant_except_break
            settle(chains(joined_lines@), total_points(chains(joined_lines@))) == settle(
                start,
                total_points(start),
            ),
        invariant
            total_points(chains(joined_lines@)) <= total_points(start),
        ensures
            chains(joined_lines@) == settle(start, total_points(start)),
            total_points(chains(joined_lines@)) <= total_points(start),
        decreases total_points(chains(joined_lines@)),
    {
        let ghost cur = chains(joined_lines@);
        let mut any_progress = false;
        let (joined_t, p) = fuse_ends(joined_lines);
        joined_lines = joined_t;
        any_progress = any_progress || p;

        let ghost fused_len = joined_lines@.len();
        let (connected_t, p) = connect_linetypes(joined_lines);
        joined_lines = connected_t;
        any_progress = any_progress || p;

        proof {
            lemma_round_total(cur);
            lemma_connect_total(spec_fuse(cur));
            assert(any_progress == round_moves(cur));
            if any_progress {
                lemma_settle_budget(round(cur), (total_points(cur) - 1) as nat);
            }
        }
        if !any_progress {
            break ;
        }
    }
    let ghost settled = chains(joined_lines@);
    let mut out: Vec<LineType> = Vec::new();
    let mut i: usize = 0;
    proof {
        assert(settled.take(0) =~= Seq::<Chain>::empty());
        assert(chains(out@) =~= keep_long(settled.take(0)));
    }
    while i < joined_lines.len()
        invariant
            i <= joined_lines@.len(),
            settled == chains(joined_lines@),
            chains(out@) == keep_long(settled.take(i as int)),
            forall|k: int| 0 <= k < out@.len() ==> (#[trigger] out@[k])@.points().len() > 1,
            total_points(chains(out@)) <= total_points(settled.take(i as int)),
        decreases joined_lines@.len() - i,
    {
        let ghost before = chains(out@);
        proof {
            let next = settled.take(i + 1);
            assert(next.drop_last() =~= settled.take(i as int));
            assert(next.last() == joined_lines@[i as int]@);
        }
        let keep = points_of(&joined_lines[i]).len() > 1;
        if keep {
            match &joined_lines[i] {
                LineType::Joined(p) => {
                    out.push(LineType::Joined(copy_points(p)));
                    proof {
                        assert(chains(out@) =~= before.push(joined_lines@[i as int]@));
                    }
                },
                LineType::Unjoined(p) => {
                    out.push(LineType::Unjoined(copy_points(p)));
                    proof {
                        assert(chains(out@) =~= before.push(joined_lines@[i as int]@));
                    }
                },
            }
            proof {
                assert(chains(out@).drop_last() =~= before);
            }
        }
        i += 1;
    }
    proof {
        assert(settled.take(i as int) =~= settled);
    }
    (out, qt)
}

/// No polyline has more points than all polylines together.
pub proof fn lemma_each_le_total(v: Seq<Chain>, k: int)
    requires
        0 <= k < v.len(),
    ensures
        v[k].points().len() <= total_points(v),
    decreases v.len(),
{
    if k < v.len() - 1 {
        lemma_each_le_total(v.drop_last(), k);
    }
}

/// Polylines of at least two points each have at least twice as many
/// points as there are polylines.
pub proof fn lemma_min_total(v: Seq<Chain>)
    requires
        forall|k: int| 0 <= k < v.len() ==> (#[trigger] v[k]).points().len() >= 2,
    ensures
        total_points(v) >= 2 * v.len(),
    decreases v.len(),
{
    if v.len() > 0 {
        let head = v.drop_last();
        assert forall|k: int| 0 <= k < head.len() implies (#[trigger] head[k]).points().len()
            >= 2 by {
            assert(head[k] == v[k]);
        }
        lemma_min_total(head);
        assert(v[v.len() - 1].points().len() >= 2);
    }
}

/// Any budget that is at least the number of points gives the same
/// settled list.
pub proof fn lemma_settle_budget(v: Seq<Chain>, budget: nat)
    requires
        budget >= total_points(v),
    ensures
        settle(v, budget) == settle(v, total_points(v)),
    decreases budget,
{
    lemma_round_total(v);
    if round_moves(v) {
        let t = total_points(v);
        assert(t > 0);
        lemma_settle_budget(round(v), (budget - 1) as nat);
        lemma_settle_budget(round(v), (t - 1) as nat);
    }
}

} // verus!
