use vstd::prelude::*;
use crate::arith::{clamp64, isqrt, sat_neg, sat_sub, spec_isqrt};
use crate::geom::{Line, Point, Ray, Rect, Vector};
use crate::Implicit;

verus! {

/// The farthest from the origin, on either axis, that a corner of a
/// polygon may lie.
pub const COORD_LIMIT: i32 = 0x4000_0000;

/// Whether the point lies no farther from the origin, on either axis, than a
/// corner of a polygon may.
pub open spec fn in_range(p: Point) -> bool {
    -COORD_LIMIT <= p.x <= COORD_LIMIT && -COORD_LIMIT <= p.y <= COORD_LIMIT
}

/// `v` brought into the range of a coordinate.
pub open spec fn clamp32(v: int) -> i32 {
    if v < i32::MIN {
        i32::MIN
    } else if v > i32::MAX {
        i32::MAX
    } else {
        v as i32
    }
}

fn clamp_coord(v: i64) -> (r: i32)
    ensures
        r == clamp32(v as int),
{
    if v < i32::MIN as i64 {
        i32::MIN
    } else if v > i32::MAX as i64 {
        i32::MAX
    } else {
        v as i32
    }
}

/// A disc.
#[derive(Copy, Clone, Debug)]
pub struct Circle {
    pub center: Point,
    pub radius: i32,
}

impl Implicit for Circle {
    /// The distance to the center, rounded down, less the radius.
    open spec fn value(&self, pos: Point) -> i64 {
        (spec_isqrt(pos.dist2(self.center) as nat) - self.radius) as i64
    }

    /// The square around the disc, as far as the grid goes.
    open spec fn bounds(&self) -> Option<Rect> {
        Some(
            Rect {
                top_left: Point {
                    x: clamp32(self.center.x - self.radius),
                    y: clamp32(self.center.y - self.radius),
                },
                bottom_right: Point {
                    x: clamp32(self.center.x + self.radius),
                    y: clamp32(self.center.y + self.radius),
                },
                null: false,
            },
        )
    }

    open spec fn regular(&self) -> bool {
        true
    }

    fn sample(&self, pos: Point) -> (r: i64) {
        let dist: i64 = pos.distance(&self.center);
        proof {
            crate::arith::lemma_isqrt_bounds(pos.dist2(self.center) as nat);
            crate::arith::lemma_square_bound(pos.x - self.center.x, 0x1_0000_0000);
            crate::arith::lemma_square_bound(pos.y - self.center.y, 0x1_0000_0000);
            if dist >= 0x2_0000_0000 {
                crate::arith::lemma_square_monotonic(0x2_0000_0000, dist as int);
            }
        }
        dist - self.radius as i64
    }

    fn bounding_box(&self) -> (r: Option<Rect>) {
        let cx: i64 = self.center.x as i64;
        let cy: i64 = self.center.y as i64;
        let r: i64 = self.radius as i64;
        Some(
            Rect {
                top_left: Point { x: clamp_coord(cx - r), y: clamp_coord(cy - r) },
                bottom_right: Point { x: clamp_coord(cx + r), y: clamp_coord(cy + r) },
                null: false,
            },
        )
    }

    fn follows_rules(&self) -> (r: bool) {
        true
    }
}

/// The edges of the loop through the points: from each point to the
/// next, and, where there are more than two points, from the first point to
/// the last.
pub open spec fn spec_lines(points: Seq<Point>) -> Seq<Line> {
    let open_part = Seq::new(
        (if points.len() == 0 {
            0
        } else {
            points.len() - 1
        }) as nat,
        |i: int| Line(points[i], points[i + 1]),
    );
    if points.len() > 2 {
        open_part.push(Line(points.first(), points.last()))
    } else {
        open_part
    }
}

/// The smallest squared distance from `pos` to one of the first `k`
/// segments.
pub open spec fn min_dist2(lines: Seq<Line>, pos: Point, k: int) -> int
    decreases k,
{
    if k <= 1 {
        lines[0].spec_dist_to_point_2(pos)
    } else {
        let rest = min_dist2(lines, pos, k - 1);
        let d = lines[k - 1].spec_dist_to_point_2(pos);
        if d < rest {
            d
        } else {
            rest
        }
    }
}

/// Whether the ray meets an odd number of the first `k` segments.
pub open spec fn odd_hits(lines: Seq<Line>, ray: Ray, k: int) -> bool
    decreases k,
{
    if k <= 0 {
        false
    } else {
        odd_hits(lines, ray, k - 1) != ray.spec_does_intersect_with_line(lines[k - 1])
    }
}

/// Whether `pos` lies outside the loop of the segments: a ray from it to
/// the right and a ray from it down and to the right meet the loop an even
/// number of times each; where the two disagree, a ray straight down
/// decides.
pub open spec fn outside(lines: Seq<Line>, pos: Point) -> bool {
    let n = lines.len() as int;
    let odd_1 = odd_hits(lines, Ray(pos, Vector { x: 1, y: 0 }), n);
    let odd_2 = odd_hits(lines, Ray(pos, Vector { x: 1, y: 1 }), n);
    if odd_1 == odd_2 {
        !odd_1
    } else {
        !odd_hits(lines, Ray(pos, Vector { x: 0, y: 1 }), n)
    }
}

/// The signed distance from `pos` to a loop of segments: the distance to
/// the nearest segment, rounded down, taken negative inside the loop. A
/// loop without segments is as far away as can be.
pub open spec fn loop_value(lines: Seq<Line>, pos: Point) -> i64 {
    if lines.len() == 0 {
        i64::MAX
    } else {
        let d = spec_isqrt(min_dist2(lines, pos, lines.len() as int) as nat) as int;
        if outside(lines, pos) {
            d as i64
        } else {
            (-d) as i64
        }
    }
}

/// A closed polygon, given by its corners.
#[derive(Debug)]
pub struct Polygon {
    points: Vec<Point>,
    lines: Vec<Line>,
}

impl View for Polygon {
    type V = Seq<Point>;

    /// The corners.
    closed spec fn view(&self) -> Seq<Point> {
        self.points@
    }
}

fn hits_odd(lines: &Vec<Line>, ray: Ray) -> (r: bool)
    ensures
        r == odd_hits(lines@, ray, lines@.len() as int),
{
    let mut odd = false;
    let mut i: usize = 0;
    while i < lines.len()
        invariant
            i <= lines@.len(),
            odd == odd_hits(lines@, ray, i as int),
        decreases lines@.len() - i,
    {
        if ray.does_intersect_with_line(&lines[i]) {
            odd = !odd;
        }
        i += 1;
    }
    odd
}

impl Polygon {
    #[verifier::type_invariant]
    closed spec fn inv(self) -> bool {
        &&& self.lines@ == spec_lines(self.points@)
        &&& forall|k: int| 0 <= k < self.points@.len() ==> in_range(#[trigger] self.points@[k])
    }

    /// The edges of the polygon.
    pub closed spec fn spec_edges(&self) -> Seq<Line> {
        self.lines@
    }

    /// The polygon with the given corners, in their order; its last edge
    /// leads from the last corner back to the first.
    pub fn new(points: Vec<Point>) -> (r: Polygon)
        requires
            forall|k: int| 0 <= k < points@.len() ==> in_range(#[trigger] points@[k]),
        ensures
            r@ == points@,
            r.spec_edges() == spec_lines(points@),
    {
        let lines = Polygon::compute_lines(&points);
        Polygon { points, lines }
    }

    fn compute_lines(from: &Vec<Point>) -> (out: Vec<Line>)
        ensures
            out@ == spec_lines(from@),
    {
        let mut out: Vec<Line> = Vec::new();
        if from.len() == 0 {
            proof {
                assert(out@ =~= spec_lines(from@));
            }
            return out;
        }
        let mut i: usize = 0;
        while i + 1 < from.len()
            invariant
                i < from.len(),
                out@.len() == i,
                forall|k: int| 0 <= k < i ==> #[trigger] out@[k] == Line(from@[k], from@[k + 1]),
            decreases from.len() - i,
        {
            out.push(Line(from[i], from[i + 1]));
            i += 1;
        }
        if from.len() > 2 {
            out.push(Line(from[0], from[from.len() - 1]));
        }
        proof {
            assert(out@ =~= spec_lines(from@));
        }
        out
    }

    /// The edges of the polygon, each from one corner to the next.
    pub fn lines(&self) -> (r: &Vec<Line>)
        ensures
            r@ == self.spec_edges(),
            r@ == spec_lines(self@),
    {
        proof {
            use_type_invariant(self);
        }
        &self.lines
    }

    /// The corners of the polygon.
    pub fn points(&self) -> (r: &Vec<Point>)
        ensures
            r@ == self@,
    {
        &self.points
    }

    /// The horizontal places of the first ends of the edges.
    pub fn left_xs(&self) -> (r: Vec<i32>)
        ensures
            r@ == Seq::new(self.spec_edges().len(), |k: int| self.spec_edges()[k].0.x),
    {
        let mut out: Vec<i32> = Vec::with_capacity(self.lines.len());
        let mut i: usize = 0;
        while i < self.lines.len()
            invariant
                i <= self.lines@.len(),
                out@ == Seq::new(i as nat, |k: int| self.lines@[k].0.x),
            decreases self.lines@.len() - i,
        {
            out.push(self.lines[i].0.x);
            proof {
                assert(out@ =~= Seq::new((i + 1) as nat, |k: int| self.lines@[k].0.x));
            }
            i += 1;
        }
        out
    }

    /// The vertical places of the first ends of the edges.
    pub fn left_ys(&self) -> (r: Vec<i32>)
        ensures
            r@ == Seq::new(self.spec_edges().len(), |k: int| self.spec_edges()[k].0.y),
    {
        let mut out: Vec<i32> = Vec::with_capacity(self.lines.len());
        let mut i: usize = 0;
        while i < self.lines.len()
            invariant
                i <= self.lines@.len(),
                out@ == Seq::new(i as nat, |k: int| self.lines@[k].0.y),
            decreases self.lines@.len() - i,
        {
            out.push(self.lines[i].0.y);
            proof {
                assert(out@ =~= Seq::new((i + 1) as nat, |k: int| self.lines@[k].0.y));
            }
            i += 1;
        }
        out
    }

    /// The horizontal places of the second ends of the edges.
    pub fn right_xs(&self) -> (r: Vec<i32>)
        ensures
            r@ == Seq::new(self.spec_edges().len(), |k: int| self.spec_edges()[k].1.x),
    {
        let mut out: Vec<i32> = Vec::with_capacity(self.lines.len());
        let mut i: usize = 0;
        while i < self.lines.len()
            invariant
                i <= self.lines@.len(),
                out@ == Seq::new(i as nat, |k: int| self.lines@[k].1.x),
            decreases self.lines@.len() - i,
        {
            out.push(self.lines[i].1.x);
            proof {
                assert(out@ =~= Seq::new((i + 1) as nat, |k: int| self.lines@[k].1.x));
            }
            i += 1;
        }
        out
    }

    /// The vertical places of the second ends of the edges.
    pub fn right_ys(&self) -> (r: Vec<i32>)
        ensures
            r@ == Seq::new(self.spec_edges().len(), |k: int| self.spec_edges()[k].1.y),
    {
        let mut out: Vec<i32> = Vec::with_capacity(self.lines.len());
        let mut i: usize = 0;
        while i < self.lines.len()
            invariant
                i <= self.lines@.len(),
                out@ == Seq::new(i as nat, |k: int| self.lines@[k].1.y),
            decreases self.lines@.len() - i,
        {
            out.push(self.lines[i].1.y);
            proof {
                assert(out@ =~= Seq::new((i + 1) as nat, |k: int| self.lines@[k].1.y));
            }
            i += 1;
        }
        out
    }
}

impl Clone for Polygon {
    fn clone(&self) -> (r: Polygon)
        ensures
            r@ == self@,
            r.spec_edges() == self.spec_edges(),
    {
        proof {
            use_type_invariant(self);
        }
        let points = crate::line_join::copy_points(&self.points);
        let lines = Polygon::compute_lines(&points);
        Polygon { points, lines }
    }
}

impl Implicit for Polygon {
    open spec fn value(&self, pos: Point) -> i64 {
        loop_value(spec_lines(self@), pos)
    }

    /// The smallest box that holds all the corners; null for a polygon
    /// without edges.
    open spec fn bounds(&self) -> Option<Rect> {
        Some(corner_box(self@, self@.len() as int))
    }

    open spec fn regular(&self) -> bool {
        true
    }

    fn sample(&self, pos: Point) -> (r: i64) {
        proof {
            use_type_invariant(self);
        }
        let lines = &self.lines;
        if lines.len() == 0 {
            return i64::MAX;
        }
        proof {
            lemma_lines_in_range(self.points@, 0);
            lines@[0].lemma_aside_fits(pos);
        }
        let mut min: i128 = lines[0].dist_to_point_2(pos);
        let mut i: usize = 1;
        while i < lines.len()
            invariant
                1 <= i <= lines@.len(),
                lines@ == spec_lines(self.points@),
                forall|k: int| 0 <= k < self.points@.len() ==> in_range(#[trigger] self.points@[k]),
                min == min_dist2(lines@, pos, i as int),
                0 <= min <= 0x2_0000_0000_0000_0000,
            decreases lines@.len() - i,
        {
            proof {
                lemma_lines_in_range(self.points@, i as int);
                lines@[i as int].lemma_aside_fits(pos);
            }
            let d: i128 = lines[i].dist_to_point_2(pos);
            if d < min {
                min = d;
            }
            i += 1;
        }
        let odd_1 = hits_odd(lines, Ray(pos, Vector { x: 1, y: 0 }));
        let odd_2 = hits_odd(lines, Ray(pos, Vector { x: 1, y: 1 }));
        let is_outside = if odd_1 == odd_2 {
            !odd_1
        } else {
            !hits_odd(lines, Ray(pos, Vector { x: 0, y: 1 }))
        };
        let root: u64 = isqrt(min as u128);
        proof {
            if root >= 0x2_0000_0000 {
                crate::arith::lemma_square_monotonic(0x2_0000_0000, root as int);
            }
        }
        if is_outside {
            root as i64
        } else {
            -(root as i64)
        }
    }

    fn bounding_box(&self) -> (r: Option<Rect>) {
        let mut bb = Rect::null();
        let mut i: usize = 0;
        while i < self.points.len()
            invariant
                i <= self.points@.len(),
                bb == corner_box(self.points@, i as int),
            decreases self.points@.len() - i,
        {
            bb.expand_to_include(&self.points[i]);
            i += 1;
        }
        Some(bb)
    }

    fn follows_rules(&self) -> (r: bool) {
        true
    }
}

/// The smallest box that holds the first `k` points; null for none.
pub open spec fn corner_box(points: Seq<Point>, k: int) -> Rect
    decreases k,
{
    if k <= 0 {
        Rect::spec_null()
    } else {
        corner_box(points, k - 1).spec_expanded_by(points[k - 1])
    }
}

/// The edges of a polygon whose corners are in range have ends in range.
pub proof fn lemma_lines_in_range(points: Seq<Point>, k: int)
    requires
        forall|j: int| 0 <= j < points.len() ==> in_range(#[trigger] points[j]),
        0 <= k < spec_lines(points).len(),
    ensures
        in_range(spec_lines(points)[k].0),
        in_range(spec_lines(points)[k].1),
{
    if k < points.len() - 1 {
        assert(in_range(points[k]));
        assert(in_range(points[k + 1]));
    } else {
        assert(in_range(points[0]));
        assert(in_range(points[points.len() - 1]));
    }
}

/// A rectangle with its sides along the axes.
#[derive(Debug)]
pub struct Rectangle {
    rect: Rect,
    poly: Polygon,
}

/// The corners of the box: top-left, top-right, bottom-right,
/// bottom-left.
pub open spec fn rect_corners(rect: Rect) -> Seq<Point> {
    seq![
        rect.top_left,
        Point { x: rect.bottom_right.x, y: rect.top_left.y },
        rect.bottom_right,
        Point { x: rect.top_left.x, y: rect.bottom_right.y },
    ]
}

impl Rectangle {
    #[verifier::type_invariant]
    closed spec fn inv(self) -> bool {
        self.poly@ == rect_corners(self.rect)
    }

    /// The box that the shape fills.
    pub closed spec fn spec_rect(&self) -> Rect {
        self.rect
    }

    /// The shape that fills the given box.
    pub fn new(rect: Rect) -> (r: Rectangle)
        requires
            in_range(rect.top_left),
            in_range(rect.bottom_right),
        ensures
            r.spec_rect() == rect,
    {
        Rectangle { rect, poly: Rectangle::recompute_poly(rect) }
    }

    /// The box that the shape fills.
    pub fn rect(&self) -> (r: Rect)
        ensures
            r == self.spec_rect(),
    {
        self.rect
    }

    /// The polygon with the corners of the box.
    fn recompute_poly(rect: Rect) -> (r: Polygon)
        requires
            in_range(rect.top_left),
            in_range(rect.bottom_right),
        ensures
            r@ == rect_corners(rect),
    {
        let mut v: Vec<Point> = Vec::new();
        v.push(rect.top_left());
        v.push(rect.top_right());
        v.push(rect.bottom_right());
        v.push(rect.bottom_left());
        proof {
            assert(v@ =~= rect_corners(rect));
        }
        Polygon::new(v)
    }

    /// Hands the box to `f`, which makes another box of it, and becomes the
    /// shape that fills that box. What `f` returns beside the box is handed
    /// on.
    pub fn with_underlying<R, F: FnOnce(Rect) -> (Rect, R)>(&mut self, f: F) -> (r: R)
        requires
            f.requires((old(self).spec_rect(),)),
            forall|out: (Rect, R)|
                f.ensures((old(self).spec_rect(),), out) ==> in_range(out.0.top_left) && in_range(
                    out.0.bottom_right,
                ),
        ensures
            f.ensures((old(self).spec_rect(),), (final(self).spec_rect(), r)),
    {
        let (rect, r) = f(self.rect);
        *self = Rectangle { rect, poly: Rectangle::recompute_poly(rect) };
        r
    }
}

impl Clone for Rectangle {
    fn clone(&self) -> (r: Rectangle)
        ensures
            r.spec_rect() == self.spec_rect(),
    {
        proof {
            use_type_invariant(self);
        }
        Rectangle { rect: self.rect, poly: self.poly.clone() }
    }
}

impl Implicit for Rectangle {
    open spec fn value(&self, pos: Point) -> i64 {
        loop_value(spec_lines(rect_corners(self.spec_rect())), pos)
    }

    open spec fn bounds(&self) -> Option<Rect> {
        Some(corner_box(rect_corners(self.spec_rect()), 4))
    }

    open spec fn regular(&self) -> bool {
        true
    }

    fn sample(&self, pos: Point) -> (r: i64) {
        proof {
            use_type_invariant(self);
        }
        self.poly.sample(pos)
    }

    fn bounding_box(&self) -> (r: Option<Rect>) {
        proof {
            use_type_invariant(self);
        }
        self.poly.bounding_box()
    }

    fn follows_rules(&self) -> (r: bool) {
        true
    }
}

/// What lies in both shapes.
#[derive(Copy, Clone)]
pub struct And<A: Implicit, B: Implicit> {
    pub left: A,
    pub right: B,
}

/// What lies in one shape or the other.
#[derive(Copy, Clone)]
pub struct Or<A: Implicit, B: Implicit> {
    pub left: A,
    pub right: B,
}

/// What lies in exactly one of two shapes.
#[derive(Copy, Clone)]
pub struct Xor<A: Implicit, B: Implicit> {
    pub left: A,
    pub right: B,
}

/// A shape whose outline is moved outward by `move_by` ticks.
#[derive(Copy, Clone)]
pub struct Boundary<A: Implicit> {
    pub target: A,
    pub move_by: i32,
}

/// What lies outside a shape.
#[derive(Copy, Clone)]
pub struct Not<A: Implicit> {
    pub target: A,
}

/// A shape together with its box, which is asked for only once.
#[derive(Copy, Clone)]
pub struct BoxCache<A: Implicit> {
    target: A,
    cache: Option<Rect>,
}

/// What lies in one of the shapes at least.
#[derive(Clone)]
pub struct OrThese<A: Implicit> {
    pub targets: Vec<A>,
}

/// What lies in all of the shapes.
#[derive(Clone)]
pub struct AndThese<A: Implicit> {
    pub targets: Vec<A>,
}

impl<A: Implicit, B: Implicit> Implicit for And<A, B> {
    open spec fn value(&self, pos: Point) -> i64 {
        if self.left.value(pos) >= self.right.value(pos) {
            self.left.value(pos)
        } else {
            self.right.value(pos)
        }
    }

    open spec fn bounds(&self) -> Option<Rect> {
        match (self.left.bounds(), self.right.bounds()) {
            (Some(l), Some(r)) => Some(l.spec_intersect(r)),
            (Some(l), None) => Some(l),
            (None, Some(r)) => Some(r),
            (None, None) => None,
        }
    }

    open spec fn regular(&self) -> bool {
        self.left.regular() && self.right.regular()
    }

    fn sample(&self, pos: Point) -> (r: i64) {
        let l = self.left.sample(pos);
        let r = self.right.sample(pos);
        if l >= r {
            l
        } else {
            r
        }
    }

    fn bounding_box(&self) -> (r: Option<Rect>) {
        let left_bb = self.left.bounding_box();
        let right_bb = self.right.bounding_box();
        match (left_bb, right_bb) {
            (Some(left_bb), Some(right_bb)) => Some(left_bb.intersect_with(&right_bb)),
            (Some(left_bb), None) => Some(left_bb),
            (None, Some(right_bb)) => Some(right_bb),
            (None, None) => None,
        }
    }

    fn follows_rules(&self) -> (r: bool) {
        self.left.follows_rules() && self.right.follows_rules()
    }
}

impl<A: Implicit, B: Implicit> Implicit for Or<A, B> {
    open spec fn value(&self, pos: Point) -> i64 {
        if self.left.value(pos) < self.right.value(pos) {
            self.left.value(pos)
        } else {
            self.right.value(pos)
        }
    }

    open spec fn bounds(&self) -> Option<Rect> {
        match (self.left.bounds(), self.right.bounds()) {
            (Some(l), Some(r)) => Some(l.spec_union(r)),
            (_, _) => None,
        }
    }

    open spec fn regular(&self) -> bool {
        self.left.regular() && self.right.regular()
    }

    fn sample(&self, pos: Point) -> (r: i64) {
        let left_sample = self.left.sample(pos);
        let right_sample = self.right.sample(pos);
        if left_sample < right_sample {
            left_sample
        } else {
            right_sample
        }
    }

    fn bounding_box(&self) -> (r: Option<Rect>) {
        let left_bb = self.left.bounding_box();
        let right_bb = self.right.bounding_box();
        match (left_bb, right_bb) {
            (Some(left_bb), Some(right_bb)) => Some(left_bb.union_with(&right_bb)),
            (_, _) => None,
        }
    }

    fn follows_rules(&self) -> (r: bool) {
        self.left.follows_rules() && self.right.follows_rules()
    }
}

/// The signed distance to what lies in exactly one of two shapes, from
/// the signed distances `l` and `r` to the two.
pub open spec fn xor_value(l: i64, r: i64) -> i64 {
    if l < 0 && r < 0 {
        // In both: as deep inside as the nearer outline.
        if clamp64(-(l as int)) <= clamp64(-(r as int)) {
            clamp64(-(l as int))
        } else {
            clamp64(-(r as int))
        }
    } else if l > 0 && r > 0 {
        // In neither.
        if l <= r {
            l
        } else {
            r
        }
    } else if l < r {
        // In the left one, not in the right one.
        if clamp64(-(l as int)) > r {
            clamp64(-(r as int))
        } else {
            l
        }
    } else {
        // In the right one, not in the left one.
        if clamp64(-(r as int)) > l {
            clamp64(-(l as int))
        } else {
            r
        }
    }
}

impl<A: Implicit, B: Implicit> Implicit for Xor<A, B> {
    open spec fn value(&self, pos: Point) -> i64 {
        xor_value(self.left.value(pos), self.right.value(pos))
    }

    open spec fn bounds(&self) -> Option<Rect> {
        match (self.left.bounds(), self.right.bounds()) {
            (Some(l), Some(r)) => Some(l.spec_union(r)),
            (_, _) => None,
        }
    }

    open spec fn regular(&self) -> bool {
        self.left.regular() && self.right.regular()
    }

    fn sample(&self, pos: Point) -> (r: i64) {
        let left_sample = self.left.sample(pos);
        let right_sample = self.right.sample(pos);
        if left_sample < 0 && right_sample < 0 {
            let a = sat_neg(left_sample);
            let b = sat_neg(right_sample);
            if a <= b {
                a
            } else {
                b
            }
        } else if left_sample > 0 && right_sample > 0 {
            if left_sample <= right_sample {
                left_sample
            } else {
                right_sample
            }
        } else if left_sample < right_sample {
            if sat_neg(left_sample) > right_sample {
                sat_neg(right_sample)
            } else {
                left_sample
            }
        } else {
            if sat_neg(right_sample) > left_sample {
                sat_neg(left_sample)
            } else {
                right_sample
            }
        }
    }

    fn bounding_box(&self) -> (r: Option<Rect>) {
        let left_bb = self.left.bounding_box();
        let right_bb = self.right.bounding_box();
        match (left_bb, right_bb) {
            (Some(left_bb), Some(right_bb)) => Some(left_bb.union_with(&right_bb)),
            (_, _) => None,
        }
    }

    fn follows_rules(&self) -> (r: bool) {
        self.left.follows_rules() && self.right.follows_rules()
    }
}

/// The box grown by `by` ticks on every side, as far as the grid goes; a
/// null box stays null.
pub open spec fn grown_box(bb: Rect, by: i32) -> Rect {
    Rect {
        top_left: Point { x: clamp32(bb.top_left.x - by), y: clamp32(bb.top_left.y - by) },
        bottom_right: Point {
            x: clamp32(bb.bottom_right.x + by),
            y: clamp32(bb.bottom_right.y + by),
        },
        null: bb.null,
    }
}

fn grow_box(bb: &Rect, by: i32) -> (r: Rect)
    ensures
        r == grown_box(*bb, by),
{
    let b: i64 = by as i64;
    Rect {
        top_left: Point {
            x: clamp_coord(bb.top_left.x as i64 - b),
            y: clamp_coord(bb.top_left.y as i64 - b),
        },
        bottom_right: Point {
            x: clamp_coord(bb.bottom_right.x as i64 + b),
            y: clamp_coord(bb.bottom_right.y as i64 + b),
        },
        null: bb.null,
    }
}

impl<A: Implicit> Implicit for Boundary<A> {
    open spec fn value(&self, pos: Point) -> i64 {
        clamp64(self.target.value(pos) - self.move_by)
    }

    open spec fn bounds(&self) -> Option<Rect> {
        match self.target.bounds() {
            Some(r) => Some(grown_box(r, self.move_by)),
            None => None,
        }
    }

    open spec fn regular(&self) -> bool {
        self.target.regular()
    }

    fn sample(&self, pos: Point) -> (r: i64) {
        sat_sub(self.target.sample(pos), self.move_by as i64)
    }

    fn bounding_box(&self) -> (r: Option<Rect>) {
        match self.target.bounding_box() {
            Some(r) => Some(grow_box(&r, self.move_by)),
            None => None,
        }
    }

    fn follows_rules(&self) -> (r: bool) {
        self.target.follows_rules()
    }
}

impl<A: Implicit> Implicit for Not<A> {
    open spec fn value(&self, pos: Point) -> i64 {
        clamp64(-(self.target.value(pos) as int))
    }

    open spec fn bounds(&self) -> Option<Rect> {
        None
    }

    open spec fn regular(&self) -> bool {
        self.target.regular()
    }

    fn sample(&self, pos: Point) -> (r: i64) {
        sat_neg(self.target.sample(pos))
    }

    fn bounding_box(&self) -> (r: Option<Rect>) {
        None
    }

    fn follows_rules(&self) -> (r: bool) {
        self.target.follows_rules()
    }
}

impl<A: Implicit> BoxCache<A> {
    /// The shape whose box is kept.
    pub closed spec fn spec_target(&self) -> A {
        self.target
    }

    /// The box that was kept when the cache was made.
    pub closed spec fn spec_cache(&self) -> Option<Rect> {
        self.cache
    }

    /// Asks the shape for its box once and keeps the answer.
    pub fn new(target: A) -> (r: BoxCache<A>)
        ensures
            r.spec_target() == target,
            r.spec_cache() == target.bounds(),
    {
        let bb = target.bounding_box();
        BoxCache { target, cache: bb }
    }
}

impl<A: Implicit> Implicit for BoxCache<A> {
    open spec fn value(&self, pos: Point) -> i64 {
        self.spec_target().value(pos)
    }

    open spec fn bounds(&self) -> Option<Rect> {
        self.spec_cache()
    }

    open spec fn regular(&self) -> bool {
        self.spec_target().regular()
    }

    fn sample(&self, pos: Point) -> (r: i64) {
        self.target.sample(pos)
    }

    fn bounding_box(&self) -> (r: Option<Rect>) {
        self.cache
    }

    fn follows_rules(&self) -> (r: bool) {
        self.target.follows_rules()
    }
}

/// The smallest of the values of the first `k` shapes at `pos`; the
/// largest sample there is for none.
pub open spec fn least_value<A: Implicit>(targets: Seq<A>, pos: Point, k: int) -> i64
    decreases k,
{
    if k <= 0 {
        i64::MAX
    } else {
        let rest = least_value(targets, pos, k - 1);
        let v = targets[k - 1].value(pos);
        if v < rest {
            v
        } else {
            rest
        }
    }
}

/// The largest of the values of the first `k` shapes at `pos`; the
/// smallest sample there is for none.
pub open spec fn greatest_value<A: Implicit>(targets: Seq<A>, pos: Point, k: int) -> i64
    decreases k,
{
    if k <= 0 {
        i64::MIN
    } else {
        let rest = greatest_value(targets, pos, k - 1);
        let v = targets[k - 1].value(pos);
        if v > rest {
            v
        } else {
            rest
        }
    }
}

/// The union of the boxes of those of the first `k` shapes that have one.
pub open spec fn joint_box<A: Implicit>(targets: Seq<A>, k: int) -> Rect
    decreases k,
{
    if k <= 0 {
        Rect::spec_null()
    } else {
        match targets[k - 1].bounds() {
            Some(b) => joint_box(targets, k - 1).spec_union(b),
            None => joint_box(targets, k - 1),
        }
    }
}

/// What the boxes of those of the first `k` shapes that have one have in
/// common.
pub open spec fn common_box<A: Implicit>(targets: Seq<A>, k: int) -> Rect
    decreases k,
{
    if k <= 0 {
        Rect::spec_null()
    } else {
        let rest = common_box(targets, k - 1);
        match targets[k - 1].bounds() {
            Some(b) => if rest.null {
                b
            } else {
                rest.spec_intersect(b)
            },
            None => rest,
        }
    }
}

/// Whether all of the first `k` shapes are regular.
pub open spec fn all_regular<A: Implicit>(targets: Seq<A>, k: int) -> bool
    decreases k,
{
    if k <= 0 {
        true
    } else {
        all_regular(targets, k - 1) && targets[k - 1].regular()
    }
}

fn all_follow_rules<A: Implicit>(targets: &Vec<A>) -> (r: bool)
    ensures
        r == all_regular(targets@, targets@.len() as int),
{
    let mut ok = true;
    let mut i: usize = 0;
    while i < targets.len()
        invariant
            i <= targets@.len(),
            ok == all_regular(targets@, i as int),
        decreases targets@.len() - i,
    {
        let f = targets[i].follows_rules();
        ok = ok && f;
        i += 1;
    }
    ok
}

impl<A: Implicit> OrThese<A> {
    /// What lies in one of the given shapes at least.
    pub fn new(targets: Vec<A>) -> (r: OrThese<A>)
        ensures
            r.targets == targets,
    {
        OrThese { targets }
    }
}

impl<A: Implicit> AndThese<A> {
    /// What lies in all of the given shapes.
    pub fn new(targets: Vec<A>) -> (r: AndThese<A>)
        ensures
            r.targets == targets,
    {
        AndThese { targets }
    }
}

impl<A: Implicit> Implicit for OrThese<A> {
    open spec fn value(&self, pos: Point) -> i64 {
        least_value(self.targets@, pos, self.targets@.len() as int)
    }

    open spec fn bounds(&self) -> Option<Rect> {
        let bb = joint_box(self.targets@, self.targets@.len() as int);
        if bb.null {
            None
        } else {
            Some(bb)
        }
    }

    open spec fn regular(&self) -> bool {
        all_regular(self.targets@, self.targets@.len() as int)
    }

    fn sample(&self, pos: Point) -> (r: i64) {
        let mut minimum: i64 = i64::MAX;
        let mut i: usize = 0;
        while i < self.targets.len()
            invariant
                i <= self.targets@.len(),
                minimum == least_value(self.targets@, pos, i as int),
            decreases self.targets@.len() - i,
        {
            let v = self.targets[i].sample(pos);
            if v < minimum {
                minimum = v;
            }
            i += 1;
        }
        minimum
    }

    fn bounding_box(&self) -> (r: Option<Rect>) {
        let mut bb = Rect::null();
        let mut i: usize = 0;
        while i < self.targets.len()
            invariant
                i <= self.targets@.len(),
                bb == joint_box(self.targets@, i as int),
            decreases self.targets@.len() - i,
        {
            if let Some(p_bb) = self.targets[i].bounding_box() {
                bb = bb.union_with(&p_bb);
            }
            i += 1;
        }
        if bb.is_null() {
            None
        } else {
            Some(bb)
        }
    }

    fn follows_rules(&self) -> (r: bool) {
        all_follow_rules(&self.targets)
    }
}

impl<A: Implicit> Implicit for AndThese<A> {
    open spec fn value(&self, pos: Point) -> i64 {
        greatest_value(self.targets@, pos, self.targets@.len() as int)
    }

    open spec fn bounds(&self) -> Option<Rect> {
        let bb = common_box(self.targets@, self.targets@.len() as int);
        if bb.null {
            None
        } else {
            Some(bb)
        }
    }

    open spec fn regular(&self) -> bool {
        all_regular(self.targets@, self.targets@.len() as int)
    }

    fn sample(&self, pos: Point) -> (r: i64) {
        let mut maximum: i64 = i64::MIN;
        let mut i: usize = 0;
        while i < self.targets.len()
            invariant
                i <= self.targets@.len(),
                maximum == greatest_value(self.targets@, pos, i as int),
            decreases self.targets@.len() - i,
        {
            let v = self.targets[i].sample(pos);
            if v > maximum {
                maximum = v;
            }
            i += 1;
        }
        maximum
    }

    fn bounding_box(&self) -> (r: Option<Rect>) {
        let mut bb = Rect::null();
        let mut i: usize = 0;
        while i < self.targets.len()
            invariant
                i <= self.targets@.len(),
                bb == common_box(self.targets@, i as int),
            decreases self.targets@.len() - i,
        {
            if let Some(p_bb) = self.targets[i].bounding_box() {
                if bb.is_null() {
                    bb = p_bb;
                } else {
                    bb = bb.intersect_with(&p_bb);
                }
            }
            i += 1;
        }
        if bb.is_null() {
            None
        } else {
            Some(bb)
        }
    }

    fn follows_rules(&self) -> (r: bool) {
        all_follow_rules(&self.targets)
    }
}

/// What lies in both shapes.
pub fn and<A: Implicit, B: Implicit>(shape: A, other: B) -> (r: And<A, B>)
    ensures
        r.left == shape,
        r.right == other,
{
    And { left: shape, right: other }
}

/// What lies in the first shape and not in the second.
pub fn and_not<A: Implicit, B: Implicit>(shape: A, other: B) -> (r: And<A, Not<B>>)
    ensures
        r.left == shape,
        r.right.target == other,
{
    And { left: shape, right: Not { target: other } }
}

/// What lies in one shape or the other.
pub fn or<A: Implicit, B: Implicit>(shape: A, other: B) -> (r: Or<A, B>)
    ensures
        r.left == shape,
        r.right == other,
{
    Or { left: shape, right: other }
}

/// What lies in exactly one of the two shapes.
pub fn xor<A: Implicit, B: Implicit>(shape: A, other: B) -> (r: Xor<A, B>)
    ensures
        r.left == shape,
        r.right == other,
{
    Xor { left: shape, right: other }
}

/// The shape with its outline moved inward by `by` ticks, or left where
/// it is if `by` is negative.
pub fn shrink<A: Implicit>(shape: A, by: i32) -> (r: Boundary<A>)
    ensures
        r.target == shape,
        r.move_by == (if by > 0 {
            -by
        } else {
            0
        }),
{
    let by = if by > 0 { by } else { 0 };
    Boundary { target: shape, move_by: -by }
}

/// The shape with its outline moved outward by `by` ticks, or left where
/// it is if `by` is negative.
pub fn grow<A: Implicit>(shape: A, by: i32) -> (r: Boundary<A>)
    ensures
        r.target == shape,
        r.move_by == (if by > 0 {
            by
        } else {
            0
        }),
{
    let by = if by > 0 { by } else { 0 };
    Boundary { target: shape, move_by: by }
}

/// The shape together with its box.
pub fn cache_bounding_box<A: Implicit>(shape: A) -> (r: BoxCache<A>)
    ensures
        r.spec_target() == shape,
        r.spec_cache() == shape.bounds(),
{
    BoxCache::new(shape)
}

/// What lies outside the shape.
pub fn not<A: Implicit>(shape: A) -> (r: Not<A>)
    ensures
        r.target == shape,
{
    Not { target: shape }
}

/// What lies in the shape within `distance` ticks of its outline.
pub fn outline_inner<A: Implicit + Clone>(shape: A, distance: i32) -> (r: And<A, Not<Boundary<A>>>)
    ensures
        r.right.target.target == shape,
        r.right.target.move_by == (if distance > 0 {
            -distance
        } else {
            0
        }),
{
    let copy = shape.clone();
    And { left: copy, right: not(shrink(shape, distance)) }
}

/// What lies outside the shape within `distance` ticks of its outline.
pub fn outline_outer<A: Implicit + Clone>(shape: A, distance: i32) -> (r: And<Boundary<A>, Not<A>>)
    ensures
        r.right.target == shape,
        r.left.move_by == (if distance > 0 {
            distance
        } else {
            0
        }),
{
    let copy = shape.clone();
    And { left: grow(copy, distance), right: not(shape) }
}

/// Polygons that lie in one another: what lies in an odd number of them
/// is inside.
#[derive(Debug)]
pub struct PolyGroup {
    pub polys: Vec<Polygon>,
}

/// The size of the sample: its distance from zero, but no more than the
/// largest sample there is.
pub open spec fn size_of(v: i64) -> i64 {
    if v == i64::MIN {
        i64::MAX
    } else if v < 0 {
        (-v) as i64
    } else {
        v
    }
}

/// The smallest size of the values of the first `k` polygons at `pos`;
/// the largest sample there is for none.
pub open spec fn nearest_size(polys: Seq<Polygon>, pos: Point, k: int) -> i64
    decreases k,
{
    if k <= 0 {
        i64::MAX
    } else {
        let rest = nearest_size(polys, pos, k - 1);
        let v = size_of(polys[k - 1].value(pos));
        if v < rest {
            v
        } else {
            rest
        }
    }
}

/// Whether `pos` lies inside an odd number of the first `k` polygons.
pub open spec fn odd_inside(polys: Seq<Polygon>, pos: Point, k: int) -> bool
    decreases k,
{
    if k <= 0 {
        false
    } else {
        odd_inside(polys, pos, k - 1) != (polys[k - 1].value(pos) < 0)
    }
}

/// The union of the boxes of the first `k` polygons.
pub open spec fn group_box(polys: Seq<Polygon>, k: int) -> Rect
    decreases k,
{
    if k <= 0 {
        Rect::spec_null()
    } else {
        group_box(polys, k - 1).spec_union(corner_box(polys[k - 1]@, polys[k - 1]@.len() as int))
    }
}

impl Implicit for PolyGroup {
    /// The distance to the nearest outline, taken negative inside an odd
    /// number of the polygons.
    open spec fn value(&self, pos: Point) -> i64 {
        let closest = nearest_size(self.polys@, pos, self.polys@.len() as int);
        if odd_inside(self.polys@, pos, self.polys@.len() as int) {
            (-closest) as i64
        } else {
            closest
        }
    }

    open spec fn bounds(&self) -> Option<Rect> {
        Some(group_box(self.polys@, self.polys@.len() as int))
    }

    open spec fn regular(&self) -> bool {
        true
    }

    fn sample(&self, pos: Point) -> (r: i64) {
        let mut closest: i64 = i64::MAX;
        let mut odd = false;
        let mut i: usize = 0;
        while i < self.polys.len()
            invariant
                i <= self.polys@.len(),
                closest == nearest_size(self.polys@, pos, i as int),
                odd == odd_inside(self.polys@, pos, i as int),
                closest >= 0,
            decreases self.polys@.len() - i,
        {
            let v = self.polys[i].sample(pos);
            if v < 0 {
                odd = !odd;
            }
            let contender = if v == i64::MIN {
                i64::MAX
            } else if v < 0 {
                -v
            } else {
                v
            };
            if contender < closest {
                closest = contender;
            }
            i += 1;
        }
        if odd {
            -closest
        } else {
            closest
        }
    }

    fn bounding_box(&self) -> (r: Option<Rect>) {
        let mut bb = Rect::null();
        let mut i: usize = 0;
        while i < self.polys.len()
            invariant
                i <= self.polys@.len(),
                bb == group_box(self.polys@, i as int),
            decreases self.polys@.len() - i,
        {
            match self.polys[i].bounding_box() {
                Some(b) => {
                    bb = bb.union_with(&b);
                },
                None => {},
            }
            i += 1;
        }
        Some(bb)
    }

    fn follows_rules(&self) -> (r: bool) {
        true
    }
}

impl PolyGroup {
    /// The group of the given polygons.
    pub fn new(polys: Vec<Polygon>) -> (r: PolyGroup)
        ensures
            r.polys == polys,
    {
        PolyGroup { polys }
    }
}

/// Whether all the points can be corners of a polygon.
pub fn all_in_range(points: &Vec<Point>) -> (r: bool)
    ensures
        r == forall|k: int| 0 <= k < points@.len() ==> in_range(#[trigger] points@[k]),
{
    let mut i: usize = 0;
    while i < points.len()
        invariant
            i <= points@.len(),
            forall|k: int| 0 <= k < i ==> in_range(#[trigger] points@[k]),
        decreases points@.len() - i,
    {
        let p = points[i];
        if p.x < -COORD_LIMIT || p.x > COORD_LIMIT || p.y < -COORD_LIMIT || p.y > COORD_LIMIT {
            return false;
        }
        i += 1;
    }
    true
}

} // verus!
