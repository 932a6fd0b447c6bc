use vstd::prelude::*;
use itertools::Itertools;
use crate::arith::lemma_product_bound;
use crate::dash::{dash_views, dashify, pattern_ok, spec_dashify, DashSegment};
use crate::geom::{fits_coord, Point, Rect};
use crate::bitmap::Bitmap;
use crate::line_gather::{
    cells_fit, gather_sampled, lemma_divide_len, spec_chunk_len, spec_divide,
};
use crate::line_join::{
    after, chains, connect_lines, copy_points, joined, keep_long, lemma_each_le_total, line_pool,
    points_of, seeds_ok, settle, simplify_line, spec_simplify, total_points, Chain,
};
use crate::marching_squares::cell_fits;
use crate::quadtree::ItemId;
use crate::sample_points::{
    can_sample, check_sample, count_cells, hull_of, lemma_strips, sampled_as, sampling_box,
    sampling_points, strip_cells, strips, SampleDist,
};
use crate::implementations::{all_in_range, grow, in_range, shrink, Boundary, PolyGroup, Polygon};
use crate::Implicit;

verus! {

/// `<[T]>::reverse` of the standard library: the slice holds the same
/// elements afterwards, in the opposite order.
pub assume_specification<Elem>[ <[Elem]>::reverse ](slice: &mut [Elem])
    ensures
        final(slice)@ == old(slice)@.reverse(),
;

/// The sequence that starts at index `at` of `s`, goes on to its end and
/// then from its start up to `at`.
pub open spec fn rotated<T>(s: Seq<T>, at: int) -> Seq<T> {
    s.subrange(at, s.len() as int) + s.subrange(0, at)
}

/// Turns the slice so that the element at `at` comes first.
pub fn rotate<T>(slice: &mut [T], at: usize)
    requires
        at <= old(slice)@.len(),
    ensures
        final(slice)@ == rotated(old(slice)@, at as int),
{
    let ghost s = slice@;
    {
        let (a, b) = slice.split_at_mut(at);
        a.reverse();
        b.reverse();
    }
    let ghost mid = slice@;
    slice.reverse();
    proof {
        let n = s.len() as int;
        let head = s.subrange(0, at as int);
        let tail = s.subrange(at as int, n);
        assert(mid == head.reverse() + tail.reverse());
        assert(slice@ =~= rotated(s, at as int)) by {
            assert forall|i: int| 0 <= i < n implies slice@[i] == rotated(s, at as int)[i] by {
                assert(slice@[i] == mid[n - 1 - i]);
            }
        }
    }
}

/// The term of the edge from `a` to `b` in the shoelace sum.
pub open spec fn edge_term(a: Point, b: Point) -> int {
    (b.x - a.x) * (b.y + a.y)
}

/// The term of the edge that leaves the point at `i` in the loop `s`; the
/// last point is followed by the first.
pub open spec fn loop_term(s: Seq<Point>, i: int) -> int {
    edge_term(s[i], s[(i + 1) % (s.len() as int)])
}

/// The sum of `f` over the first `n` naturals.
pub open spec fn sum_to(f: spec_fn(int) -> int, n: nat) -> int
    decreases n,
{
    if n == 0 {
        0
    } else {
        sum_to(f, (n - 1) as nat) + f(n - 1)
    }
}

/// The shoelace sum of the loop through the points: positive for a loop
/// that runs clockwise, negative for one that runs the other way.
pub open spec fn shoelace(s: Seq<Point>) -> int {
    sum_to(|i: int| loop_term(s, i), s.len())
}

/// Sums of functions that agree below `n` agree.
pub proof fn lemma_sum_ext(f: spec_fn(int) -> int, g: spec_fn(int) -> int, n: nat)
    requires
        forall|i: int| 0 <= i < n ==> #[trigger] f(i) == g(i),
    ensures
        sum_to(f, n) == sum_to(g, n),
    decreases n,
{
    if n > 0 {
        lemma_sum_ext(f, g, (n - 1) as nat);
    }
}

/// Taking the first term out of a sum.
pub proof fn lemma_sum_shift(f: spec_fn(int) -> int, n: nat)
    requires
        n > 0,
    ensures
        sum_to(f, n) == f(0) + sum_to(|i: int| f(i + 1), (n - 1) as nat),
    decreases n,
{
    let g = |i: int| f(i + 1);
    if n == 1 {
        assert(sum_to(f, 0) == 0);
        assert(sum_to(g, 0) == 0);
    } else {
        lemma_sum_shift(f, (n - 1) as nat);
        assert(g(n - 2) == f(n - 1));
    }
}

/// A sum taken backwards is the same sum.
pub proof fn lemma_sum_backward(f: spec_fn(int) -> int, n: nat)
    ensures
        sum_to(|i: int| f(n - 1 - i), n) == sum_to(f, n),
    decreases n,
{
    let g = |i: int| f(n - 1 - i);
    if n > 0 {
        let g1 = |i: int| g(i + 1);
        let h = |i: int| f((n - 1) - 1 - i);
        lemma_sum_shift(g, n);
        lemma_sum_backward(f, (n - 1) as nat);
        assert forall|i: int| 0 <= i < n - 1 implies #[trigger] g1(i) == h(i) by {}
        lemma_sum_ext(g1, h, (n - 1) as nat);
    }
}

/// The sum of the negated terms is the negated sum.
pub proof fn lemma_sum_neg(f: spec_fn(int) -> int, n: nat)
    ensures
        sum_to(|i: int| -f(i), n) == -sum_to(f, n),
    decreases n,
{
    if n > 0 {
        lemma_sum_neg(f, (n - 1) as nat);
    }
}

/// A sum over a loop of `n` terms may start at the second term.
pub proof fn lemma_sum_turn(f: spec_fn(int) -> int, n: nat)
    requires
        n > 0,
    ensures
        sum_to(|i: int| f((i + 1) % (n as int)), n) == sum_to(f, n),
{
    let g = |i: int| f((i + 1) % (n as int));
    let f1 = |i: int| f(i + 1);
    lemma_sum_shift(f, n);
    assert(g(n - 1) == f(0)) by {
        assert((n as int) % (n as int) == 0) by (nonlinear_arith)
            requires
                n > 0,
        ;
    }
    assert forall|i: int| 0 <= i < n - 1 implies #[trigger] g(i) == f1(i) by {
        assert((i + 1) % (n as int) == i + 1) by (nonlinear_arith)
            requires
                0 <= i + 1 < n,
        ;
    }
    lemma_sum_ext(g, f1, (n - 1) as nat);
}

/// The shoelace sum of a loop does not depend on the point at which the
/// loop is taken to start.
pub proof fn lemma_shoelace_rotated(s: Seq<Point>, at: int)
    requires
        0 <= at <= s.len(),
    ensures
        shoelace(rotated(s, at)) == shoelace(s),
    decreases at,
{
    let n = s.len() as int;
    if at == 0 {
        assert(rotated(s, 0) =~= s);
    } else if at == n {
        assert(rotated(s, n) =~= s);
    } else {
        lemma_shoelace_rotated(s, at - 1);
        let p = rotated(s, at - 1);
        let r = rotated(s, at);
        let fp = |i: int| loop_term(p, i);
        let fr = |i: int| loop_term(r, i);
        let turned = |i: int| fp((i + 1) % n);
        lemma_sum_turn(fp, n as nat);
        assert forall|i: int| 0 <= i < n implies #[trigger] fr(i) == turned(i) by {
            let j = (i + 1) % n;
            let jj = (j + 1) % n;
            let ii = (i + 1) % n;
            assert(0 <= j < n && 0 <= jj < n);
            if i + 1 < n {
                assert(j == i + 1) by (nonlinear_arith)
                    requires
                        j == (i + 1) % n,
                        0 <= i + 1 < n,
                ;
            } else {
                assert(j == 0) by (nonlinear_arith)
                    requires
                        j == (i + 1) % n,
                        i + 1 == n,
                        n > 0,
                ;
            }
            if j + 1 < n {
                assert(jj == j + 1) by (nonlinear_arith)
                    requires
                        jj == (j + 1) % n,
                        0 <= j + 1 < n,
                ;
            } else {
                assert(jj == 0) by (nonlinear_arith)
                    requires
                        jj == (j + 1) % n,
                        j + 1 == n,
                        n > 0,
                ;
            }
            lemma_rotated_index(s, at, i);
            lemma_rotated_index(s, at, ii);
            lemma_rotated_index(s, at - 1, j);
            lemma_rotated_index(s, at - 1, jj);
        }
        lemma_sum_ext(fr, turned, n as nat);
    }
}

/// The element at `i` of the rotated sequence is the element `at` places
/// further along the loop.
pub proof fn lemma_rotated_index<T>(s: Seq<T>, at: int, i: int)
    requires
        0 <= at <= s.len(),
        0 <= i < s.len(),
    ensures
        rotated(s, at)[i] == s[(i + at) % (s.len() as int)],
{
    let n = s.len() as int;
    if i + at < n {
        assert((i + at) % n == i + at) by (nonlinear_arith)
            requires
                0 <= i + at < n,
        ;
    } else {
        assert((i + at) % n == i + at - n) by (nonlinear_arith)
            requires
                n <= i + at < 2 * n,
        ;
    }
}

/// The shoelace sum of a loop taken the other way round is the negated
/// sum.
pub proof fn lemma_shoelace_reversed(s: Seq<Point>)
    ensures
        shoelace(s.reverse()) == -shoelace(s),
{
    let n = s.len() as int;
    if n > 0 {
        let r = s.reverse();
        let fs = |i: int| loop_term(s, i);
        let fr = |i: int| loop_term(r, i);
        let neg = |i: int| -fs(i);
        let back = |i: int| neg(n - 1 - i);
        let turned = |i: int| back((i + 1) % n);
        // fr(i) is the negated term of the edge of `s` that ends where the
        // edge of `r` starts.
        assert forall|i: int| 0 <= i < n implies #[trigger] fr(i) == turned(i) by {
            let j = (i + 1) % n;
            assert(0 <= j < n);
            let k = n - 1 - j;
            let kk = (k + 1) % n;
            if i + 1 < n {
                assert(j == i + 1) by (nonlinear_arith)
                    requires
                        j == (i + 1) % n,
                        0 <= i + 1 < n,
                ;
                assert(kk == k + 1) by (nonlinear_arith)
                    requires
                        kk == (k + 1) % n,
                        0 <= k + 1 < n,
                ;
            } else {
                assert(j == 0) by (nonlinear_arith)
                    requires
                        j == (i + 1) % n,
                        i + 1 == n,
                        n > 0,
                ;
                assert(kk == 0) by (nonlinear_arith)
                    requires
                        kk == (k + 1) % n,
                        k + 1 == n,
                        n > 0,
                ;
            }
            assert(r[i] == s[n - 1 - i]);
            assert(r[j] == s[n - 1 - j]);
            assert(fr(i) == edge_term(s[n - 1 - i], s[n - 1 - j]));
            assert(fs(k) == edge_term(s[k], s[kk]));
            assert(edge_term(s[n - 1 - i], s[n - 1 - j]) == -edge_term(s[n - 1 - j], s[n - 1 - i]))
                by (nonlinear_arith)
                requires
                    edge_term(s[n - 1 - i], s[n - 1 - j]) == (s[n - 1 - j].x - s[n - 1 - i].x) * (s[n
                        - 1 - j].y + s[n - 1 - i].y),
                    edge_term(s[n - 1 - j], s[n - 1 - i]) == (s[n - 1 - i].x - s[n - 1 - j].x) * (s[n
                        - 1 - i].y + s[n - 1 - j].y),
            ;
        }
        lemma_sum_ext(fr, turned, n as nat);
        lemma_sum_turn(back, n as nat);
        lemma_sum_backward(neg, n as nat);
        lemma_sum_neg(fs, n as nat);
    } else {
        assert(s.reverse() =~= s);
    }
}

/// How an outline is to be drawn.
#[derive(Clone)]
pub enum RenderMode {
    /// The shape is filled in and completely solid.
    Solid,
    /// The shape is traced with an outline.
    Outline,
    /// The shape is traced with a dashed outline. The lengths of the
    /// pattern, in ticks, stand in turn for a dash and for the gap after
    /// it, and the pattern repeats.
    BasicDashed(Vec<i32>),
    /// The shape is traced with a dashed outline whose pattern is
    /// stretched to repeat the given number of times around the outline.
    DashedRepeatingN(Vec<i32>, u32),
    /// The shape is traced with a dashed outline whose pattern is
    /// stretched by the smallest amount that makes it end where it began.
    DashedPerfect(Vec<i32>),
}

#[derive(Clone)]
pub enum OutputMode {
    Solid(Vec<Vec<Point>>),
    Outline(Vec<Vec<Point>>),
    DashedLine(Vec<DashedData>),
}

/// The dashes of one outline: their points one after the other, and the
/// number of points of each dash.
#[derive(Clone)]
pub struct DashedData {
    sizes: Vec<u32>,
    points: Vec<Point>,
}

/// Walks over the dashes of a `DashedData`.
pub struct SegmentIter<'a> {
    data: &'a DashedData,
    last_segment_idx: usize,
    last_points_pos: usize,
}

/// The sum of the first `k` sizes: the place at which dash `k` begins.
pub open spec fn offset(sizes: Seq<u32>, k: int) -> int
    decreases k,
{
    if k <= 0 {
        0
    } else {
        offset(sizes, k - 1) + sizes[k - 1]
    }
}

/// The places at which dashes begin do not go down.
pub proof fn lemma_offset_grows(sizes: Seq<u32>, j: int, k: int)
    requires
        0 <= j <= k <= sizes.len(),
    ensures
        0 <= offset(sizes, j) <= offset(sizes, k),
    decreases k,
{
    if j < k {
        lemma_offset_grows(sizes, j, k - 1);
    } else if k > 0 {
        lemma_offset_grows(sizes, 0, k - 1);
    }
}

impl View for DashedData {
    type V = Seq<Seq<Point>>;

    /// The dashes, each with its points.
    closed spec fn view(&self) -> Seq<Seq<Point>> {
        Seq::new(
            self.sizes@.len(),
            |k: int| self.points@.subrange(offset(self.sizes@, k), offset(self.sizes@, k + 1)),
        )
    }
}

impl DashedData {
    /// The sizes add up to the number of points.
    pub closed spec fn wf(&self) -> bool {
        offset(self.sizes@, self.sizes@.len() as int) == self.points@.len()
    }

    /// Lays the dashes out one after the other.
    pub fn from_dashes(dashed: Vec<DashSegment>) -> (r: DashedData)
        requires
            forall|k: int| 0 <= k < dashed@.len() ==> (#[trigger] dashed@[k])@.len() <= u32::MAX,
        ensures
            r.wf(),
            r@ == dash_views(dashed@),
    {
        let mut lengths: Vec<u32> = Vec::with_capacity(dashed.len());
        let mut pts: Vec<Point> = Vec::new();
        let mut i: usize = 0;
        while i < dashed.len()
            invariant
                i <= dashed@.len(),
                lengths@.len() == i,
                forall|k: int| 0 <= k < dashed@.len() ==> (#[trigger] dashed@[k])@.len() <= u32::MAX,
                offset(lengths@, i as int) == pts@.len(),
                forall|k: int|
                    0 <= k < i ==> pts@.subrange(offset(lengths@, k), offset(lengths@, k + 1))
                        == (#[trigger] dashed@[k])@,
            decreases dashed@.len() - i,
        {
            let segment = &dashed[i].0;
            let ghost old_lengths = lengths@;
            let ghost old_pts = pts@;
            lengths.push(segment.len() as u32);
            let mut j: usize = 0;
            while j < segment.len()
                invariant
                    j <= segment@.len(),
                    pts@ == old_pts + segment@.subrange(0, j as int),
                decreases segment@.len() - j,
            {
                pts.push(segment[j]);
                proof {
                    assert(segment@.subrange(0, j + 1) =~= segment@.subrange(0, j as int).push(
                        segment@[j as int],
                    ));
                    assert(pts@ =~= old_pts + segment@.subrange(0, j + 1));
                }
                j += 1;
            }
            proof {
                assert(segment@.subrange(0, j as int) =~= segment@);
                assert forall|k: int| 0 <= k <= i implies offset(lengths@, k) == offset(
                    old_lengths,
                    k,
                ) by {
                    lemma_offset_prefix(old_lengths, lengths@, k);
                }
                assert(offset(lengths@, i + 1) == offset(lengths@, i as int) + lengths@[i as int]);
                assert forall|k: int| 0 <= k < i + 1 implies pts@.subrange(
                    offset(lengths@, k),
                    offset(lengths@, k + 1),
                ) == (#[trigger] dashed@[k])@ by {
                    if k < i {
                        lemma_offset_grows(old_lengths, k, k + 1);
                        lemma_offset_grows(old_lengths, k + 1, i as int);
                        assert(pts@.subrange(offset(lengths@, k), offset(lengths@, k + 1))
                            =~= old_pts.subrange(offset(old_lengths, k), offset(old_lengths, k + 1)));
                    } else {
                        assert(pts@.subrange(offset(lengths@, k), offset(lengths@, k + 1))
                            =~= segment@);
                    }
                }
            }
            i += 1;
        }
        let r = DashedData { sizes: lengths, points: pts };
        proof {
            assert(r@ =~= dash_views(dashed@));
        }
        r
    }

    /// Whether the sizes add up to the number of points.
    pub fn check(&self) -> (r: bool)
        ensures
            r == self.wf(),
    {
        let mut total: usize = 0;
        let mut i: usize = 0;
        let n = self.points.len();
        while i < self.sizes.len()
            invariant
                i <= self.sizes@.len(),
                n == self.points@.len(),
                total == offset(self.sizes@, i as int),
                total <= n,
            decreases self.sizes@.len() - i,
        {
            let size = self.sizes[i] as usize;
            proof {
                lemma_offset_grows(self.sizes@, i + 1, self.sizes@.len() as int);
            }
            if size > n - total {
                return false;
            }
            total = total + size;
            i += 1;
        }
        total == n
    }

    /// The number of dashes.
    pub fn count(&self) -> (r: usize)
        ensures
            r == self@.len(),
    {
        self.sizes.len()
    }

    /// A walk over the dashes, from the first one on.
    pub fn segments(&self) -> (r: SegmentIter<'_>)
        requires
            self.wf(),
        ensures
            r.wf(),
            r.data() == self,
            r.position() == 0,
    {
        SegmentIter { data: self, last_segment_idx: 0, last_points_pos: 0 }
    }
}

/// Sizes that agree up to `k` put the first `k` dashes at the same places.
pub proof fn lemma_offset_prefix(a: Seq<u32>, b: Seq<u32>, k: int)
    requires
        0 <= k <= a.len(),
        a.len() <= b.len(),
        forall|j: int| 0 <= j < a.len() ==> a[j] == b[j],
    ensures
        offset(a, k) == offset(b, k),
    decreases k,
{
    if k > 0 {
        lemma_offset_prefix(a, b, k - 1);
    }
}

impl<'a> SegmentIter<'a> {
    /// The dashes that the walk goes over.
    pub closed spec fn data(&self) -> &'a DashedData {
        self.data
    }

    /// The number of dashes that the walk has handed out.
    pub closed spec fn position(&self) -> int {
        self.last_segment_idx as int
    }

    /// The walk stands at a dash of its data, or behind the last one.
    pub closed spec fn wf(&self) -> bool {
        &&& self.data.wf()
        &&& self.last_segment_idx <= self.data.sizes@.len()
        &&& self.last_points_pos == offset(self.data.sizes@, self.last_segment_idx as int)
    }

    /// The next dash, if there is one left.
    pub fn next(&mut self) -> (r: Option<&'a [Point]>)
        requires
            old(self).wf(),
        ensures
            final(self).wf(),
            final(self).data() == old(self).data(),
            old(self).position() >= old(self).data()@.len() ==> r is None && final(self).position()
                == old(self).position(),
            old(self).position() < old(self).data()@.len() ==> r is Some && r->0@
                == old(self).data()@[old(self).position()] && final(self).position()
                == old(self).position() + 1,
    {
        if self.last_segment_idx >= self.data.sizes.len() {
            return None;
        }
        let size_of_segment = self.data.sizes[self.last_segment_idx];
        let total: usize = self.data.points.len();
        proof {
            lemma_offset_grows(
                self.data.sizes@,
                self.last_segment_idx + 1,
                self.data.sizes@.len() as int,
            );
            assert(offset(self.data.sizes@, self.last_segment_idx + 1) == offset(
                self.data.sizes@,
                self.last_segment_idx as int,
            ) + size_of_segment);
            assert(self.last_points_pos + size_of_segment <= total);
        }
        let slice = vstd::slice::slice_subrange(
            self.data.points.as_slice(),
            self.last_points_pos,
            self.last_points_pos + size_of_segment as usize,
        );
        self.last_segment_idx += 1;
        self.last_points_pos += size_of_segment as usize;
        Some(slice)
    }
}

/// The length of the loop through the points: the lengths of its edges,
/// each rounded down to a whole tick, the edge from the last point back to
/// the first among them.
pub open spec fn spec_circumference(pts: Seq<Point>) -> int
    decreases pts.len(),
{
    if pts.len() == 0 {
        0
    } else {
        path_len(pts, pts.len() as int) + crate::dash::edge_len(pts.first(), pts.last())
    }
}

/// The length of the open way through the first `k` points.
pub open spec fn path_len(pts: Seq<Point>, k: int) -> int
    decreases k,
{
    if k <= 1 {
        0
    } else {
        path_len(pts, k - 1) + crate::dash::edge_len(pts[k - 2], pts[k - 1])
    }
}

/// No edge is longer than all of the grid.
pub proof fn lemma_path_bound(pts: Seq<Point>, k: int)
    requires
        0 <= k <= pts.len(),
    ensures
        0 <= path_len(pts, k) <= k * 0x2_0000_0000,
    decreases k,
{
    if k > 1 {
        lemma_path_bound(pts, k - 1);
        lemma_edge_bound(pts[k - 2], pts[k - 1]);
    }
}

/// The length of an edge between two points of the grid fits in 33 bits.
pub proof fn lemma_edge_bound(a: Point, b: Point)
    ensures
        0 <= crate::dash::edge_len(a, b) < 0x2_0000_0000,
{
    crate::arith::lemma_isqrt_bounds(a.dist2(b) as nat);
    crate::arith::lemma_square_bound(a.x - b.x, 0x1_0000_0000);
    crate::arith::lemma_square_bound(a.y - b.y, 0x1_0000_0000);
    let r = crate::dash::edge_len(a, b);
    if r >= 0x2_0000_0000 {
        crate::arith::lemma_square_monotonic(0x2_0000_0000, r);
    }
}

/// The length of the loop through the points: the sum of the lengths of its
/// edges, the one from the last point back to the first included.
pub fn circumfrence(pts: &Vec<Point>) -> (r: i128)
    ensures
        r == spec_circumference(pts@),
        0 <= r <= (pts@.len() + 1) * 0x2_0000_0000,
{
    if pts.len() == 0 {
        return 0;
    }
    let mut dist: i128 = 0;
    let mut i: usize = 1;
    proof {
        lemma_path_bound(pts@, 1);
    }
    while i < pts.len()
        invariant
            1 <= i <= pts.len(),
            dist == path_len(pts@, i as int),
            0 <= dist <= i * 0x2_0000_0000,
        decreases pts.len() - i,
    {
        let from = pts[i - 1];
        let to = pts[i];
        proof {
            lemma_edge_bound(from, to);
            lemma_path_bound(pts@, i + 1);
        }
        dist = dist + from.distance(&to) as i128;
        i += 1;
    }
    let first = pts[0];
    let last = pts[pts.len() - 1];
    proof {
        lemma_edge_bound(first, last);
    }
    dist = dist + first.distance(&last) as i128;
    dist
}

/// The points in an order that runs clockwise: as they are if their
/// shoelace sum is positive, in the opposite order otherwise.
pub open spec fn spun(s: Seq<Point>) -> Seq<Point> {
    if shoelace(s) > 0 {
        s
    } else {
        s.reverse()
    }
}

/// Whether the loop through the points runs clockwise.
pub fn is_clockwise(points: &Vec<Point>) -> (r: bool)
    requires
        points@.len() <= 0x4000_0000_0000_0000,
    ensures
        r == (shoelace(points@) > 0),
{
    let n = points.len();
    let mut total: i128 = 0;
    let mut i: usize = 0;
    let ghost f = |i: int| loop_term(points@, i);
    while i < n
        invariant
            i <= n,
            n == points@.len(),
            n <= 0x4000_0000_0000_0000,
            f == (|i: int| loop_term(points@, i)),
            total == sum_to(f, i as nat),
            -(i * 0x1_0000_0000_0000_0000) <= total <= i * 0x1_0000_0000_0000_0000,
        decreases n - i,
    {
        let a = points[i];
        let b = if i + 1 == n { points[0] } else { points[i + 1] };
        let dx: i128 = b.x as i128 - a.x as i128;
        let sy: i128 = b.y as i128 + a.y as i128;
        proof {
            lemma_product_bound(dx as int, sy as int, 0x1_0000_0000, 0x1_0000_0000);
            let n = n as int;
            if i + 1 == n {
                assert((i + 1) % n == 0) by (nonlinear_arith)
                    requires
                        i + 1 == n,
                        n > 0,
                ;
            } else {
                assert((i + 1) % n == i + 1) by (nonlinear_arith)
                    requires
                        0 <= i + 1 < n,
                ;
            }
            assert(f(i as int) == dx * sy);
        }
        total = total + dx * sy;
        i += 1;
    }
    total > 0
}

/// Turns the order of the points round unless they run clockwise.
pub fn correct_spin(points: &mut Vec<Point>)
    requires
        old(points)@.len() <= 0x4000_0000_0000_0000,
    ensures
        final(points)@ == spun(old(points)@),
        shoelace(final(points)@) >= 0,
        shoelace(old(points)@) != 0 ==> shoelace(final(points)@) > 0,
{
    proof {
        lemma_shoelace_reversed(points@);
    }
    if !is_clockwise(points) {
        points.as_mut_slice().reverse();
    }
}

/// The squared distance from `p` to a point far out to the upper left,
/// 100000 units to the left of the origin and 1000000 units above it.
pub open spec fn far_dist2(p: Point) -> int {
    (p.x + 1_000_000_000) * (p.x + 1_000_000_000) + (p.y + 10_000_000_000) * (p.y
        + 10_000_000_000)
}

/// Whether the point at `m` is the one with which the dashes of a loop
/// start: none lies nearer to the far point, and none after it lies as
/// near.
pub open spec fn is_anchor(s: Seq<Point>, m: int) -> bool {
    &&& 0 <= m < s.len()
    &&& forall|j: int| 0 <= j < s.len() ==> far_dist2(s[m]) <= far_dist2(#[trigger] s[j])
    &&& forall|j: int| m < j < s.len() ==> far_dist2(s[m]) < far_dist2(#[trigger] s[j])
}

/// The place of the anchor of the polyline.
pub open spec fn anchor(s: Seq<Point>) -> int {
    choose|m: int| is_anchor(s, m)
}

/// A polyline has one anchor only.
pub proof fn lemma_anchor(s: Seq<Point>, m: int)
    requires
        is_anchor(s, m),
    ensures
        anchor(s) == m,
{
    let a = anchor(s);
    assert(is_anchor(s, a));
    if a < m {
        assert(far_dist2(s[a]) < far_dist2(s[m]));
    } else if m < a {
        assert(far_dist2(s[m]) < far_dist2(s[a]));
    }
}

fn far_distance_2(p: &Point) -> (r: i128)
    ensures
        r == far_dist2(*p),
{
    let dx: i128 = p.x as i128 + 1_000_000_000;
    let dy: i128 = p.y as i128 + 10_000_000_000;
    proof {
        crate::arith::lemma_square_bound(dx as int, 0x1_0000_0000);
        crate::arith::lemma_square_bound(dy as int, 0x4_0000_0000);
    }
    dx * dx + dy * dy
}

/// Of two points with their places, the first if it lies nearer to the
/// far point, and the second otherwise.
pub open spec fn spec_nearer(best: (usize, Point), next: (usize, Point)) -> (usize, Point) {
    if far_dist2(best.1) < far_dist2(next.1) {
        best
    } else {
        next
    }
}

/// Of two points with their places, the first if it lies nearer to the far
/// point, and the second otherwise.
pub fn nearer(best: (usize, Point), next: (usize, Point)) -> (r: (usize, Point))
    ensures
        r == spec_nearer(best, next),
{
    if far_distance_2(&best.1) < far_distance_2(&next.1) {
        best
    } else {
        next
    }
}

/// What is left when the first `k` points, each with its place, are taken
/// one after the other and `spec_nearer` picks between what was left before
/// and the point taken.
pub open spec fn nearest_of(pts: Seq<Point>, k: int) -> (usize, Point)
    decreases k,
{
    if k <= 1 {
        (0, pts[0])
    } else {
        spec_nearer(nearest_of(pts, k - 1), ((k - 1) as usize, pts[k - 1]))
    }
}

/// `Itertools::fold1` over the points, each with its place: nothing for
/// no points; otherwise the first point is the start, and `nearer` picks
/// between what has been picked so far and each further point in turn.
#[verifier::external_body]
fn fold_nearest(pts: &Vec<Point>) -> (r: Option<(usize, Point)>)
    ensures
        r == (if pts@.len() == 0 {
            None
        } else {
            Some(nearest_of(pts@, pts@.len() as int))
        }),
{
    pts.iter().cloned().enumerate().fold1(|pp, np| nearer(pp, np))
}

/// What is picked from the first `k` points is the anchor among them.
pub proof fn lemma_nearest_is_anchor(pts: Seq<Point>, k: int)
    requires
        1 <= k <= pts.len() <= usize::MAX,
    ensures
        is_anchor(pts.take(k), nearest_of(pts, k).0 as int),
        nearest_of(pts, k).1 == pts[nearest_of(pts, k).0 as int],
    decreases k,
{
    let s = pts.take(k);
    if k > 1 {
        lemma_nearest_is_anchor(pts, k - 1);
        let head = pts.take(k - 1);
        let m = nearest_of(pts, k - 1).0 as int;
        assert forall|j: int| 0 <= j < head.len() implies head[j] == s[j] by {}
        let r = nearest_of(pts, k).0 as int;
        assert forall|j: int| 0 <= j < s.len() implies far_dist2(s[r]) <= far_dist2(
            #[trigger] s[j],
        ) by {
            if j < k - 1 {
                assert(far_dist2(head[m]) <= far_dist2(head[j]));
            }
        }
        assert forall|j: int| r < j < s.len() implies far_dist2(s[r]) < far_dist2(
            #[trigger] s[j],
        ) by {
            if j < k - 1 {
                assert(far_dist2(head[m]) < far_dist2(head[j]));
            }
        }
    }
}

/// The place of the point with which the dashes of the loop start.
pub fn find_anchor(pts: &Vec<Point>) -> (r: usize)
    requires
        pts@.len() > 0,
    ensures
        is_anchor(pts@, r as int),
        r == anchor(pts@),
{
    let n = pts.len();
    proof {
        lemma_nearest_is_anchor(pts@, n as int);
        assert(pts@.take(n as int) =~= pts@);
    }
    match fold_nearest(pts) {
        Some((min, _closest)) => {
            proof {
                lemma_anchor(pts@, min as int);
            }
            min
        },
        None => {
            proof {
                assert(false);
            }
            0
        },
    }
}

/// The loop in the form in which it is dashed: running clockwise, and
/// starting with its anchor.
pub open spec fn canonical(s: Seq<Point>) -> Seq<Point> {
    rotated(spun(s), anchor(spun(s)))
}

/// The loop in the form in which it is dashed has a shoelace sum that is
/// not negative, and a positive one unless the sum of the loop is zero.
pub proof fn lemma_canonical_winding(s: Seq<Point>)
    requires
        s.len() > 0,
    ensures
        shoelace(canonical(s)) >= 0,
        shoelace(s) != 0 ==> shoelace(canonical(s)) > 0,
        shoelace(canonical(s)) == shoelace(s) || shoelace(canonical(s)) == -shoelace(s),
{
    lemma_shoelace_reversed(s);
    let t = spun(s);
    lemma_anchor_exists(t);
    lemma_shoelace_rotated(t, anchor(t));
}

/// Every loop with a point has an anchor.
pub proof fn lemma_anchor_exists(s: Seq<Point>)
    requires
        s.len() > 0,
    ensures
        is_anchor(s, anchor(s)),
    decreases s.len(),
{
    if s.len() == 1 {
        assert(is_anchor(s, 0));
    } else {
        let head = s.drop_last();
        lemma_anchor_exists(head);
        let m = anchor(head);
        let last = s.len() - 1;
        assert forall|j: int| 0 <= j < head.len() implies head[j] == s[j] by {}
        if far_dist2(s[m]) < far_dist2(s[last]) {
            assert forall|j: int| 0 <= j < s.len() implies far_dist2(s[m]) <= far_dist2(
                #[trigger] s[j],
            ) by {
                if j < last {
                    assert(far_dist2(head[m]) <= far_dist2(head[j]));
                }
            }
            assert forall|j: int| m < j < s.len() implies far_dist2(s[m]) < far_dist2(
                #[trigger] s[j],
            ) by {
                if j < last {
                    assert(far_dist2(head[m]) < far_dist2(head[j]));
                }
            }
            assert(is_anchor(s, m));
        } else {
            assert forall|j: int| 0 <= j < s.len() implies far_dist2(s[last]) <= far_dist2(
                #[trigger] s[j],
            ) by {
                if j < last {
                    assert(far_dist2(head[m]) <= far_dist2(head[j]));
                }
            }
            assert(is_anchor(s, last));
        }
    }
}

/// The dashes of the loop through `pts` under the pattern `dash`: the loop
/// is brought into the form in which it is dashed, closed by its first
/// point, and cut.
pub fn make_dash(pts: Vec<Point>, dash: &Vec<i64>) -> (r: DashedData)
    requires
        0 < pts@.len() < u32::MAX - 2,
        pattern_ok(dash@),
    ensures
        r.wf(),
        r@ == spec_dashify(canonical(pts@).push(canonical(pts@)[0]), dash@),
{
    let mut pts = pts;
    // Make all of the points go clockwise.
    correct_spin(&mut pts);
    // Find the smallest point of the loop.
    let min = find_anchor(&pts);
    let ghost closest = pts@[min as int];
    // Make the smallest point the first in the series.
    rotate(pts.as_mut_slice(), min);
    // Copy the first point to the end in order to complete the chain.
    let first = pts[0];
    proof {
        assert(first == closest);
    }
    pts.push(first);

    let dashed = dashify(&pts, dash);
    DashedData::from_dashes(dashed)
}

/// The longest dash that a stretched pattern can have.
pub const MAX_DASH: i64 = 0x7fff_ffff_ffff_ffff;

/// The sum of the first `k` lengths of the pattern.
pub open spec fn pattern_sum(dash: Seq<i32>, k: int) -> int
    decreases k,
{
    if k <= 0 {
        0
    } else {
        pattern_sum(dash, k - 1) + dash[k - 1]
    }
}

/// The length of one run through the pattern.
pub open spec fn pattern_total(dash: Seq<i32>) -> int {
    pattern_sum(dash, dash.len() as int)
}

/// All lengths of the pattern are positive, and there is at least one.
pub open spec fn lengths_ok(dash: Seq<i32>) -> bool {
    &&& dash.len() > 0
    &&& forall|k: int| 0 <= k < dash.len() ==> (#[trigger] dash[k]) > 0
}

/// The length `l` of a pattern stretched by the factor `circ / span`,
/// rounded down, but at least one tick and at most `MAX_DASH`. Where
/// `span` is zero the result is longer than `circ`, so that one dash covers
/// all of an outline of that length.
pub open spec fn stretched(l: int, circ: int, span: int) -> int {
    let v = if span <= 0 {
        circ + 1
    } else {
        l * circ / span
    };
    if v < 1 {
        1
    } else if v > MAX_DASH {
        MAX_DASH as int
    } else {
        v
    }
}

/// The pattern with every length stretched by the factor `circ / span`.
pub open spec fn stretched_pattern(dash: Seq<i32>, circ: int, span: int) -> Seq<i64> {
    Seq::new(dash.len(), |k: int| stretched(dash[k] as int, circ, span) as i64)
}

/// The pattern as it is.
pub open spec fn plain_pattern(dash: Seq<i32>) -> Seq<i64> {
    Seq::new(dash.len(), |k: int| dash[k] as i64)
}

/// The whole number nearest to `circ / total`, halves rounded up: how often
/// a pattern of length `total` runs around an outline of length `circ`, as
/// nearly as may be.
pub open spec fn nearest_repeats(circ: int, total: int) -> int {
    (2 * circ + total) / (2 * total)
}

/// The sum of the first `k` lengths of a dash pattern lies between `k` and
/// `k` times the greatest length there is.
pub proof fn lemma_pattern_sum_bound(dash: Seq<i32>, k: int)
    requires
        0 <= k <= dash.len(),
        lengths_ok(dash),
    ensures
        k <= pattern_sum(dash, k) <= k * 0x7fff_ffff,
    decreases k,
{
    if k > 0 {
        lemma_pattern_sum_bound(dash, k - 1);
        assert(dash[k - 1] > 0);
    }
}

fn total_of(dash: &Vec<i32>) -> (r: i128)
    requires
        lengths_ok(dash@),
    ensures
        r == pattern_total(dash@),
        0 < r <= dash@.len() * 0x7fff_ffff,
{
    let mut total: i128 = 0;
    let mut i: usize = 0;
    while i < dash.len()
        invariant
            i <= dash.len(),
            lengths_ok(dash@),
            total == pattern_sum(dash@, i as int),
            0 <= total <= i * 0x7fff_ffff,
        decreases dash.len() - i,
    {
        proof {
            lemma_pattern_sum_bound(dash@, i + 1);
        }
        total = total + dash[i] as i128;
        i += 1;
    }
    proof {
        lemma_pattern_sum_bound(dash@, dash@.len() as int);
    }
    total
}

fn stretch(dash: &Vec<i32>, circ: i128, span: u128) -> (r: Vec<i64>)
    requires
        lengths_ok(dash@),
        0 <= circ <= 0x8_0000_0000_0000_0000,
        span <= 0x7fff_ffff_ffff_ffff_ffff_ffff_ffff_ffff,
    ensures
        r@ == stretched_pattern(dash@, circ as int, span as int),
        pattern_ok(r@),
{
    let mut out: Vec<i64> = Vec::with_capacity(dash.len());
    let mut i: usize = 0;
    while i < dash.len()
        invariant
            i <= dash.len(),
            lengths_ok(dash@),
            0 <= circ <= 0x8_0000_0000_0000_0000,
            span <= 0x7fff_ffff_ffff_ffff_ffff_ffff_ffff_ffff,
            out@.len() == i,
            forall|k: int|
                0 <= k < i ==> (#[trigger] out@[k]) == stretched(
                    dash@[k] as int,
                    circ as int,
                    span as int,
                ),
        decreases dash.len() - i,
    {
        let l: i128 = dash[i] as i128;
        proof {
            assert(dash@[i as int] > 0);
            lemma_product_bound(l as int, circ as int, 0x7fff_ffff, 0x8_0000_0000_0000_0000);
            assert(l * circ >= 0) by (nonlinear_arith)
                requires
                    l > 0,
                    circ >= 0,
            ;
            if span > 0 {
                crate::arith::lemma_trunc_div_bound((l * circ) as int, span as int);
            }
        }
        let v: i128 = if span == 0 { circ + 1 } else { (l * circ) / (span as i128) };
        let w: i64 = if v < 1 {
            1
        } else if v > MAX_DASH as i128 {
            MAX_DASH
        } else {
            v as i64
        };
        out.push(w);
        i += 1;
    }
    proof {
        assert(out@ =~= stretched_pattern(dash@, circ as int, span as int));
    }
    out
}

fn widen(dash: &Vec<i32>) -> (r: Vec<i64>)
    requires
        lengths_ok(dash@),
    ensures
        r@ == plain_pattern(dash@),
        pattern_ok(r@),
{
    let mut out: Vec<i64> = Vec::with_capacity(dash.len());
    let mut i: usize = 0;
    while i < dash.len()
        invariant
            i <= dash.len(),
            lengths_ok(dash@),
            out@.len() == i,
            forall|k: int| 0 <= k < i ==> (#[trigger] out@[k]) == dash@[k] as i64,
        decreases dash.len() - i,
    {
        proof {
            assert(dash@[i as int] > 0);
        }
        out.push(dash[i] as i64);
        i += 1;
    }
    proof {
        assert(out@ =~= plain_pattern(dash@));
    }
    out
}

/// The pattern under which the loop through `pts` is dashed in the given
/// mode: as it is, stretched to repeat a given number of times, or
/// stretched to repeat the nearest whole number of times.
pub open spec fn pattern_for(mode: RenderMode, pts: Seq<Point>) -> Seq<i64> {
    let circ = spec_circumference(pts);
    match mode {
        RenderMode::BasicDashed(dash) => plain_pattern(dash@),
        RenderMode::DashedRepeatingN(dash, n) => stretched_pattern(
            dash@,
            circ,
            n * pattern_total(dash@),
        ),
        RenderMode::DashedPerfect(dash) => stretched_pattern(
            dash@,
            circ,
            nearest_repeats(circ, pattern_total(dash@)) * pattern_total(dash@),
        ),
        _ => seq![],
    }
}

/// The pattern of a mode, if the mode has one.
pub open spec fn mode_pattern(mode: RenderMode) -> Option<Seq<i32>> {
    match mode {
        RenderMode::BasicDashed(dash) => Some(dash@),
        RenderMode::DashedRepeatingN(dash, _) => Some(dash@),
        RenderMode::DashedPerfect(dash) => Some(dash@),
        _ => None,
    }
}

/// What dashing asks of the outlines and of the pattern: every outline
/// has a point and fewer points than a size can count, the pattern has a
/// length, fewer lengths than a coordinate can count, and all its lengths
/// are positive.
pub open spec fn dashable(points: Seq<Vec<Point>>, dash: Seq<i32>) -> bool {
    &&& lengths_ok(dash)
    &&& dash.len() <= 0x7fff_ffff
    &&& forall|k: int| 0 <= k < points.len() ==> 0 < (#[trigger] points[k])@.len() < u32::MAX - 2
}

/// Whether the outlines can be shown in this mode: any outlines as they
/// are, and dashed if they and the pattern of the mode are fit for
/// dashing.
pub fn check_transform(points: &Vec<Vec<Point>>, mode: &RenderMode) -> (r: bool)
    ensures
        r == (mode_pattern(*mode) is Some ==> dashable(points@, mode_pattern(*mode)->0)),
{
    let fit = match mode {
        RenderMode::BasicDashed(dash) => check_lengths(dash),
        RenderMode::DashedRepeatingN(dash, _) => check_lengths(dash),
        RenderMode::DashedPerfect(dash) => check_lengths(dash),
        _ => {
            return true;
        },
    };
    if !fit {
        return false;
    }
    let mut i: usize = 0;
    while i < points.len()
        invariant
            i <= points@.len(),
            mode_pattern(*mode) is Some,
            lengths_ok(mode_pattern(*mode)->0),
            mode_pattern(*mode)->0.len() <= 0x7fff_ffff,
            forall|k: int| 0 <= k < i ==> 0 < (#[trigger] points@[k])@.len() < u32::MAX - 2,
        decreases points@.len() - i,
    {
        if points[i].len() == 0 || points[i].len() >= 0xffff_fffd {
            proof {
                assert(!(0 < points@[i as int]@.len() < u32::MAX - 2));
            }
            return false;
        }
        i += 1;
    }
    true
}

fn pattern_of(mode: &RenderMode, pts: &Vec<Point>) -> (r: Vec<i64>)
    requires
        mode_pattern(*mode) is Some,
        lengths_ok(mode_pattern(*mode)->0),
        mode_pattern(*mode)->0.len() <= 0x7fff_ffff,
        pts@.len() < u32::MAX,
    ensures
        r@ == pattern_for(*mode, pts@),
        pattern_ok(r@),
{
    match mode {
        RenderMode::BasicDashed(dash) => widen(dash),
        RenderMode::DashedRepeatingN(dash, n) => {
            let circ = circumfrence(pts);
            let dash_total = total_of(dash);
            proof {
                lemma_product_bound(
                    *n as int,
                    dash_total as int,
                    0xffff_ffff,
                    0x3fff_ffff_0000_0001,
                );
                assert(*n * dash_total >= 0) by (nonlinear_arith)
                    requires
                        *n >= 0,
                        dash_total > 0,
                ;
            }
            let span: u128 = (*n as u128) * (dash_total as u128);
            stretch(dash, circ, span)
        },
        RenderMode::DashedPerfect(dash) => {
            let circ = circumfrence(pts);
            let dash_total = total_of(dash);
            // If the pattern runs a whole number of times around the
            // outline, it ends where it began. It probably does not, so
            // the number of its runs is rounded.
            let r: i128 = (2 * circ + dash_total) / (2 * dash_total);
            proof {
                let a = 2 * circ + dash_total;
                let b = 2 * dash_total;
                assert(0 <= (a / b) * b <= a) by (nonlinear_arith)
                    requires
                        a >= 0,
                        b > 0,
                ;
                assert((a / b) * b == 2 * ((a / b) * dash_total)) by (nonlinear_arith)
                    requires
                        b == 2 * dash_total,
                ;
                assert(r * dash_total >= 0);
            }
            let span: u128 = (r * dash_total) as u128;
            stretch(dash, circ, span)
        },
        _ => {
            proof {
                assert(false);
            }
            Vec::new()
        },
    }
}

/// The outlines in the form that the mode asks for: as they are for a
/// solid or an outlined shape, and cut into dashes otherwise.
pub fn transform(points: Vec<Vec<Point>>, mode: &RenderMode) -> (r: OutputMode)
    requires
        mode_pattern(*mode) is Some ==> dashable(points@, mode_pattern(*mode)->0),
    ensures
        *mode is Solid ==> r == OutputMode::Solid(points),
        *mode is Outline ==> r == OutputMode::Outline(points),
        mode_pattern(*mode) is Some ==> r is DashedLine && r->DashedLine_0@.len() == points@.len()
            && forall|k: int|
            0 <= k < points@.len() ==> {
                let d = #[trigger] r->DashedLine_0@[k];
                let c = canonical(points@[k]@);
                d.wf() && d@ == spec_dashify(c.push(c[0]), pattern_for(*mode, points@[k]@))
            },
{
    match mode {
        RenderMode::Solid => OutputMode::Solid(points),
        RenderMode::Outline => OutputMode::Outline(points),
        _ => {
            let mut out: Vec<DashedData> = Vec::with_capacity(points.len());
            let mut i: usize = 0;
            while i < points.len()
                invariant
                    i <= points@.len(),
                    out@.len() == i,
                    mode_pattern(*mode) is Some,
                    dashable(points@, mode_pattern(*mode)->0),
                    forall|k: int|
                        0 <= k < i ==> {
                            let d = #[trigger] out@[k];
                            let c = canonical(points@[k]@);
                            d.wf() && d@ == spec_dashify(
                                c.push(c[0]),
                                pattern_for(*mode, points@[k]@),
                            )
                        },
                decreases points@.len() - i,
            {
                proof {
                    assert(0 < points@[i as int]@.len() < u32::MAX - 2);
                }
                let pts = crate::line_join::copy_points(&points[i]);
                let pattern = pattern_of(mode, &pts);
                out.push(make_dash(pts, &pattern));
                i += 1;
            }
            OutputMode::DashedLine(out)
        },
    }
}

/// The most lattice points that the strips of a shape may have for the
/// shape to be rendered.
pub const MAX_CELLS: usize = 0x1000_0000;

/// What rendering asks of a shape, a resolution and a mode: the shape can
/// be sampled, the cells around all points of its lattice lie on the grid,
/// the lattice has no more than `MAX_CELLS` points, and a pattern of dashes
/// has a length, fewer lengths than a coordinate can count, and only
/// positive lengths.
pub open spec fn can_render(bounds: Option<Rect>, resolution: i32, mode: RenderMode) -> bool {
    &&& can_sample(bounds, resolution)
    &&& fits_coord(bounds->0.top_left.x - 3 * resolution)
    &&& fits_coord(bounds->0.top_left.y - 3 * resolution)
    &&& fits_coord(bounds->0.bottom_right.x + 3 * resolution)
    &&& fits_coord(bounds->0.bottom_right.y + 3 * resolution)
    &&& strip_cells(
        sampling_box(bounds->0, resolution),
        SampleDist { x_bump: resolution, y_bump: resolution },
        1,
        7,
    ) <= MAX_CELLS
    &&& mode_pattern(mode) is Some ==> lengths_ok(mode_pattern(mode)->0) && mode_pattern(
        mode,
    )->0.len() <= 0x7fff_ffff
}

/// The points of the polylines, simplified if `simplify` is set.
pub open spec fn outlines(c: Seq<Chain>, simplify: bool) -> Seq<Seq<Point>> {
    Seq::new(
        c.len(),
        |k: int|
            if simplify {
                spec_simplify(c[k].points())
            } else {
                c[k].points()
            },
    )
}

/// The values of a list of polylines.
pub open spec fn polys_of(v: Seq<Vec<Point>>) -> Seq<Seq<Point>> {
    v.map_values(|p: Vec<Point>| p@)
}

/// Whether `r` shows the outlines `polys` in the given mode: as they are
/// for a solid or an outlined shape; otherwise each as a loop in the form
/// in which it is dashed, closed by its first point and cut under the
/// pattern of the mode.
pub open spec fn shown(mode: RenderMode, polys: Seq<Seq<Point>>, r: OutputMode) -> bool {
    match mode {
        RenderMode::Solid => r is Solid && polys_of(r->Solid_0@) == polys,
        RenderMode::Outline => r is Outline && polys_of(r->Outline_0@) == polys,
        _ => r is DashedLine && r->DashedLine_0@.len() == polys.len() && forall|k: int|
            0 <= k < polys.len() ==> {
                let d = #[trigger] r->DashedLine_0@[k];
                let c = canonical(polys[k]);
                d.wf() && d@ == spec_dashify(c.push(c[0]), pattern_for(mode, polys[k]))
            },
    }
}

/// Whether `r` is a rendering of the shape: `samples` are its sample
/// points, with `bitmap` its coarse raster and `picks` the border points
/// that were kept; the segments of the cells around them, gathered in
/// chunks for `cpus` workers, are chained into polylines that start with
/// the segments `seeds`, settled, rid of polylines of less than two points,
/// simplified if `simplify` is set, and shown in the given mode.
pub open spec fn rendered_as<A: Implicit>(
    object: &A,
    mode: RenderMode,
    resolution: i32,
    simplify: bool,
    bitmap: Bitmap,
    picks: Seq<int>,
    samples: Seq<Point>,
    cpus: usize,
    seeds: Seq<ItemId>,
    r: OutputMode,
) -> bool {
    let lines = spec_divide(
        object,
        samples,
        0,
        spec_chunk_len(samples.len() as int, cpus as int),
        resolution,
    );
    let pool = line_pool(lines);
    let start = joined(pool, seeds, resolution);
    let polys = outlines(keep_long(settle(start, total_points(start))), simplify);
    &&& sampled_as(object, resolution, bitmap, picks, samples)
    &&& seeds_ok(pool, seeds, resolution)
    &&& after(pool, seeds, resolution).dom() =~= Set::<ItemId>::empty()
    &&& shown(mode, polys, r)
}

/// Around every point of the box in which a shape that can be rendered is
/// sampled, with the origin taken in, a cell lies on the grid.
pub proof fn lemma_hull_cells_fit(bounds: Option<Rect>, mode: RenderMode, resolution: i32, p: Point)
    requires
        can_render(bounds, resolution, mode),
        hull_of(sampling_box(bounds->0, resolution)).spec_contains(p),
    ensures
        cell_fits(p, resolution),
{
}

/// The sample points of a shape that can be rendered are no more than
/// `MAX_CELLS`, and the cells around them lie on the grid.
#[verifier::rlimit(40)]
pub proof fn lemma_samples_fit<A: Implicit>(
    object: &A,
    mode: RenderMode,
    resolution: i32,
    bitmap: Bitmap,
    picks: Seq<int>,
    samples: Seq<Point>,
)
    requires
        can_render(object.bounds(), resolution, mode),
        sampled_as(object, resolution, bitmap, picks, samples),
    ensures
        cells_fit(samples, resolution),
        samples.len() <= MAX_CELLS,
{
    let d = SampleDist { x_bump: resolution, y_bump: resolution };
    let bb = sampling_box(object.bounds()->0, resolution);
    let hull = hull_of(bb);
    let found = strips(bb, d, &bitmap, 1, 7, object.regular());
    lemma_strips(bb, d, &bitmap, 1, 7, hull, object.regular());
    assert forall|k: int| 0 <= k < samples.len() implies cell_fits(
        #[trigger] samples[k],
        resolution,
    ) by {
        if k < found.0.len() {
            assert(samples.subrange(0, found.0.len() as int)[k] == found.0[k]);
            assert(hull.spec_contains(found.0[k]));
        } else {
            let j = k - found.0.len();
            assert(0 <= picks[j] < found.1.len());
            assert(samples[found.0.len() + j] == found.1[picks[j]]);
            assert(hull.spec_contains(found.1[picks[j]]));
        }
        lemma_hull_cells_fit(object.bounds(), mode, resolution, samples[k]);
    }
    assert(samples.len() <= found.0.len() + found.1.len()) by {
        lemma_picks_bound(picks, found.1.len() as int);
    }
}

/// Renders the shape: samples it near its outline, marches over the
/// cells around the sample points, joins the segments into polylines,
/// simplifies these if `simplify` is set, and shows them in the given
/// mode.
#[verifier::rlimit(40)]
pub fn render<A: Implicit + Sync>(object: A, rm: &RenderMode, resolution: i32, simplify: bool) -> (r:
    OutputMode)
    requires
        can_render(object.bounds(), resolution, *rm),
    ensures
        exists|bitmap: Bitmap, picks: Seq<int>, samples: Seq<Point>, cpus: usize, seeds: Seq<ItemId>| #[trigger]
            rendered_as(&object, *rm, resolution, simplify, bitmap, picks, samples, cpus, seeds, r),
{
    let sample_points = sampling_points(&object, resolution);
    let ghost samples = sample_points@;
    let ghost (bitmap, picks) = choose|bitmap: Bitmap, picks: Seq<int>| #[trigger]
        sampled_as(&object, resolution, bitmap, picks, samples);
    proof {
        lemma_samples_fit(&object, *rm, resolution, bitmap, picks, samples);
    }
    let lines = gather_sampled(resolution, sample_points, &object);
    let ghost segments = lines@;
    let ghost cpus = choose|cpus: usize|
        segments == #[trigger] spec_divide(
            &object,
            samples,
            0,
            spec_chunk_len(samples.len() as int, cpus as int),
            resolution,
        );
    proof {
        lemma_divide_len(
            &object,
            samples,
            0,
            spec_chunk_len(samples.len() as int, cpus as int),
            resolution,
        );
    }
    let (connected_lines, _tree) = connect_lines(lines, resolution);
    let ghost pool = line_pool(segments);
    let ghost seeds = choose|seeds: Seq<ItemId>|
        {
            let start = #[trigger] joined(pool, seeds, resolution);
            &&& seeds_ok(pool, seeds, resolution)
            &&& after(pool, seeds, resolution).dom() =~= Set::<ItemId>::empty()
            &&& chains(connected_lines@) == keep_long(settle(start, total_points(start)))
        };
    let ghost kept = chains(connected_lines@);
    let mut polys: Vec<Vec<Point>> = Vec::new();
    let mut i: usize = 0;
    while i < connected_lines.len()
        invariant
            i <= connected_lines@.len(),
            kept == chains(connected_lines@),
            polys@.len() == i,
            total_points(kept) <= 2 * segments.len(),
            segments.len() <= 2 * MAX_CELLS,
            forall|k: int| 0 <= k < connected_lines@.len() ==> (#[trigger] connected_lines@[k])@.points().len() > 1,
            forall|k: int|
                0 <= k < i ==> (#[trigger] polys@[k])@ == outlines(kept, simplify)[k] && 0
                    < polys@[k]@.len() < u32::MAX - 2,
        decreases connected_lines@.len() - i,
    {
        proof {
            lemma_each_le_total(kept, i as int);
            assert(kept[i as int] == connected_lines@[i as int]@);
        }
        let pts = copy_points(points_of(&connected_lines[i]));
        let pts = if simplify { simplify_line(pts) } else { pts };
        polys.push(pts);
        i += 1;
    }
    proof {
        assert(polys_of(polys@) =~= outlines(kept, simplify));
    }
    let ghost all = polys@;
    let r = transform(polys, rm);
    proof {
        assert forall|k: int| 0 <= k < all.len() implies (#[trigger] all[k])@ == polys_of(all)[k] by {}
        assert(shown(*rm, polys_of(all), r));
        assert(rendered_as(
            &object,
            *rm,
            resolution,
            simplify,
            bitmap,
            picks,
            samples,
            cpus,
            seeds,
            r,
        ));
    }
    r
}

/// Places that go up and lie below `n` are no more than `n`.
pub proof fn lemma_picks_bound(picks: Seq<int>, n: int)
    requires
        forall|k: int| 0 <= k < picks.len() ==> 0 <= #[trigger] picks[k] < n,
        forall|j: int, k: int| 0 <= j < k < picks.len() ==> #[trigger] picks[j] < #[trigger] picks[k],
    ensures
        picks.len() <= (if n > 0 {
            n
        } else {
            0
        }),
    decreases picks.len(),
{
    if picks.len() > 0 {
        let head = picks.drop_last();
        let top = picks.last();
        assert forall|k: int| 0 <= k < head.len() implies 0 <= #[trigger] head[k] < top by {
            assert(head[k] == picks[k]);
            assert(picks[k] < picks[picks.len() - 1]);
        }
        assert forall|j: int, k: int| 0 <= j < k < head.len() implies #[trigger] head[j]
            < #[trigger] head[k] by {
            assert(head[j] == picks[j]);
            assert(head[k] == picks[k]);
        }
        lemma_picks_bound(head, top);
    }
}

/// Whether the lengths of a pattern are fit for dashing.
fn check_lengths(dash: &Vec<i32>) -> (r: bool)
    ensures
        r == (lengths_ok(dash@) && dash@.len() <= 0x7fff_ffff),
{
    if dash.len() == 0 || dash.len() > 0x7fff_ffff {
        return false;
    }
    let mut i: usize = 0;
    while i < dash.len()
        invariant
            i <= dash.len(),
            forall|k: int| 0 <= k < i ==> (#[trigger] dash@[k]) > 0,
        decreases dash.len() - i,
    {
        if dash[i] <= 0 {
            return false;
        }
        i += 1;
    }
    true
}

/// Whether the shape with this box can be rendered at this resolution in
/// this mode.
pub fn check_render(bounds: &Option<Rect>, resolution: i32, mode: &RenderMode) -> (r: bool)
    ensures
        r == can_render(*bounds, resolution, *mode),
{
    if !check_sample(bounds, resolution) {
        return false;
    }
    let bb = match bounds {
        Some(bb) => *bb,
        None => {
            return false;
        },
    };
    let grow: i64 = 3 * (resolution as i64);
    let lo: i64 = i32::MIN as i64;
    let hi: i64 = i32::MAX as i64;
    if bb.top_left.x as i64 - grow < lo || bb.top_left.y as i64 - grow < lo || bb.bottom_right.x as i64
        + grow > hi || bb.bottom_right.y as i64 + grow > hi {
        return false;
    }
    let expand = resolution * 2;
    let sampled = bb.expand(expand, expand, expand, expand);
    let d = SampleDist { x_bump: resolution, y_bump: resolution };
    if count_cells(sampled, d, 1, 7, MAX_CELLS) > MAX_CELLS {
        return false;
    }
    match mode {
        RenderMode::BasicDashed(dash) => check_lengths(dash),
        RenderMode::DashedRepeatingN(dash, _) => check_lengths(dash),
        RenderMode::DashedPerfect(dash) => check_lengths(dash),
        _ => true,
    }
}

/// Renders the shape if it can be rendered at this resolution in this
/// mode.
pub fn try_render<A: Implicit + Sync>(
    object: A,
    rm: &RenderMode,
    resolution: i32,
    simplify: bool,
) -> (r: Option<OutputMode>)
    ensures
        r is Some <==> can_render(object.bounds(), resolution, *rm),
        r is Some ==> exists|
            bitmap: Bitmap,
            picks: Seq<int>,
            samples: Seq<Point>,
            cpus: usize,
            seeds: Seq<ItemId>,
        | #[trigger]
            rendered_as(
                &object,
                *rm,
                resolution,
                simplify,
                bitmap,
                picks,
                samples,
                cpus,
                seeds,
                r->0,
            ),
{
    let bounds = object.bounding_box();
    if check_render(&bounds, resolution, rm) {
        let ghost shape = object;
        let out = render(object, rm, resolution, simplify);
        let r = Some(out);
        proof {
            let (bitmap, picks, samples, cpus, seeds) = choose|
                bitmap: Bitmap,
                picks: Seq<int>,
                samples: Seq<Point>,
                cpus: usize,
                seeds: Seq<ItemId>,
            | #[trigger]
                rendered_as(
                    &shape,
                    *rm,
                    resolution,
                    simplify,
                    bitmap,
                    picks,
                    samples,
                    cpus,
                    seeds,
                    out,
                );
            assert(rendered_as(
                &shape,
                *rm,
                resolution,
                simplify,
                bitmap,
                picks,
                samples,
                cpus,
                seeds,
                r->0,
            ));
        }
        r
    } else {
        None
    }
}

/// The corners of the polygons.
pub open spec fn corners_of(polys: Seq<Polygon>) -> Seq<Seq<Point>> {
    polys.map_values(|p: Polygon| p@)
}

/// Whether all points of all the polylines can be corners of polygons.
pub open spec fn lines_in_range(lines: Seq<Vec<Point>>) -> bool {
    forall|k: int, j: int|
        0 <= k < lines.len() && 0 <= j < lines[k]@.len() ==> in_range(#[trigger] lines[k]@[j])
}

/// Whether `r` is what fixing the rules makes of the shape: there is a
/// rendering of the outlines of the shape at the given resolution,
/// simplified; `r` is the group of the polygons with these outlines if all
/// their points can be corners of polygons, and nothing otherwise.
pub open spec fn fixed_from<A: Implicit>(object: &A, resolution: i32, r: Option<PolyGroup>) -> bool {
    exists|
        out: OutputMode,
        bitmap: Bitmap,
        picks: Seq<int>,
        samples: Seq<Point>,
        cpus: usize,
        seeds: Seq<ItemId>,
    | #[trigger]
        rendered_as(
            object,
            RenderMode::Outline,
            resolution,
            true,
            bitmap,
            picks,
            samples,
            cpus,
            seeds,
            out,
        ) && out is Outline && (r is Some <==> lines_in_range(out->Outline_0@)) && (r is Some
            ==> polys_of(out->Outline_0@) == corners_of(r->0.polys@))
}

/// The shape as a group of polygons, which has a regular field: the
/// outlines of the shape at the given resolution. Nothing if the shape
/// cannot be rendered so, or if an outline reaches farther from the origin
/// than a polygon can.
pub fn fix_rules<A: Implicit + Sync>(object: A, resolution: i32) -> (r: Option<PolyGroup>)
    ensures
        can_render(object.bounds(), resolution, RenderMode::Outline) ==> fixed_from(
            &object,
            resolution,
            r,
        ),
        !can_render(object.bounds(), resolution, RenderMode::Outline) ==> r is None,
{
    let ghost shape = object;
    let rendered = match try_render(object, &RenderMode::Outline, resolution, true) {
        Some(out) => out,
        None => {
            return None;
        },
    };
    let ghost shown_as = rendered;
    let ghost (bitmap, picks, samples, cpus, seeds) = choose|
        bitmap: Bitmap,
        picks: Seq<int>,
        samples: Seq<Point>,
        cpus: usize,
        seeds: Seq<ItemId>,
    | #[trigger]
        rendered_as(
            &shape,
            RenderMode::Outline,
            resolution,
            true,
            bitmap,
            picks,
            samples,
            cpus,
            seeds,
            shown_as,
        );
    let lines = match rendered {
        OutputMode::Outline(lines) => lines,
        _ => {
            proof {
                assert(false);
            }
            return None;
        },
    };
    let mut polys: Vec<Polygon> = Vec::with_capacity(lines.len());
    let mut i: usize = 0;
    while i < lines.len()
        invariant
            i <= lines@.len(),
            polys@.len() == i,
            forall|k: int| 0 <= k < i ==> (#[trigger] polys@[k])@ == lines@[k]@,
            forall|k: int, j: int|
                0 <= k < i && 0 <= j < lines@[k]@.len() ==> in_range(#[trigger] lines@[k]@[j]),
            shape == object,
            shown_as is Outline,
            shown_as->Outline_0 == lines,
            rendered_as(
                &shape,
                RenderMode::Outline,
                resolution,
                true,
                bitmap,
                picks,
                samples,
                cpus,
                seeds,
                shown_as,
            ),
        decreases lines@.len() - i,
    {
        if !all_in_range(&lines[i]) {
            proof {
                let j = choose|j: int|
                    0 <= j < lines@[i as int]@.len() && !in_range(#[trigger] lines@[i as int]@[j]);
                assert(!in_range(lines@[i as int]@[j]));
                assert(!lines_in_range(lines@));
                let none: Option<PolyGroup> = None;
                assert(rendered_as(
                    &shape,
                    RenderMode::Outline,
                    resolution,
                    true,
                    bitmap,
                    picks,
                    samples,
                    cpus,
                    seeds,
                    shown_as,
                ) && shown_as is Outline && (none is Some <==> lines_in_range(
                    shown_as->Outline_0@,
                )) && (none is Some ==> polys_of(shown_as->Outline_0@) == corners_of(
                    none->0.polys@,
                )));
                assert(fixed_from(&shape, resolution, none));
            }
            return None;
        }
        polys.push(Polygon::new(copy_points(&lines[i])));
        i += 1;
    }
    let r = Some(PolyGroup::new(polys));
    proof {
        assert(polys_of(lines@) =~= corners_of(polys@));
        assert(lines_in_range(lines@));
        assert(rendered_as(
            &shape,
            RenderMode::Outline,
            resolution,
            true,
            bitmap,
            picks,
            samples,
            cpus,
            seeds,
            shown_as,
        ) && shown_as is Outline && (r is Some <==> lines_in_range(shown_as->Outline_0@)) && (r is Some
            ==> polys_of(shown_as->Outline_0@) == corners_of(r->0.polys@)));
    }
    r
}

/// The shape with its outline moved inward by `amount` ticks, or left
/// where it is if `amount` is negative.
pub open spec fn shrunk<A: Implicit>(object: A, amount: i32) -> Boundary<A> {
    Boundary {
        target: object,
        move_by: (if amount > 0 {
            -amount
        } else {
            0
        }) as i32,
    }
}

/// The shape with its outline smoothed: shrunk by `amount` ticks, made a
/// group of polygons at the given resolution, and grown again by as much.
/// Nothing where the shrunk shape gives no group of polygons.
pub fn smooth<A: Implicit + Sync>(object: A, amount: i32, resolution: i32) -> (r: Option<
    Boundary<PolyGroup>,
>)
    ensures
        r is Some ==> r->0.move_by == (if amount > 0 {
            amount
        } else {
            0
        }),
        can_render(shrunk(object, amount).bounds(), resolution, RenderMode::Outline) ==> fixed_from(
            &shrunk(object, amount),
            resolution,
            match r {
                Some(b) => Some(b.target),
                None => None,
            },
        ),
        !can_render(shrunk(object, amount).bounds(), resolution, RenderMode::Outline)
            ==> r is None,
{
    match fix_rules(shrink(object, amount), resolution) {
        Some(group) => Some(grow(group, amount)),
        None => None,
    }
}

} // verus!
