use vstd::prelude::*;
use crate::arith::trunc_div;
use crate::geom::{fits_coord, Line, Point, Rect};
use crate::marching_squares::{
    cell_fits, march, march_cell, march_lines, spec_half, spec_march, MarchResult,
};
use crate::Implicit;

verus! {

/// The north-west corner of the cell of size `dist` around `p`.
pub open spec fn corner_a(p: Point, dist: i32) -> Point {
    Point { x: (p.x - spec_half(dist)) as i32, y: (p.y - spec_half(dist)) as i32 }
}

/// The north-east corner of the cell of size `dist` around `p`.
pub open spec fn corner_b(p: Point, dist: i32) -> Point {
    Point { x: (p.x + spec_half(dist)) as i32, y: (p.y - spec_half(dist)) as i32 }
}

/// The south-east corner of the cell of size `dist` around `p`.
pub open spec fn corner_c(p: Point, dist: i32) -> Point {
    Point { x: (p.x + spec_half(dist)) as i32, y: (p.y + spec_half(dist)) as i32 }
}

/// The south-west corner of the cell of size `dist` around `p`.
pub open spec fn corner_d(p: Point, dist: i32) -> Point {
    Point { x: (p.x - spec_half(dist)) as i32, y: (p.y + spec_half(dist)) as i32 }
}

/// The sample that stands for a corner on the left side of a cell: that
/// of the matching corner on the right side of the cell before it, if that
/// lies less than the resolution away, and that of the corner itself
/// otherwise.
pub open spec fn left_sample<S: Implicit>(
    shape: &S,
    before: Option<Point>,
    corner: Point,
    resolution: i32,
) -> i64 {
    match before {
        Some(pp) => if pp.spec_close_to(corner, resolution) {
            shape.value(pp)
        } else {
            shape.value(corner)
        },
        None => shape.value(corner),
    }
}

/// The segments of the cell around `p`, where `prev` is the center of the
/// cell that was sampled before it, if there was one.
pub open spec fn cell_lines<S: Implicit>(
    shape: &S,
    prev: Option<Point>,
    p: Point,
    resolution: i32,
) -> Seq<Line> {
    let sra = left_sample(
        shape,
        match prev {
            Some(q) => Some(corner_b(q, resolution)),
            None => None,
        },
        corner_a(p, resolution),
        resolution,
    );
    let srd = left_sample(
        shape,
        match prev {
            Some(q) => Some(corner_c(q, resolution)),
            None => None,
        },
        corner_d(p, resolution),
        resolution,
    );
    let srb = shape.value(corner_b(p, resolution));
    let src = shape.value(corner_c(p, resolution));
    spec_march(sra, srb, src, srd, shape.value(p), p, resolution).lines()
}

/// The segments of the cells around the points from place `from` up to
/// place `to`, one cell after the other.
pub open spec fn spec_sample_these<S: Implicit>(
    shape: &S,
    points: Seq<Point>,
    from: int,
    to: int,
    resolution: i32,
) -> Seq<Line>
    decreases to - from,
{
    if to <= from {
        seq![]
    } else {
        spec_sample_these(shape, points, from, to - 1, resolution) + cell_lines(
            shape,
            if to - 1 > from {
                Some(points[to - 2])
            } else {
                None
            },
            points[to - 1],
            resolution,
        )
    }
}

/// Whether the cells of the given size around all the points lie on the
/// grid.
pub open spec fn cells_fit(points: Seq<Point>, resolution: i32) -> bool {
    forall|k: int| 0 <= k < points.len() ==> cell_fits(#[trigger] points[k], resolution)
}

/// Whether the cells of the given size around all the points lie on the
/// grid.
pub fn check_cells(points: &Vec<Point>, resolution: i32) -> (r: bool)
    ensures
        r == cells_fit(points@, resolution),
{
    if resolution < 0 {
        proof {
            if points@.len() > 0 {
                assert(!cell_fits(points@[0], resolution));
            }
        }
        return points.len() == 0;
    }
    let half: i64 = (resolution / 2) as i64;
    let lo: i64 = i32::MIN as i64;
    let hi: i64 = i32::MAX as i64;
    let mut i: usize = 0;
    while i < points.len()
        invariant
            i <= points@.len(),
            resolution >= 0,
            half == crate::marching_squares::spec_half(resolution),
            lo == i32::MIN,
            hi == i32::MAX,
            forall|k: int| 0 <= k < i ==> cell_fits(#[trigger] points@[k], resolution),
        decreases points@.len() - i,
    {
        let p = points[i];
        if p.x as i64 - half < lo || p.x as i64 + half > hi || p.y as i64 - half < lo || p.y as i64
            + half > hi {
            proof {
                assert(!cell_fits(points@[i as int], resolution));
            }
            return false;
        }
        i += 1;
    }
    true
}

/// The segments of the cells around the points from place `from` up to
/// place `to`. A corner on the left side of a cell takes its sample from
/// the cell before it where the two lie close together.
pub fn sample_these<S: Implicit>(
    shape: &S,
    points: &Vec<Point>,
    from: usize,
    to: usize,
    resolution: i32,
) -> (r: Vec<Line>)
    requires
        from <= to <= points@.len(),
        cells_fit(points@, resolution),
    ensures
        r@ == spec_sample_these(shape, points@, from as int, to as int, resolution),
{
    let mut local_lines: Vec<Line> = Vec::new();
    // Previously sampled points
    let mut p_right_top: Option<(Point, i64)> = None;
    let mut p_right_bot: Option<(Point, i64)> = None;
    let mut i: usize = from;
    while i < to
        invariant
            from <= i <= to <= points@.len(),
            cells_fit(points@, resolution),
            local_lines@ == spec_sample_these(shape, points@, from as int, i as int, resolution),
            i == from ==> p_right_top is None && p_right_bot is None,
            i > from ==> p_right_top == Some(
                (
                    corner_b(points@[i - 1], resolution),
                    shape.value(corner_b(points@[i - 1], resolution)),
                ),
            ) && p_right_bot == Some(
                (
                    corner_c(points@[i - 1], resolution),
                    shape.value(corner_c(points@[i - 1], resolution)),
                ),
            ),
        decreases to - i,
    {
        let p: Point = points[i];
        proof {
            assert(cell_fits(points@[i as int], resolution));
        }
        let half: i32 = resolution / 2;
        let sa = Point { x: p.x - half, y: p.y - half };
        let sb = Point { x: p.x + half, y: p.y - half };
        let sc = Point { x: p.x + half, y: p.y + half };
        let sd = Point { x: p.x - half, y: p.y + half };

        let sra = match p_right_top {
            Some((pp, pv)) => if pp.close_to(&sa, resolution) {
                pv
            } else {
                shape.sample(sa)
            },
            None => shape.sample(sa),
        };
        let srd = match p_right_bot {
            Some((pp, pv)) => if pp.close_to(&sd, resolution) {
                pv
            } else {
                shape.sample(sd)
            },
            None => shape.sample(sd),
        };
        let srb = shape.sample(sb);
        let src = shape.sample(sc);

        p_right_top = Some((sb, srb));
        p_right_bot = Some((sc, src));

        let ghost before = local_lines@;
        match march(sra, srb, src, srd, None, shape, p, resolution) {
            MarchResult::Nothing => {},
            MarchResult::One(line) => {
                local_lines.push(line);
            },
            MarchResult::Two(line1, line2) => {
                local_lines.push(line1);
                local_lines.push(line2);
            },
            MarchResult::OneDebug(_) | MarchResult::Debug => {},
        }
        proof {
            let cell = cell_lines(
                shape,
                if i > from {
                    Some(points@[i - 1])
                } else {
                    None
                },
                p,
                resolution,
            );
            assert(local_lines@ =~= before + cell);
        }
        i += 1;
    }
    local_lines
}

/// The segments of the cells around the points from place `start` on,
/// taken in chunks of `chunk` points: first the segments of the last chunk,
/// last those of the first.
pub open spec fn spec_divide<S: Implicit>(
    shape: &S,
    points: Seq<Point>,
    start: int,
    chunk: int,
    resolution: i32,
) -> Seq<Line>
    decreases points.len() - start,
{
    if start >= points.len() || chunk <= 0 || start < 0 {
        seq![]
    } else if start + chunk >= points.len() {
        spec_sample_these(shape, points, start, points.len() as int, resolution)
    } else {
        spec_divide(shape, points, start + chunk, chunk, resolution) + spec_sample_these(
            shape,
            points,
            start,
            start + chunk,
            resolution,
        )
    }
}

/// A cell gives two segments at most.
pub proof fn lemma_sample_these_len<S: Implicit>(
    shape: &S,
    points: Seq<Point>,
    from: int,
    to: int,
    resolution: i32,
)
    ensures
        spec_sample_these(shape, points, from, to, resolution).len() <= (if to > from {
            2 * (to - from)
        } else {
            0
        }),
    decreases to - from,
{
    if to > from {
        lemma_sample_these_len(shape, points, from, to - 1, resolution);
    }
}

/// The cells of all chunks together give two segments each at most.
pub proof fn lemma_divide_len<S: Implicit>(
    shape: &S,
    points: Seq<Point>,
    start: int,
    chunk: int,
    resolution: i32,
)
    ensures
        spec_divide(shape, points, start, chunk, resolution).len() <= (if 0 <= start
            < points.len() {
            2 * (points.len() - start)
        } else {
            0
        }),
    decreases points.len() - start,
{
    if start >= points.len() || chunk <= 0 || start < 0 {
    } else if start + chunk >= points.len() {
        lemma_sample_these_len(shape, points, start, points.len() as int, resolution);
    } else {
        lemma_divide_len(shape, points, start + chunk, chunk, resolution);
        lemma_sample_these_len(shape, points, start, start + chunk, resolution);
    }
}

/// `rayon::join` on a chunk and the chunks after it: the chunk, from
/// place `start` up to place `next`, is sampled by `sample_these` and the
/// others by `divide`, possibly at the same time, and the two results come
/// back as a pair, that of the chunk first.
#[verifier::external_body]
fn join_chunks<S: Implicit + Sync>(
    shape: &S,
    points: &Vec<Point>,
    start: usize,
    next: usize,
    chunk: usize,
    resolution: i32,
) -> (r: (Vec<Line>, Vec<Line>))
    requires
        chunk > 0,
        start <= next < points@.len(),
        cells_fit(points@, resolution),
    ensures
        r.0@ == spec_sample_these(shape, points@, start as int, next as int, resolution),
        r.1@ == spec_divide(shape, points@, next as int, chunk as int, resolution),
{
    rayon::join(
        || sample_these(shape, points, start, next, resolution),
        || divide(shape, points, next, chunk, resolution),
    )
}

/// The segments of the cells around the points from place `start` on,
/// chunk by chunk.
pub fn divide<S: Implicit + Sync>(
    shape: &S,
    points: &Vec<Point>,
    start: usize,
    chunk: usize,
    resolution: i32,
) -> (r: Vec<Line>)
    requires
        chunk > 0,
        start <= points@.len(),
        cells_fit(points@, resolution),
    ensures
        r@ == spec_divide(shape, points@, start as int, chunk as int, resolution),
{
    let n = points.len();
    if start >= n {
        return Vec::new();
    }
    if chunk >= n - start {
        return sample_these(shape, points, start, n, resolution);
    }
    let next = start + chunk;
    let (mut cur, mut rest) = join_chunks(shape, points, start, next, chunk, resolution);
    rest.append(&mut cur);
    rest
}

/// `num_cpus::get`: the number of processors that this process may use,
/// of which nothing is known beforehand.
#[verifier::external_body]
fn cpu_count() -> (r: usize) {
    num_cpus::get()
}

/// The number of points in a chunk when `len` points are shared out
/// among `cpus` workers: `len / cpus`, but at least one.
pub open spec fn spec_chunk_len(len: int, cpus: int) -> int {
    if cpus <= 0 || len / cpus <= 0 {
        1
    } else {
        len / cpus
    }
}

/// The number of points in a chunk when `len` points are shared out among
/// `cpus` workers.
pub fn chunk_len(len: usize, cpus: usize) -> (r: usize)
    ensures
        r == spec_chunk_len(len as int, cpus as int),
        r > 0,
{
    if cpus == 0 || len / cpus == 0 {
        1
    } else {
        len / cpus
    }
}

/// The segments of the cells around the sample points, from chunks of a
/// given size.
pub fn gather_chunked<S: Implicit + Sync>(
    resolution: i32,
    sample_points: &Vec<Point>,
    shape: &S,
    cpus: usize,
) -> (r: Vec<Line>)
    requires
        cells_fit(sample_points@, resolution),
    ensures
        r@ == spec_divide(
            shape,
            sample_points@,
            0,
            spec_chunk_len(sample_points@.len() as int, cpus as int),
            resolution,
        ),
{
    let chunk = chunk_len(sample_points.len(), cpus);
    divide(shape, sample_points, 0, chunk, resolution)
}

/// The segments of the cells around the sample points. The points are
/// shared out in chunks among as many workers as the machine has
/// processors.
pub fn gather_sampled<S: Implicit + Sync>(
    resolution: i32,
    sample_points: Vec<Point>,
    shape: &S,
) -> (r: Vec<Line>)
    requires
        cells_fit(sample_points@, resolution),
    ensures
        exists|cpus: usize|
            r@ == #[trigger] spec_divide(
                shape,
                sample_points@,
                0,
                spec_chunk_len(sample_points@.len() as int, cpus as int),
                resolution,
            ),
{
    let cpus = cpu_count();
    gather_chunked(resolution, &sample_points, shape, cpus)
}

/// Builds a tree of what a top-down search for the outline finds. What
/// the tree is made of is up to the producer.
pub trait QuadTreeProducer {
    type Tree;

    fn make_leaf_full(&mut self, rect: Rect) -> Self::Tree;

    fn make_leaf_empty(&mut self, rect: Rect) -> Self::Tree;

    fn make_leaf_line(&mut self, rect: Rect, fill: i64, line: Line) -> Self::Tree;

    fn make_leaf_double_line(&mut self, rect: Rect, fill: i64, l1: Line, l2: Line) -> Self::Tree;

    fn make_branch(
        &mut self,
        rect: Rect,
        a: Self::Tree,
        b: Self::Tree,
        c: Self::Tree,
        d: Self::Tree,
    ) -> Self::Tree;

    fn make_empty(&mut self, rect: Rect, fill: i64) -> Self::Tree;
}

/// A producer that builds nothing.
pub struct NoTree;

impl QuadTreeProducer for NoTree {
    type Tree = ();

    fn make_leaf_full(&mut self, _rect: Rect) -> Self::Tree {
    }

    fn make_leaf_empty(&mut self, _rect: Rect) -> Self::Tree {
    }

    fn make_leaf_line(&mut self, _rect: Rect, _fill: i64, _line: Line) -> Self::Tree {
    }

    fn make_leaf_double_line(&mut self, _rect: Rect, _fill: i64, _l1: Line, _l2: Line) -> Self::Tree {
    }

    fn make_branch(
        &mut self,
        _rect: Rect,
        _a: Self::Tree,
        _b: Self::Tree,
        _c: Self::Tree,
        _d: Self::Tree,
    ) -> Self::Tree {
    }

    fn make_empty(&mut self, _rect: Rect, _fill: i64) -> Self::Tree {
    }
}

/// The farthest from the origin, on either axis, that a corner of a box
/// may lie that is searched top-down.
pub const SEARCH_LIMIT: i32 = 0x2000_0000;

/// Whether the box can be searched top-down: it is well formed and not
/// null, and its corners lie within `SEARCH_LIMIT` of the origin.
pub open spec fn searchable(rect: Rect) -> bool {
    &&& rect.wf()
    &&& !rect.null
    &&& -SEARCH_LIMIT <= rect.top_left.x
    &&& -SEARCH_LIMIT <= rect.top_left.y
    &&& rect.bottom_right.x <= SEARCH_LIMIT
    &&& rect.bottom_right.y <= SEARCH_LIMIT
}

/// Whether a sample `v` at the midpoint of the box tells that the outline
/// does not pass through the box: the square of the sample is more than
/// twice the square of half the width.
pub open spec fn far_from_outline(v: i64, rect: Rect) -> bool {
    v * v > 2 * (trunc_div(rect.spec_width(), 2) * trunc_div(rect.spec_width(), 2))
}

/// Whether the search leaves the box out: the field of the shape is
/// regular, and its sample at the midpoint of the box tells that the
/// outline does not pass.
pub open spec fn left_out<S: Implicit + ?Sized>(shape: &S, rect: Rect) -> bool {
    shape.regular() && far_from_outline(shape.value(rect.spec_midpoint()), rect)
}

/// The tree of a square that the search leaves out, if it leaves the square
/// out: the sample `v` at its midpoint shows that the outline is farther away
/// than the square reaches.
pub fn should_early_return<P: QuadTreeProducer>(p: &mut P, v: i64, rect: Rect) -> (r: Option<
    P::Tree,
>)
    ensures
        r is Some <==> far_from_outline(v, rect),
{
    let r: i128 = crate::arith::div_toward_zero(rect.width() as i128, 2);
    proof {
        crate::arith::lemma_trunc_div_bound(rect.spec_width(), 2);
        crate::arith::lemma_square_bound(r as int, 0x1_0000_0000);
        crate::arith::lemma_square_bound(v as int, 0x8000_0000_0000_0000);
    }
    let furthest: i128 = 2 * (r * r);
    let vv: i128 = (v as i128) * (v as i128);
    if vv > furthest {
        Some(
            if v < 0 {
                p.make_leaf_full(rect)
            } else {
                p.make_leaf_empty(rect)
            },
        )
    } else {
        None
    }
}

/// The quarter of the box between the given corner and the midpoint.
pub open spec fn quarter(rect: Rect, corner: Point) -> Rect {
    Rect::spec_null_at(corner).spec_expanded_by(rect.spec_midpoint())
}

/// The quarter of the square between its top-left corner and its midpoint.
pub open spec fn nw_quad(rect: Rect) -> Rect {
    quarter(rect, rect.top_left)
}

/// The quarter of the square between its top-right corner and its midpoint.
pub open spec fn ne_quad(rect: Rect) -> Rect {
    quarter(rect, Point { x: rect.bottom_right.x, y: rect.top_left.y })
}

/// The quarter of the square between its bottom-right corner and its
/// midpoint.
pub open spec fn se_quad(rect: Rect) -> Rect {
    quarter(rect, rect.bottom_right)
}

/// The quarter of the square between its bottom-left corner and its midpoint.
pub open spec fn sw_quad(rect: Rect) -> Rect {
    quarter(rect, Point { x: rect.top_left.x, y: rect.bottom_right.y })
}

/// The quarters of a box that can be searched can be searched.
pub proof fn lemma_quarters_searchable(rect: Rect)
    requires
        searchable(rect),
    ensures
        searchable(nw_quad(rect)),
        searchable(ne_quad(rect)),
        searchable(se_quad(rect)),
        searchable(sw_quad(rect)),
        rect.spec_contains(rect.spec_midpoint()),
        cell_fits(rect.spec_midpoint(), rect.spec_width() as i32),
        0 <= rect.spec_width() <= 2 * SEARCH_LIMIT,
{
    crate::arith::lemma_trunc_div_bound(rect.spec_width(), 2);
    crate::arith::lemma_trunc_div_bound(rect.spec_height(), 2);
}

/// The segments of one cell of the finest level, with corner samples `a`
/// (north-west), `b` (north-east), `c` (south-east), `d` (south-west): none
/// if the search leaves the cell out.
pub open spec fn spec_gather_final<S: Implicit + ?Sized>(
    shape: &S,
    rect: Rect,
    a: i64,
    b: i64,
    c: i64,
    d: i64,
) -> Seq<Line> {
    let m = shape.value(rect.spec_midpoint());
    if left_out(shape, rect) {
        seq![]
    } else {
        march_lines(a, b, c, d, m, rect.spec_midpoint(), rect.spec_width() as i32)
    }
}

/// Appends to `out` the segments of the square as one cell whose samples at
/// the corners are `a`, `b`, `c` and `d`; the sample at the midpoint is taken
/// where the cell is a saddle.
pub fn gather_final<S: Implicit + ?Sized, P: QuadTreeProducer>(
    p: &mut P,
    shape: &S,
    rect: Rect,
    out: &mut Vec<Line>,
    a: i64,
    b: i64,
    c: i64,
    d: i64,
) -> (r: P::Tree)
    requires
        searchable(rect),
    ensures
        final(out)@ == old(out)@ + spec_gather_final(shape, rect, a, b, c, d),
{
    let midpoint = rect.midpoint();
    let m = shape.sample(midpoint);
    proof {
        lemma_quarters_searchable(rect);
        reveal(march_lines);
    }
    if shape.follows_rules() {
        if let Some(early_return) = should_early_return(p, m, rect) {
            proof {
                assert(out@ =~= old(out)@ + Seq::<Line>::empty());
            }
            return early_return;
        }
    }
    let result = march_cell(a, b, c, d, m, midpoint, rect.width() as i32);
    match result {
        MarchResult::One(l) => {
            out.push(l);
            proof {
                assert(out@ =~= old(out)@ + seq![l]);
            }
            p.make_leaf_line(rect, m, l)
        },
        MarchResult::Two(l1, l2) => {
            out.push(l1);
            out.push(l2);
            proof {
                assert(out@ =~= old(out)@ + seq![l1, l2]);
            }
            p.make_leaf_double_line(rect, m, l1, l2)
        },
        _ => {
            proof {
                assert(out@ =~= old(out)@ + Seq::<Line>::empty());
            }
            p.make_empty(rect, m)
        },
    }
}

/// The segments that a top-down search of the box finds: none if the
/// search leaves the box out; otherwise
/// those of the four quarters, north-west, north-east, south-east,
/// south-west, which at depth 1 are cells of the finest level.
pub open spec fn spec_gather<S: Implicit + ?Sized>(shape: &S, rect: Rect, depth: u32) -> Seq<Line>
    decreases depth,
{
    let mid = rect.spec_midpoint();
    let m = shape.value(mid);
    if left_out(shape, rect) || depth == 0 {
        seq![]
    } else if depth == 1 {
        spec_gather_cells(shape, rect)
    } else {
        spec_gather(shape, nw_quad(rect), (depth - 1) as u32) + spec_gather(
            shape,
            ne_quad(rect),
            (depth - 1) as u32,
        ) + spec_gather(shape, se_quad(rect), (depth - 1) as u32) + spec_gather(
            shape,
            sw_quad(rect),
            (depth - 1) as u32,
        )
    }
}

/// Appends to `out` the segments of the outline in the square, found by
/// searching it down to `depth`: a square that the outline of a shape with
/// a regular field cannot reach is left out, the quarters of a square at
/// depth 1 are cut as cells, and every other square is searched quarter by
/// quarter. The places of a square are named
///
/// ```text
/// A N B
/// W M E
/// D S C
/// ```
#[verifier::rlimit(40)]
pub fn gather<S: Implicit + ?Sized, P: QuadTreeProducer>(
    p: &mut P,
    shape: &S,
    rect: Rect,
    depth: u32,
    out: &mut Vec<Line>,
) -> (r: P::Tree)
    requires
        searchable(rect),
        depth >= 1,
    ensures
        final(out)@ == old(out)@ + spec_gather(shape, rect, depth),
    decreases depth,
{
    let midpoint = rect.midpoint();
    let m = shape.sample(midpoint);
    proof {
        lemma_quarters_searchable(rect);
    }
    if shape.follows_rules() {
        if let Some(early_return) = should_early_return(p, m, rect) {
            proof {
                assert(out@ =~= old(out)@ + Seq::<Line>::empty());
            }
            return early_return;
        }
    }
    let nw_quad = Rect::from_points(&rect.top_left(), &midpoint);
    let ne_quad = Rect::from_points(&rect.top_right(), &midpoint);
    let se_quad = Rect::from_points(&rect.bottom_right(), &midpoint);
    let sw_quad = Rect::from_points(&rect.bottom_left(), &midpoint);

    if depth == 1 {
        let (xa, xb, xc, xd) = gather_cells(p, shape, rect, m, out);
        p.make_branch(rect, xa, xb, xc, xd)
    } else {
        let ghost s0 = out@;
        let xa = gather(p, shape, nw_quad, depth - 1, out);
        let ghost s1 = out@;
        let xb = gather(p, shape, ne_quad, depth - 1, out);
        let ghost s2 = out@;
        let xc = gather(p, shape, se_quad, depth - 1, out);
        let ghost s3 = out@;
        let xd = gather(p, shape, sw_quad, depth - 1, out);
        proof {
            let ga = spec_gather(shape, nw_quad, (depth - 1) as u32);
            let gb = spec_gather(shape, ne_quad, (depth - 1) as u32);
            let gc = spec_gather(shape, se_quad, (depth - 1) as u32);
            let gd = spec_gather(shape, sw_quad, (depth - 1) as u32);
            assert(s1 == s0 + ga);
            assert(s2 == s1 + gb);
            assert(s3 == s2 + gc);
            assert(out@ == s3 + gd);
            assert(out@ =~= s0 + (ga + gb + gc + gd));
            assert(spec_gather(shape, rect, depth) == ga + gb + gc + gd);
        }
        p.make_branch(rect, xa, xb, xc, xd)
    }
}

/// The segments of the four quarters of the box as cells of the finest
/// level, north-west, north-east, south-east, south-west.
pub open spec fn spec_gather_cells<S: Implicit + ?Sized>(shape: &S, rect: Rect) -> Seq<Line> {
    let mid = rect.spec_midpoint();
    let m = shape.value(mid);
    let a = shape.value(rect.top_left);
    let b = shape.value(Point { x: rect.bottom_right.x, y: rect.top_left.y });
    let c = shape.value(rect.bottom_right);
    let d = shape.value(Point { x: rect.top_left.x, y: rect.bottom_right.y });
    let n = shape.value(Point { x: mid.x, y: rect.top_left.y });
    let s = shape.value(Point { x: mid.x, y: rect.bottom_right.y });
    let e = shape.value(Point { x: rect.bottom_right.x, y: mid.y });
    let w = shape.value(Point { x: rect.top_left.x, y: mid.y });
    spec_gather_final(shape, nw_quad(rect), a, n, m, w) + spec_gather_final(
        shape,
        ne_quad(rect),
        n,
        b,
        e,
        m,
    ) + spec_gather_final(shape, se_quad(rect), m, e, c, s) + spec_gather_final(
        shape,
        sw_quad(rect),
        w,
        m,
        s,
        d,
    )
}

/// The last step of `gather`: each quarter of the square is cut as one
/// cell.
#[verifier::rlimit(40)]
fn gather_cells<S: Implicit + ?Sized, P: QuadTreeProducer>(
    p: &mut P,
    shape: &S,
    rect: Rect,
    m: i64,
    out: &mut Vec<Line>,
) -> (r: (P::Tree, P::Tree, P::Tree, P::Tree))
    requires
        searchable(rect),
        m == shape.value(rect.spec_midpoint()),
    ensures
        final(out)@ == old(out)@ + spec_gather_cells(shape, rect),
{
    proof {
        lemma_quarters_searchable(rect);
    }
    let midpoint = rect.midpoint();
    let nw_quad = Rect::from_points(&rect.top_left(), &midpoint);
    let ne_quad = Rect::from_points(&rect.top_right(), &midpoint);
    let se_quad = Rect::from_points(&rect.bottom_right(), &midpoint);
    let sw_quad = Rect::from_points(&rect.bottom_left(), &midpoint);
    let (north, south, east, west) = (rect.north(), rect.south(), rect.east(), rect.west());

    let a = shape.sample(rect.top_left());
    let b = shape.sample(rect.top_right());
    let c = shape.sample(rect.bottom_right());
    let d = shape.sample(rect.bottom_left());

    let n = shape.sample(north);
    let s = shape.sample(south);
    let e = shape.sample(east);
    let w = shape.sample(west);

    let ghost s0 = out@;
    let xa = gather_final(p, shape, nw_quad, out, a, n, m, w);
    let ghost s1 = out@;
    let xb = gather_final(p, shape, ne_quad, out, n, b, e, m);
    let ghost s2 = out@;
    let xc = gather_final(p, shape, se_quad, out, m, e, c, s);
    let ghost s3 = out@;
    let xd = gather_final(p, shape, sw_quad, out, w, m, s, d);
    proof {
        let ga = spec_gather_final(shape, nw_quad, a, n, m, w);
        let gb = spec_gather_final(shape, ne_quad, n, b, e, m);
        let gc = spec_gather_final(shape, se_quad, m, e, c, s);
        let gd = spec_gather_final(shape, sw_quad, w, m, s, d);
        assert(out@ =~= s0 + (ga + gb + gc + gd));
    }
    (xa, xb, xc, xd)
}

/// The square in which the outline of a shape with box `bb` is searched:
/// around the midpoint of the box, reaching to every side as far as the
/// longer side of the box and a sixth more.
pub open spec fn search_square(bb: Rect) -> Rect {
    let w = bb.spec_width() + trunc_div(bb.spec_width(), 6);
    let h = bb.spec_height() + trunc_div(bb.spec_height(), 6);
    let r = if w >= h { w } else { h };
    let m = bb.spec_midpoint();
    Rect::spec_null_at(Point { x: (m.x - r) as i32, y: (m.y - r) as i32 }).spec_expanded_by(
        Point { x: (m.x + r) as i32, y: (m.y + r) as i32 },
    )
}

/// What a top-down search asks of a shape: it is bounded by a
/// well-formed box, and the square in which its outline is searched lies
/// within `SEARCH_LIMIT` of the origin.
pub open spec fn can_search(bb: Option<Rect>) -> bool {
    &&& bb is Some
    &&& bb->0.wf()
    &&& !bb->0.null
    &&& {
        let w = bb->0.spec_width() + trunc_div(bb->0.spec_width(), 6);
        let h = bb->0.spec_height() + trunc_div(bb->0.spec_height(), 6);
        let r = if w >= h { w } else { h };
        let m = bb->0.spec_midpoint();
        &&& -SEARCH_LIMIT <= m.x - r
        &&& -SEARCH_LIMIT <= m.y - r
        &&& m.x + r <= SEARCH_LIMIT
        &&& m.y + r <= SEARCH_LIMIT
    }
}

/// Whether the outline of a shape with this box can be searched top-down.
pub fn check_search(bb: &Option<Rect>) -> (r: bool)
    ensures
        r == can_search(*bb),
{
    let bb = match bb {
        Some(bb) => *bb,
        None => {
            return false;
        },
    };
    if bb.null || bb.top_left.x > bb.bottom_right.x || bb.top_left.y > bb.bottom_right.y {
        return false;
    }
    let w: i64 = bb.width();
    let h: i64 = bb.height();
    proof {
        crate::arith::lemma_trunc_div_bound(w as int, 6);
        crate::arith::lemma_trunc_div_bound(h as int, 6);
    }
    let w: i64 = w + w / 6;
    let h: i64 = h + h / 6;
    let r: i64 = if w >= h { w } else { h };
    let m = bb.midpoint();
    let limit: i64 = SEARCH_LIMIT as i64;
    -limit <= m.x as i64 - r && -limit <= m.y as i64 - r && m.x as i64 + r <= limit && m.y as i64
        + r <= limit
}

/// The square in which the outline of a shape with this box is searched.
fn search_square_of(bb: &Rect) -> (r: Rect)
    requires
        can_search(Some(*bb)),
    ensures
        r == search_square(*bb),
        searchable(r),
{
    let w: i64 = bb.width();
    let h: i64 = bb.height();
    proof {
        crate::arith::lemma_trunc_div_bound(w as int, 6);
        crate::arith::lemma_trunc_div_bound(h as int, 6);
    }
    let w: i64 = w + w / 6;
    let h: i64 = h + h / 6;
    let r: i64 = if w >= h { w } else { h };
    let m = bb.midpoint();
    Rect::centered_with_radius(&m, r as i32)
}

/// The segments of the outline of the shape, found by a top-down search
/// of a square around the shape down to the given depth, or to depth 1 if
/// the depth is 0; with them the tree that the producer has built.
pub fn gather_lines<S: Implicit + Sync + ?Sized, P: QuadTreeProducer>(
    p: &mut P,
    shape: &S,
    depth: u32,
) -> (r: (P::Tree, Vec<Line>))
    requires
        can_search(shape.bounds()),
    ensures
        r.1@ == spec_gather(
            shape,
            search_square(shape.bounds()->0),
            if depth == 0 {
                1
            } else {
                depth
            },
        ),
{
    let mut out: Vec<Line> = Vec::new();
    let depth = if depth == 0 { 1 } else { depth };
    let bb = match shape.bounding_box() {
        Some(bb) => bb,
        None => {
            proof {
                assert(false);
            }
            Rect::null()
        },
    };
    let bounding_box = search_square_of(&bb);
    let tree = gather(p, shape, bounding_box, depth, &mut out);
    proof {
        assert(out@ =~= spec_gather(shape, bounding_box, depth));
    }
    (tree, out)
}

/// The segments that a top-down search of the box finds when the corner
/// samples `a`, `b`, `c`, `d` are handed down: none if the search leaves
/// the box out; at depth 0 those of the box as one cell; otherwise those of
/// its four quarters.
pub open spec fn spec_gather_real<S: Implicit + ?Sized>(
    shape: &S,
    rect: Rect,
    depth: u32,
    a: i64,
    b: i64,
    c: i64,
    d: i64,
) -> Seq<Line>
    decreases depth, 1int,
{
    let mid = rect.spec_midpoint();
    let m = shape.value(mid);
    if left_out(shape, rect) {
        seq![]
    } else if depth == 0 {
        march_lines(a, b, c, d, m, mid, rect.spec_width() as i32)
    } else {
        spec_quarters_real(shape, rect, depth, a, b, c, d)
    }
}

/// The segments that a top-down search finds in the four quarters of the
/// box, north-west, north-east, south-east, south-west, one level further
/// down.
pub open spec fn spec_quarters_real<S: Implicit + ?Sized>(
    shape: &S,
    rect: Rect,
    depth: u32,
    a: i64,
    b: i64,
    c: i64,
    d: i64,
) -> Seq<Line>
    decreases depth, 0int,
{
    let mid = rect.spec_midpoint();
    let m = shape.value(mid);
    let n = shape.value(Point { x: mid.x, y: rect.top_left.y });
    let s = shape.value(Point { x: mid.x, y: rect.bottom_right.y });
    let e = shape.value(Point { x: rect.bottom_right.x, y: mid.y });
    let w = shape.value(Point { x: rect.top_left.x, y: mid.y });
    if depth == 0 {
        seq![]
    } else {
        spec_gather_real(shape, nw_quad(rect), (depth - 1) as u32, a, n, m, w) + spec_gather_real(
            shape,
            ne_quad(rect),
            (depth - 1) as u32,
            n,
            b,
            e,
            m,
        ) + spec_gather_real(shape, se_quad(rect), (depth - 1) as u32, m, e, c, s)
            + spec_gather_real(shape, sw_quad(rect), (depth - 1) as u32, w, m, s, d)
    }
}

/// The last step of `gather_real`: the square, with known samples at its
/// corners, is cut as one cell.
#[verifier::rlimit(40)]
fn gather_leaf<S: Implicit + ?Sized, P: QuadTreeProducer>(
    p: &mut P,
    shape: &S,
    rect: Rect,
    m: i64,
    out: &mut Vec<Line>,
    a: i64,
    b: i64,
    c: i64,
    d: i64,
) -> (r: P::Tree)
    requires
        searchable(rect),
        m == shape.value(rect.spec_midpoint()),
    ensures
        final(out)@ == old(out)@ + march_lines(
            a,
            b,
            c,
            d,
            m,
            rect.spec_midpoint(),
            rect.spec_width() as i32,
        ),
{
    proof {
        lemma_quarters_searchable(rect);
        reveal(march_lines);
    }
    let midpoint = rect.midpoint();
    let result = march(a, b, c, d, Some(m), shape, midpoint, rect.width() as i32);
    match result {
        MarchResult::One(l) => {
            out.push(l);
            proof {
                assert(out@ =~= old(out)@ + seq![l]);
            }
            p.make_leaf_line(rect, m, l)
        },
        MarchResult::Two(l1, l2) => {
            out.push(l1);
            out.push(l2);
            proof {
                assert(out@ =~= old(out)@ + seq![l1, l2]);
            }
            p.make_leaf_double_line(rect, m, l1, l2)
        },
        _ => {
            proof {
                assert(out@ =~= old(out)@ + Seq::<Line>::empty());
            }
            p.make_empty(rect, m)
        },
    }
}

/// Appends to `out` the segments of the outline in the square, of which
/// the samples at the corners A, B, C and D are known, found by searching
/// it down to `depth`: at depth 0 the square is cut as one cell. The places
/// of a square are named
///
/// ```text
/// A N B
/// W M E
/// D S C
/// ```
#[verifier::rlimit(40)]
pub fn gather_real<S: Implicit + ?Sized, P: QuadTreeProducer>(
    p: &mut P,
    shape: &S,
    rect: Rect,
    depth: u32,
    out: &mut Vec<Line>,
    a: i64,
    b: i64,
    c: i64,
    d: i64,
) -> (r: P::Tree)
    requires
        searchable(rect),
    ensures
        final(out)@ == old(out)@ + spec_gather_real(shape, rect, depth, a, b, c, d),
    decreases depth, 1int,
{
    let midpoint = rect.midpoint();
    let m = shape.sample(midpoint);
    if shape.follows_rules() {
        if let Some(early_return) = should_early_return(p, m, rect) {
            proof {
                assert(out@ =~= old(out)@ + Seq::<Line>::empty());
            }
            return early_return;
        }
    }
    if depth == 0 {
        gather_leaf(p, shape, rect, m, out, a, b, c, d)
    } else {
        gather_quarters(p, shape, rect, depth, m, out, a, b, c, d)
    }
}

/// The step of `gather_real` that searches the four quarters of the
/// square, each with the samples at its own corners.
#[verifier::rlimit(40)]
fn gather_quarters<S: Implicit + ?Sized, P: QuadTreeProducer>(
    p: &mut P,
    shape: &S,
    rect: Rect,
    depth: u32,
    m: i64,
    out: &mut Vec<Line>,
    a: i64,
    b: i64,
    c: i64,
    d: i64,
) -> (r: P::Tree)
    requires
        searchable(rect),
        depth >= 1,
        m == shape.value(rect.spec_midpoint()),
    ensures
        final(out)@ == old(out)@ + spec_quarters_real(shape, rect, depth, a, b, c, d),
    decreases depth, 0int,
{
    proof {
        lemma_quarters_searchable(rect);
    }
    let midpoint = rect.midpoint();
    let (north, south, east, west) = (rect.north(), rect.south(), rect.east(), rect.west());
    let n = shape.sample(north);
    let s = shape.sample(south);
    let e = shape.sample(east);
    let w = shape.sample(west);

    let nw_quad = Rect::from_points(&rect.top_left(), &midpoint);
    let ne_quad = Rect::from_points(&rect.top_right(), &midpoint);
    let se_quad = Rect::from_points(&rect.bottom_right(), &midpoint);
    let sw_quad = Rect::from_points(&rect.bottom_left(), &midpoint);

    let ghost s0 = out@;
    let xa = gather_real(p, shape, nw_quad, depth - 1, out, a, n, m, w);
    let ghost s1 = out@;
    let xb = gather_real(p, shape, ne_quad, depth - 1, out, n, b, e, m);
    let ghost s2 = out@;
    let xc = gather_real(p, shape, se_quad, depth - 1, out, m, e, c, s);
    let ghost s3 = out@;
    let xd = gather_real(p, shape, sw_quad, depth - 1, out, w, m, s, d);
    proof {
        let ga = spec_gather_real(shape, nw_quad, (depth - 1) as u32, a, n, m, w);
        let gb = spec_gather_real(shape, ne_quad, (depth - 1) as u32, n, b, e, m);
        let gc = spec_gather_real(shape, se_quad, (depth - 1) as u32, m, e, c, s);
        let gd = spec_gather_real(shape, sw_quad, (depth - 1) as u32, w, m, s, d);
        assert(out@ =~= s0 + (ga + gb + gc + gd));
    }
    p.make_branch(rect, xa, xb, xc, xd)
}

/// The segments that a top-down search of the box finds, with the
/// samples at its corners handed down to its quarters.
pub open spec fn spec_gather_2<S: Implicit + ?Sized>(shape: &S, rect: Rect, depth: u32) -> Seq<
    Line,
> {
    spec_gather_real(
        shape,
        rect,
        depth,
        shape.value(rect.top_left),
        shape.value(Point { x: rect.bottom_right.x, y: rect.top_left.y }),
        shape.value(rect.bottom_right),
        shape.value(Point { x: rect.top_left.x, y: rect.bottom_right.y }),
    )
}

/// The segments of the outline of the shape, found by a top-down search
/// of a square around the shape down to the given depth; with them the tree
/// that the producer has built.
pub fn gather_lines_2<S: Implicit + Sync + ?Sized, P: QuadTreeProducer>(
    p: &mut P,
    shape: &S,
    depth: u32,
) -> (r: (P::Tree, Vec<Line>))
    requires
        can_search(shape.bounds()),
    ensures
        r.1@ == spec_gather_2(shape, search_square(shape.bounds()->0), depth),
{
    let mut out: Vec<Line> = Vec::new();
    let bb = match shape.bounding_box() {
        Some(bb) => bb,
        None => {
            proof {
                assert(false);
            }
            Rect::null()
        },
    };
    let rect = search_square_of(&bb);
    let a = shape.sample(rect.top_left());
    let b = shape.sample(rect.top_right());
    let c = shape.sample(rect.bottom_right());
    let d = shape.sample(rect.bottom_left());
    let tree = gather_real(p, shape, rect, depth, &mut out, a, b, c, d);
    proof {
        assert(out@ =~= spec_gather_2(shape, rect, depth));
    }
    (tree, out)
}

} // verus!
