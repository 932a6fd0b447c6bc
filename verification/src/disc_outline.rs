use vstd::prelude::*;
use crate::arith::{lemma_isqrt_below, lemma_isqrt_bounds, spec_isqrt};
use crate::geom::Point;
use crate::implementations::Circle;
use crate::geom::Line;
use crate::line_gather::{
    cell_lines, cells_fit, corner_a, corner_b, corner_c, corner_d, spec_divide, spec_sample_these,
};
use crate::lattice_laws::{lemma_multiple_diff, on_lattice, on_steps};
use crate::line_join::{joined, keep_long, line_pool, seeds_ok, settle};
use crate::bitmap::Bitmap;
use crate::lattice_laws::lemma_samples_on_lattice;
use crate::line_gather::spec_chunk_len;
use crate::line_join::total_points;
use crate::render::{
    can_render, lemma_samples_fit, outlines, polys_of, rendered_as, OutputMode, RenderMode,
};
use crate::sample_points::SampleDist;
use crate::stitch_laws::{lemma_simplify_ok, points_ok};
use crate::quadtree::ItemId;
use crate::stitch_laws::{chains_ok, ends_ok, lemma_stitched_ok};
use crate::marching_squares::{
    cell_fits, lemma_march_complete, on_crossed_edge, spec_half, spec_march,
};
use crate::Implicit;

verus! {

/// The square of the distance from a place to a center, for a place that
/// lies `u` from the center along one axis and `w` along the other.
pub open spec fn sq_dist(u: int, w: int) -> nat {
    (u * u + w * w) as nat
}

/// Squares are not negative, so `sq_dist` is the sum of two squares.
pub proof fn lemma_sq_dist(u: int, w: int)
    ensures
        sq_dist(u, w) == u * u + w * w,
        u * u >= 0,
        w * w >= 0,
{
    assert(u * u >= 0) by (nonlinear_arith);
    assert(w * w >= 0) by (nonlinear_arith);
}

/// A step of `t` along an axis from a place that lies no farther than `r`
/// from a center leads to a place that lies no farther than `r` and the
/// length of the step.
pub proof fn lemma_step_from_inside(u: int, w: int, t: int, r: int)
    requires
        r >= 0,
        spec_isqrt(sq_dist(u, w)) <= r,
    ensures
        spec_isqrt(sq_dist(u + t, w)) <= r + (if t < 0 {
            -t
        } else {
            t
        }),
{
    let s = sq_dist(u, w) as int;
    let at = if t < 0 { -t } else { t };
    let au = if u < 0 { -u } else { u };
    let m = r + 1;
    lemma_sq_dist(u, w);
    lemma_sq_dist(u + t, w);
    lemma_isqrt_below(sq_dist(u, w), m);
    assert(s < m * m);
    assert(u * u <= s) by (nonlinear_arith)
        requires
            s == u * u + w * w,
    ;
    assert(au * au == u * u) by (nonlinear_arith)
        requires
            au == u || au == -u,
    ;
    assert(au < m) by (nonlinear_arith)
        requires
            au * au < m * m,
            au >= 0,
            m > 0,
    ;
    assert(t * u <= at * au) by (nonlinear_arith)
        requires
            at == t || at == -t,
            au == u || au == -u,
            at >= 0,
            au >= 0,
    ;
    assert(at * au <= at * m) by (nonlinear_arith)
        requires
            at >= 0,
            au < m,
    ;
    assert(at * at == t * t) by (nonlinear_arith)
        requires
            at == t || at == -t,
    ;
    assert((u + t) * (u + t) == u * u + 2 * (t * u) + t * t) by (nonlinear_arith);
    assert((m + at) * (m + at) == m * m + 2 * (at * m) + at * at) by (nonlinear_arith);
    assert(sq_dist(u + t, w) < (m + at) * (m + at));
    lemma_isqrt_below(sq_dist(u + t, w), m + at);
}

/// A step of `t` along an axis from a place that lies farther than `r`
/// from a center leads to a place that lies farther than `r` less the
/// length of the step.
pub proof fn lemma_step_from_outside(u: int, w: int, t: int, r: int)
    requires
        r >= 0,
        spec_isqrt(sq_dist(u, w)) > r,
    ensures
        spec_isqrt(sq_dist(u + t, w)) > r - (if t < 0 {
            -t
        } else {
            t
        }),
{
    let s = sq_dist(u, w) as int;
    let at = if t < 0 { -t } else { t };
    let au = if u < 0 { -u } else { u };
    let m = r + 1;
    if at < m {
        lemma_sq_dist(u, w);
        lemma_sq_dist(u + t, w);
        lemma_isqrt_below(sq_dist(u, w), m);
        assert(s >= m * m);
        assert(u * u <= s) by (nonlinear_arith)
            requires
                s == u * u + w * w,
        ;
        assert(au * au == u * u) by (nonlinear_arith)
            requires
                au == u || au == -u,
        ;
        assert(at * at == t * t) by (nonlinear_arith)
            requires
                at == t || at == -t,
        ;
        assert(t * u >= -(at * au)) by (nonlinear_arith)
            requires
                at == t || at == -t,
                au == u || au == -u,
                at >= 0,
                au >= 0,
        ;
        // s - m * m >= 2 * at * (au - m)
        if au > m {
            assert(au * au - m * m >= 2 * (at * (au - m))) by (nonlinear_arith)
                requires
                    au > m,
                    m > at,
                    at >= 0,
            ;
        } else {
            assert(at * (au - m) <= 0) by (nonlinear_arith)
                requires
                    at >= 0,
                    au <= m,
            ;
        }
        assert(at * (au - m) == at * au - at * m) by (nonlinear_arith);
        assert((u + t) * (u + t) == u * u + 2 * (t * u) + t * t) by (nonlinear_arith);
        assert((m - at) * (m - at) == m * m - 2 * (at * m) + at * at) by (nonlinear_arith);
        assert(sq_dist(u + t, w) >= (m - at) * (m - at));
        lemma_isqrt_below(sq_dist(u + t, w), m - at);
    }
}

/// On a line along an axis, a place that lies within `d` of a place in a
/// disc and within `d` of a place outside it lies within `d` of the
/// outline of the disc: no farther from the center than the radius and
/// `d`, and no nearer than the radius less `d`.
pub proof fn lemma_between(ux: int, uy: int, uq: int, w: int, r: int, d: int)
    requires
        r >= 0,
        -d <= uq - ux <= d,
        -d <= uq - uy <= d,
        spec_isqrt(sq_dist(ux, w)) <= r,
        spec_isqrt(sq_dist(uy, w)) > r,
    ensures
        r - d <= spec_isqrt(sq_dist(uq, w)) <= r + d,
{
    lemma_step_from_inside(ux, w, uq - ux, r);
    lemma_step_from_outside(uy, w, uq - uy, r);
}

/// The distance from `pos` to the center of the disc as the field of the
/// disc takes it.
pub open spec fn reach(disc: Circle, pos: Point) -> nat {
    spec_isqrt(pos.dist2(disc.center) as nat)
}

/// The field of a disc is the distance to its center less the radius, and
/// the distance is the one that `sq_dist` gives, whichever axis comes
/// first.
pub proof fn lemma_disc_value(disc: Circle, pos: Point)
    ensures
        disc.value(pos) == reach(disc, pos) - disc.radius,
        reach(disc, pos) == spec_isqrt(sq_dist(pos.x - disc.center.x, pos.y - disc.center.y)),
        reach(disc, pos) == spec_isqrt(sq_dist(pos.y - disc.center.y, pos.x - disc.center.x)),
{
    let u = pos.x - disc.center.x;
    let w = pos.y - disc.center.y;
    crate::arith::lemma_square_bound(u, 0x1_0000_0000);
    crate::arith::lemma_square_bound(w, 0x1_0000_0000);
    let n = pos.dist2(disc.center) as nat;
    lemma_sq_dist(u, w);
    lemma_sq_dist(w, u);
    assert(n == sq_dist(u, w));
    assert(sq_dist(u, w) == sq_dist(w, u));
    assert(n < 0x2_0000_0000 * 0x2_0000_0000) by (nonlinear_arith)
        requires
            n <= 2 * (0x1_0000_0000 * 0x1_0000_0000),
    ;
    lemma_isqrt_below(n, 0x2_0000_0000);
    lemma_isqrt_bounds(n);
}

/// A point on an edge of a cell that the outline of a disc crosses, when
/// the corners of the cell are sampled where they are, lies within the
/// size of the cell of the outline.
pub proof fn lemma_disc_crossing(disc: Circle, pt: Point, p: Point, dist: i32)
    requires
        cell_fits(p, dist),
        disc.radius >= 0,
        on_crossed_edge(
            pt,
            disc.value(corner_a(p, dist)),
            disc.value(corner_b(p, dist)),
            disc.value(corner_c(p, dist)),
            disc.value(corner_d(p, dist)),
            p,
            dist,
        ),
    ensures
        -dist <= disc.value(pt) <= dist,
{
    let a = corner_a(p, dist);
    let b = corner_b(p, dist);
    let c = corner_c(p, dist);
    let d = corner_d(p, dist);
    let h = spec_half(dist);
    let cx = disc.center.x as int;
    let cy = disc.center.y as int;
    let r = disc.radius as int;
    lemma_disc_value(disc, a);
    lemma_disc_value(disc, b);
    lemma_disc_value(disc, c);
    lemma_disc_value(disc, d);
    lemma_disc_value(disc, pt);
    let a_on = disc.value(a) <= 0;
    let b_on = disc.value(b) <= 0;
    let c_on = disc.value(c) <= 0;
    let d_on = disc.value(d) <= 0;
    if a_on != b_on && pt.y == p.y - h && p.x - h <= pt.x <= p.x + h {
        if a_on {
            lemma_between(a.x - cx, b.x - cx, pt.x - cx, pt.y - cy, r, dist as int);
        } else {
            lemma_between(b.x - cx, a.x - cx, pt.x - cx, pt.y - cy, r, dist as int);
        }
    } else if c_on != d_on && pt.y == p.y + h && p.x - h <= pt.x <= p.x + h {
        if c_on {
            lemma_between(c.x - cx, d.x - cx, pt.x - cx, pt.y - cy, r, dist as int);
        } else {
            lemma_between(d.x - cx, c.x - cx, pt.x - cx, pt.y - cy, r, dist as int);
        }
    } else if b_on != c_on && pt.x == p.x + h && p.y - h <= pt.y <= p.y + h {
        if b_on {
            lemma_between(b.y - cy, c.y - cy, pt.y - cy, pt.x - cx, r, dist as int);
        } else {
            lemma_between(c.y - cy, b.y - cy, pt.y - cy, pt.x - cx, r, dist as int);
        }
    } else {
        if a_on {
            lemma_between(a.y - cy, d.y - cy, pt.y - cy, pt.x - cx, r, dist as int);
        } else {
            lemma_between(d.y - cy, a.y - cy, pt.y - cy, pt.x - cx, r, dist as int);
        }
    }
}

/// Every end of a segment that a cell gives for a disc, when the corners
/// of the cell are sampled where they are, lies within the size of the cell
/// of the outline of the disc: the field of the disc there is no larger in
/// size than the cell.
pub proof fn lemma_disc_cell(disc: Circle, p: Point, dist: i32, srm: i64, k: int)
    requires
        cell_fits(p, dist),
        disc.radius >= 0,
        0 <= k < spec_march(
            disc.value(corner_a(p, dist)),
            disc.value(corner_b(p, dist)),
            disc.value(corner_c(p, dist)),
            disc.value(corner_d(p, dist)),
            srm,
            p,
            dist,
        ).lines().len(),
    ensures
        ({
            let l = spec_march(
                disc.value(corner_a(p, dist)),
                disc.value(corner_b(p, dist)),
                disc.value(corner_c(p, dist)),
                disc.value(corner_d(p, dist)),
                srm,
                p,
                dist,
            ).lines()[k];
            &&& -dist <= disc.value(l.0) <= dist
            &&& -dist <= disc.value(l.1) <= dist
        }),
{
    let sra = disc.value(corner_a(p, dist));
    let srb = disc.value(corner_b(p, dist));
    let src = disc.value(corner_c(p, dist));
    let srd = disc.value(corner_d(p, dist));
    lemma_march_complete(sra, srb, src, srd, srm, p, dist);
    let l = spec_march(sra, srb, src, srd, srm, p, dist).lines()[k];
    lemma_disc_crossing(disc, l.0, p, dist);
    lemma_disc_crossing(disc, l.1, p, dist);
}

/// The segments of the cells around the first `k` points, each cell
/// sampled at its own corners.
pub open spec fn own_cells(disc: Circle, points: Seq<Point>, k: int, resolution: i32) -> Seq<Line>
    decreases k,
{
    if k <= 0 {
        seq![]
    } else {
        own_cells(disc, points, k - 1, resolution) + cell_lines(
            &disc,
            None,
            points[k - 1],
            resolution,
        )
    }
}

/// Whether the field of the disc at a point is no larger in size than `d`:
/// the point lies within `d` of the outline.
pub open spec fn near_outline(disc: Circle, d: int) -> spec_fn(Point) -> bool {
    |q: Point| -d <= disc.value(q) <= d
}

/// Both ends of every segment of the cells of a disc lie within the size
/// of a cell of its outline.
pub proof fn lemma_own_cells_near(disc: Circle, points: Seq<Point>, k: int, resolution: i32)
    requires
        0 <= k <= points.len(),
        cells_fit(points, resolution),
        disc.radius >= 0,
    ensures
        ends_ok(own_cells(disc, points, k, resolution), near_outline(disc, resolution as int)),
    decreases k,
{
    if k > 0 {
        lemma_own_cells_near(disc, points, k - 1, resolution);
        let p = points[k - 1];
        let before = own_cells(disc, points, k - 1, resolution);
        let cell = cell_lines(&disc, None, p, resolution);
        let all = own_cells(disc, points, k, resolution);
        let ok = near_outline(disc, resolution as int);
        assert(all == before + cell);
        assert forall|j: int| 0 <= j < all.len() implies ok((#[trigger] all[j]).0) && ok(
            all[j].1,
        ) by {
            if j < before.len() {
                assert(all[j] == before[j]);
            } else {
                let i = j - before.len();
                assert(all[j] == cell[i]);
                lemma_disc_cell(disc, p, resolution, disc.value(p), i);
            }
        }
    }
}

/// Every point of every polyline that the segments of the cells of a disc
/// are stitched to lies within the size of a cell of the outline of the
/// disc, whichever segments the chains start with.
pub proof fn lemma_disc_polylines(
    disc: Circle,
    points: Seq<Point>,
    resolution: i32,
    seeds: Seq<ItemId>,
    budget: nat,
)
    requires
        cells_fit(points, resolution),
        disc.radius >= 0,
        seeds_ok(
            line_pool(own_cells(disc, points, points.len() as int, resolution)),
            seeds,
            resolution,
        ),
    ensures
        chains_ok(
            keep_long(
                settle(
                    joined(
                        line_pool(own_cells(disc, points, points.len() as int, resolution)),
                        seeds,
                        resolution,
                    ),
                    budget,
                ),
            ),
            near_outline(disc, resolution as int),
        ),
{
    let lines = own_cells(disc, points, points.len() as int, resolution);
    lemma_own_cells_near(disc, points, points.len() as int, resolution);
    lemma_stitched_ok(lines, seeds, resolution, budget, near_outline(disc, resolution as int));
}

/// Whether the cells of points that follow one another share corners
/// where their corners lie close together: the corner on the right of one
/// cell that lies less than the resolution from the matching corner on the
/// left of the next is that corner.
pub open spec fn corners_match(points: Seq<Point>, resolution: i32) -> bool {
    forall|k: int|
        0 < k < points.len() ==> {
            &&& corner_b(points[k - 1], resolution).spec_close_to(
                corner_a(#[trigger] points[k], resolution),
                resolution,
            ) ==> corner_b(points[k - 1], resolution) == corner_a(points[k], resolution)
            &&& corner_c(points[k - 1], resolution).spec_close_to(
                corner_d(points[k], resolution),
                resolution,
            ) ==> corner_c(points[k - 1], resolution) == corner_d(points[k], resolution)
        }
}

/// A multiple of a positive step whose square is less than the square of
/// the step is zero.
pub proof fn lemma_small_multiple(v: int, step: int)
    requires
        step > 0,
        v % step == 0,
        v * v < step * step,
    ensures
        v == 0,
{
    assert(-step < v < step) by (nonlinear_arith)
        requires
            step > 0,
            v * v < step * step,
    ;
    assert(v == 0) by (nonlinear_arith)
        requires
            -step < v < step,
            v % step == 0,
            step > 0,
    ;
}

/// Cells of an even size around points of the lattice of that size share
/// their corners where the corners lie close together.
pub proof fn lemma_lattice_corners_match(points: Seq<Point>, resolution: i32)
    requires
        resolution > 0,
        resolution % 2 == 0,
        on_lattice(points, resolution),
        cells_fit(points, resolution),
    ensures
        corners_match(points, resolution),
{
    let r = resolution as int;
    let h = spec_half(resolution);
    assert(2 * h == r);
    assert forall|k: int| 0 < k < points.len() implies {
        &&& corner_b(points[k - 1], resolution).spec_close_to(
            corner_a(#[trigger] points[k], resolution),
            resolution,
        ) ==> corner_b(points[k - 1], resolution) == corner_a(points[k], resolution)
        &&& corner_c(points[k - 1], resolution).spec_close_to(
            corner_d(points[k], resolution),
            resolution,
        ) ==> corner_c(points[k - 1], resolution) == corner_d(points[k], resolution)
    } by {
        let q = points[k - 1];
        let p = points[k];
        assert(cell_fits(q, resolution) && cell_fits(p, resolution));
        assert(on_steps(q, SampleDist { x_bump: resolution, y_bump: resolution }));
        assert(on_steps(p, SampleDist { x_bump: resolution, y_bump: resolution }));
        let qx = q.x as int;
        let qy = q.y as int;
        let px = p.x as int;
        let py = p.y as int;
        assert(qx % r == 0 && qy % r == 0 && px % r == 0 && py % r == 0);
        let dx = q.x + h - (p.x - h);
        let dy = q.y - p.y;
        assert(dx == q.x - p.x + r);
        lemma_multiple_diff(qx, px, r);
        lemma_multiple_diff(qy, py, r);
        assert(dx % r == 0);
        assert(dy % r == 0);
        assert(dx * dx >= 0 && dy * dy >= 0) by (nonlinear_arith);
        let b = corner_b(q, resolution);
        let a = corner_a(p, resolution);
        let c = corner_c(q, resolution);
        let d = corner_d(p, resolution);
        assert(b.x - a.x == dx && b.y - a.y == dy);
        assert(c.x - d.x == dx && c.y - d.y == dy);
        if b.spec_close_to(a, resolution) {
            assert(dx * dx + dy * dy < r * r);
            lemma_small_multiple(dx, r);
            lemma_small_multiple(dy, r);
        }
        if c.spec_close_to(d, resolution) {
            assert(dx * dx + dy * dy < r * r);
            lemma_small_multiple(dx, r);
            lemma_small_multiple(dy, r);
        }
    }
}

/// Both ends of every segment that the cells around points give for a
/// disc lie within the size of a cell of its outline, where the cells share
/// the corners at which one takes its samples from the one before.
pub proof fn lemma_sampled_near(disc: Circle, points: Seq<Point>, from: int, to: int, resolution: i32)
    requires
        0 <= from,
        to <= points.len(),
        cells_fit(points, resolution),
        corners_match(points, resolution),
        disc.radius >= 0,
    ensures
        ends_ok(
            spec_sample_these(&disc, points, from, to, resolution),
            near_outline(disc, resolution as int),
        ),
    decreases to - from,
{
    if to > from {
        lemma_sampled_near(disc, points, from, to - 1, resolution);
        let p = points[to - 1];
        let prev = if to - 1 > from { Some(points[to - 2]) } else { None };
        let before = spec_sample_these(&disc, points, from, to - 1, resolution);
        let cell = cell_lines(&disc, prev, p, resolution);
        let all = spec_sample_these(&disc, points, from, to, resolution);
        let ok = near_outline(disc, resolution as int);
        assert(all == before + cell);
        assert(cell == cell_lines(&disc, None, p, resolution)) by {
            if to - 1 > from {
                assert(0 < to - 1 < points.len());
                let k = to - 1;
                assert(points[k] == p && points[k - 1] == points[to - 2]);
            }
        }
        assert forall|j: int| 0 <= j < all.len() implies ok((#[trigger] all[j]).0) && ok(
            all[j].1,
        ) by {
            if j < before.len() {
                assert(all[j] == before[j]);
            } else {
                let i = j - before.len();
                assert(all[j] == cell[i]);
                lemma_disc_cell(disc, p, resolution, disc.value(p), i);
            }
        }
    }
}

/// The same of the segments that are gathered chunk by chunk.
pub proof fn lemma_divided_near(disc: Circle, points: Seq<Point>, start: int, chunk: int, resolution: i32)
    requires
        cells_fit(points, resolution),
        corners_match(points, resolution),
        disc.radius >= 0,
    ensures
        ends_ok(
            spec_divide(&disc, points, start, chunk, resolution),
            near_outline(disc, resolution as int),
        ),
    decreases points.len() - start,
{
    let ok = near_outline(disc, resolution as int);
    if start >= points.len() || chunk <= 0 || start < 0 {
    } else if start + chunk >= points.len() {
        lemma_sampled_near(disc, points, start, points.len() as int, resolution);
    } else {
        lemma_divided_near(disc, points, start + chunk, chunk, resolution);
        lemma_sampled_near(disc, points, start, start + chunk, resolution);
        let head = spec_divide(&disc, points, start + chunk, chunk, resolution);
        let tail = spec_sample_these(&disc, points, start, start + chunk, resolution);
        let all = spec_divide(&disc, points, start, chunk, resolution);
        assert(all == head + tail);
        assert forall|j: int| 0 <= j < all.len() implies ok((#[trigger] all[j]).0) && ok(
            all[j].1,
        ) by {
            if j < head.len() {
                assert(all[j] == head[j]);
            } else {
                assert(all[j] == tail[j - head.len()]);
            }
        }
    }
}

/// The outline of a disc from lattice points: when the cells of an even
/// size around points of the lattice of that size are cut chunk by chunk
/// and the segments are stitched, every point of every polyline lies
/// within the size of a cell of the outline of the disc, whichever way the
/// points are shared out and whichever segments the chains start with.
pub proof fn lemma_disc_outline_near(
    disc: Circle,
    points: Seq<Point>,
    resolution: i32,
    chunk: int,
    seeds: Seq<ItemId>,
    budget: nat,
)
    requires
        resolution > 0,
        resolution % 2 == 0,
        on_lattice(points, resolution),
        cells_fit(points, resolution),
        disc.radius >= 0,
        seeds_ok(line_pool(spec_divide(&disc, points, 0, chunk, resolution)), seeds, resolution),
    ensures
        chains_ok(
            keep_long(
                settle(
                    joined(
                        line_pool(spec_divide(&disc, points, 0, chunk, resolution)),
                        seeds,
                        resolution,
                    ),
                    budget,
                ),
            ),
            near_outline(disc, resolution as int),
        ),
{
    lemma_lattice_corners_match(points, resolution);
    lemma_divided_near(disc, points, 0, chunk, resolution);
    lemma_stitched_ok(
        spec_divide(&disc, points, 0, chunk, resolution),
        seeds,
        resolution,
        budget,
        near_outline(disc, resolution as int),
    );
}

/// The outline that is rendered of a disc at an even resolution: every
/// point of every polyline lies within one resolution of the outline of
/// the disc, that is, its distance from the center, rounded down, differs
/// from the radius by no more than the resolution.
pub proof fn lemma_rendered_disc_near(
    disc: Circle,
    resolution: i32,
    simplify: bool,
    bitmap: Bitmap,
    picks: Seq<int>,
    samples: Seq<Point>,
    cpus: usize,
    seeds: Seq<ItemId>,
    r: OutputMode,
)
    requires
        can_render(disc.bounds(), resolution, RenderMode::Outline),
        resolution % 2 == 0,
        disc.radius >= 0,
        rendered_as(
            &disc,
            RenderMode::Outline,
            resolution,
            simplify,
            bitmap,
            picks,
            samples,
            cpus,
            seeds,
            r,
        ),
    ensures
        r is Outline,
        forall|k: int, j: int|
            0 <= k < r->Outline_0@.len() && 0 <= j < r->Outline_0@[k]@.len() ==> -resolution
                <= disc.value(#[trigger] r->Outline_0@[k]@[j]) <= resolution,
{
    let ok = near_outline(disc, resolution as int);
    lemma_samples_fit(&disc, RenderMode::Outline, resolution, bitmap, picks, samples);
    lemma_samples_on_lattice(&disc, resolution, bitmap, picks, samples);
    let chunk = spec_chunk_len(samples.len() as int, cpus as int);
    let lines = spec_divide(&disc, samples, 0, chunk, resolution);
    let start = joined(line_pool(lines), seeds, resolution);
    lemma_disc_outline_near(disc, samples, resolution, chunk, seeds, total_points(start));
    let kept = keep_long(settle(start, total_points(start)));
    let polys = outlines(kept, simplify);
    assert(polys_of(r->Outline_0@) == polys);
    assert forall|k: int, j: int|
        0 <= k < r->Outline_0@.len() && 0 <= j < r->Outline_0@[k]@.len() implies -resolution
            <= disc.value(#[trigger] r->Outline_0@[k]@[j]) <= resolution by {
        assert(polys_of(r->Outline_0@).len() == r->Outline_0@.len());
        assert(polys.len() == kept.len());
        assert(polys_of(r->Outline_0@)[k] == r->Outline_0@[k]@);
        assert(points_ok(kept[k].points(), ok));
        lemma_simplify_ok(kept[k].points(), ok);
        assert(polys[k] == if simplify {
            crate::line_join::spec_simplify(kept[k].points())
        } else {
            kept[k].points()
        });
        assert(ok(polys[k][j]));
    }
}

} // verus!
