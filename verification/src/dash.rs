use vstd::prelude::*;
use crate::arith::{
    div_toward_zero, lemma_product_bound, lemma_trunc_div_bound, spec_isqrt, trunc_div,
};
use crate::geom::Point;

verus! {

/// The points of one dash, in their order.
#[derive(Debug)]
pub struct DashSegment(pub Vec<Point>);

impl View for DashSegment {
    type V = Seq<Point>;

    open spec fn view(&self) -> Seq<Point> {
        self.0@
    }
}

/// The values of a list of dashes.
pub open spec fn dash_views(v: Seq<DashSegment>) -> Seq<Seq<Point>> {
    v.map_values(|d: DashSegment| d@)
}

/// The length of the edge from `a` to `b`, rounded down to a whole tick.
pub open spec fn edge_len(a: Point, b: Point) -> int {
    spec_isqrt(a.dist2(b) as nat) as int
}

/// The point that lies `walked` ticks along the edge from `a` to `b`, each
/// coordinate rounded toward that of `a`.
pub open spec fn point_along(a: Point, b: Point, walked: int) -> Point {
    let mag = edge_len(a, b);
    if mag == 0 {
        a
    } else {
        Point {
            x: (a.x + trunc_div((b.x - a.x) * walked, mag)) as i32,
            y: (a.y + trunc_div((b.y - a.y) * walked, mag)) as i32,
        }
    }
}

/// The length at place `k` of the pattern, which repeats without end.
pub open spec fn dash_at(dashes: Seq<i64>, k: nat) -> int {
    dashes[(k as int) % (dashes.len() as int)] as int
}

/// Where the walk along the outline stands: whether it is in a dash or in
/// a gap, how much of that is still to go, how many lengths of the pattern
/// it has taken, the points of the dash that it is in, and the dashes that
/// are done.
pub struct DashState {
    pub on: bool,
    pub dst: int,
    pub taken: nat,
    pub seg: Seq<Point>,
    pub out: Seq<Seq<Point>>,
}

/// The state after a break at the point `bp`: a dash ends there and a gap
/// begins, or a gap ends there and a dash begins; the next length of the
/// pattern is taken.
pub open spec fn broken(st: DashState, bp: Point, dashes: Seq<i64>) -> DashState {
    if st.on {
        DashState {
            on: false,
            dst: dash_at(dashes, st.taken),
            taken: st.taken + 1,
            seg: seq![],
            out: st.out.push(st.seg.push(bp)),
        }
    } else {
        DashState {
            on: true,
            dst: dash_at(dashes, st.taken),
            taken: st.taken + 1,
            seg: st.seg.push(bp),
            out: st.out,
        }
    }
}

/// The state after the walk has gone from `walked` ticks along the edge
/// from `a` to `b` to its end: as long as the rest of the edge is longer
/// than what is still to go, there is a break where that runs out; then the
/// end of the edge joins the dash, if the walk is in one.
pub open spec fn walk_edge(st: DashState, a: Point, b: Point, walked: int, dashes: Seq<i64>) -> DashState
    decreases edge_len(a, b) - walked, (if st.dst <= 0 { 1int } else { 0int }),
{
    let mag = edge_len(a, b);
    if mag - walked > st.dst && st.dst >= 0 && dash_at(dashes, st.taken) > 0 {
        let w = walked + st.dst;
        walk_edge(broken(st, point_along(a, b, w), dashes), a, b, w, dashes)
    } else {
        DashState {
            on: st.on,
            dst: st.dst - (mag - walked),
            taken: st.taken,
            seg: if st.on {
                st.seg.push(b)
            } else {
                st.seg
            },
            out: st.out,
        }
    }
}

/// The state after the walk has gone over the edges from the point at `i`
/// on.
pub open spec fn walk_from(st: DashState, pts: Seq<Point>, i: int, dashes: Seq<i64>) -> DashState
    decreases pts.len() - i,
{
    if i < 0 || i + 1 >= pts.len() {
        st
    } else {
        walk_from(walk_edge(st, pts[i], pts[i + 1], 0, dashes), pts, i + 1, dashes)
    }
}

/// The dashes of the outline through `pts` under the pattern `dashes` of
/// lengths that stand in turn for a dash and for a gap. The outline starts
/// with a dash at its first point.
pub open spec fn spec_dashify(pts: Seq<Point>, dashes: Seq<i64>) -> Seq<Seq<Point>> {
    if pts.len() == 0 {
        seq![]
    } else {
        let st = walk_from(
            DashState { on: true, dst: dashes[0] as int, taken: 1, seg: seq![pts[0]], out: seq![] },
            pts,
            0,
            dashes,
        );
        if st.seg.len() > 0 {
            st.out.push(st.seg)
        } else {
            st.out
        }
    }
}

/// All lengths of the pattern are positive, and there is at least one.
pub open spec fn pattern_ok(dashes: Seq<i64>) -> bool {
    &&& dashes.len() > 0
    &&& forall|k: int| 0 <= k < dashes.len() ==> (#[trigger] dashes[k]) > 0
}

fn edge_length(a: &Point, b: &Point) -> (r: i64)
    ensures
        r == edge_len(*a, *b),
        0 <= r < 0x2_0000_0000,
{
    let r = a.distance(b);
    proof {
        crate::arith::lemma_isqrt_bounds(a.dist2(*b) as nat);
        crate::arith::lemma_square_bound(a.x - b.x, 0x1_0000_0000);
        crate::arith::lemma_square_bound(a.y - b.y, 0x1_0000_0000);
        if r >= 0x2_0000_0000 {
            crate::arith::lemma_square_monotonic(0x2_0000_0000, r as int);
        }
    }
    r
}

/// A part of a way, taken in proportion, lies between nothing and the
/// whole way.
proof fn lemma_part(d: int, walked: int, mag: int)
    requires
        0 <= walked <= mag,
        mag > 0,
    ensures
        d >= 0 ==> 0 <= trunc_div(d * walked, mag) <= d,
        d <= 0 ==> d <= trunc_div(d * walked, mag) <= 0,
{
    if d >= 0 {
        assert(0 <= d * walked <= d * mag) by (nonlinear_arith)
            requires
                d >= 0,
                0 <= walked <= mag,
        ;
        assert((d * walked) / mag <= d) by (nonlinear_arith)
            requires
                0 <= d * walked <= d * mag,
                mag > 0,
        ;
        assert(0 <= (d * walked) / mag) by (nonlinear_arith)
            requires
                0 <= d * walked,
                mag > 0,
        ;
    } else {
        let e = -d;
        assert(d * walked == -(e * walked)) by (nonlinear_arith)
            requires
                e == -d,
        ;
        assert(0 <= e * walked <= e * mag) by (nonlinear_arith)
            requires
                e >= 0,
                0 <= walked <= mag,
        ;
        assert((e * walked) / mag <= e) by (nonlinear_arith)
            requires
                0 <= e * walked <= e * mag,
                mag > 0,
        ;
        assert(0 <= (e * walked) / mag) by (nonlinear_arith)
            requires
                0 <= e * walked,
                mag > 0,
        ;
    }
}

fn point_on_edge(a: &Point, b: &Point, walked: i64, mag: i64) -> (r: Point)
    requires
        mag == edge_len(*a, *b),
        0 <= walked <= mag,
    ensures
        r == point_along(*a, *b, walked as int),
{
    if mag == 0 {
        return *a;
    }
    let dx: i128 = b.x as i128 - a.x as i128;
    let dy: i128 = b.y as i128 - a.y as i128;
    proof {
        crate::arith::lemma_isqrt_bounds(a.dist2(*b) as nat);
        crate::arith::lemma_square_bound(a.x - b.x, 0x1_0000_0000);
        crate::arith::lemma_square_bound(a.y - b.y, 0x1_0000_0000);
        if mag >= 0x2_0000_0000 {
            crate::arith::lemma_square_monotonic(0x2_0000_0000, mag as int);
        }
        lemma_product_bound(dx as int, walked as int, 0x1_0000_0000, 0x2_0000_0000);
        lemma_product_bound(dy as int, walked as int, 0x1_0000_0000, 0x2_0000_0000);
        lemma_part(dx as int, walked as int, mag as int);
        lemma_part(dy as int, walked as int, mag as int);
    }
    let qx: i128 = div_toward_zero(dx * (walked as i128), mag as i128);
    let qy: i128 = div_toward_zero(dy * (walked as i128), mag as i128);
    Point { x: (a.x as i128 + qx) as i32, y: (a.y as i128 + qy) as i32 }
}

/// Cuts the outline through `points` into dashes: the lengths of `dashes`
/// are taken in turn, without end, for a dash and for the gap after it. The
/// points of every dash are its two ends and the points of the outline
/// between them.
pub fn dashify(points: &Vec<Point>, dashes: &Vec<i64>) -> (out: Vec<DashSegment>)
    requires
        pattern_ok(dashes@),
    ensures
        dash_views(out@) == spec_dashify(points@, dashes@),
        forall|k: int|
            0 <= k < out@.len() ==> 0 < (#[trigger] out@[k])@.len() <= points@.len() + 1,
{
    let mut out: Vec<DashSegment> = Vec::new();
    if points.len() == 0 {
        proof {
            assert(dash_views(out@) =~= spec_dashify(points@, dashes@));
        }
        return out;
    }
    let mut on = true;
    let mut dst: i64 = dashes[0];
    let mut next_dash: usize = if dashes.len() == 1 { 0 } else { 1 };
    let mut seg: Vec<Point> = Vec::new();
    seg.push(points[0]);
    let ghost mut taken: nat = 1;
    let ghost start = DashState {
        on: true,
        dst: dashes@[0] as int,
        taken: 1,
        seg: seq![points@[0]],
        out: seq![],
    };
    proof {
        assert(seg@ =~= seq![points@[0]]);
        assert(dash_views(out@) =~= Seq::<Seq<Point>>::empty());
        assert(1int % (dashes@.len() as int) == next_dash) by (nonlinear_arith)
            requires
                dashes@.len() >= 1,
                next_dash == (if dashes@.len() == 1 {
                    0int
                } else {
                    1int
                }),
        ;
    }
    let mut i: usize = 0;
    while i + 1 < points.len()
        invariant
            i < points.len(),
            pattern_ok(dashes@),
            dst >= 0,
            next_dash < dashes.len(),
            next_dash == (taken as int) % (dashes@.len() as int),
            seg@.len() <= i + 2,
            !on ==> seg@.len() == 0,
            forall|k: int|
                0 <= k < out@.len() ==> 0 < (#[trigger] out@[k])@.len() <= points@.len() + 1,
            walk_from(
                DashState { on, dst: dst as int, taken, seg: seg@, out: dash_views(out@) },
                points@,
                i as int,
                dashes@,
            ) == walk_from(start, points@, 0, dashes@),
        decreases points@.len() - i,
    {
        let a: Point = points[i];
        let b: Point = points[i + 1];
        let mag: i64 = edge_length(&a, &b);
        let mut walked: i64 = 0;
        let ghost target = walk_edge(
            DashState { on, dst: dst as int, taken, seg: seg@, out: dash_views(out@) },
            a,
            b,
            0,
            dashes@,
        );
        while mag - walked > dst
            invariant
                0 <= walked <= mag,
                mag == edge_len(a, b),
                pattern_ok(dashes@),
                dst >= 0,
                next_dash < dashes.len(),
                next_dash == (taken as int) % (dashes@.len() as int),
                seg@.len() <= i + 2,
                !on ==> seg@.len() == 0,
                i + 1 < points.len(),
                forall|k: int|
                    0 <= k < out@.len() ==> 0 < (#[trigger] out@[k])@.len() <= points@.len() + 1,
                walk_edge(
                    DashState { on, dst: dst as int, taken, seg: seg@, out: dash_views(out@) },
                    a,
                    b,
                    walked as int,
                    dashes@,
                ) == target,
            decreases mag - walked, (if dst <= 0 { 1int } else { 0int }),
        {
            let ghost st = DashState {
                on,
                dst: dst as int,
                taken,
                seg: seg@,
                out: dash_views(out@),
            };
            let ghost done = dash_views(out@);
            walked = walked + dst;
            let next_break = point_on_edge(&a, &b, walked, mag);
            if on {
                seg.push(next_break);
                out.push(DashSegment(seg));
                proof {
                    assert(dash_views(out@) =~= done.push(st.seg.push(next_break)));
                }
                seg = Vec::new();
                on = false;
            } else {
                on = true;
                seg.push(next_break);
            }
            dst = dashes[next_dash];
            proof {
                assert(dst == dash_at(dashes@, taken));
                let n = dashes@.len() as int;
                let t = taken as int;
                assert((t + 1) % n == (if t % n + 1 == n {
                    0
                } else {
                    t % n + 1
                })) by (nonlinear_arith)
                    requires
                        n > 0,
                        t >= 0,
                ;
                taken = taken + 1;
                assert(DashState {
                    on,
                    dst: dst as int,
                    taken,
                    seg: seg@,
                    out: dash_views(out@),
                } == broken(st, next_break, dashes@));
            }
            next_dash = if next_dash + 1 == dashes.len() { 0 } else { next_dash + 1 };
        }
        let ghost st = DashState { on, dst: dst as int, taken, seg: seg@, out: dash_views(out@) };
        if on {
            seg.push(b);
        }
        dst = dst - (mag - walked);
        proof {
            assert(DashState { on, dst: dst as int, taken, seg: seg@, out: dash_views(out@) }
                == target);
        }
        i += 1;
    }
    if seg.len() > 0 {
        let ghost done = dash_views(out@);
        let ghost last = seg@;
        out.push(DashSegment(seg));
        proof {
            assert(dash_views(out@) =~= done.push(last));
        }
    }
    out
}

} // verus!
