use vstd::prelude::*;
use crate::arith::trunc_div;
use crate::bitmap::Bitmap;
use crate::geom::{Point, Rect};
use crate::sample_points::{
    chosen, keep_limit, lattice, lattice_from, sampled_as, sampling_box, snapped, snapped_box,
    strips, SampleDist,
};
use crate::Implicit;

verus! {

/// Whether both coordinates of the point are multiples of the steps.
pub open spec fn on_steps(p: Point, d: SampleDist) -> bool {
    (p.x as int) % (d.x_bump as int) == 0 && (p.y as int) % (d.y_bump as int) == 0
}

/// Whether both coordinates of every point are multiples of the step.
pub open spec fn on_lattice(points: Seq<Point>, step: i32) -> bool {
    forall|k: int|
        0 <= k < points.len() ==> on_steps(
            #[trigger] points[k],
            SampleDist { x_bump: step, y_bump: step },
        )
}

/// The difference of two multiples of a step is a multiple of the step,
/// and so is the difference with one step more.
pub proof fn lemma_multiple_diff(a: int, b: int, step: int)
    requires
        step > 0,
        a % step == 0,
        b % step == 0,
    ensures
        (a - b) % step == 0,
        (a - b + step) % step == 0,
{
    let ka = a / step;
    let kb = b / step;
    vstd::arithmetic::div_mod::lemma_fundamental_div_mod(a, step);
    vstd::arithmetic::div_mod::lemma_fundamental_div_mod(b, step);
    assert(a - b == (ka - kb) * step) by (nonlinear_arith)
        requires
            a == step * ka,
            b == step * kb,
    ;
    assert(a - b + step == (ka - kb + 1) * step) by (nonlinear_arith)
        requires
            a == step * ka,
            b == step * kb,
    ;
    vstd::arithmetic::div_mod::lemma_mod_multiples_basic(ka - kb, step);
    vstd::arithmetic::div_mod::lemma_mod_multiples_basic(ka - kb + 1, step);
}

/// What is snapped is a multiple of the step, and lies between zero and
/// what it was snapped from.
pub proof fn lemma_snapped(v: int, bump: int)
    requires
        bump > 0,
    ensures
        snapped(v, bump) % bump == 0,
        v >= 0 ==> 0 <= snapped(v, bump) <= v,
        v <= 0 ==> v <= snapped(v, bump) <= 0,
{
    let q = trunc_div(v, bump);
    vstd::arithmetic::div_mod::lemma_mod_multiples_basic(q, bump);
    if v >= 0 {
        vstd::arithmetic::div_mod::lemma_fundamental_div_mod(v, bump);
        assert(0 <= v % bump) by (nonlinear_arith)
            requires
                bump > 0,
        ;
        assert(0 <= v / bump) by (nonlinear_arith)
            requires
                v >= 0,
                bump > 0,
        ;
        assert((v / bump) * bump == bump * (v / bump)) by (nonlinear_arith);
        assert(0 <= (v / bump) * bump) by (nonlinear_arith)
            requires
                0 <= v / bump,
                bump > 0,
        ;
    } else {
        let m = -v;
        vstd::arithmetic::div_mod::lemma_fundamental_div_mod(m, bump);
        assert(0 <= m % bump) by (nonlinear_arith)
            requires
                bump > 0,
        ;
        assert(0 <= m / bump) by (nonlinear_arith)
            requires
                m >= 0,
                bump > 0,
        ;
        assert((m / bump) * bump == bump * (m / bump)) by (nonlinear_arith);
        assert(0 <= (m / bump) * bump) by (nonlinear_arith)
            requires
                0 <= m / bump,
                bump > 0,
        ;
        assert((-(m / bump)) * bump == -((m / bump) * bump)) by (nonlinear_arith);
    }
}

/// The points of a lattice that is laid out from a multiple of the steps,
/// in a box whose left edge is a multiple of the step, are multiples of
/// the steps.
pub proof fn lemma_lattice_from_steps(bb: Rect, d: SampleDist, x: int, y: int, on_top: bool)
    requires
        d.x_bump > 0,
        d.y_bump > 0,
        (bb.top_left.x as int) % (d.x_bump as int) == 0,
        x % (d.x_bump as int) == 0,
        y % (d.y_bump as int) == 0,
    ensures
        forall|k: int|
            0 <= k < lattice_from(bb, d, x, y, on_top).len() ==> on_steps(
                (#[trigger] lattice_from(bb, d, x, y, on_top)[k]).0,
                d,
            ),
    decreases
        (if y <= bb.bottom_right.y { bb.bottom_right.y - y + 1 } else { 0 }) as nat,
        (if x <= bb.bottom_right.x { bb.bottom_right.x - x + 1 } else { 0 }) as nat,
{
    if d.x_bump <= 0 || d.y_bump <= 0 || y > bb.bottom_right.y || x < bb.top_left.x || y
        < bb.top_left.y {
        assert(lattice_from(bb, d, x, y, on_top) =~= Seq::<(Point, bool)>::empty());
    } else if x > bb.bottom_right.x {
        lemma_multiple_diff(y, 0, d.y_bump as int);
        lemma_lattice_from_steps(bb, d, bb.top_left.x as int, y + d.y_bump, false);
        assert(lattice_from(bb, d, x, y, on_top) == lattice_from(
            bb,
            d,
            bb.top_left.x as int,
            y + d.y_bump,
            false,
        ));
    } else {
        lemma_multiple_diff(x, 0, d.x_bump as int);
        lemma_lattice_from_steps(bb, d, x + d.x_bump, y, on_top);
        let all = lattice_from(bb, d, x, y, on_top);
        let rest = lattice_from(bb, d, x + d.x_bump, y, on_top);
        assert forall|k: int| 0 <= k < all.len() implies on_steps((#[trigger] all[k]).0, d) by {
            if k > 0 {
                assert(all[k] == rest[k - 1]);
            }
        }
    }
}

/// The points of the lattice of a box are multiples of the steps.
pub proof fn lemma_lattice_steps(rect: Rect, d: SampleDist)
    requires
        d.x_bump > 0,
        d.y_bump > 0,
    ensures
        forall|k: int|
            0 <= k < lattice(rect, d).len() ==> on_steps((#[trigger] lattice(rect, d)[k]).0, d),
{
    lemma_snapped(rect.top_left.x as int, d.x_bump as int);
    lemma_snapped(rect.top_left.y as int, d.y_bump as int);
    lemma_snapped(rect.bottom_right.x as int, d.x_bump as int);
    lemma_snapped(rect.bottom_right.y as int, d.y_bump as int);
    let snap = snapped_box(rect, d);
    lemma_lattice_from_steps(snap, d, snap.top_left.x as int, snap.top_left.y as int, true);
}

/// What is chosen from a lattice whose points are multiples of the steps
/// are multiples of the steps.
pub proof fn lemma_chosen_steps(
    lat: Seq<(Point, bool)>,
    bitmap: &Bitmap,
    limit: i64,
    inside: bool,
    prune: bool,
    d: SampleDist,
)
    requires
        forall|k: int| 0 <= k < lat.len() ==> on_steps((#[trigger] lat[k]).0, d),
    ensures
        forall|k: int|
            0 <= k < chosen(lat, bitmap, limit, inside, prune).len() ==> on_steps(
                #[trigger] chosen(lat, bitmap, limit, inside, prune)[k],
                d,
            ),
    decreases lat.len(),
{
    if lat.len() > 0 {
        let head = lat.drop_last();
        assert forall|k: int| 0 <= k < head.len() implies on_steps((#[trigger] head[k]).0, d) by {
            assert(head[k] == lat[k]);
        }
        lemma_chosen_steps(head, bitmap, limit, inside, prune, d);
        let rest = chosen(head, bitmap, limit, inside, prune);
        let all = chosen(lat, bitmap, limit, inside, prune);
        assert(on_steps(lat[lat.len() - 1].0, d));
        assert forall|k: int| 0 <= k < all.len() implies on_steps(#[trigger] all[k], d) by {
            if k < rest.len() {
                assert(all[k] == rest[k]);
            }
        }
    }
}

/// The points that `strips` finds are multiples of the steps.
pub proof fn lemma_strips_steps(
    rect: Rect,
    d: SampleDist,
    bitmap: &Bitmap,
    count: int,
    target: int,
    prune: bool,
)
    requires
        d.x_bump > 0,
        d.y_bump > 0,
    ensures
        forall|k: int|
            0 <= k < strips(rect, d, bitmap, count, target, prune).0.len() ==> on_steps(
                #[trigger] strips(rect, d, bitmap, count, target, prune).0[k],
                d,
            ),
        forall|k: int|
            0 <= k < strips(rect, d, bitmap, count, target, prune).1.len() ==> on_steps(
                #[trigger] strips(rect, d, bitmap, count, target, prune).1[k],
                d,
            ),
    decreases (if 0 < count < target { target - count } else { 0 }) as nat,
{
    let all = strips(rect, d, bitmap, count, target, prune);
    if 0 < count < target {
        let halves = rect.spec_split_hori();
        lemma_strips_steps(halves.0, d, bitmap, 2 * count, target, prune);
        lemma_strips_steps(halves.1, d, bitmap, 2 * count, target, prune);
        let top = strips(halves.0, d, bitmap, 2 * count, target, prune);
        let bot = strips(halves.1, d, bitmap, 2 * count, target, prune);
        assert(all == (top.0 + bot.0, top.1 + bot.1));
        assert forall|k: int| 0 <= k < all.0.len() implies on_steps(#[trigger] all.0[k], d) by {
            if k < top.0.len() {
                assert(all.0[k] == top.0[k]);
            } else {
                assert(all.0[k] == bot.0[k - top.0.len()]);
            }
        }
        assert forall|k: int| 0 <= k < all.1.len() implies on_steps(#[trigger] all.1[k], d) by {
            if k < top.1.len() {
                assert(all.1[k] == top.1[k]);
            } else {
                assert(all.1[k] == bot.1[k - top.1.len()]);
            }
        }
    } else {
        lemma_lattice_steps(rect, d);
        lemma_chosen_steps(lattice(rect, d), bitmap, keep_limit(bitmap), true, prune, d);
        lemma_chosen_steps(lattice(rect, d), bitmap, keep_limit(bitmap), false, prune, d);
    }
}

/// The sample points of a shape are points of the lattice of the
/// resolution: both their coordinates are multiples of it.
pub proof fn lemma_samples_on_lattice<S: Implicit>(
    shape: &S,
    resolution: i32,
    bitmap: Bitmap,
    picks: Seq<int>,
    out: Seq<Point>,
)
    requires
        resolution > 0,
        sampled_as(shape, resolution, bitmap, picks, out),
    ensures
        on_lattice(out, resolution),
{
    let d = SampleDist { x_bump: resolution, y_bump: resolution };
    let bb = sampling_box(shape.bounds()->0, resolution);
    let found = strips(bb, d, &bitmap, 1, 7, shape.regular());
    lemma_strips_steps(bb, d, &bitmap, 1, 7, shape.regular());
    assert forall|k: int| 0 <= k < out.len() implies on_steps(#[trigger] out[k], d) by {
        if k < found.0.len() {
            assert(out.subrange(0, found.0.len() as int)[k] == found.0[k]);
        } else {
            let j = k - found.0.len();
            assert(0 <= picks[j] < found.1.len());
            assert(out[found.0.len() + j] == found.1[picks[j]]);
        }
    }
}

} // verus!
