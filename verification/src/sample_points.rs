use vstd::prelude::*;
use crate::arith::trunc_div;
use crate::bitmap::{raster_fits, Bitmap};
use crate::geom::{fits_coord, Point, Rect};
use crate::quadtree::{ItemId, QuadTree, EPSILON};
use crate::Implicit;

verus! {

/// The steps of a lattice of sample points.
#[derive(Copy, Clone, Debug)]
pub struct SampleDist {
    pub x_bump: i32,
    pub y_bump: i32,
}

/// `v` without what is left over when it is divided by `bump`: the
/// multiple of `bump` next to `v` on the side of zero.
pub open spec fn snapped(v: int, bump: int) -> int {
    trunc_div(v, bump) * bump
}

/// The box with its corners moved to multiples of the steps.
pub open spec fn snapped_box(bb: Rect, d: SampleDist) -> Rect {
    Rect::spec_null_at(
        Point {
            x: snapped(bb.top_left.x as int, d.x_bump as int) as i32,
            y: snapped(bb.top_left.y as int, d.y_bump as int) as i32,
        },
    ).spec_expanded_by(
        Point {
            x: snapped(bb.bottom_right.x as int, d.x_bump as int) as i32,
            y: snapped(bb.bottom_right.y as int, d.y_bump as int) as i32,
        },
    )
}

/// The points of the lattice in the box `bb` from the place `(x, y)` on,
/// row by row from the left to the right. Each point comes with a flag that
/// tells whether it lies inside the lattice: not in the first or the last
/// row or column.
pub open spec fn lattice_from(bb: Rect, d: SampleDist, x: int, y: int, on_top: bool) -> Seq<
    (Point, bool),
>
    decreases
        (if y <= bb.bottom_right.y { bb.bottom_right.y - y + 1 } else { 0 }) as nat,
        (if x <= bb.bottom_right.x { bb.bottom_right.x - x + 1 } else { 0 }) as nat,
{
    if d.x_bump <= 0 || d.y_bump <= 0 || y > bb.bottom_right.y || x < bb.top_left.x || y
        < bb.top_left.y {
        seq![]
    } else if x > bb.bottom_right.x {
        lattice_from(bb, d, bb.top_left.x as int, y + d.y_bump, false)
    } else {
        let on_left = x == bb.top_left.x;
        let on_right = x + d.x_bump >= bb.bottom_right.x;
        let on_bottom = y + d.y_bump >= bb.bottom_right.y;
        seq![
            (Point { x: x as i32, y: y as i32 }, !(on_left || on_right || on_top || on_bottom)),
        ] + lattice_from(bb, d, x + d.x_bump, y, on_top)
    }
}

/// The lattice of sample points in the box.
pub open spec fn lattice(bb: Rect, d: SampleDist) -> Seq<(Point, bool)> {
    let snap = snapped_box(bb, d);
    lattice_from(snap, d, snap.top_left.x as int, snap.top_left.y as int, true)
}

impl SampleDist {
    fn floor(&self, x: i32, y: i32) -> (r: (i32, i32))
        requires
            self.x_bump > 0,
            self.y_bump > 0,
        ensures
            r.0 == snapped(x as int, self.x_bump as int),
            r.1 == snapped(y as int, self.y_bump as int),
    {
        let qx: i128 = crate::arith::div_toward_zero(x as i128, self.x_bump as i128);
        let qy: i128 = crate::arith::div_toward_zero(y as i128, self.y_bump as i128);
        proof {
            crate::arith::lemma_trunc_div_bound(x as int, self.x_bump as int);
            crate::arith::lemma_trunc_div_bound(y as int, self.y_bump as int);
            lemma_snap_bound(x as int, self.x_bump as int);
            lemma_snap_bound(y as int, self.y_bump as int);
        }
        ((qx * (self.x_bump as i128)) as i32, (qy * (self.y_bump as i128)) as i32)
    }

    fn modify_bb(&self, bb: &mut Rect)
        requires
            self.x_bump > 0,
            self.y_bump > 0,
        ensures
            *final(bb) == snapped_box(*old(bb), *self),
            final(bb).wf(),
            !final(bb).null,
    {
        let top_left = {
            let (x, y) = self.floor(bb.top_left().x, bb.top_left().y);
            Point { x, y }
        };
        let bottom_right = {
            let (x, y) = self.floor(bb.bottom_right().x, bb.bottom_right().y);
            Point { x, y }
        };
        *bb = Rect::from_points(&top_left, &bottom_right);
    }

    fn max_bump(&self) -> (r: i32)
        ensures
            r == (if self.x_bump >= self.y_bump {
                self.x_bump
            } else {
                self.y_bump
            }),
    {
        if self.x_bump >= self.y_bump {
            self.x_bump
        } else {
            self.y_bump
        }
    }
}

/// A snapped value lies between zero and the value.
pub proof fn lemma_snap_bound(v: int, bump: int)
    requires
        bump > 0,
    ensures
        v >= 0 ==> 0 <= snapped(v, bump) <= v,
        v <= 0 ==> v <= snapped(v, bump) <= 0,
{
    if v >= 0 {
        assert(0 <= (v / bump) * bump <= v) by (nonlinear_arith)
            requires
                v >= 0,
                bump > 0,
        ;
    } else {
        let m = -v;
        assert(0 <= (m / bump) * bump <= m) by (nonlinear_arith)
            requires
                m >= 0,
                bump > 0,
        ;
        assert((-(m / bump)) * bump == -((m / bump) * bump)) by (nonlinear_arith);
    }
}

/// Walks over the lattice of sample points in a box.
pub struct BoxSampler {
    x: i64,
    y: i64,
    bb: Rect,
    x_orig: i32,
    sample_dist: SampleDist,
    on_top: bool,
}

impl BoxSampler {
    /// The walk has steps above zero and stands in its box, or one step
    /// behind its right or bottom edge.
    pub closed spec fn wf(&self) -> bool {
        &&& self.sample_dist.x_bump > 0
        &&& self.sample_dist.y_bump > 0
        &&& self.bb.wf()
        &&& !self.bb.null
        &&& self.x_orig == self.bb.top_left.x
        &&& self.bb.top_left.x <= self.x <= self.bb.bottom_right.x + self.sample_dist.x_bump
        &&& self.bb.top_left.y <= self.y <= self.bb.bottom_right.y + self.sample_dist.y_bump
    }

    /// 1 if the walk has come past the end of its row, 0 otherwise.
    pub closed spec fn past_row(&self) -> int {
        if self.x > self.bb.bottom_right.x {
            1
        } else {
            0
        }
    }

    /// The points that the walk has still to hand out.
    pub closed spec fn remaining(&self) -> Seq<(Point, bool)> {
        lattice_from(self.bb, self.sample_dist, self.x as int, self.y as int, self.on_top)
    }

    /// The next point of the lattice, if there is one left.
    pub fn next(&mut self) -> (r: Option<(Point, bool)>)
        requires
            old(self).wf(),
        ensures
            final(self).wf(),
            old(self).remaining().len() == 0 ==> r is None && final(self).remaining().len() == 0,
            old(self).remaining().len() > 0 ==> r == Some(old(self).remaining()[0])
                && final(self).remaining() == old(self).remaining().drop_first(),
        decreases old(self).past_row(),
    {
        let xb: i64 = self.sample_dist.x_bump as i64;
        let yb: i64 = self.sample_dist.y_bump as i64;
        let right: i64 = self.bb.bottom_right.x as i64;
        let bottom: i64 = self.bb.bottom_right.y as i64;
        if self.y > bottom {
            proof {
                assert(self.remaining() =~= Seq::<(Point, bool)>::empty());
            }
            return None;
        }
        let on_left = self.x == self.x_orig as i64;
        let on_right = self.x + xb >= right;
        let on_top = self.on_top;
        let on_bottom = self.y + yb >= bottom;
        if self.x <= right {
            let p = Point { x: self.x as i32, y: self.y as i32 };
            let ghost before = self.remaining();
            let ghost flag = !(on_left || on_right || on_top || on_bottom);
            self.x = self.x + xb;
            proof {
                assert(before == seq![(p, flag)] + self.remaining());
                assert(before[0] == (p, flag));
                assert(self.remaining() =~= before.drop_first());
            }
            Some((p, !(on_left || on_right || on_top || on_bottom)))
        } else {
            let ghost before = self.remaining();
            self.x = self.x_orig as i64;
            self.y = self.y + yb;
            self.on_top = false;
            proof {
                assert(before == self.remaining());
            }
            if self.y > bottom {
                proof {
                    assert(self.remaining() =~= Seq::<(Point, bool)>::empty());
                }
                None
            } else {
                self.next()
            }
        }
    }
}

/// A walk over the lattice of sample points in the box.
pub fn sample_from_box(bb: Rect, sample_dist: SampleDist) -> (r: BoxSampler)
    requires
        sample_dist.x_bump > 0,
        sample_dist.y_bump > 0,
    ensures
        r.wf(),
        r.remaining() == lattice(bb, sample_dist),
{
    let mut bb = bb;
    sample_dist.modify_bb(&mut bb);
    let Point { x, y } = bb.top_left();
    let x_orig = x;
    BoxSampler { x: x as i64, y: y as i64, bb, x_orig, sample_dist, on_top: true }
}

/// The smallest of the sizes of four samples, but no more than the largest
/// sample there is.
pub open spec fn spec_min_abs4(a: i64, b: i64, c: i64, d: i64) -> i64 {
    let m1 = if spec_abs(a) <= spec_abs(b) { spec_abs(a) } else { spec_abs(b) };
    let m2 = if spec_abs(c) <= spec_abs(d) { spec_abs(c) } else { spec_abs(d) };
    if m1 <= m2 {
        m1
    } else {
        m2
    }
}

/// The size of `a`, or the greatest sample there is where that is out of
/// range.
pub open spec fn spec_abs(a: i64) -> i64 {
    if a == i64::MIN {
        i64::MAX
    } else if a < 0 {
        (-a) as i64
    } else {
        a
    }
}

fn abs(a: i64) -> (r: i64)
    ensures
        r == spec_abs(a),
{
    if a == i64::MIN {
        i64::MAX
    } else if a < 0 {
        -a
    } else {
        a
    }
}

/// The smallest of the sizes of four samples.
pub fn min_abs4(a: i64, b: i64, c: i64, d: i64) -> (r: i64)
    ensures
        r == spec_min_abs4(a, b, c, d),
{
    let m1 = if abs(a) <= abs(b) { abs(a) } else { abs(b) };
    let m2 = if abs(c) <= abs(d) { abs(c) } else { abs(d) };
    if m1 <= m2 {
        m1
    } else {
        m2
    }
}

/// Whether the raster has, at one of the four grid points around `p`, a
/// sample smaller in size than `limit`, so that the outline may pass near
/// `p`.
pub open spec fn near_outline(bitmap: &Bitmap, p: Point, limit: i64) -> bool {
    spec_min_abs4(
        bitmap.at(bitmap.low_column(p.x), bitmap.low_row(p.y)),
        bitmap.at(bitmap.low_column(p.x), bitmap.high_row(p.y)),
        bitmap.at(bitmap.high_column(p.x), bitmap.low_row(p.y)),
        bitmap.at(bitmap.high_column(p.x), bitmap.high_row(p.y)),
    ) < limit
}

/// The points of the lattice that lie inside the lattice, if `inside` is
/// set, or on its border, if it is not; in the order of the lattice. With
/// `prune` only the points near the outline are taken.
pub open spec fn chosen(
    lat: Seq<(Point, bool)>,
    bitmap: &Bitmap,
    limit: i64,
    inside: bool,
    prune: bool,
) -> Seq<Point>
    decreases lat.len(),
{
    if lat.len() == 0 {
        seq![]
    } else {
        let rest = chosen(lat.drop_last(), bitmap, limit, inside, prune);
        if (!prune || near_outline(bitmap, lat.last().0, limit)) && lat.last().1 == inside {
            rest.push(lat.last().0)
        } else {
            rest
        }
    }
}

/// The size of a cell of the raster: how near a raster sample has to be
/// for a lattice point to be kept.
pub open spec fn keep_limit(bitmap: &Bitmap) -> i64 {
    bitmap.spec_resolution() as i64
}

/// The lattice points of the box: first those inside the lattice, second
/// those on its border. With `prune` only the points are taken near which
/// the outline may pass.
pub fn real_sample_with_bitmap(
    rect: Rect,
    sample_dist: SampleDist,
    bitmap: &Bitmap,
    prune: bool,
) -> (r: (Vec<Point>, Vec<Point>))
    requires
        sample_dist.x_bump > 0,
        sample_dist.y_bump > 0,
        bitmap.wf(),
    ensures
        r.0@ == chosen(lattice(rect, sample_dist), bitmap, keep_limit(bitmap), true, prune),
        r.1@ == chosen(lattice(rect, sample_dist), bitmap, keep_limit(bitmap), false, prune),
{
    let mut out_uncontested: Vec<Point> = Vec::new();
    let mut out_contested: Vec<Point> = Vec::new();
    let limit: i64 = bitmap.resolution() as i64;
    let mut walk = sample_from_box(rect, sample_dist);
    let ghost all = lattice(rect, sample_dist);
    let ghost mut seen: Seq<(Point, bool)> = seq![];
    proof {
        assert(seen + walk.remaining() =~= all);
    }
    loop
        invariant
            walk.wf(),
            bitmap.wf(),
            limit == keep_limit(bitmap),
            seen + walk.remaining() == all,
            out_uncontested@ == chosen(seen, bitmap, limit, true, prune),
            out_contested@ == chosen(seen, bitmap, limit, false, prune),
        ensures
            out_uncontested@ == chosen(all, bitmap, limit, true, prune),
            out_contested@ == chosen(all, bitmap, limit, false, prune),
        decreases walk.remaining().len(),
    {
        let ghost left = walk.remaining();
        match walk.next() {
            Some((p, c)) => {
                let Point { x, y } = p;
                let sample = bitmap.sample(x, y, min_abs4);
                let bll = !prune || sample < limit;
                proof {
                    let grown = seen.push((p, c));
                    assert(grown.drop_last() =~= seen);
                    assert(grown + left.drop_first() =~= seen + left);
                    seen = grown;
                }
                match (bll, c) {
                    (true, true) => {
                        out_uncontested.push(p);
                    },
                    (true, false) => {
                        out_contested.push(p);
                    },
                    (false, _) => {},
                }
            },
            None => {
                proof {
                    assert(seen + left =~= seen);
                }
                break ;
            },
        }
    }
    (out_uncontested, out_contested)
}

/// The lattice points when the box is cut into strips, each strip into
/// an upper and a lower half until `count`, doubled with every cut, has
/// reached `target`: first the points inside the lattices of the strips,
/// second the points on their borders, the strips from the top down. With
/// `prune` only the points near the outline are taken.
pub open spec fn strips(
    rect: Rect,
    d: SampleDist,
    bitmap: &Bitmap,
    count: int,
    target: int,
    prune: bool,
) -> (Seq<Point>, Seq<Point>)
    decreases (if 0 < count < target { target - count } else { 0 }) as nat,
{
    if 0 < count < target {
        let halves = rect.spec_split_hori();
        let top = strips(halves.0, d, bitmap, 2 * count, target, prune);
        let bot = strips(halves.1, d, bitmap, 2 * count, target, prune);
        (top.0 + bot.0, top.1 + bot.1)
    } else {
        (
            chosen(lattice(rect, d), bitmap, keep_limit(bitmap), true, prune),
            chosen(lattice(rect, d), bitmap, keep_limit(bitmap), false, prune),
        )
    }
}

/// `rayon::join` on the two halves of a strip: both halves are sampled by
/// `parallel`, possibly at the same time, and the two results come back as
/// a pair, that of the first half first.
#[verifier::external_body]
fn join_strips(
    top: Rect,
    bot: Rect,
    sample_dist: SampleDist,
    bitmap: &Bitmap,
    thread_count: u32,
    target_threads: u32,
    prune: bool,
) -> (r: ((Vec<Point>, Vec<Point>), (Vec<Point>, Vec<Point>)))
    requires
        sample_dist.x_bump > 0,
        sample_dist.y_bump > 0,
        bitmap.wf(),
        thread_count > 0,
        target_threads <= 0x8000_0000,
    ensures
        r.0.0@ == strips(
            top,
            sample_dist,
            bitmap,
            thread_count as int,
            target_threads as int,
            prune,
        ).0,
        r.0.1@ == strips(
            top,
            sample_dist,
            bitmap,
            thread_count as int,
            target_threads as int,
            prune,
        ).1,
        r.1.0@ == strips(
            bot,
            sample_dist,
            bitmap,
            thread_count as int,
            target_threads as int,
            prune,
        ).0,
        r.1.1@ == strips(
            bot,
            sample_dist,
            bitmap,
            thread_count as int,
            target_threads as int,
            prune,
        ).1,
{
    rayon::join(
        move || parallel(top, sample_dist, bitmap, thread_count, target_threads, prune),
        move || parallel(bot, sample_dist, bitmap, thread_count, target_threads, prune),
    )
}

/// Samples the box strip by strip.
pub fn parallel(
    rect: Rect,
    sample_dist: SampleDist,
    bitmap: &Bitmap,
    thread_count: u32,
    target_threads: u32,
    prune: bool,
) -> (r: (Vec<Point>, Vec<Point>))
    requires
        sample_dist.x_bump > 0,
        sample_dist.y_bump > 0,
        bitmap.wf(),
        thread_count > 0,
        target_threads <= 0x8000_0000,
    ensures
        r.0@ == strips(
            rect,
            sample_dist,
            bitmap,
            thread_count as int,
            target_threads as int,
            prune,
        ).0,
        r.1@ == strips(
            rect,
            sample_dist,
            bitmap,
            thread_count as int,
            target_threads as int,
            prune,
        ).1,
{
    if thread_count >= target_threads {
        return real_sample_with_bitmap(rect, sample_dist, bitmap, prune);
    }
    let (top, bot) = rect.split_hori();
    let ((mut u1, mut c1), (mut u2, mut c2)) = join_strips(
        top,
        bot,
        sample_dist,
        bitmap,
        thread_count * 2,
        target_threads,
        prune,
    );
    u1.append(&mut u2);
    c1.append(&mut c2);
    (u1, c1)
}

/// The box of the shape, grown by twice the resolution on every side.
pub open spec fn sampling_box(bb: Rect, resolution: i32) -> Rect {
    bb.spec_expand(
        (2 * resolution) as i32,
        (2 * resolution) as i32,
        (2 * resolution) as i32,
        (2 * resolution) as i32,
    )
}

/// How many times coarser than the lattice the raster is, unless the
/// caller says otherwise.
pub const RASTER_RATIO: i32 = 5;

/// What sampling asks of a shape, a resolution and a ratio between the
/// raster and the lattice: the shape is bounded by a well-formed box, the
/// box grown by twice the resolution lies on the grid, and a raster of the
/// shape at `ratio` times the resolution can be held.
pub open spec fn can_sample_with(bb: Option<Rect>, resolution: i32, ratio: i32) -> bool {
    &&& resolution > 0
    &&& ratio > 0
    &&& ratio * resolution <= i32::MAX
    &&& bb is Some
    &&& bb->0.wf()
    &&& !bb->0.null
    &&& fits_coord(bb->0.top_left.x - 2 * resolution)
    &&& fits_coord(bb->0.top_left.y - 2 * resolution)
    &&& fits_coord(bb->0.bottom_right.x + 2 * resolution)
    &&& fits_coord(bb->0.bottom_right.y + 2 * resolution)
    &&& raster_fits(bb->0, (ratio * resolution) as i32)
}

/// What sampling asks of a shape and a resolution, with a raster five
/// times coarser than the lattice.
pub open spec fn can_sample(bb: Option<Rect>, resolution: i32) -> bool {
    can_sample_with(bb, resolution, RASTER_RATIO)
}

/// Whether the shape with this box can be sampled at this resolution with
/// a raster `ratio` times coarser than the lattice.
pub fn check_sample_with(bb: &Option<Rect>, resolution: i32, ratio: i32) -> (r: bool)
    ensures
        r == can_sample_with(*bb, resolution, ratio),
{
    match bb {
        Some(b) => {
            if resolution <= 0 || ratio <= 0 {
                return false;
            }
            proof {
                assert(0 < ratio * resolution <= 0x8000_0000 * 0x8000_0000) by (nonlinear_arith)
                    requires
                        0 < ratio <= 0x8000_0000,
                        0 < resolution <= 0x8000_0000,
                ;
            }
            let step: i64 = (ratio as i64) * (resolution as i64);
            if step > i32::MAX as i64 {
                return false;
            }
            if b.null || b.top_left.x > b.bottom_right.x || b.top_left.y > b.bottom_right.y {
                return false;
            }
            let grow: i64 = 2 * (resolution as i64);
            let lo: i64 = i32::MIN as i64;
            let hi: i64 = i32::MAX as i64;
            if b.top_left.x as i64 - grow < lo || b.top_left.y as i64 - grow < lo
                || b.bottom_right.x as i64 + grow > hi || b.bottom_right.y as i64 + grow > hi {
                return false;
            }
            crate::bitmap::check_raster(b, step as i32)
        },
        None => false,
    }
}

/// Whether the shape with this box can be sampled at this resolution.
pub fn check_sample(bb: &Option<Rect>, resolution: i32) -> (r: bool)
    ensures
        r == can_sample(*bb, resolution),
{
    check_sample_with(bb, resolution, RASTER_RATIO)
}

/// Whether `bitmap` is the raster of the shape with cells of the size
/// `step`.
pub open spec fn raster_of<S: Implicit>(shape: &S, step: int, bitmap: Bitmap) -> bool {
    &&& bitmap.wf()
    &&& bitmap.spec_resolution() == step
    &&& bitmap.spec_offset() == shape.bounds()->0.top_left
    &&& forall|x: int, y: int|
        0 <= x < bitmap.spec_width() && 0 <= y < bitmap.spec_height() ==> #[trigger] bitmap.at(x, y)
            == shape.value(bitmap.place(x, y))
}

/// The number of points on the borders of the strips that are looked at;
/// what comes after them is left out.
pub const MAX_BORDER: usize = 0xffff_fffe;

/// Whether one of the points of `border` at the places `picks` is a
/// duplicate of `p`, or `p` itself.
pub open spec fn stands_near(border: Seq<Point>, picks: Seq<int>, p: Point) -> bool {
    exists|k: int|
        0 <= k < picks.len() && 0 <= #[trigger] picks[k] < border.len()
            && border[picks[k]].spec_close_to(p, EPSILON)
}

/// Whether `out` holds the sample points of the shape: with `bitmap` the
/// raster of the shape, first the points inside the lattices of the eight
/// strips, then the points on their borders at the places `picks`, which go
/// up; and each point on the borders has a duplicate at one of these
/// places, or stands there itself. Only the points near the outline are
/// taken, unless the field of the shape is not regular: then all are.
pub open spec fn sampled_with<S: Implicit>(
    shape: &S,
    resolution: i32,
    ratio: i32,
    bitmap: Bitmap,
    picks: Seq<int>,
    out: Seq<Point>,
) -> bool {
    let d = SampleDist { x_bump: resolution, y_bump: resolution };
    let bb = sampling_box(shape.bounds()->0, resolution);
    let found = strips(bb, d, &bitmap, 1, 7, shape.regular());
    &&& raster_of(shape, ratio * resolution, bitmap)
    &&& out.len() == found.0.len() + picks.len()
    &&& out.subrange(0, found.0.len() as int) == found.0
    &&& forall|k: int|
        0 <= k < picks.len() ==> 0 <= #[trigger] picks[k] < found.1.len() && out[found.0.len() + k]
            == found.1[picks[k]]
    &&& forall|j: int, k: int| 0 <= j < k < picks.len() ==> #[trigger] picks[j] < #[trigger] picks[k]
    &&& forall|j: int|
        0 <= j < found.1.len() && j < MAX_BORDER ==> stands_near(found.1, picks, #[trigger] found.1[j])
}

/// Whether `out` holds the sample points of the shape, found with a
/// raster five times coarser than the lattice.
pub open spec fn sampled_as<S: Implicit>(
    shape: &S,
    resolution: i32,
    bitmap: Bitmap,
    picks: Seq<int>,
    out: Seq<Point>,
) -> bool {
    sampled_with(shape, resolution, RASTER_RATIO, bitmap, picks, out)
}

/// Whether the tree indexes a point that is a duplicate of `p`, or `p`
/// itself.
pub open spec fn indexed_near(tree: QuadTree<Point>, p: Point) -> bool {
    exists|id: ItemId| #[trigger]
        tree.indexed().contains(id) && tree@[id].0.spec_close_to(p, EPSILON)
}

/// When a point on the borders has gone into a tree that takes no
/// duplicates and holds the border points before it, every border point up
/// to that one still has a duplicate, or itself, in the index.
pub proof fn lemma_still_near(
    was: QuadTree<Point>,
    now: QuadTree<Point>,
    border: Seq<Point>,
    i: int,
    hull: Rect,
)
    requires
        0 <= i < border.len(),
        i < u32::MAX,
        was.wf(),
        now.wf(),
        was.bounds() == hull,
        !hull.null,
        forall|j: int| 0 <= j < border.len() ==> hull.spec_contains(#[trigger] border[j]),
        forall|id: ItemId| #[trigger]
            was@.contains_key(id) ==> id.0 < i && was@[id] == (
                border[id.0 as int],
                Rect::spec_null_at(border[id.0 as int]),
            ),
        forall|j: int| 0 <= j < i ==> indexed_near(was, #[trigger] border[j]),
        now@ == was@.insert(ItemId(i as u32), (border[i], Rect::spec_null_at(border[i]))),
        forall|k: ItemId| #[trigger]
            was.indexed().contains(k) && hull.spec_does_intersect(was@[k].1)
                ==> now.indexed().contains(k),
        !now.indexed().contains(ItemId(i as u32)) ==> exists|k: ItemId| #[trigger]
            now.indexed().contains(k) && now@[k].1.spec_close_to(
                Rect::spec_null_at(border[i]),
                EPSILON,
            ),
    ensures
        forall|id: ItemId| #[trigger]
            now@.contains_key(id) ==> id.0 < i + 1 && now@[id] == (
                border[id.0 as int],
                Rect::spec_null_at(border[id.0 as int]),
            ),
        forall|j: int| 0 <= j < i + 1 ==> indexed_near(now, #[trigger] border[j]),
{
    let id = ItemId(i as u32);
    let contested = border[i];
    was.lemma_wf_facts();
    now.lemma_wf_facts();
    assert forall|k: ItemId| #[trigger] now@.contains_key(k) implies k.0 < i + 1 && now@[k] == (
        border[k.0 as int],
        Rect::spec_null_at(border[k.0 as int]),
    ) by {
        if k != id {
            assert(was@.contains_key(k));
        }
    }
    assert(hull.spec_contains(contested));
    assert forall|j: int| 0 <= j < i + 1 implies indexed_near(now, #[trigger] border[j]) by {
        if j < i {
            assert(indexed_near(was, border[j]));
            let w = choose|w: ItemId| #[trigger]
                was.indexed().contains(w) && was@[w].0.spec_close_to(border[j], EPSILON);
            assert(was@.contains_key(w));
            assert(hull.spec_contains(border[w.0 as int]));
            assert(now.indexed().contains(w));
            assert(now@[w] == was@[w]);
        } else if now.indexed().contains(id) {
            assert(now@[id].0 == contested);
            assert(contested.spec_close_to(contested, EPSILON)) by {
                assert(contested.dist2(contested) == 0) by (nonlinear_arith)
                    requires
                        contested.dist2(contested) == (contested.x - contested.x) * (contested.x
                            - contested.x) + (contested.y - contested.y) * (contested.y
                            - contested.y),
                ;
            }
        } else {
            let w = choose|w: ItemId| #[trigger]
                now.indexed().contains(w) && now@[w].1.spec_close_to(
                    Rect::spec_null_at(contested),
                    EPSILON,
                );
            assert(now@.contains_key(w));
            assert(now@[w].0.spec_close_to(contested, EPSILON));
        }
    }
}

/// The sample points of a shape: the points of a lattice with the given
/// resolution over the box of the shape near which, by a coarse raster of
/// the shape, the outline may pass; all points of the lattice for a shape
/// whose field is not regular. The lattice is laid out in eight strips.
/// The points inside the lattices of the strips come first, in the order
/// of `strips`. Of the points on the borders of the strips, those follow
/// that a tree which takes no duplicates holds, in their order: for each
/// point on the borders one that is less than the tolerance of the tree
/// away from it.
pub fn sampling_points<S: Implicit>(shape: &S, resolution: i32) -> (out: Vec<Point>)
    requires
        can_sample(shape.bounds(), resolution),
    ensures
        exists|bitmap: Bitmap, picks: Seq<int>| #[trigger]
            sampled_as(shape, resolution, bitmap, picks, out@),
{
    let out = sampling_points_with(shape, resolution, RASTER_RATIO);
    proof {
        let (bitmap, picks) = choose|bitmap: Bitmap, picks: Seq<int>| #[trigger]
            sampled_with(shape, resolution, RASTER_RATIO, bitmap, picks, out@);
        assert(sampled_as(shape, resolution, bitmap, picks, out@));
    }
    out
}

/// Appends to `out` those of the points on the borders that a tree over
/// the box `hull` which takes no duplicates holds, in their order, and
/// tells their places: for each point one that is less than the tolerance
/// of the tree away from it.
#[verifier::rlimit(40)]
fn keep_apart(to_filter: &Vec<Point>, hull: Rect, out: &mut Vec<Point>) -> (picked: Ghost<Seq<int>>)
    requires
        hull.wf(),
        !hull.null,
        forall|j: int| 0 <= j < to_filter@.len() ==> hull.spec_contains(#[trigger] to_filter@[j]),
    ensures
        final(out)@.len() == old(out)@.len() + picked@.len(),
        final(out)@.subrange(0, old(out)@.len() as int) == old(out)@,
        forall|k: int|
            0 <= k < picked@.len() ==> 0 <= #[trigger] picked@[k] < to_filter@.len()
                && final(out)@[old(out)@.len() + k] == to_filter@[picked@[k]],
        forall|j: int, k: int|
            0 <= j < k < picked@.len() ==> #[trigger] picked@[j] < #[trigger] picked@[k],
        forall|j: int|
            0 <= j < to_filter@.len() && j < MAX_BORDER ==> stands_near(
                to_filter@,
                picked@,
                #[trigger] to_filter@[j],
            ),
{
    let ghost base = out@;
    let mut quadtree: QuadTree<Point> = QuadTree::new(hull, false, 5, 20, 5);
    let mut i: usize = 0;
    while i < to_filter.len() && i < MAX_BORDER
        invariant
            i <= to_filter@.len(),
            i <= MAX_BORDER,
            quadtree.wf(),
            quadtree.sparse(),
            !quadtree.allows_duplicates(),
            quadtree.bounds() == hull,
            !hull.null,
            quadtree.next_id() == i,
            forall|j: int| 0 <= j < to_filter@.len() ==> hull.spec_contains(#[trigger] to_filter@[j]),
            forall|id: ItemId| #[trigger]
                quadtree@.contains_key(id) ==> id.0 < i && quadtree@[id] == (
                    to_filter@[id.0 as int],
                    Rect::spec_null_at(to_filter@[id.0 as int]),
                ),
            forall|j: int| 0 <= j < i ==> indexed_near(quadtree, #[trigger] to_filter@[j]),
        decreases to_filter@.len() - i,
    {
        let contested: Point = to_filter[i];
        let ghost was = quadtree;
        let id = quadtree.insert(contested);
        proof {
            lemma_still_near(was, quadtree, to_filter@, i as int, hull);
        }
        i += 1;
    }
    let kept = quadtree.query(Rect::null());
    let ghost mut picks: Seq<int> = seq![];
    let mut k: usize = 0;
    while k < kept.len()
        invariant
            k <= kept@.len(),
            base == old(out)@,
            picks.len() == k,
            out@.len() == base.len() + k,
            out@.subrange(0, base.len() as int) == base,
            forall|j: int, m: int|
                0 <= j < m < kept@.len() ==> (#[trigger] kept@[j]).2.0 < (#[trigger] kept@[m]).2.0,
            forall|j: int|
                0 <= j < kept@.len() ==> {
                    let row = #[trigger] kept@[j];
                    quadtree@.contains_key(row.2) && quadtree@[row.2] == (*row.0, *row.1)
                },
            forall|id: ItemId| #[trigger]
                quadtree@.contains_key(id) ==> id.0 < to_filter@.len() && quadtree@[id].0
                    == to_filter@[id.0 as int],
            forall|j: int|
                0 <= j < k ==> #[trigger] picks[j] == kept@[j].2.0 && 0 <= picks[j]
                    < to_filter@.len() && out@[base.len() + j] == to_filter@[picks[j]],
            i <= to_filter@.len(),
            i == to_filter@.len() || i == MAX_BORDER,
            quadtree.wf(),
            forall|j: int| 0 <= j < i ==> indexed_near(quadtree, #[trigger] to_filter@[j]),
            forall|id: ItemId|
                quadtree.indexed().contains(id) ==> exists|m: int|
                    0 <= m < kept@.len() && (#[trigger] kept@[m]).2 == id,
        decreases kept@.len() - k,
    {
        let ok: Point = *kept[k].0;
        let ghost before = out@;
        out.push(ok);
        proof {
            let row = kept@[k as int];
            assert(quadtree@.contains_key(row.2));
            picks = picks.push(row.2.0 as int);
            assert(out@.subrange(0, base.len() as int) =~= before.subrange(0, base.len() as int));
        }
        k += 1;
    }
    proof {
        assert forall|j: int, m: int| 0 <= j < m < picks.len() implies #[trigger] picks[j]
            < #[trigger] picks[m] by {
            assert(kept@[j].2.0 < kept@[m].2.0);
        }
        quadtree.lemma_wf_facts();
        assert forall|j: int| 0 <= j < to_filter@.len() && j < MAX_BORDER implies stands_near(
            to_filter@,
            picks,
            #[trigger] to_filter@[j],
        ) by {
            assert(indexed_near(quadtree, to_filter@[j]));
            let w = choose|w: ItemId| #[trigger]
                quadtree.indexed().contains(w) && quadtree@[w].0.spec_close_to(
                    to_filter@[j],
                    EPSILON,
                );
            let m = choose|m: int| 0 <= m < kept@.len() && (#[trigger] kept@[m]).2 == w;
            assert(picks[m] == w.0);
            assert(quadtree@.contains_key(w));
            assert(to_filter@[picks[m]] == quadtree@[w].0);
        }
    }
    Ghost(picks)
}

/// The sample points of a shape, found with a raster that is `ratio`
/// times coarser than the lattice. A coarser raster is made faster and
/// prunes less; a raster less than five times coarser may prune lattice
/// points that the outline passes by.
#[verifier::rlimit(40)]
pub fn sampling_points_with<S: Implicit>(shape: &S, resolution: i32, ratio: i32) -> (out: Vec<
    Point,
>)
    requires
        can_sample_with(shape.bounds(), resolution, ratio),
    ensures
        exists|bitmap: Bitmap, picks: Seq<int>| #[trigger]
            sampled_with(shape, resolution, ratio, bitmap, picks, out@),
{
    let bb = match shape.bounding_box() {
        Some(bb) => bb,
        None => {
            proof {
                assert(false);
            }
            Rect::null()
        },
    };
    let expand = resolution * 2;
    let bb = bb.expand(expand, expand, expand, expand);
    let sample_dist = SampleDist { x_bump: resolution, y_bump: resolution };
    let bitmap = Bitmap::new(shape, ratio * sample_dist.max_bump());
    let prune = shape.follows_rules();
    let (mut out, to_filter) = parallel(bb, sample_dist, &bitmap, 1, 7, prune);
    let ghost found = strips(bb, sample_dist, &bitmap, 1, 7, prune);

    // Lattices are laid out from the origin, so a point may lie beside the
    // box, on the side of the origin.
    let hull = bb.expanded_by(&Point { x: 0, y: 0 });
    proof {
        lemma_strips(bb, sample_dist, &bitmap, 1, 7, hull, prune);
    }
    let ghost base = out@;
    let picked = keep_apart(&to_filter, hull, &mut out);
    let ghost picks = picked@;
    proof {
        assert(strips(bb, sample_dist, &bitmap, 1, 7, shape.regular()) == found);
        assert(out@.subrange(0, base.len() as int) =~= base);
        assert forall|k: int| 0 <= k < picks.len() implies 0 <= #[trigger] picks[k] < found.1.len()
            && out@[found.0.len() + k] == found.1[picks[k]] by {
            assert(out@[base.len() + k] == to_filter@[picks[k]]);
        }
        assert(sampled_with(shape, resolution, ratio, bitmap, picks, out@));
    }
    out
}

/// The number of lattice points in the strips of the box, when the box is
/// cut as `strips` cuts it.
pub open spec fn strip_cells(rect: Rect, d: SampleDist, count: int, target: int) -> nat
    decreases (if 0 < count < target { target - count } else { 0 }) as nat,
{
    if 0 < count < target {
        let halves = rect.spec_split_hori();
        strip_cells(halves.0, d, 2 * count, target) + strip_cells(halves.1, d, 2 * count, target)
    } else {
        lattice(rect, d).len()
    }
}

/// The points of a lattice lie in its box.
pub proof fn lemma_lattice_from_inside(bb: Rect, d: SampleDist, x: int, y: int, on_top: bool)
    requires
        !bb.null,
    ensures
        forall|k: int|
            0 <= k < lattice_from(bb, d, x, y, on_top).len() ==> bb.spec_contains(
                (#[trigger] lattice_from(bb, d, x, y, on_top)[k]).0,
            ),
    decreases
        (if y <= bb.bottom_right.y { bb.bottom_right.y - y + 1 } else { 0 }) as nat,
        (if x <= bb.bottom_right.x { bb.bottom_right.x - x + 1 } else { 0 }) as nat,
{
    if d.x_bump <= 0 || d.y_bump <= 0 || y > bb.bottom_right.y || x < bb.top_left.x || y
        < bb.top_left.y {
        assert(lattice_from(bb, d, x, y, on_top) =~= Seq::<(Point, bool)>::empty());
    } else if x > bb.bottom_right.x {
        lemma_lattice_from_inside(bb, d, bb.top_left.x as int, y + d.y_bump, false);
        assert(lattice_from(bb, d, x, y, on_top) == lattice_from(
            bb,
            d,
            bb.top_left.x as int,
            y + d.y_bump,
            false,
        ));
    } else {
        lemma_lattice_from_inside(bb, d, x + d.x_bump, y, on_top);
        let all = lattice_from(bb, d, x, y, on_top);
        let rest = lattice_from(bb, d, x + d.x_bump, y, on_top);
        assert forall|k: int| 0 <= k < all.len() implies bb.spec_contains((#[trigger] all[k]).0) by {
            if k > 0 {
                assert(all[k] == rest[k - 1]);
            }
        }
    }
}

/// The box with the origin of the grid taken in.
pub open spec fn hull_of(rect: Rect) -> Rect {
    rect.spec_expanded_by(Point { x: 0, y: 0 })
}

/// The points of the lattice of a box lie in the box with the origin
/// taken in.
pub proof fn lemma_lattice_inside(rect: Rect, d: SampleDist, hull: Rect)
    requires
        d.x_bump > 0,
        d.y_bump > 0,
        rect.wf(),
        !rect.null,
        hull.spec_covers(hull_of(rect)),
        !hull.null,
    ensures
        forall|k: int|
            0 <= k < lattice(rect, d).len() ==> hull.spec_contains(
                (#[trigger] lattice(rect, d)[k]).0,
            ),
{
    let snap = snapped_box(rect, d);
    lemma_snap_bound(rect.top_left.x as int, d.x_bump as int);
    lemma_snap_bound(rect.top_left.y as int, d.y_bump as int);
    lemma_snap_bound(rect.bottom_right.x as int, d.x_bump as int);
    lemma_snap_bound(rect.bottom_right.y as int, d.y_bump as int);
    lemma_lattice_from_inside(snap, d, snap.top_left.x as int, snap.top_left.y as int, true);
    assert forall|k: int| 0 <= k < lattice(rect, d).len() implies hull.spec_contains(
        (#[trigger] lattice(rect, d)[k]).0,
    ) by {
        assert(snap.spec_contains(lattice(rect, d)[k].0));
    }
}

/// What is chosen from a lattice are points of the lattice, and the
/// points chosen inside and those chosen on the border are no more
/// together than the lattice has.
pub proof fn lemma_chosen(
    lat: Seq<(Point, bool)>,
    bitmap: &Bitmap,
    limit: i64,
    hull: Rect,
    prune: bool,
)
    requires
        forall|k: int| 0 <= k < lat.len() ==> hull.spec_contains((#[trigger] lat[k]).0),
    ensures
        forall|k: int|
            0 <= k < chosen(lat, bitmap, limit, true, prune).len() ==> hull.spec_contains(
                #[trigger] chosen(lat, bitmap, limit, true, prune)[k],
            ),
        forall|k: int|
            0 <= k < chosen(lat, bitmap, limit, false, prune).len() ==> hull.spec_contains(
                #[trigger] chosen(lat, bitmap, limit, false, prune)[k],
            ),
        chosen(lat, bitmap, limit, true, prune).len() + chosen(
            lat,
            bitmap,
            limit,
            false,
            prune,
        ).len() <= lat.len(),
    decreases lat.len(),
{
    if lat.len() > 0 {
        let head = lat.drop_last();
        assert forall|k: int| 0 <= k < head.len() implies hull.spec_contains(
            (#[trigger] head[k]).0,
        ) by {
            assert(head[k] == lat[k]);
        }
        lemma_chosen(head, bitmap, limit, hull, prune);
        assert(hull.spec_contains(lat[lat.len() - 1].0));
    }
}

/// The points that `strips` finds lie in the box with the origin taken
/// in, and are no more than the strips have lattice points.
pub proof fn lemma_strips(
    rect: Rect,
    d: SampleDist,
    bitmap: &Bitmap,
    count: int,
    target: int,
    hull: Rect,
    prune: bool,
)
    requires
        d.x_bump > 0,
        d.y_bump > 0,
        rect.wf(),
        !rect.null,
        hull.spec_covers(hull_of(rect)),
        !hull.null,
    ensures
        forall|k: int|
            0 <= k < strips(rect, d, bitmap, count, target, prune).0.len() ==> hull.spec_contains(
                #[trigger] strips(rect, d, bitmap, count, target, prune).0[k],
            ),
        forall|k: int|
            0 <= k < strips(rect, d, bitmap, count, target, prune).1.len() ==> hull.spec_contains(
                #[trigger] strips(rect, d, bitmap, count, target, prune).1[k],
            ),
        strips(rect, d, bitmap, count, target, prune).0.len() + strips(
            rect,
            d,
            bitmap,
            count,
            target,
            prune,
        ).1.len() <= strip_cells(rect, d, count, target),
    decreases (if 0 < count < target { target - count } else { 0 }) as nat,
{
    if 0 < count < target {
        let halves = rect.spec_split_hori();
        crate::arith::lemma_trunc_div_bound(rect.spec_height(), 2);
        lemma_strips(halves.0, d, bitmap, 2 * count, target, hull, prune);
        lemma_strips(halves.1, d, bitmap, 2 * count, target, hull, prune);
    } else {
        lemma_lattice_inside(rect, d, hull);
        lemma_chosen(lattice(rect, d), bitmap, keep_limit(bitmap), hull, prune);
    }
}

/// The number of lattice points of the box, or `cap + 1` if there are
/// more than `cap`.
pub fn count_lattice(rect: Rect, sample_dist: SampleDist, cap: usize) -> (r: usize)
    requires
        sample_dist.x_bump > 0,
        sample_dist.y_bump > 0,
        cap < usize::MAX,
    ensures
        r == (if lattice(rect, sample_dist).len() <= cap {
            lattice(rect, sample_dist).len() as int
        } else {
            cap + 1
        }),
{
    let mut walk = sample_from_box(rect, sample_dist);
    let ghost all = lattice(rect, sample_dist);
    let mut n: usize = 0;
    loop
        invariant_except_break
            n <= cap,
            n + walk.remaining().len() == all.len(),
        invariant
            walk.wf(),
            cap < usize::MAX,
        ensures
            n == (if all.len() <= cap {
                all.len() as int
            } else {
                cap + 1
            }),
        decreases walk.remaining().len(),
    {
        match walk.next() {
            Some(_) => {
                n += 1;
                if n > cap {
                    break ;
                }
            },
            None => {
                break ;
            },
        }
    }
    n
}

/// The number of lattice points in the strips of the box, or `cap + 1` if
/// there are more than `cap`.
pub fn count_cells(
    rect: Rect,
    sample_dist: SampleDist,
    thread_count: u32,
    target_threads: u32,
    cap: usize,
) -> (r: usize)
    requires
        sample_dist.x_bump > 0,
        sample_dist.y_bump > 0,
        thread_count > 0,
        target_threads <= 0x8000_0000,
        cap < usize::MAX,
    ensures
        r == (if strip_cells(rect, sample_dist, thread_count as int, target_threads as int) <= cap {
            strip_cells(rect, sample_dist, thread_count as int, target_threads as int) as int
        } else {
            cap + 1
        }),
    decreases (if thread_count < target_threads { target_threads - thread_count } else { 0 }),
{
    if thread_count >= target_threads {
        return count_lattice(rect, sample_dist, cap);
    }
    let (top, bot) = rect.split_hori();
    let a = count_cells(top, sample_dist, thread_count * 2, target_threads, cap);
    if a > cap {
        return cap + 1;
    }
    let b = count_cells(bot, sample_dist, thread_count * 2, target_threads, cap);
    if b > cap - a {
        cap + 1
    } else {
        a + b
    }
}

/// The smallest multiple of `step` that is not below `v`.
pub open spec fn next_multiple(v: int, step: int) -> int {
    -((-v) / step) * step
}

/// The lattice points of a box that is searched no further: the points
/// whose coordinates are multiples of the resolution, from the left and the
/// upper edge of the box up to its right and its lower edge, which belong
/// to the boxes beyond; row by row.
pub open spec fn cell_lattice(rect: Rect, resolution: i32) -> Seq<Point> {
    let d = SampleDist { x_bump: resolution, y_bump: resolution };
    let x0 = next_multiple(rect.top_left.x as int, resolution as int);
    let y0 = next_multiple(rect.top_left.y as int, resolution as int);
    if x0 >= rect.bottom_right.x || y0 >= rect.bottom_right.y {
        seq![]
    } else {
        let owned = Rect {
            top_left: Point { x: x0 as i32, y: y0 as i32 },
            bottom_right: Point {
                x: (rect.bottom_right.x - 1) as i32,
                y: (rect.bottom_right.y - 1) as i32,
            },
            null: false,
        };
        lattice_from(owned, d, x0, y0, true).map_values(|e: (Point, bool)| e.0)
    }
}

/// The size of the sample: its distance from zero.
pub open spec fn reach_of(v: i64) -> int {
    if v < 0 {
        -(v as int)
    } else {
        v as int
    }
}

/// Whether a sample `v` at the midpoint of the box tells that the outline
/// passes neither through the box nor through a cell around one of its
/// lattice points: the sample is larger in size than half the diagonal of
/// the box and the resolution together.
pub open spec fn beyond_diagonal(v: i64, rect: Rect, resolution: i32) -> bool {
    let rest = reach_of(v) - resolution;
    rest > 0 && 4 * (rest * rest) > rect.spec_width() * rect.spec_width() + rect.spec_height()
        * rect.spec_height()
}

/// Whether the search for sample points leaves the box out: the field of
/// the shape is regular, and its sample at the midpoint of the box is larger
/// in size than half the diagonal of the box and the resolution together.
pub open spec fn skipped<S: Implicit>(shape: &S, rect: Rect, resolution: i32) -> bool {
    shape.regular() && beyond_diagonal(shape.value(rect.spec_midpoint()), rect, resolution)
}

/// The sample points that a top-down search of the box finds: none if the
/// box is left out; the lattice points of the box if it is no wider and no
/// higher than the resolution; otherwise those of its four quadrants. No
/// lattice point is found twice: every one belongs to one box only.
pub open spec fn box_points<S: Implicit>(shape: &S, rect: Rect, resolution: i32) -> Seq<Point>
    decreases (rect.spec_width() + rect.spec_height()) as nat,
{
    if !rect.wf() || rect.null || resolution <= 0 || skipped(shape, rect, resolution) {
        seq![]
    } else if rect.spec_width() <= resolution && rect.spec_height() <= resolution {
        cell_lattice(rect, resolution)
    } else {
        box_points(shape, rect.spec_quadrant(0), resolution) + box_points(
            shape,
            rect.spec_quadrant(1),
            resolution,
        ) + box_points(shape, rect.spec_quadrant(2), resolution) + box_points(
            shape,
            rect.spec_quadrant(3),
            resolution,
        )
    }
}

/// The quadrants of a box that is wider or higher than one tick are
/// smaller than the box.
pub proof fn lemma_quadrants_smaller(rect: Rect, limit: int)
    requires
        rect.wf(),
        !rect.null,
        limit >= 1,
        rect.spec_width() > limit || rect.spec_height() > limit,
    ensures
        forall|i: int|
            0 <= i < 4 ==> {
                let q = #[trigger] rect.spec_quadrant(i);
                q.wf() && !q.null && 0 <= q.spec_width() + q.spec_height() < rect.spec_width()
                    + rect.spec_height()
            },
{
    crate::arith::lemma_trunc_div_bound(rect.spec_width(), 2);
    crate::arith::lemma_trunc_div_bound(rect.spec_height(), 2);
    let w = rect.spec_width();
    let h = rect.spec_height();
    assert(w >= 2 ==> 1 <= w / 2 <= w - 1);
    assert(h >= 2 ==> 1 <= h / 2 <= h - 1);
    assert(rect.spec_quadrant(0).spec_width() == w / 2);
    assert(rect.spec_quadrant(1).spec_width() == w - w / 2);
    assert(rect.spec_quadrant(2).spec_width() == w / 2);
    assert(rect.spec_quadrant(3).spec_width() == w - w / 2);
    assert(rect.spec_quadrant(0).spec_height() == h / 2);
    assert(rect.spec_quadrant(1).spec_height() == h / 2);
    assert(rect.spec_quadrant(2).spec_height() == h - h / 2);
    assert(rect.spec_quadrant(3).spec_height() == h - h / 2);
}

fn is_beyond_diagonal(v: i64, rect: &Rect, resolution: i32) -> (r: bool)
    requires
        rect.wf(),
        !rect.null,
        resolution > 0,
    ensures
        r == beyond_diagonal(v, *rect, resolution),
{
    let w: i128 = rect.width() as i128;
    let h: i128 = rect.height() as i128;
    proof {
        crate::arith::lemma_square_bound(w as int, 0x1_0000_0000);
        crate::arith::lemma_square_bound(h as int, 0x1_0000_0000);
    }
    let span: i128 = w * w + h * h;
    let size: i128 = if v < 0 { -(v as i128) } else { v as i128 };
    let rest: i128 = size - resolution as i128;
    if rest <= 0 {
        false
    } else if rest >= 0x4_0000_0000 {
        proof {
            crate::arith::lemma_square_monotonic(0x4_0000_0000, rest as int);
        }
        true
    } else {
        proof {
            crate::arith::lemma_square_bound(rest as int, 0x4_0000_0000);
        }
        4 * (rest * rest) > span
    }
}

fn push_cell_lattice(rect: &Rect, resolution: i32, out: &mut Vec<Point>)
    requires
        rect.wf(),
        !rect.null,
        resolution > 0,
    ensures
        final(out)@ == old(out)@ + cell_lattice(*rect, resolution),
{
    let res: i64 = resolution as i64;
    let qx: i64 = crate::bitmap::ceil_div(rect.top_left.x as i64, res);
    let qy: i64 = crate::bitmap::ceil_div(rect.top_left.y as i64, res);
    proof {
        let l = rect.top_left.x as int;
        let t = rect.top_left.y as int;
        let r = res as int;
        assert(l <= -((-l) / r) * r < l + r) by (nonlinear_arith)
            requires
                r > 0,
        ;
        assert(t <= -((-t) / r) * r < t + r) by (nonlinear_arith)
            requires
                r > 0,
        ;
        assert(qx * res == next_multiple(l, r));
        assert(qy * res == next_multiple(t, r));
    }
    let x0: i64 = qx * res;
    let y0: i64 = qy * res;
    if x0 >= rect.bottom_right.x as i64 || y0 >= rect.bottom_right.y as i64 {
        proof {
            assert(out@ =~= old(out)@ + cell_lattice(*rect, resolution));
        }
        return ;
    }
    let sample_dist = SampleDist { x_bump: resolution, y_bump: resolution };
    let owned = Rect {
        top_left: Point { x: x0 as i32, y: y0 as i32 },
        bottom_right: Point { x: rect.bottom_right.x - 1, y: rect.bottom_right.y - 1 },
        null: false,
    };
    let mut walk = BoxSampler {
        x: x0,
        y: y0,
        bb: owned,
        x_orig: x0 as i32,
        sample_dist,
        on_top: true,
    };
    let ghost all = walk.remaining();
    let ghost mut seen: Seq<(Point, bool)> = seq![];
    proof {
        assert(seen + walk.remaining() =~= all);
        assert(seen.map_values(|e: (Point, bool)| e.0) =~= Seq::<Point>::empty());
    }
    loop
        invariant
            walk.wf(),
            seen + walk.remaining() == all,
            out@ == old(out)@ + seen.map_values(|e: (Point, bool)| e.0),
        ensures
            out@ == old(out)@ + all.map_values(|e: (Point, bool)| e.0),
        decreases walk.remaining().len(),
    {
        let ghost left = walk.remaining();
        match walk.next() {
            Some((p, _)) => {
                out.push(p);
                proof {
                    let grown = seen.push(left[0]);
                    assert(grown + left.drop_first() =~= seen + left);
                    assert(grown.map_values(|e: (Point, bool)| e.0) =~= seen.map_values(
                        |e: (Point, bool)| e.0,
                    ).push(p));
                    assert(out@ =~= old(out)@ + grown.map_values(|e: (Point, bool)| e.0));
                    seen = grown;
                }
            },
            None => {
                proof {
                    assert(seen + left =~= seen);
                }
                break ;
            },
        }
    }
}

/// Adds to `out` the sample points that a top-down search of the box
/// finds.
pub fn sample_box<S: Implicit>(shape: &S, rect: Rect, resolution: i32, out: &mut Vec<Point>)
    requires
        rect.wf(),
        !rect.null,
        resolution > 0,
    ensures
        final(out)@ == old(out)@ + box_points(shape, rect, resolution),
    decreases (rect.spec_width() + rect.spec_height()) as nat,
{
    let m = shape.sample(rect.midpoint());
    if shape.follows_rules() && is_beyond_diagonal(m, &rect, resolution) {
        proof {
            assert(out@ =~= old(out)@ + Seq::<Point>::empty());
        }
        return ;
    }
    if rect.width() <= resolution as i64 && rect.height() <= resolution as i64 {
        push_cell_lattice(&rect, resolution, out);
        return ;
    }
    let quads = rect.split_quad();
    proof {
        lemma_quadrants_smaller(rect, resolution as int);
        assert(quads[0] == rect.spec_quadrant(0));
        assert(quads[1] == rect.spec_quadrant(1));
        assert(quads[2] == rect.spec_quadrant(2));
        assert(quads[3] == rect.spec_quadrant(3));
    }
    let ghost s0 = out@;
    sample_box(shape, quads[0], resolution, out);
    let ghost s1 = out@;
    sample_box(shape, quads[1], resolution, out);
    let ghost s2 = out@;
    sample_box(shape, quads[2], resolution, out);
    let ghost s3 = out@;
    sample_box(shape, quads[3], resolution, out);
    proof {
        let ga = box_points(shape, rect.spec_quadrant(0), resolution);
        let gb = box_points(shape, rect.spec_quadrant(1), resolution);
        let gc = box_points(shape, rect.spec_quadrant(2), resolution);
        let gd = box_points(shape, rect.spec_quadrant(3), resolution);
        assert(out@ =~= s0 + (ga + gb + gc + gd));
    }
}

/// What the top-down search for sample points asks of a shape and a
/// resolution: the shape is bounded by a well-formed box, and the box grown
/// by twice the resolution lies on the grid.
pub open spec fn can_search_points(bb: Option<Rect>, resolution: i32) -> bool {
    &&& resolution > 0
    &&& bb is Some
    &&& bb->0.wf()
    &&& !bb->0.null
    &&& fits_coord(bb->0.top_left.x - 2 * resolution)
    &&& fits_coord(bb->0.top_left.y - 2 * resolution)
    &&& fits_coord(bb->0.bottom_right.x + 2 * resolution)
    &&& fits_coord(bb->0.bottom_right.y + 2 * resolution)
}

/// Whether the sample points of a shape with this box can be searched
/// top-down at this resolution.
pub fn check_search_points(bb: &Option<Rect>, resolution: i32) -> (r: bool)
    ensures
        r == can_search_points(*bb, resolution),
{
    match bb {
        Some(b) => {
            if resolution <= 0 {
                return false;
            }
            if b.null || b.top_left.x > b.bottom_right.x || b.top_left.y > b.bottom_right.y {
                return false;
            }
            let grow: i64 = 2 * (resolution as i64);
            let lo: i64 = i32::MIN as i64;
            let hi: i64 = i32::MAX as i64;
            !(b.top_left.x as i64 - grow < lo || b.top_left.y as i64 - grow < lo || b.bottom_right.x as i64
                + grow > hi || b.bottom_right.y as i64 + grow > hi)
        },
        None => false,
    }
}

/// The sample points of a shape by a top-down search of its box, grown by
/// twice the resolution: a box is left out if the field of the shape is
/// regular and its sample at the midpoint of the box is larger in size than
/// half the diagonal of the box and the resolution together, so that the
/// outline passes through no cell around a lattice point of the box; a box
/// no wider and no higher than the resolution gives its lattice points;
/// every other box is searched quadrant by quadrant.
pub fn recursive_sampling_points<S: Implicit>(shape: &S, resolution: i32) -> (out: Vec<Point>)
    requires
        can_search_points(shape.bounds(), resolution),
    ensures
        out@ == box_points(shape, sampling_box(shape.bounds()->0, resolution), resolution),
{
    let bb = match shape.bounding_box() {
        Some(bb) => bb,
        None => {
            proof {
                assert(false);
            }
            Rect::null()
        },
    };
    let expand = resolution * 2;
    let bb = bb.expand(expand, expand, expand, expand);
    let mut out: Vec<Point> = Vec::new();
    sample_box(shape, bb, resolution, &mut out);
    proof {
        assert(out@ =~= box_points(shape, bb, resolution));
    }
    out
}

} // verus!
