use vstd::prelude::*;
use crate::geom::{Line, Point};
use crate::line_join::{
    after, chain_from, chain_rest, chain_tail, closest, dedup_ends, far_end, first_pair, fuse_one,
    is_closest, joined, keep_long, line_pool, meeting, merge_step, mergeable, pool_after, round,
    round_moves, seeds_ok, settle, simplify_walk, spec_connect, spec_fuse, spec_simplify, spliced,
    swap_removed, Chain, Meeting, Pool,
};
use crate::quadtree::ItemId;

verus! {

/// Whether `ok` holds of every point of the list.
pub open spec fn points_ok(s: Seq<Point>, ok: spec_fn(Point) -> bool) -> bool {
    forall|j: int| 0 <= j < s.len() ==> ok(#[trigger] s[j])
}

/// Whether `ok` holds of every point of every polyline.
pub open spec fn chains_ok(v: Seq<Chain>, ok: spec_fn(Point) -> bool) -> bool {
    forall|k: int| 0 <= k < v.len() ==> points_ok((#[trigger] v[k]).points(), ok)
}

/// Whether `ok` holds of both ends of every segment.
pub open spec fn ends_ok(lines: Seq<Line>, ok: spec_fn(Point) -> bool) -> bool {
    forall|k: int| 0 <= k < lines.len() ==> ok((#[trigger] lines[k]).0) && ok(lines[k].1)
}

/// Whether `ok` holds of both ends of every segment that is left.
pub open spec fn pool_ends_ok(pool: Pool, ok: spec_fn(Point) -> bool) -> bool {
    forall|id: ItemId| pool.contains_key(id) ==> ok((#[trigger] pool[id]).0.0) && ok(pool[id].0.1)
}

/// A chain gains only ends of segments of the pool, and leaves segments
/// of the pool.
pub proof fn lemma_tail_ok(
    pool: Pool,
    last: Point,
    resolution: i32,
    budget: nat,
    ok: spec_fn(Point) -> bool,
)
    requires
        pool_ends_ok(pool, ok),
    ensures
        points_ok(chain_tail(pool, last, resolution, budget), ok),
        pool_ends_ok(chain_rest(pool, last, resolution, budget), ok),
    decreases budget,
{
    let id = closest(pool, last, resolution);
    if budget == 0 || !is_closest(pool, last, resolution, id) {
    } else {
        let far = far_end(pool[id].0, last);
        assert(pool.contains_key(id));
        assert(ok(pool[id].0.0) && ok(pool[id].0.1));
        let left = pool.remove(id);
        assert forall|j: ItemId| left.contains_key(j) implies ok((#[trigger] left[j]).0.0) && ok(
            left[j].0.1,
        ) by {
            assert(pool.contains_key(j));
            assert(left[j] == pool[j]);
        }
        lemma_tail_ok(left, far, resolution, (budget - 1) as nat, ok);
        let rest = chain_tail(left, far, resolution, (budget - 1) as nat);
        let all = chain_tail(pool, last, resolution, budget);
        assert(all == seq![far] + rest);
        assert forall|j: int| 0 <= j < all.len() implies ok(#[trigger] all[j]) by {
            if j > 0 {
                assert(all[j] == rest[j - 1]);
            }
        }
    }
}

/// A chain that starts with a segment of the pool has only ends of
/// segments of the pool for points, and leaves segments of the pool.
pub proof fn lemma_chain_ok(pool: Pool, seed: ItemId, resolution: i32, ok: spec_fn(Point) -> bool)
    requires
        pool_ends_ok(pool, ok),
        pool.contains_key(seed),
    ensures
        points_ok(chain_from(pool, seed, resolution).points(), ok),
        pool_ends_ok(pool_after(pool, seed, resolution), ok),
{
    let seg = pool[seed].0;
    let left = pool.remove(seed);
    assert(ok(pool[seed].0.0) && ok(pool[seed].0.1));
    assert forall|j: ItemId| left.contains_key(j) implies ok((#[trigger] left[j]).0.0) && ok(
        left[j].0.1,
    ) by {
        assert(pool.contains_key(j));
        assert(left[j] == pool[j]);
    }
    lemma_tail_ok(left, seg.1, resolution, left.dom().len(), ok);
    let tail = chain_tail(left, seg.1, resolution, left.dom().len());
    let all = chain_from(pool, seed, resolution).points();
    assert(all == seq![seg.0, seg.1] + tail);
    assert forall|j: int| 0 <= j < all.len() implies ok(#[trigger] all[j]) by {
        if j >= 2 {
            assert(all[j] == tail[j - 2]);
        }
    }
}

/// The chains that are built from a pool have only ends of segments of the
/// pool for points.
pub proof fn lemma_joined_ok(
    pool: Pool,
    seeds: Seq<ItemId>,
    resolution: i32,
    ok: spec_fn(Point) -> bool,
)
    requires
        pool_ends_ok(pool, ok),
        seeds_ok(pool, seeds, resolution),
    ensures
        chains_ok(joined(pool, seeds, resolution), ok),
        pool_ends_ok(after(pool, seeds, resolution), ok),
    decreases seeds.len(),
{
    if seeds.len() > 0 {
        let head = seeds.drop_last();
        lemma_joined_ok(pool, head, resolution, ok);
        let left = after(pool, head, resolution);
        lemma_chain_ok(left, seeds.last(), resolution, ok);
        let before = joined(pool, head, resolution);
        let all = joined(pool, seeds, resolution);
        assert(all == before.push(chain_from(left, seeds.last(), resolution)));
        assert forall|k: int| 0 <= k < all.len() implies points_ok(
            (#[trigger] all[k]).points(),
            ok,
        ) by {
            if k < before.len() {
                assert(all[k] == before[k]);
            }
        }
    }
}

/// Fusing brings no new point.
pub proof fn lemma_fuse_ok(v: Seq<Chain>, ok: spec_fn(Point) -> bool)
    requires
        chains_ok(v, ok),
    ensures
        chains_ok(spec_fuse(v), ok),
    decreases v.len(),
{
    if v.len() > 0 {
        let head = v.drop_last();
        assert forall|k: int| 0 <= k < head.len() implies points_ok(
            (#[trigger] head[k]).points(),
            ok,
        ) by {
            assert(head[k] == v[k]);
        }
        lemma_fuse_ok(head, ok);
        let before = spec_fuse(head);
        let all = spec_fuse(v);
        let old_pts = v.last().points();
        assert(points_ok(v[v.len() - 1].points(), ok));
        let pts = dedup_ends(old_pts);
        assert forall|j: int| 0 <= j < pts.len() implies ok(#[trigger] pts[j]) by {
            assert(pts[j] == old_pts[j]);
        }
        match fuse_one(v.last()) {
            Some(c) => {
                assert(c.points() == pts);
                assert(all == before.push(c));
                assert forall|k: int| 0 <= k < all.len() implies points_ok(
                    (#[trigger] all[k]).points(),
                    ok,
                ) by {
                    if k < before.len() {
                        assert(all[k] == before[k]);
                    }
                }
            },
            None => {},
        }
    }
}

/// Two chains that become one bring no new point.
pub proof fn lemma_spliced_ok(a: Seq<Point>, b: Seq<Point>, m: Meeting, ok: spec_fn(Point) -> bool)
    requires
        points_ok(a, ok),
        points_ok(b, ok),
        b.len() > 0,
        a.len() > 0,
    ensures
        points_ok(spliced(a, b, m), ok),
{
    let s = spliced(a, b, m);
    assert forall|j: int| 0 <= j < s.len() implies ok(#[trigger] s[j]) by {
        match m {
            Meeting::FirstFirst => {
                let h = b.reverse().drop_last();
                if j < h.len() {
                    assert(s[j] == h[j]);
                    assert(h[j] == b[b.len() - 1 - j]);
                } else {
                    assert(s[j] == a[j - h.len()]);
                }
            },
            Meeting::FirstLast => {
                let h = b.drop_last();
                if j < h.len() {
                    assert(s[j] == b[j]);
                } else {
                    assert(s[j] == a[j - h.len()]);
                }
            },
            Meeting::LastFirst => {
                let h = a.drop_last();
                if j < h.len() {
                    assert(s[j] == a[j]);
                } else {
                    assert(s[j] == b[j - h.len()]);
                }
            },
            Meeting::LastLast => {
                let t = b.drop_last().reverse();
                if j < a.len() {
                    assert(s[j] == a[j]);
                } else {
                    let i = j - a.len();
                    assert(s[j] == t[i]);
                    assert(t[i] == b.drop_last()[b.drop_last().len() - 1 - i]);
                }
            },
        }
    }
}

/// One merge brings no new point, and leaves one chain less.
pub proof fn lemma_merge_ok(lines: Seq<Chain>, i: int, k: int, ok: spec_fn(Point) -> bool)
    requires
        chains_ok(lines, ok),
        mergeable(lines, i, k),
    ensures
        chains_ok(merge_step(lines, i, k), ok),
        merge_step(lines, i, k).len() == lines.len() - 1,
{
    let a = lines[i].points();
    let b = lines[k].points();
    let m = meeting(lines[i], lines[k])->0;
    assert(points_ok(lines[i].points(), ok));
    assert(points_ok(lines[k].points(), ok));
    lemma_spliced_ok(a, b, m, ok);
    let c = Chain::Unjoined(spliced(a, b, m));
    let (at, gone) = match m {
        Meeting::FirstFirst => (k, i),
        Meeting::FirstLast => (k, i),
        Meeting::LastFirst => (i, k),
        Meeting::LastLast => (i, k),
    };
    let mid = lines.update(at, c);
    let all = merge_step(lines, i, k);
    assert(all == swap_removed(mid, gone));
    assert forall|j: int| 0 <= j < all.len() implies points_ok((#[trigger] all[j]).points(), ok) by {
        let from = if j == gone { mid.len() - 1 } else { j };
        assert(all[j] == mid[from]);
        if from != at {
            assert(mid[from] == lines[from]);
        }
    }
}

/// Merging to the end brings no new point.
pub proof fn lemma_connect_ok(lines: Seq<Chain>, ok: spec_fn(Point) -> bool)
    requires
        chains_ok(lines, ok),
    ensures
        chains_ok(spec_connect(lines), ok),
    decreases lines.len(),
{
    let p = first_pair(lines);
    if mergeable(lines, p.0, p.1) {
        lemma_merge_ok(lines, p.0, p.1, ok);
        lemma_connect_ok(merge_step(lines, p.0, p.1), ok);
    }
}

/// Rounds of fusing and merging bring no new point.
pub proof fn lemma_settle_ok(v: Seq<Chain>, budget: nat, ok: spec_fn(Point) -> bool)
    requires
        chains_ok(v, ok),
    ensures
        chains_ok(settle(v, budget), ok),
    decreases budget,
{
    lemma_fuse_ok(v, ok);
    lemma_connect_ok(spec_fuse(v), ok);
    if budget == 0 || !round_moves(v) {
    } else {
        lemma_settle_ok(round(v), (budget - 1) as nat, ok);
    }
}

/// The polylines that are kept are polylines of the list.
pub proof fn lemma_keep_ok(v: Seq<Chain>, ok: spec_fn(Point) -> bool)
    requires
        chains_ok(v, ok),
    ensures
        chains_ok(keep_long(v), ok),
    decreases v.len(),
{
    if v.len() > 0 {
        let head = v.drop_last();
        assert forall|k: int| 0 <= k < head.len() implies points_ok(
            (#[trigger] head[k]).points(),
            ok,
        ) by {
            assert(head[k] == v[k]);
        }
        lemma_keep_ok(head, ok);
        let before = keep_long(head);
        let all = keep_long(v);
        assert(points_ok(v[v.len() - 1].points(), ok));
        assert forall|k: int| 0 <= k < all.len() implies points_ok(
            (#[trigger] all[k]).points(),
            ok,
        ) by {
            if k < before.len() {
                assert(all[k] == before[k]);
            }
        }
    }
}

/// The walk of the simplifier keeps points of the list and brings none.
pub proof fn lemma_walk_ok(first: Point, prev: Point, rest: Seq<Point>, ok: spec_fn(Point) -> bool)
    requires
        ok(prev),
        points_ok(rest, ok),
    ensures
        points_ok(simplify_walk(first, prev, rest), ok),
    decreases rest.len(),
{
    if rest.len() > 0 {
        let tail = rest.drop_first();
        assert(ok(rest[0]));
        assert forall|j: int| 0 <= j < tail.len() implies ok(#[trigger] tail[j]) by {
            assert(tail[j] == rest[j + 1]);
        }
        if crate::line_join::bent(first, prev, rest[0]) {
            lemma_walk_ok(prev, rest[0], tail, ok);
            let w = simplify_walk(prev, rest[0], tail);
            let all = simplify_walk(first, prev, rest);
            assert(all == seq![prev] + w);
            assert forall|j: int| 0 <= j < all.len() implies ok(#[trigger] all[j]) by {
                if j > 0 {
                    assert(all[j] == w[j - 1]);
                }
            }
        } else {
            lemma_walk_ok(first, rest[0], tail, ok);
        }
    }
}

/// The simplifier brings no new point.
pub proof fn lemma_simplify_ok(pts: Seq<Point>, ok: spec_fn(Point) -> bool)
    requires
        points_ok(pts, ok),
    ensures
        points_ok(spec_simplify(pts), ok),
{
    if pts.len() > 2 {
        let rest = pts.skip(2);
        assert(ok(pts[0]) && ok(pts[1]));
        assert forall|j: int| 0 <= j < rest.len() implies ok(#[trigger] rest[j]) by {
            assert(rest[j] == pts[j + 2]);
        }
        lemma_walk_ok(pts[0], pts[1], rest, ok);
        let w = simplify_walk(pts[0], pts[1], rest);
        let all = spec_simplify(pts);
        assert(all == seq![pts[0]] + w);
        assert forall|j: int| 0 <= j < all.len() implies ok(#[trigger] all[j]) by {
            if j > 0 {
                assert(all[j] == w[j - 1]);
            }
        }
    }
}

/// Stitching brings no new point: what holds of both ends of every
/// segment holds of every point of every polyline that the segments are
/// stitched to, whichever segments the chains start with.
pub proof fn lemma_stitched_ok(
    lines: Seq<Line>,
    seeds: Seq<ItemId>,
    resolution: i32,
    budget: nat,
    ok: spec_fn(Point) -> bool,
)
    requires
        ends_ok(lines, ok),
        seeds_ok(line_pool(lines), seeds, resolution),
    ensures
        chains_ok(keep_long(settle(joined(line_pool(lines), seeds, resolution), budget)), ok),
{
    let pool = line_pool(lines);
    assert forall|id: ItemId| pool.contains_key(id) implies ok((#[trigger] pool[id]).0.0) && ok(
        pool[id].0.1,
    ) by {
        assert(pool[id].0 == lines[id.0 as int]);
    }
    lemma_joined_ok(pool, seeds, resolution, ok);
    let start = joined(pool, seeds, resolution);
    lemma_settle_ok(start, budget, ok);
    lemma_keep_ok(settle(start, budget), ok);
}

} // verus!
