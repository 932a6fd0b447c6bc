use vstd::prelude::*;
use crate::arith::lemma_product_bound;
use crate::geom::{fits_coord, Line, Point};
use crate::Implicit;

verus! {

/// What one cell contributes to the outline.
#[derive(Copy, Clone, Debug, PartialEq, Eq, Structural)]
pub enum MarchResult {
    Nothing,
    One(Line),
    OneDebug(Line),
    Two(Line, Line),
    Debug,
}

// The corners and edge midpoints of a cell around its center P:
//
// A N B
// W P E
// D S C
//
// A sample counts as inside when it is zero or less.
/// Half the side of a cell of the given size, in whole ticks. The cell
/// reaches this far from its center on every side.
pub open spec fn spec_half(dist: i32) -> int {
    dist as int / 2
}

/// Whether a cell of this size around this center lies on the grid.
pub open spec fn cell_fits(p: Point, dist: i32) -> bool {
    &&& dist >= 0
    &&& fits_coord(p.x - spec_half(dist))
    &&& fits_coord(p.x + spec_half(dist))
    &&& fits_coord(p.y - spec_half(dist))
    &&& fits_coord(p.y + spec_half(dist))
}

/// Where the field crosses zero on an edge of a cell of size `dist`, by
/// linear interpolation between the sample `fa` at the end that lies half a
/// side before the middle of the edge and the sample `fb` at the other end.
/// The result is the offset of the crossing from the middle of the edge.
pub open spec fn spec_lerp(fa: i64, fb: i64, dist: i32) -> int {
    let na = if fa < 0 { -(fa as int) } else { fa as int };
    let nb = if fb < 0 { -(fb as int) } else { fb as int };
    -spec_half(dist) + (2 * spec_half(dist) * na) / (na + nb)
}

/// The point on the north edge at offset `how_much` from its middle.
pub open spec fn spec_n(dist: i32, p: Point, how_much: int) -> Point {
    Point { x: (p.x + how_much) as i32, y: (p.y - spec_half(dist)) as i32 }
}

/// The point on the south edge at offset `how_much` from its middle.
pub open spec fn spec_s(dist: i32, p: Point, how_much: int) -> Point {
    Point { x: (p.x + how_much) as i32, y: (p.y + spec_half(dist)) as i32 }
}

/// The point on the east edge at offset `how_much` from its middle.
pub open spec fn spec_e(dist: i32, p: Point, how_much: int) -> Point {
    Point { x: (p.x + spec_half(dist)) as i32, y: (p.y + how_much) as i32 }
}

/// The point on the west edge at offset `how_much` from its middle.
pub open spec fn spec_w(dist: i32, p: Point, how_much: int) -> Point {
    Point { x: (p.x - spec_half(dist)) as i32, y: (p.y + how_much) as i32 }
}

/// The segments of a cell with corner samples `sra` (north-west), `srb`
/// (north-east), `src` (south-east), `srd` (south-west) and center sample
/// `srm`. No segment where all corners agree; two segments where the
/// corners of each diagonal agree with one another and not with the other
/// diagonal, paired by the center sample; one segment otherwise, from the
/// crossing on one edge to the crossing on another. Every crossing, those
/// of the two-segment cells too, lies where linear interpolation between
/// the samples at the two ends of its edge puts it.
pub open spec fn spec_march(
    sra: i64,
    srb: i64,
    src: i64,
    srd: i64,
    srm: i64,
    p: Point,
    dist: i32,
) -> MarchResult {
    let a_on = sra <= 0;
    let b_on = srb <= 0;
    let c_on = src <= 0;
    let d_on = srd <= 0;
    let m_on = srm <= 0;
    let n0 = spec_n(dist, p, spec_lerp(sra, srb, dist));
    let s0 = spec_s(dist, p, spec_lerp(srd, src, dist));
    let e0 = spec_e(dist, p, spec_lerp(srb, src, dist));
    let w0 = spec_w(dist, p, spec_lerp(sra, srd, dist));
    if a_on == b_on && b_on == c_on && c_on == d_on {
        MarchResult::Nothing
    } else if !a_on && !b_on && !c_on && d_on {
        MarchResult::One(
            Line(
                spec_w(dist, p, spec_lerp(sra, srd, dist)),
                spec_s(dist, p, -spec_lerp(src, srd, dist)),
            ),
        )
    } else if !a_on && !b_on && c_on && !d_on {
        MarchResult::One(
            Line(
                spec_s(dist, p, spec_lerp(srd, src, dist)),
                spec_e(dist, p, -spec_lerp(src, srb, dist)),
            ),
        )
    } else if !a_on && !b_on && c_on && d_on {
        MarchResult::One(
            Line(
                spec_w(dist, p, spec_lerp(sra, srd, dist)),
                spec_e(dist, p, spec_lerp(srb, src, dist)),
            ),
        )
    } else if !a_on && b_on && !c_on && !d_on {
        MarchResult::One(
            Line(
                spec_n(dist, p, spec_lerp(sra, srb, dist)),
                spec_e(dist, p, spec_lerp(srb, src, dist)),
            ),
        )
    } else if !a_on && b_on && !c_on && d_on {
        if m_on {
            MarchResult::Two(Line(w0, n0), Line(s0, e0))
        } else {
            MarchResult::Two(Line(w0, s0), Line(n0, e0))
        }
    } else if !a_on && b_on && c_on && !d_on {
        MarchResult::One(
            Line(
                spec_n(dist, p, -spec_lerp(srb, sra, dist)),
                spec_s(dist, p, -spec_lerp(src, srd, dist)),
            ),
        )
    } else if !a_on && b_on && c_on && d_on {
        MarchResult::One(
            Line(
                spec_w(dist, p, spec_lerp(sra, srd, dist)),
                spec_n(dist, p, spec_lerp(sra, srb, dist)),
            ),
        )
    } else if a_on && !b_on && !c_on && !d_on {
        MarchResult::One(
            Line(
                spec_w(dist, p, spec_lerp(sra, srd, dist)),
                spec_n(dist, p, spec_lerp(sra, srb, dist)),
            ),
        )
    } else if a_on && !b_on && !c_on && d_on {
        MarchResult::One(
            Line(
                spec_n(dist, p, -spec_lerp(srb, sra, dist)),
                spec_s(dist, p, -spec_lerp(src, srd, dist)),
            ),
        )
    } else if a_on && !b_on && c_on && !d_on {
        if m_on {
            MarchResult::Two(Line(n0, e0), Line(w0, s0))
        } else {
            MarchResult::Two(Line(w0, n0), Line(s0, e0))
        }
    } else if a_on && !b_on && c_on && d_on {
        MarchResult::One(
            Line(
                spec_n(dist, p, spec_lerp(sra, srb, dist)),
                spec_e(dist, p, -spec_lerp(src, srb, dist)),
            ),
        )
    } else if a_on && b_on && !c_on && !d_on {
        MarchResult::One(
            Line(
                spec_w(dist, p, spec_lerp(sra, srd, dist)),
                spec_e(dist, p, spec_lerp(srb, src, dist)),
            ),
        )
    } else if a_on && b_on && !c_on && d_on {
        MarchResult::One(
            Line(
                spec_s(dist, p, spec_lerp(srd, src, dist)),
                spec_e(dist, p, spec_lerp(srb, src, dist)),
            ),
        )
    } else {
        MarchResult::One(
            Line(
                spec_w(dist, p, spec_lerp(sra, srd, dist)),
                spec_s(dist, p, spec_lerp(srd, src, dist)),
            ),
        )
    }
}

/// The crossing lies between the ends of its edge.
pub proof fn lemma_lerp_range(fa: i64, fb: i64, dist: i32)
    requires
        dist >= 0,
        fa <= 0 < fb || fb <= 0 < fa,
    ensures
        -spec_half(dist) <= spec_lerp(fa, fb, dist) <= spec_half(dist),
{
    let h = spec_half(dist);
    let na = if fa < 0 { -(fa as int) } else { fa as int };
    let nb = if fb < 0 { -(fb as int) } else { fb as int };
    let den = na + nb;
    let num = 2 * h * na;
    assert(0 <= num <= 2 * h * den) by (nonlinear_arith)
        requires
            num == 2 * h * na,
            h >= 0,
            0 <= na <= den,
    ;
    assert(0 <= num / den <= 2 * h) by (nonlinear_arith)
        requires
            0 <= num <= 2 * h * den,
            den > 0,
    ;
}

fn lerp(fa: i64, fb: i64, dist: i32) -> (r: i32)
    requires
        dist >= 0,
        fa <= 0 < fb || fb <= 0 < fa,
    ensures
        r == spec_lerp(fa, fb, dist),
        -spec_half(dist) <= r <= spec_half(dist),
{
    let half: i128 = (dist / 2) as i128;
    let na: i128 = if fa < 0 { -(fa as i128) } else { fa as i128 };
    let nb: i128 = if fb < 0 { -(fb as i128) } else { fb as i128 };
    proof {
        lemma_lerp_range(fa, fb, dist);
        lemma_product_bound(2 * half as int, na as int, 0x8000_0000, 0x8000_0000_0000_0000);
    }
    let num: i128 = 2 * half * na;
    (num / (na + nb) - half) as i32
}

fn n(dist: i32, point: Point, how_much: i32) -> (r: Point)
    requires
        cell_fits(point, dist),
        -spec_half(dist) <= how_much <= spec_half(dist),
    ensures
        r == spec_n(dist, point, how_much as int),
{
    Point { x: point.x + how_much, y: point.y - dist / 2 }
}

fn s(dist: i32, point: Point, how_much: i32) -> (r: Point)
    requires
        cell_fits(point, dist),
        -spec_half(dist) <= how_much <= spec_half(dist),
    ensures
        r == spec_s(dist, point, how_much as int),
{
    Point { x: point.x + how_much, y: point.y + dist / 2 }
}

fn e(dist: i32, point: Point, how_much: i32) -> (r: Point)
    requires
        cell_fits(point, dist),
        -spec_half(dist) <= how_much <= spec_half(dist),
    ensures
        r == spec_e(dist, point, how_much as int),
{
    Point { x: point.x + dist / 2, y: point.y + how_much }
}

fn w(dist: i32, point: Point, how_much: i32) -> (r: Point)
    requires
        cell_fits(point, dist),
        -spec_half(dist) <= how_much <= spec_half(dist),
    ensures
        r == spec_w(dist, point, how_much as int),
{
    Point { x: point.x - dist / 2, y: point.y + how_much }
}

/// The segments of one cell, from its four corner samples and its center
/// sample.
pub fn march_cell(sra: i64, srb: i64, src: i64, srd: i64, srm: i64, p: Point, dist: i32) -> (r:
    MarchResult)
    requires
        cell_fits(p, dist),
    ensures
        r == spec_march(sra, srb, src, srd, srm, p, dist),
{
    let a_on = sra <= 0;
    let b_on = srb <= 0;
    let c_on = src <= 0;
    let d_on = srd <= 0;

    match (a_on, b_on, c_on, d_on) {
        // o o
        // o o
        (false, false, false, false) => MarchResult::Nothing,
        // o o
        // . o
        (false, false, false, true) => {
            let da = lerp(sra, srd, dist);
            let dc = lerp(src, srd, dist);
            MarchResult::One(Line(w(dist, p, da), s(dist, p, -dc)))
        },
        // o o
        // o .
        (false, false, true, false) => {
            let db = lerp(src, srb, dist);
            let dd = lerp(srd, src, dist);
            MarchResult::One(Line(s(dist, p, dd), e(dist, p, -db)))
        },
        // o o
        // . .
        (false, false, true, true) => {
            let da = lerp(sra, srd, dist);
            let db = lerp(srb, src, dist);
            MarchResult::One(Line(w(dist, p, da), e(dist, p, db)))
        },
        // o .
        // o o
        (false, true, false, false) => {
            let da = lerp(sra, srb, dist);
            let db = lerp(srb, src, dist);
            MarchResult::One(Line(n(dist, p, da), e(dist, p, db)))
        },
        // o .
        // . o
        (false, true, false, true) => {
            let m_on = srm <= 0;
            let dn = lerp(sra, srb, dist);
            let ds = lerp(srd, src, dist);
            let de = lerp(srb, src, dist);
            let dw = lerp(sra, srd, dist);
            if m_on {
                MarchResult::Two(
                    Line(w(dist, p, dw), n(dist, p, dn)),
                    Line(s(dist, p, ds), e(dist, p, de)),
                )
            } else {
                MarchResult::Two(
                    Line(w(dist, p, dw), s(dist, p, ds)),
                    Line(n(dist, p, dn), e(dist, p, de)),
                )
            }
        },
        // o .
        // o .
        (false, true, true, false) => {
            let da = lerp(srb, sra, dist);
            let dd = lerp(src, srd, dist);
            MarchResult::One(Line(n(dist, p, -da), s(dist, p, -dd)))
        },
        // o .
        // . .
        (false, true, true, true) => {
            let dc = lerp(sra, srb, dist);
            let dd = lerp(sra, srd, dist);
            MarchResult::One(Line(w(dist, p, dd), n(dist, p, dc)))
        },
        // . o
        // o o
        (true, false, false, false) => {
            let db = lerp(sra, srb, dist);
            let dd = lerp(sra, srd, dist);
            MarchResult::One(Line(w(dist, p, dd), n(dist, p, db)))
        },
        // . o
        // . o
        (true, false, false, true) => {
            let da = lerp(srb, sra, dist);
            let dd = lerp(src, srd, dist);
            MarchResult::One(Line(n(dist, p, -da), s(dist, p, -dd)))
        },
        // . o
        // o .
        (true, false, true, false) => {
            let m_on = srm <= 0;
            let dn = lerp(sra, srb, dist);
            let ds = lerp(srd, src, dist);
            let de = lerp(srb, src, dist);
            let dw = lerp(sra, srd, dist);
            if m_on {
                MarchResult::Two(
                    Line(n(dist, p, dn), e(dist, p, de)),
                    Line(w(dist, p, dw), s(dist, p, ds)),
                )
            } else {
                MarchResult::Two(
                    Line(w(dist, p, dw), n(dist, p, dn)),
                    Line(s(dist, p, ds), e(dist, p, de)),
                )
            }
        },
        // . o
        // . .
        (true, false, true, true) => {
            let da = lerp(sra, srb, dist);
            let dc = lerp(src, srb, dist);
            MarchResult::One(Line(n(dist, p, da), e(dist, p, -dc)))
        },
        // . .
        // o o
        (true, true, false, false) => {
            let da = lerp(sra, srd, dist);
            let db = lerp(srb, src, dist);
            MarchResult::One(Line(w(dist, p, da), e(dist, p, db)))
        },
        // . .
        // . o
        (true, true, false, true) => {
            let db = lerp(srb, src, dist);
            let dd = lerp(srd, src, dist);
            MarchResult::One(Line(s(dist, p, dd), e(dist, p, db)))
        },
        // . .
        // o .
        (true, true, true, false) => {
            let da = lerp(sra, srd, dist);
            let dd = lerp(srd, src, dist);
            MarchResult::One(Line(w(dist, p, da), s(dist, p, dd)))
        },
        // . .
        // . .
        (true, true, true, true) => MarchResult::Nothing,
    }
}

/// Whether the corner samples leave the pairing of the crossings open, so
/// that the center sample decides.
pub open spec fn is_saddle(sra: i64, srb: i64, src: i64, srd: i64) -> bool {
    (sra <= 0) == (src <= 0) && (srb <= 0) == (srd <= 0) && (sra <= 0) != (srb <= 0)
}

/// The segments of the cell of size `dist` around `p`. The center of a
/// cell whose corner samples leave the pairing open is sampled from the
/// shape unless `srm` gives its sample.
pub fn march<I: Implicit + ?Sized>(
    sra: i64,
    srb: i64,
    src: i64,
    srd: i64,
    srm: Option<i64>,
    i: &I,
    p: Point,
    dist: i32,
) -> (r: MarchResult)
    requires
        cell_fits(p, dist),
    ensures
        r == spec_march(
            sra,
            srb,
            src,
            srd,
            match srm {
                Some(m) => m,
                None => i.value(p),
            },
            p,
            dist,
        ),
{
    let a_on = sra <= 0;
    let b_on = srb <= 0;
    let c_on = src <= 0;
    let d_on = srd <= 0;
    if a_on == c_on && b_on == d_on && a_on != b_on {
        let m = match srm {
            Some(m) => m,
            None => i.sample(p),
        };
        march_cell(sra, srb, src, srd, m, p, dist)
    } else {
        march_cell(sra, srb, src, srd, 0, p, dist)
    }
}

impl MarchResult {
    /// The segments that count for the outline.
    pub open spec fn lines(self) -> Seq<Line> {
        match self {
            MarchResult::One(l) => seq![l],
            MarchResult::Two(l1, l2) => seq![l1, l2],
            _ => seq![],
        }
    }
}

/// The segments that a cell gives to the outline.
#[verifier::opaque]
pub open spec fn march_lines(
    sra: i64,
    srb: i64,
    src: i64,
    srd: i64,
    srm: i64,
    p: Point,
    dist: i32,
) -> Seq<Line> {
    spec_march(sra, srb, src, srd, srm, p, dist).lines()
}

/// How many segments the corner pattern asks for.
pub open spec fn segment_count(sra: i64, srb: i64, src: i64, srd: i64) -> nat {
    let a_on = sra <= 0;
    let b_on = srb <= 0;
    let c_on = src <= 0;
    let d_on = srd <= 0;
    if a_on == b_on && b_on == c_on && c_on == d_on {
        0
    } else if is_saddle(sra, srb, src, srd) {
        2
    } else {
        1
    }
}

/// Whether `pt` lies on an edge of the cell whose two corners lie on
/// different sides of the outline: one coordinate is that of the edge, the
/// other lies between those of its corners.
pub open spec fn on_crossed_edge(
    pt: Point,
    sra: i64,
    srb: i64,
    src: i64,
    srd: i64,
    p: Point,
    dist: i32,
) -> bool {
    let h = spec_half(dist);
    let a_on = sra <= 0;
    let b_on = srb <= 0;
    let c_on = src <= 0;
    let d_on = srd <= 0;
    ||| (a_on != b_on && pt.y == p.y - h && p.x - h <= pt.x <= p.x + h)
    ||| (c_on != d_on && pt.y == p.y + h && p.x - h <= pt.x <= p.x + h)
    ||| (b_on != c_on && pt.x == p.x + h && p.y - h <= pt.y <= p.y + h)
    ||| (a_on != d_on && pt.x == p.x - h && p.y - h <= pt.y <= p.y + h)
}

/// For every pattern of corners inside and outside, with samples of any
/// size, the cell gives as many segments as the pattern asks for, and both
/// ends of each segment lie on edges that the outline crosses.
pub proof fn lemma_march_complete(
    sra: i64,
    srb: i64,
    src: i64,
    srd: i64,
    srm: i64,
    p: Point,
    dist: i32,
)
    requires
        cell_fits(p, dist),
    ensures
        spec_march(sra, srb, src, srd, srm, p, dist).lines().len() == segment_count(
            sra,
            srb,
            src,
            srd,
        ),
        forall|k: int|
            0 <= k < spec_march(sra, srb, src, srd, srm, p, dist).lines().len() ==> {
                let l = #[trigger] spec_march(sra, srb, src, srd, srm, p, dist).lines()[k];
                on_crossed_edge(l.0, sra, srb, src, srd, p, dist) && on_crossed_edge(
                    l.1,
                    sra,
                    srb,
                    src,
                    srd,
                    p,
                    dist,
                )
            },
{
    let a_on = sra <= 0;
    let b_on = srb <= 0;
    let c_on = src <= 0;
    let d_on = srd <= 0;
    if a_on != b_on {
        lemma_lerp_range(sra, srb, dist);
        lemma_lerp_range(srb, sra, dist);
    }
    if b_on != c_on {
        lemma_lerp_range(srb, src, dist);
        lemma_lerp_range(src, srb, dist);
    }
    if c_on != d_on {
        lemma_lerp_range(src, srd, dist);
        lemma_lerp_range(srd, src, dist);
    }
    if a_on != d_on {
        lemma_lerp_range(sra, srd, dist);
        lemma_lerp_range(srd, sra, dist);
    }
}

} // verus!
