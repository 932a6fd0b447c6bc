use vstd::prelude::*;
use crate::geom::Point;
use crate::render::{DashedData, OutputMode};

verus! {

/// Something that polylines can be drawn on, point by point.
pub trait OutputDevice {
    fn start_line(&mut self);

    fn add_point(&mut self, p: Point);

    fn end_line(&mut self);

    /// Tells the device the size of the drawing, in ticks.
    fn set_size(&mut self, w: i32, h: i32);
}

/// A device that draws nothing.
pub struct NullDevice;

impl OutputDevice for NullDevice {
    fn start_line(&mut self) {
    }

    fn add_point(&mut self, _p: Point) {
    }

    fn end_line(&mut self) {
    }

    fn set_size(&mut self, _w: i32, _h: i32) {
    }
}

/// One step of a drawing.
#[derive(Copy, Clone, Debug, PartialEq, Eq, Structural)]
pub enum DrawOp {
    StartLine,
    AddPoint(Point),
    EndLine,
}

/// The steps that draw a line through the points.
pub open spec fn line_ops(points: Seq<Point>) -> Seq<DrawOp> {
    seq![DrawOp::StartLine] + points.map_values(|p: Point| DrawOp::AddPoint(p)) + seq![
        DrawOp::EndLine,
    ]
}

/// The steps that draw a loop through the points: a line through them and
/// back to the first.
pub open spec fn loop_ops(points: Seq<Point>) -> Seq<DrawOp> {
    line_ops(points.push(points[0]))
}

/// The steps that draw the first `k` loops.
pub open spec fn outline_ops(lines: Seq<Vec<Point>>, k: int) -> Seq<DrawOp>
    decreases k,
{
    if k <= 0 {
        seq![]
    } else {
        outline_ops(lines, k - 1) + loop_ops(lines[k - 1]@)
    }
}

/// The steps that draw the first `k` dashes, each as a line of its own.
pub open spec fn segment_ops(segments: Seq<Seq<Point>>, k: int) -> Seq<DrawOp>
    decreases k,
{
    if k <= 0 {
        seq![]
    } else {
        segment_ops(segments, k - 1) + line_ops(segments[k - 1])
    }
}

/// The steps that draw the dashes of the first `k` outlines.
pub open spec fn dashed_ops(dashed: Seq<DashedData>, k: int) -> Seq<DrawOp>
    decreases k,
{
    if k <= 0 {
        seq![]
    } else {
        dashed_ops(dashed, k - 1) + segment_ops(dashed[k - 1]@, dashed[k - 1]@.len() as int)
    }
}

/// The steps that draw a rendering; none for a solid one.
pub open spec fn mode_ops(shape: OutputMode) -> Seq<DrawOp> {
    match shape {
        OutputMode::Solid(_) => seq![],
        OutputMode::Outline(lines) => outline_ops(lines@, lines@.len() as int),
        OutputMode::DashedLine(dashed) => dashed_ops(dashed@, dashed@.len() as int),
    }
}

/// The steps that draw the first `k` renderings.
pub open spec fn spec_draw_ops(shapes: Seq<OutputMode>, k: int) -> Seq<DrawOp>
    decreases k,
{
    if k <= 0 {
        seq![]
    } else {
        spec_draw_ops(shapes, k - 1) + mode_ops(shapes[k - 1])
    }
}

/// Whether the rendering can be drawn as lines: it is not solid, its
/// outlines have a point each, and its dashes are well formed.
pub open spec fn drawable(shape: OutputMode) -> bool {
    match shape {
        OutputMode::Solid(_) => false,
        OutputMode::Outline(lines) => forall|k: int|
            0 <= k < lines@.len() ==> (#[trigger] lines@[k])@.len() > 0,
        OutputMode::DashedLine(dashed) => forall|k: int|
            0 <= k < dashed@.len() ==> (#[trigger] dashed@[k]).wf(),
    }
}

fn push_line(points: &[Point], out: &mut Vec<DrawOp>)
    ensures
        final(out)@ == old(out)@ + line_ops(points@),
{
    out.push(DrawOp::StartLine);
    let mut i: usize = 0;
    while i < points.len()
        invariant
            i <= points@.len(),
            out@ == old(out)@ + seq![DrawOp::StartLine] + points@.subrange(0, i as int).map_values(
                |p: Point| DrawOp::AddPoint(p),
            ),
        decreases points@.len() - i,
    {
        out.push(DrawOp::AddPoint(points[i]));
        proof {
            assert(points@.subrange(0, i + 1).map_values(|p: Point| DrawOp::AddPoint(p))
                =~= points@.subrange(0, i as int).map_values(|p: Point| DrawOp::AddPoint(p)).push(
                DrawOp::AddPoint(points@[i as int]),
            ));
            assert(out@ =~= old(out)@ + seq![DrawOp::StartLine] + points@.subrange(
                0,
                i + 1,
            ).map_values(|p: Point| DrawOp::AddPoint(p)));
        }
        i += 1;
    }
    out.push(DrawOp::EndLine);
    proof {
        assert(points@.subrange(0, i as int) =~= points@);
        assert(out@ =~= old(out)@ + line_ops(points@));
    }
}

/// The steps that draw the renderings: every outline as a loop, every
/// dash as a line. Nothing if one of the renderings cannot be drawn as
/// lines.
pub fn draw_ops(shapes: &Vec<OutputMode>) -> (r: Option<Vec<DrawOp>>)
    ensures
        r is Some <==> forall|k: int| 0 <= k < shapes@.len() ==> drawable(#[trigger] shapes@[k]),
        r is Some ==> r->0@ == spec_draw_ops(shapes@, shapes@.len() as int),
{
    let mut out: Vec<DrawOp> = Vec::new();
    let mut i: usize = 0;
    while i < shapes.len()
        invariant
            i <= shapes@.len(),
            forall|k: int| 0 <= k < i ==> drawable(#[trigger] shapes@[k]),
            out@ == spec_draw_ops(shapes@, i as int),
        decreases shapes@.len() - i,
    {
        let ghost before = out@;
        match &shapes[i] {
            OutputMode::Solid(_) => {
                proof {
                    assert(!drawable(shapes@[i as int]));
                }
                return None;
            },
            OutputMode::Outline(lines) => {
                let mut j: usize = 0;
                while j < lines.len()
                    invariant
                        j <= lines@.len(),
                        i < shapes@.len(),
                        shapes@[i as int] == OutputMode::Outline(*lines),
                        forall|k: int| 0 <= k < j ==> (#[trigger] lines@[k])@.len() > 0,
                        out@ == before + outline_ops(lines@, j as int),
                    decreases lines@.len() - j,
                {
                    let line = &lines[j];
                    if line.len() == 0 {
                        proof {
                            let inner = shapes@[i as int]->Outline_0;
                            assert(inner == *lines);
                            assert(inner@[j as int]@.len() == 0);
                            assert(!drawable(shapes@[i as int]));
                        }
                        return None;
                    }
                    let ghost so_far = out@;
                    let mut closed = crate::line_join::copy_points(line);
                    closed.push(line[0]);
                    push_line(closed.as_slice(), &mut out);
                    proof {
                        assert(out@ =~= before + outline_ops(lines@, j + 1));
                    }
                    j += 1;
                }
            },
            OutputMode::DashedLine(dashed) => {
                let mut j: usize = 0;
                while j < dashed.len()
                    invariant
                        j <= dashed@.len(),
                        i < shapes@.len(),
                        shapes@[i as int] == OutputMode::DashedLine(*dashed),
                        forall|k: int| 0 <= k < j ==> (#[trigger] dashed@[k]).wf(),
                        out@ == before + dashed_ops(dashed@, j as int),
                    decreases dashed@.len() - j,
                {
                    let dashed_line = &dashed[j];
                    if !dashed_line.check() {
                        proof {
                            let inner = shapes@[i as int]->DashedLine_0;
                            assert(inner == *dashed);
                            assert(!inner@[j as int].wf());
                            assert(!drawable(shapes@[i as int]));
                        }
                        return None;
                    }
                    let ghost so_far = out@;
                    let mut walk = dashed_line.segments();
                    loop
                        invariant
                            walk.wf(),
                            walk.data() == dashed_line,
                            0 <= walk.position() <= dashed_line@.len(),
                            out@ == so_far + segment_ops(dashed_line@, walk.position()),
                        ensures
                            out@ == so_far + segment_ops(dashed_line@, dashed_line@.len() as int),
                        decreases dashed_line@.len() - walk.position(),
                    {
                        let ghost at = walk.position();
                        let ghost inner = out@;
                        match walk.next() {
                            Some(segment) => {
                                push_line(segment, &mut out);
                                proof {
                                    assert(out@ =~= so_far + segment_ops(dashed_line@, at + 1));
                                }
                            },
                            None => {
                                break ;
                            },
                        }
                    }
                    proof {
                        assert(out@ =~= before + dashed_ops(dashed@, j + 1));
                    }
                    j += 1;
                }
            },
        }
        proof {
            assert(out@ =~= spec_draw_ops(shapes@, i + 1));
        }
        i += 1;
    }
    Some(out)
}

} // verus!
