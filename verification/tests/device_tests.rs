use implicit::dash::DashSegment;
use implicit::geom::{Line, Point, Ray, Rect, Vector};
use implicit::implementations::{all_in_range, Circle, PolyGroup, Polygon, COORD_LIMIT};
use implicit::output_device::{draw_ops, DrawOp, OutputDevice};
use implicit::render::{fix_rules, smooth, DashedData, OutputMode};
use implicit::Implicit;

fn pt(x: i32, y: i32) -> Point {
    Point { x, y }
}

struct Recorder {
    log: Vec<String>,
}

impl OutputDevice for Recorder {
    fn start_line(&mut self) {
        self.log.push("start".to_string());
    }

    fn add_point(&mut self, p: Point) {
        self.log.push(format!("{} {}", p.x, p.y));
    }

    fn end_line(&mut self) {
        self.log.push("end".to_string());
    }

    fn set_size(&mut self, w: i32, h: i32) {
        self.log.push(format!("size {} {}", w, h));
    }
}

#[test]
fn outlines_are_drawn_as_loops() {
    let shapes = vec![OutputMode::Outline(vec![vec![pt(0, 0), pt(1, 0), pt(1, 1)], vec![pt(5, 5)]])];
    let ops = draw_ops(&shapes).unwrap();
    assert_eq!(
        ops,
        vec![
            DrawOp::StartLine,
            DrawOp::AddPoint(pt(0, 0)),
            DrawOp::AddPoint(pt(1, 0)),
            DrawOp::AddPoint(pt(1, 1)),
            DrawOp::AddPoint(pt(0, 0)),
            DrawOp::EndLine,
            DrawOp::StartLine,
            DrawOp::AddPoint(pt(5, 5)),
            DrawOp::AddPoint(pt(5, 5)),
            DrawOp::EndLine,
        ]
    );
    let mut device = Recorder { log: Vec::new() };
    device.set_size(3, 4);
    for op in &ops {
        match op {
            DrawOp::StartLine => device.start_line(),
            DrawOp::AddPoint(p) => device.add_point(*p),
            DrawOp::EndLine => device.end_line(),
        }
    }
    assert_eq!(
        device.log,
        vec!["size 3 4", "start", "0 0", "1 0", "1 1", "0 0", "end", "start", "5 5", "5 5", "end"]
    );
}

#[test]
fn dashes_are_drawn_as_lines() {
    let data = DashedData::from_dashes(vec![
        DashSegment(vec![pt(0, 0), pt(1, 0)]),
        DashSegment(vec![pt(2, 0), pt(3, 0), pt(3, 1)]),
    ]);
    assert!(data.check());
    let ops = draw_ops(&vec![OutputMode::DashedLine(vec![data])]).unwrap();
    assert_eq!(
        ops,
        vec![
            DrawOp::StartLine,
            DrawOp::AddPoint(pt(0, 0)),
            DrawOp::AddPoint(pt(1, 0)),
            DrawOp::EndLine,
            DrawOp::StartLine,
            DrawOp::AddPoint(pt(2, 0)),
            DrawOp::AddPoint(pt(3, 0)),
            DrawOp::AddPoint(pt(3, 1)),
            DrawOp::EndLine,
        ]
    );
}

#[test]
fn what_cannot_be_drawn_gives_no_steps() {
    assert!(draw_ops(&vec![OutputMode::Solid(vec![])]).is_none());
    assert!(draw_ops(&vec![OutputMode::Outline(vec![vec![pt(0, 0)], vec![]])]).is_none());
    assert_eq!(draw_ops(&vec![]), Some(vec![]));
    assert_eq!(draw_ops(&vec![OutputMode::Outline(vec![])]), Some(vec![]));
}

#[test]
fn polygon_groups_count_what_lies_inside() {
    let outer = Polygon::new(vec![pt(0, 0), pt(100, 0), pt(100, 100), pt(0, 100)]);
    let inner = Polygon::new(vec![pt(40, 40), pt(60, 40), pt(60, 60), pt(40, 60)]);
    let group = PolyGroup::new(vec![outer, inner]);
    // In the outer square only.
    assert_eq!(group.sample(pt(10, 50)), -10);
    // In both: outside the group, as far as the inner outline.
    assert_eq!(group.sample(pt(50, 50)), 10);
    // In neither.
    assert_eq!(group.sample(pt(-20, 50)), 20);
    assert_eq!(
        group.bounding_box(),
        Some(Rect { top_left: pt(0, 0), bottom_right: pt(100, 100), null: false })
    );
    assert!(group.follows_rules());
    let none = PolyGroup::new(vec![]);
    assert_eq!(none.sample(pt(0, 0)), i64::MAX);
    assert!(none.bounding_box().unwrap().is_null());
}

#[test]
fn polygon_edge_ends() {
    let tri = Polygon::new(vec![pt(0, 0), pt(10, 0), pt(10, 20)]);
    assert_eq!(tri.left_xs(), vec![0, 10, 0]);
    assert_eq!(tri.left_ys(), vec![0, 0, 0]);
    assert_eq!(tri.right_xs(), vec![10, 10, 10]);
    assert_eq!(tri.right_ys(), vec![0, 20, 20]);
}

#[test]
fn range_of_polygon_corners() {
    assert!(all_in_range(&vec![pt(COORD_LIMIT, -COORD_LIMIT), pt(0, 0)]));
    assert!(!all_in_range(&vec![pt(0, 0), pt(COORD_LIMIT + 1, 0)]));
    assert!(!all_in_range(&vec![pt(0, -COORD_LIMIT - 1)]));
    assert!(all_in_range(&vec![]));
}

#[test]
fn fix_rules_traces_the_outline() {
    let disc = Circle { center: pt(500_000, 500_000), radius: 300_000 };
    let group = fix_rules(disc, 10_000).expect("can be traced");
    assert_eq!(group.polys.len(), 1);
    // The polygon stands for the disc.
    assert!(group.sample(pt(500_000, 500_000)) < -290_000);
    assert!(group.sample(pt(500_000, 100_000)) > 90_000);
    assert!(group.sample(pt(800_000, 500_000)).abs() < 5_000);
    assert!(fix_rules(disc, 0).is_none());
}

#[test]
fn smooth_shrinks_and_grows() {
    let disc = Circle { center: pt(500_000, 500_000), radius: 300_000 };
    let smoothed = smooth(disc, 50_000, 10_000).expect("can be traced");
    assert_eq!(smoothed.move_by, 50_000);
    assert_eq!(smoothed.target.polys.len(), 1);
    let field = smoothed.sample(pt(800_000, 500_000));
    assert!(field.abs() < 5_000, "field {}", field);
    let inner = disc.sample(pt(500_000, 500_000));
    assert!((smoothed.sample(pt(500_000, 500_000)) - inner).abs() < 5_000);
}

#[test]
fn ray_meeting_point() {
    let right = Ray(pt(0, 0), Vector { x: 10_000, y: 0 });
    // The ray has to be stretched one half to reach the segment: the point
    // lies half a unit along it.
    assert_eq!(right.intersect_with_line(&Line(pt(5_000, -5), pt(5_000, 5))), Some(pt(5_000, 0)));
    assert_eq!(right.intersect_with_line(&Line(pt(-5, -5), pt(-5, 5))), None);
    let zero = Ray(pt(0, 0), Vector { x: 0, y: 0 });
    assert_eq!(zero.intersect_with_line(&Line(pt(5, -5), pt(5, 5))), None);
}

#[test]
fn vectors_scale_and_divide() {
    let v = Vector { x: 6, y: -9 };
    assert_eq!(v.scaled(3), Vector { x: 18, y: -27 });
    assert_eq!(v.divided(2), Vector { x: 3, y: -4 });
    assert_eq!(v.divided(3), Vector { x: 2, y: -3 });
}

#[test]
fn append_line_ends_the_line() {
    let mut buffer = String::from("%PDF-1.4");
    implicit::pdf::append_line(&mut buffer, "1 0 obj");
    assert_eq!(buffer, "%PDF-1.41 0 obj\r\n");
    implicit::pdf::append_line(&mut buffer, "");
    assert_eq!(buffer, "%PDF-1.41 0 obj\r\n\r\n");
}
