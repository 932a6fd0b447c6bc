use implicit::geom::{Point, Rect};
use implicit::implementations::{or, Circle, Rectangle};
use implicit::render::{check_render, render, try_render, OutputMode, RenderMode};
use implicit::Implicit;

fn unit(v: i32) -> i32 {
    v * 10_000
}

fn isqrt(n: i128) -> i128 {
    let mut r = (n as f64).sqrt() as i128;
    while r * r > n {
        r -= 1;
    }
    while (r + 1) * (r + 1) <= n {
        r += 1;
    }
    r
}

fn outline_of(out: OutputMode) -> Vec<Vec<Point>> {
    match out {
        OutputMode::Outline(lines) => lines,
        _ => panic!("not an outline"),
    }
}

#[test]
fn circle_gives_one_closed_outline() {
    let circle = Circle { center: Point { x: unit(50), y: unit(50) }, radius: unit(50) };
    assert!(check_render(&circle.bounding_box(), unit(1), &RenderMode::Outline));
    let lines = outline_of(render(circle, &RenderMode::Outline, unit(1), false));
    assert_eq!(lines.len(), 1);
    let line = &lines[0];
    // The circumference is about 314 units, so there are about 314 cells
    // along the outline, each with one segment.
    assert!(line.len() > 200 && line.len() < 700, "{} points", line.len());
    for p in line {
        let dx = (p.x - unit(50)) as i128;
        let dy = (p.y - unit(50)) as i128;
        let dist = isqrt(dx * dx + dy * dy);
        assert!(dist >= unit(49) as i128 && dist <= unit(51) as i128, "distance {}", dist);
    }
}

#[test]
fn two_overlapping_circles_give_one_outline() {
    let left = Circle { center: Point { x: unit(50), y: unit(50) }, radius: unit(50) };
    let right = Circle { center: Point { x: unit(150), y: unit(50) }, radius: unit(50) };
    let both = or(left, right);
    // The circles touch at x = 100. A union of discs that touch in one
    // point has one outline only if the two are joined there.
    let out = try_render(both, &RenderMode::Outline, unit(1), false);
    let lines = outline_of(out.expect("can be rendered"));
    assert_eq!(lines.len(), 1);
    let total = lines[0].len();
    assert!(total > 400 && total < 1400, "{} points", total);
    // The outline stays near one of the two circles and reaches both.
    let field = or(left, right);
    for p in &lines[0] {
        assert!(field.sample(*p).abs() < unit(1) as i64, "{:?}", p);
    }
    assert!(lines[0].iter().any(|p| p.x < unit(10)));
    assert!(lines[0].iter().any(|p| p.x > unit(190)));
}

#[test]
fn square_dashed_perfect_closes_up() {
    let square = Rectangle::new(Rect {
        top_left: Point { x: 0, y: 0 },
        bottom_right: Point { x: unit(10), y: unit(10) },
        null: false,
    });
    let mode = RenderMode::DashedPerfect(vec![unit(2), unit(2)]);
    let out = try_render(square, &mode, unit(1), true).expect("can be rendered");
    let dashed = match out {
        OutputMode::DashedLine(d) => d,
        _ => panic!("not dashed"),
    };
    assert_eq!(dashed.len(), 1);
    let data = &dashed[0];
    let mut walk = data.segments();
    let mut segments: Vec<Vec<Point>> = Vec::new();
    while let Some(s) = walk.next() {
        segments.push(s.to_vec());
    }
    assert_eq!(segments.len(), data.count());
    // The outline with its cut corners is 38.8 units long. The pattern of
    // four units runs 9.7 times around it and is made to run ten times.
    assert!(segments.len() == 10 || segments.len() == 11, "{} dashes", segments.len());
    let first = segments[0][0];
    let last = *segments.last().unwrap().last().unwrap();
    // The last dash ends where the first one begins.
    assert_eq!(first, last);
    let mut length: i128 = 0;
    for s in &segments {
        for w in s.windows(2) {
            let ex = (w[1].x - w[0].x) as i128;
            let ey = (w[1].y - w[0].y) as i128;
            length += isqrt(ex * ex + ey * ey);
        }
    }
    // Ten dashes of half the stretched pattern of 3.88 units each.
    assert!(length > 193_000 && length < 195_500, "length {}", length);
}

#[test]
fn unbounded_shape_is_not_rendered() {
    let circle = Circle { center: Point { x: 0, y: 0 }, radius: unit(5) };
    let outside = implicit::implementations::not(circle);
    assert!(outside.bounding_box().is_none());
    assert!(!check_render(&outside.bounding_box(), unit(1), &RenderMode::Outline));
    assert!(try_render(outside, &RenderMode::Outline, unit(1), true).is_none());
}

#[test]
fn zero_resolution_is_not_rendered() {
    let circle = Circle { center: Point { x: 0, y: 0 }, radius: unit(5) };
    assert!(try_render(circle, &RenderMode::Outline, 0, true).is_none());
}

#[test]
fn empty_dash_pattern_is_not_rendered() {
    let circle = Circle { center: Point { x: 0, y: 0 }, radius: unit(5) };
    assert!(try_render(circle, &RenderMode::BasicDashed(vec![]), unit(1), true).is_none());
    assert!(try_render(circle, &RenderMode::BasicDashed(vec![unit(1), 0]), unit(1), true).is_none());
}
