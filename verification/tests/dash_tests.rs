use implicit::dash::{dashify, DashSegment};
use implicit::geom::Point;
use implicit::render::{
    check_transform, circumfrence, correct_spin, find_anchor, is_clockwise, make_dash, rotate,
    transform, DashedData, OutputMode, RenderMode,
};

fn pt(x: i32, y: i32) -> Point {
    Point { x, y }
}

fn segs(v: &Vec<DashSegment>) -> Vec<Vec<Point>> {
    v.iter().map(|d| d.0.clone()).collect()
}

fn data_segs(d: &DashedData) -> Vec<Vec<Point>> {
    let mut walk = d.segments();
    let mut out = Vec::new();
    while let Some(s) = walk.next() {
        out.push(s.to_vec());
    }
    assert!(walk.next().is_none());
    out
}

#[test]
fn dashify_of_nothing_is_nothing() {
    assert!(dashify(&vec![], &vec![10]).is_empty());
}

#[test]
fn dashify_of_one_point_is_one_dash() {
    assert_eq!(segs(&dashify(&vec![pt(3, 4)], &vec![10])), vec![vec![pt(3, 4)]]);
}

#[test]
fn dashify_cuts_a_straight_line() {
    let out = dashify(&vec![pt(0, 0), pt(100, 0)], &vec![30, 20]);
    assert_eq!(segs(&out), vec![vec![pt(0, 0), pt(30, 0)], vec![pt(50, 0), pt(80, 0)]]);
    let out = dashify(&vec![pt(0, 0), pt(110, 0)], &vec![30, 20]);
    assert_eq!(
        segs(&out),
        vec![vec![pt(0, 0), pt(30, 0)], vec![pt(50, 0), pt(80, 0)], vec![pt(100, 0), pt(110, 0)]]
    );
}

#[test]
fn dashify_carries_a_dash_around_a_corner() {
    let out = dashify(&vec![pt(0, 0), pt(100, 0), pt(100, 100)], &vec![150, 1000]);
    assert_eq!(segs(&out), vec![vec![pt(0, 0), pt(100, 0), pt(100, 50)]]);
}

#[test]
fn dashify_places_breaks_by_arc_length_on_a_slanted_edge() {
    // The edge is 500 ticks long; breaks after 100 and 200 ticks.
    let out = dashify(&vec![pt(0, 0), pt(300, 400)], &vec![100, 100, 1000]);
    assert_eq!(segs(&out), vec![vec![pt(0, 0), pt(60, 80)], vec![pt(120, 160), pt(300, 400)]]);
}

#[test]
fn dashify_with_a_dash_that_ends_at_a_point() {
    let out = dashify(&vec![pt(0, 0), pt(100, 0), pt(200, 0)], &vec![100, 50]);
    // The dash ends at the second point, the gap begins there.
    assert_eq!(
        segs(&out),
        vec![vec![pt(0, 0), pt(100, 0), pt(100, 0)], vec![pt(150, 0), pt(200, 0)]]
    );
}

#[test]
fn dashify_steps_over_repeated_points() {
    let out = dashify(&vec![pt(0, 0), pt(0, 0), pt(100, 0)], &vec![60, 60]);
    assert_eq!(segs(&out), vec![vec![pt(0, 0), pt(0, 0), pt(60, 0)]]);
}

#[test]
fn dashed_data_lays_out_segments() {
    let d = DashedData::from_dashes(vec![
        DashSegment(vec![pt(0, 0), pt(1, 1)]),
        DashSegment(vec![]),
        DashSegment(vec![pt(2, 2), pt(3, 3), pt(4, 4)]),
    ]);
    assert_eq!(d.count(), 3);
    assert_eq!(
        data_segs(&d),
        vec![vec![pt(0, 0), pt(1, 1)], vec![], vec![pt(2, 2), pt(3, 3), pt(4, 4)]]
    );
    let none = DashedData::from_dashes(vec![]);
    assert_eq!(none.count(), 0);
    assert!(data_segs(&none).is_empty());
}

#[test]
fn rotate_brings_the_element_to_the_front() {
    let mut v = vec![0, 1, 2, 3, 4, 5];
    rotate(&mut v, 2);
    assert_eq!(v, vec![2, 3, 4, 5, 0, 1]);
    rotate(&mut v, 0);
    assert_eq!(v, vec![2, 3, 4, 5, 0, 1]);
    rotate(&mut v, 6);
    assert_eq!(v, vec![2, 3, 4, 5, 0, 1]);
    let mut e: Vec<u8> = vec![];
    rotate(&mut e, 0);
    assert!(e.is_empty());
}

#[test]
fn circumference_takes_the_closing_edge_in() {
    assert_eq!(circumfrence(&vec![]), 0);
    assert_eq!(circumfrence(&vec![pt(5, 5)]), 0);
    assert_eq!(circumfrence(&vec![pt(0, 0), pt(30, 40)]), 100);
    assert_eq!(circumfrence(&vec![pt(0, 0), pt(100, 0), pt(100, 100), pt(0, 100)]), 400);
}

#[test]
fn winding_is_told_by_the_shoelace_sum() {
    // With y pointing down, this square runs clockwise on the screen; its
    // shoelace sum is positive.
    let cw = vec![pt(0, 100), pt(100, 100), pt(100, 0), pt(0, 0)];
    let ccw: Vec<Point> = cw.iter().rev().cloned().collect();
    assert!(is_clockwise(&cw));
    assert!(!is_clockwise(&ccw));
    let mut a = cw.clone();
    correct_spin(&mut a);
    assert_eq!(a, cw);
    let mut b = ccw.clone();
    correct_spin(&mut b);
    assert_eq!(b, cw);
    // A loop without area is turned round, and stays without area.
    let mut flat = vec![pt(0, 0), pt(100, 0), pt(200, 0)];
    assert!(!is_clockwise(&flat));
    correct_spin(&mut flat);
    assert_eq!(flat, vec![pt(200, 0), pt(100, 0), pt(0, 0)]);
    assert!(!is_clockwise(&flat));
}

#[test]
fn winding_does_not_depend_on_the_starting_point() {
    let mut loop_pts = vec![pt(0, 100), pt(50, 180), pt(100, 100), pt(100, 0), pt(0, 0)];
    let cw = is_clockwise(&loop_pts);
    for _ in 0..5 {
        rotate(&mut loop_pts, 1);
        assert_eq!(is_clockwise(&loop_pts), cw);
    }
}

#[test]
fn anchor_is_the_point_nearest_the_far_corner() {
    let pts = vec![pt(100, 100), pt(0, 0), pt(100, 0), pt(0, 100)];
    assert_eq!(find_anchor(&pts), 1);
    // Of two points as near, the later one is taken.
    assert_eq!(find_anchor(&vec![pt(5, 5), pt(9, 9), pt(5, 5)]), 2);
    assert_eq!(find_anchor(&vec![pt(1, 1)]), 0);
}

#[test]
fn make_dash_starts_at_the_anchor_and_runs_clockwise() {
    let square = vec![pt(100, 0), pt(0, 0), pt(0, 100), pt(100, 100)];
    let d = make_dash(square, &vec![150, 50]);
    let s = data_segs(&d);
    // The loop runs clockwise as it is; it is turned to start at (0, 0):
    // (0,0), (0,100), (100,100), (100,0), and back to (0,0).
    assert_eq!(
        s,
        vec![
            vec![pt(0, 0), pt(0, 100), pt(50, 100)],
            vec![pt(100, 100), pt(100, 0), pt(50, 0)],
        ]
    );
    // The same loop the other way round gives the same dashes.
    let other = vec![pt(100, 100), pt(0, 100), pt(0, 0), pt(100, 0)];
    assert_eq!(data_segs(&make_dash(other, &vec![150, 50])), s);
}

#[test]
fn transform_passes_outlines_through() {
    let lines = vec![vec![pt(0, 0), pt(1, 1)], vec![pt(2, 2)]];
    match transform(lines.clone(), &RenderMode::Outline) {
        OutputMode::Outline(l) => assert_eq!(l, lines),
        _ => panic!("not an outline"),
    }
    match transform(lines.clone(), &RenderMode::Solid) {
        OutputMode::Solid(l) => assert_eq!(l, lines),
        _ => panic!("not solid"),
    }
}

fn dashes_of(out: OutputMode) -> Vec<Vec<Vec<Point>>> {
    match out {
        OutputMode::DashedLine(d) => d.iter().map(data_segs).collect(),
        _ => panic!("not dashed"),
    }
}

#[test]
fn transform_basic_dashes_keep_their_lengths() {
    let square = vec![pt(0, 0), pt(1000, 0), pt(1000, 1000), pt(0, 1000)];
    let out = dashes_of(transform(vec![square], &RenderMode::BasicDashed(vec![300, 200])));
    assert_eq!(out.len(), 1);
    // 4000 ticks of outline under a pattern of 500: eight dashes.
    assert_eq!(out[0].len(), 8);
    assert_eq!(out[0][0][0], pt(0, 0));
}

#[test]
fn transform_perfect_makes_the_pattern_fit() {
    let square = vec![pt(0, 0), pt(1000, 0), pt(1000, 1000), pt(0, 1000)];
    // A pattern of 900 runs 4.4 times around 4000 ticks; it is stretched to
    // run four times: dashes of 500 and gaps of 500.
    let out = dashes_of(transform(vec![square], &RenderMode::DashedPerfect(vec![450, 450])));
    assert_eq!(out[0].len(), 4);
    for dash in &out[0] {
        let a = dash[0];
        let b = *dash.last().unwrap();
        assert_eq!((a.x - b.x).abs() + (a.y - b.y).abs(), 500);
    }
}

#[test]
fn transform_repeating_n_repeats_n_times() {
    let square = vec![pt(0, 0), pt(1000, 0), pt(1000, 1000), pt(0, 1000)];
    let out = dashes_of(transform(vec![square], &RenderMode::DashedRepeatingN(vec![10, 30], 5)));
    // Five runs around 4000 ticks: dashes of 200, gaps of 600.
    assert_eq!(out[0].len(), 5);
    assert_eq!(out[0][0], vec![pt(0, 0), pt(0, 200)]);
    // The second dash ends at a corner, which it holds as a point of the
    // outline and as its end.
    assert_eq!(out[0][1], vec![pt(0, 800), pt(0, 1000), pt(0, 1000)]);
}

#[test]
fn transform_with_a_pattern_longer_than_twice_the_outline_gives_one_dash() {
    let square = vec![pt(0, 0), pt(100, 0), pt(100, 100), pt(0, 100)];
    let out = dashes_of(transform(vec![square], &RenderMode::DashedPerfect(vec![500, 500])));
    assert_eq!(out[0].len(), 1);
    assert_eq!(out[0][0].len(), 5);
    let out = dashes_of(transform(
        vec![vec![pt(0, 0), pt(100, 0), pt(100, 100), pt(0, 100)]],
        &RenderMode::DashedRepeatingN(vec![10, 10], 0),
    ));
    assert_eq!(out[0].len(), 1);
}

#[test]
fn outlines_are_checked_before_they_are_dashed() {
    let line = vec![Point { x: 0, y: 0 }, Point { x: 10_000, y: 0 }, Point { x: 10_000, y: 10_000 }];
    let none: Vec<Point> = vec![];
    assert!(check_transform(&vec![line.clone(), none.clone()], &RenderMode::Outline));
    assert!(check_transform(&vec![line.clone(), none.clone()], &RenderMode::Solid));
    assert!(check_transform(&vec![line.clone()], &RenderMode::BasicDashed(vec![5_000, 5_000])));
    assert!(!check_transform(&vec![line.clone(), none], &RenderMode::BasicDashed(vec![5_000, 5_000])));
    assert!(!check_transform(&vec![line.clone()], &RenderMode::DashedPerfect(vec![])));
    assert!(!check_transform(&vec![line.clone()], &RenderMode::DashedRepeatingN(vec![5_000, 0], 3)));
    assert!(check_transform(&vec![], &RenderMode::DashedPerfect(vec![1])));
}
