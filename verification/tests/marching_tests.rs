use implicit::geom::{Line, Point};
use implicit::implementations::Circle;
use implicit::marching_squares::{march, march_cell, MarchResult};

fn pt(x: i32, y: i32) -> Point {
    Point { x, y }
}

fn count(r: &MarchResult) -> usize {
    match r {
        MarchResult::One(_) => 1,
        MarchResult::Two(_, _) => 2,
        _ => 0,
    }
}

fn on_edge(p: Point, c: Point, half: i32) -> bool {
    let on_x = (p.x == c.x - half || p.x == c.x + half) && p.y >= c.y - half && p.y <= c.y + half;
    let on_y = (p.y == c.y - half || p.y == c.y + half) && p.x >= c.x - half && p.x <= c.x + half;
    on_x || on_y
}

#[test]
fn every_pattern_gives_its_number_of_segments_on_edges() {
    let c = pt(1000, -2000);
    let dist = 100;
    let magnitudes: [i64; 4] = [1, 7, 1_000, i64::MAX];
    for pattern in 0..16u32 {
        for ma in magnitudes {
            for mb in magnitudes {
                let sign = |bit: u32, m: i64| if pattern & bit != 0 { -m } else { m };
                let (a, b, cc, d) = (sign(8, ma), sign(4, mb), sign(2, ma), sign(1, mb));
                for m in [-5i64, 5] {
                    let r = march_cell(a, b, cc, d, m, c, dist);
                    let expected = match pattern {
                        0 | 15 => 0,
                        5 | 10 => 2,
                        _ => 1,
                    };
                    assert_eq!(count(&r), expected, "pattern {}", pattern);
                    let lines: Vec<Line> = match r {
                        MarchResult::One(l) => vec![l],
                        MarchResult::Two(l1, l2) => vec![l1, l2],
                        _ => vec![],
                    };
                    for l in lines {
                        assert!(on_edge(l.0, c, dist / 2), "{:?}", l);
                        assert!(on_edge(l.1, c, dist / 2), "{:?}", l);
                    }
                }
            }
        }
    }
}

#[test]
fn zero_sample_counts_as_inside() {
    let c = pt(0, 0);
    assert_eq!(march_cell(0, 0, 0, 0, 0, c, 10), MarchResult::Nothing);
    assert_eq!(march_cell(1, 1, 1, 1, 1, c, 10), MarchResult::Nothing);
    // Only the south-west corner is inside, with a sample of zero: the
    // crossings lie at that corner.
    assert_eq!(
        march_cell(10, 10, 10, 0, 1, c, 10),
        MarchResult::One(Line(pt(-5, 5), pt(-5, 5)))
    );
}

#[test]
fn crossing_is_interpolated_along_the_edge() {
    let c = pt(0, 0);
    // South half inside: the outline runs from the west to the east edge.
    // On the west edge the sample goes from 30 (north) to -10 (south): the
    // crossing lies three quarters of the way down.
    assert_eq!(
        march_cell(30, 10, -10, -10, 0, c, 100),
        MarchResult::One(Line(pt(-50, 25), pt(50, 0)))
    );
    // North-east corner inside.
    assert_eq!(
        march_cell(10, -10, 30, 30, 0, c, 100),
        MarchResult::One(Line(pt(0, -50), pt(50, -25)))
    );
}

#[test]
fn center_sample_pairs_the_crossings_of_a_saddle() {
    let c = pt(0, 0);
    let n = pt(0, -5);
    let s = pt(0, 5);
    let e = pt(5, 0);
    let w = pt(-5, 0);
    // North-east and south-west corners inside.
    assert_eq!(march_cell(1, -1, 1, -1, -1, c, 10), MarchResult::Two(Line(w, n), Line(s, e)));
    assert_eq!(march_cell(1, -1, 1, -1, 1, c, 10), MarchResult::Two(Line(w, s), Line(n, e)));
    // North-west and south-east corners inside.
    assert_eq!(march_cell(-1, 1, -1, 1, -1, c, 10), MarchResult::Two(Line(n, e), Line(w, s)));
    assert_eq!(march_cell(-1, 1, -1, 1, 1, c, 10), MarchResult::Two(Line(w, n), Line(s, e)));
}

#[test]
fn march_samples_the_center_of_a_saddle_when_it_is_not_given() {
    // The center of the cell lies inside this disc, the corners used here do not all.
    let disc = Circle { center: pt(0, 0), radius: 3 };
    let c = pt(0, 0);
    let with_shape = march(1, -1, 1, -1, None, &disc, c, 10);
    assert_eq!(with_shape, march_cell(1, -1, 1, -1, -3, c, 10));
    let given = march(1, -1, 1, -1, Some(4), &disc, c, 10);
    assert_eq!(given, march_cell(1, -1, 1, -1, 4, c, 10));
    // Where the corners decide, the center is not looked at.
    assert_eq!(march(5, 5, -5, -5, None, &disc, c, 10), march_cell(5, 5, -5, -5, 99, c, 10));
}

#[test]
fn odd_cell_size_reaches_half_rounded_down() {
    let c = pt(0, 0);
    assert_eq!(
        march_cell(1, -1, 1, -1, -1, c, 11),
        MarchResult::Two(Line(pt(-5, 0), pt(0, -5)), Line(pt(0, 5), pt(5, 0)))
    );
}

#[test]
fn crossings_of_a_saddle_are_interpolated() {
    let c = pt(0, 0);
    // North-east and south-west corners inside, three times as deep as the
    // others are far outside: every crossing lies a quarter of a side from
    // the corner outside.
    let n = pt(-25, -50);
    let s = pt(25, 50);
    let e = pt(50, 25);
    let w = pt(-50, -25);
    assert_eq!(march_cell(10, -30, 10, -30, -1, c, 100), MarchResult::Two(Line(w, n), Line(s, e)));
    assert_eq!(march_cell(10, -30, 10, -30, 1, c, 100), MarchResult::Two(Line(w, s), Line(n, e)));
    // North-west and south-east corners inside.
    let n = pt(25, -50);
    let s = pt(-25, 50);
    let e = pt(50, -25);
    let w = pt(-50, 25);
    assert_eq!(march_cell(-30, 10, -30, 10, -1, c, 100), MarchResult::Two(Line(n, e), Line(w, s)));
    assert_eq!(march_cell(-30, 10, -30, 10, 1, c, 100), MarchResult::Two(Line(w, n), Line(s, e)));
}
