use implicit::geom::{Point, Rect};
use implicit::implementations::Circle;
use implicit::line_gather::{check_cells, check_search, gather_chunked};
use implicit::line_join::{connect_lines, LineType};
use implicit::sample_points::{check_search_points, recursive_sampling_points, sample_box};
use implicit::Implicit;

fn pt(x: i32, y: i32) -> Point {
    Point { x, y }
}

fn rect(l: i32, t: i32, r: i32, b: i32) -> Rect {
    Rect { top_left: pt(l, t), bottom_right: pt(r, b), null: false }
}

/// A field without rules: no box is left out for it.
struct Flat;

impl Implicit for Flat {
    fn value(&self, pos: Point) -> i64 {
        self.sample(pos)
    }

    fn bounds(&self) -> Option<Rect> {
        self.bounding_box()
    }

    fn regular(&self) -> bool {
        self.follows_rules()
    }

    fn sample(&self, _pos: Point) -> i64 {
        1_000_000
    }

    fn bounding_box(&self) -> Option<Rect> {
        Some(rect(0, 0, 100, 100))
    }

    fn follows_rules(&self) -> bool {
        false
    }
}

#[test]
fn small_box_gives_its_lattice_points() {
    let disc = Flat;
    let mut out = Vec::new();
    sample_box(&disc, rect(95, 95, 105, 105), 10, &mut out);
    // The box is as wide as the resolution: it owns the lattice points from
    // its left and upper edge up to, not including, the right and lower one.
    assert_eq!(out, vec![pt(100, 100)]);
    let mut out = Vec::new();
    sample_box(&disc, rect(100, 100, 110, 110), 10, &mut out);
    assert_eq!(out, vec![pt(100, 100)]);
    let mut out = Vec::new();
    sample_box(&disc, rect(101, 101, 109, 109), 10, &mut out);
    assert!(out.is_empty());
}

#[test]
fn large_box_gives_every_lattice_point_once() {
    let disc = Flat;
    let mut out = vec![pt(-1, -1)];
    sample_box(&disc, rect(-35, -5, 47, 31), 10, &mut out);
    assert_eq!(out[0], pt(-1, -1));
    let mut got: Vec<(i32, i32)> = out[1..].iter().map(|p| (p.x, p.y)).collect();
    got.sort();
    let mut expected = Vec::new();
    for x in [-30, -20, -10, 0, 10, 20, 30, 40] {
        for y in [0, 10, 20, 30] {
            expected.push((x, y));
        }
    }
    expected.sort();
    assert_eq!(got, expected);
}

#[test]
fn boxes_far_from_the_outline_are_left_out() {
    let disc = Circle { center: pt(500_000, 500_000), radius: 300_000 };
    let pts = recursive_sampling_points(&disc, 10_000);
    assert!(!pts.is_empty());
    // The lattice of the whole box has 64 * 64 points.
    assert!(pts.len() < 3_000, "{} points", pts.len());
    for p in &pts {
        assert_eq!(p.x % 10_000, 0);
        assert_eq!(p.y % 10_000, 0);
        assert!(disc.sample(*p).abs() < 150_000, "{:?}", p);
    }
    assert!(!pts.contains(&pt(500_000, 500_000)));
    // Every lattice point within the resolution of the outline is there.
    for y in 18..=82 {
        for x in 18..=82 {
            let p = pt(x * 10_000, y * 10_000);
            if disc.sample(p).abs() <= 10_000 {
                assert!(pts.contains(&p), "{:?} is missing", p);
            }
        }
    }
    let mut sorted: Vec<(i32, i32)> = pts.iter().map(|p| (p.x, p.y)).collect();
    sorted.sort();
    let before = sorted.len();
    sorted.dedup();
    assert_eq!(sorted.len(), before);
}

#[test]
fn field_without_rules_is_searched_everywhere() {
    let pts = recursive_sampling_points(&Flat, 10);
    // The box from -20 to 120 owns the lattice points from -20 to 110.
    assert_eq!(pts.len(), 14 * 14);
    assert!(pts.contains(&pt(-20, -20)));
    assert!(pts.contains(&pt(110, 110)));
    assert!(!pts.contains(&pt(120, 50)));
}

#[test]
fn searched_points_give_a_closed_outline() {
    let disc = Circle { center: pt(500_000, 500_000), radius: 300_000 };
    let pts = recursive_sampling_points(&disc, 10_000);
    let lines = gather_chunked(10_000, &pts, &disc, 3);
    let (outlines, _) = connect_lines(lines, 10_000);
    assert_eq!(outlines.len(), 1);
    match &outlines[0] {
        LineType::Joined(points) => {
            assert!(points.len() > 100);
            for p in points {
                assert!(disc.sample(*p).abs() < 10_000);
            }
        }
        LineType::Unjoined(_) => panic!("outline is open"),
    }
}

#[test]
fn search_is_checked_against_the_grid() {
    let near = Some(rect(0, 0, 1_000_000, 1_000_000));
    assert!(check_search(&near));
    assert!(check_search_points(&near, 10_000));
    assert!(!check_search(&None));
    assert!(!check_search_points(&None, 10_000));
    assert!(!check_search_points(&near, 0));
    // The search square reaches a sixth farther than the longer side.
    let wide = Some(rect(-400_000_000, 0, 400_000_000, 10));
    assert!(!check_search(&wide));
    let edge = Some(rect(i32::MAX - 15_000, 0, i32::MAX - 5_000, 10_000));
    assert!(!check_search_points(&edge, 10_000));
    assert!(check_search_points(&edge, 1_000));
    let null = Some(Rect::null());
    assert!(!check_search(&null));
    assert!(!check_search_points(&null, 10_000));

    assert!(check_cells(&vec![pt(0, 0), pt(i32::MAX - 5_000, i32::MIN + 5_000)], 10_000));
    assert!(!check_cells(&vec![pt(0, 0), pt(i32::MAX - 4_999, 0)], 10_000));
    assert!(check_cells(&vec![], -1));
    assert!(!check_cells(&vec![pt(0, 0)], -1));
}
