use implicit::geom::{Point, Rect};
use implicit::implementations::Circle;
use implicit::line_gather::{gather_lines, gather_lines_2, NoTree};
use implicit::render::{try_render, OutputMode, RenderMode};
use implicit::sample_points::{count_cells, sampling_points, SampleDist};
use implicit::Implicit;

fn pt(x: i32, y: i32) -> Point {
    Point { x, y }
}

/// A disc whose field is a hundred times the distance to its outline.
#[derive(Copy, Clone)]
struct Steep {
    disc: Circle,
    honest: bool,
}

impl Implicit for Steep {
    fn value(&self, pos: Point) -> i64 {
        self.sample(pos)
    }

    fn bounds(&self) -> Option<Rect> {
        self.bounding_box()
    }

    fn regular(&self) -> bool {
        self.follows_rules()
    }

    fn sample(&self, pos: Point) -> i64 {
        self.disc.sample(pos) * 100
    }

    fn bounding_box(&self) -> Option<Rect> {
        self.disc.bounding_box()
    }

    fn follows_rules(&self) -> bool {
        // `honest` is set where the shape owns up to its field.
        !self.honest
    }
}

fn steep(honest: bool) -> Steep {
    Steep { disc: Circle { center: pt(500_000, 500_000), radius: 300_000 }, honest }
}

#[test]
fn shape_that_breaks_the_rules_is_sampled_everywhere() {
    let shape = steep(true);
    assert!(!shape.follows_rules());
    let pts = sampling_points(&shape, 10_000);
    let bb = shape.bounding_box().unwrap().expand(20_000, 20_000, 20_000, 20_000);
    let d = SampleDist { x_bump: 10_000, y_bump: 10_000 };
    let cells = count_cells(bb, d, 1, 7, 1_000_000);
    // Every lattice point is taken; points that two strips share are taken once.
    assert!(pts.len() <= cells);
    assert!(pts.len() >= 65 * 65, "{} points", pts.len());
    assert!(pts.contains(&pt(500_000, 500_000)));
    let mut sorted: Vec<(i32, i32)> = pts.iter().map(|p| (p.x, p.y)).collect();
    sorted.sort();
    let before = sorted.len();
    sorted.dedup();
    assert_eq!(sorted.len(), before);
}

#[test]
fn shape_that_claims_to_follow_the_rules_is_pruned() {
    let regular = Circle { center: pt(500_000, 500_000), radius: 300_000 };
    let pruned = sampling_points(&regular, 10_000);
    let dense = sampling_points(&steep(true), 10_000);
    assert!(pruned.len() < dense.len());
    assert!(!pruned.contains(&pt(500_000, 500_000)));
}

#[test]
fn steep_shape_is_outlined_when_it_owns_up() {
    let out = try_render(steep(true), &RenderMode::Outline, 10_000, false).expect("can be rendered");
    let lines = match out {
        OutputMode::Outline(l) => l,
        _ => panic!("not an outline"),
    };
    assert_eq!(lines.len(), 1);
    let disc = Circle { center: pt(500_000, 500_000), radius: 300_000 };
    for p in &lines[0] {
        assert!(disc.sample(*p).abs() < 10_000, "{:?}", p);
    }
}

#[test]
fn top_down_search_prunes_only_shapes_that_follow_the_rules() {
    // The steep field tells at the center of the search square that the
    // outline is far away; a search that trusted it would find nothing.
    let (_, trusting) = gather_lines(&mut NoTree, &steep(false), 5);
    assert!(trusting.is_empty());
    let (_, careful) = gather_lines(&mut NoTree, &steep(true), 5);
    assert!(!careful.is_empty());
    let disc = Circle { center: pt(500_000, 500_000), radius: 300_000 };
    for l in &careful {
        assert!(disc.sample(l.0).abs() < 50_000, "{:?}", l);
    }
    let (_, trusting) = gather_lines_2(&mut NoTree, &steep(false), 5);
    assert!(trusting.is_empty());
    let (_, careful) = gather_lines_2(&mut NoTree, &steep(true), 5);
    assert!(!careful.is_empty());
}

#[test]
fn every_lattice_point_of_the_box_is_sampled_or_has_a_duplicate() {
    let shape = steep(true);
    let pts = sampling_points(&shape, 10_000);
    let mut have: Vec<(i32, i32)> = pts.iter().map(|p| (p.x, p.y)).collect();
    have.sort();
    // The box of the disc, grown by twice the resolution, reaches from
    // 180000 to 820000 on both axes.
    let mut y = 180_000;
    while y <= 820_000 {
        let mut x = 180_000;
        while x <= 820_000 {
            assert!(have.binary_search(&(x, y)).is_ok(), "({}, {}) is missing", x, y);
            x += 10_000;
        }
        y += 10_000;
    }
}

#[test]
fn lattice_beside_the_box_is_sampled_too() {
    // The box of this disc does not start on the lattice: its points start
    // at the multiple of the resolution before the box, toward the origin.
    let shape = Steep { disc: Circle { center: pt(505_000, 505_000), radius: 300_000 }, honest: true };
    let pts = sampling_points(&shape, 10_000);
    let mut have: Vec<(i32, i32)> = pts.iter().map(|p| (p.x, p.y)).collect();
    have.sort();
    let before = have.len();
    have.dedup();
    assert_eq!(have.len(), before);
    // The grown box reaches from 185000 to 825000.
    let mut y = 190_000;
    while y <= 820_000 {
        let mut x = 190_000;
        while x <= 820_000 {
            assert!(have.binary_search(&(x, y)).is_ok(), "({}, {}) is missing", x, y);
            x += 10_000;
        }
        y += 10_000;
    }
    assert!(have.binary_search(&(180_000, 180_000)).is_ok());
}

#[test]
fn coarser_raster_keeps_the_points_by_the_outline() {
    let disc = Circle { center: pt(500_000, 500_000), radius: 300_000 };
    let fine = sampling_points(&disc, 10_000);
    let same = implicit::sample_points::sampling_points_with(&disc, 10_000, 5);
    assert_eq!(fine, same);
    let coarse = implicit::sample_points::sampling_points_with(&disc, 10_000, 10);
    assert!(coarse.len() > fine.len());
    let mut have: Vec<(i32, i32)> = coarse.iter().map(|p| (p.x, p.y)).collect();
    have.sort();
    let mut y = 180_000;
    while y <= 820_000 {
        let mut x = 180_000;
        while x <= 820_000 {
            let d = disc.sample(pt(x, y));
            if -10_000 <= d && d <= 10_000 {
                assert!(have.binary_search(&(x, y)).is_ok(), "({}, {}) is missing", x, y);
            }
            x += 10_000;
        }
        y += 10_000;
    }
}

#[test]
fn sampling_is_refused_without_a_ratio() {
    let bb = Some(Rect::from_points(&pt(0, 0), &pt(100_000, 100_000)));
    assert!(implicit::sample_points::check_sample_with(&bb, 10_000, 5));
    assert!(implicit::sample_points::check_sample(&bb, 10_000));
    assert!(!implicit::sample_points::check_sample_with(&bb, 10_000, 0));
    assert!(!implicit::sample_points::check_sample_with(&bb, 10_000, -1));
    assert!(!implicit::sample_points::check_sample_with(&bb, 0, 5));
    assert!(!implicit::sample_points::check_sample_with(&bb, 1_000_000_000, 5));
    assert!(!implicit::sample_points::check_sample_with(&None, 10_000, 5));
}
