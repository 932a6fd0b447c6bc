use implicit::bitmap::{ceil_div, check_raster, floor_div, Bitmap};
use implicit::examples::{front_collar, rice_wall, xored_circles};
use implicit::geom::{Line, Point, Rect};
use implicit::implementations::{
    and, and_not, cache_bounding_box, grow, not, or, outline_inner, outline_outer, shrink, xor,
    AndThese, Circle, OrThese, Polygon, Rectangle,
};
use implicit::line_gather::{
    chunk_len, gather_chunked, gather_lines, gather_lines_2, sample_these, NoTree,
};
use implicit::output_device::{NullDevice, OutputDevice};
use implicit::sample_points::{
    count_cells, count_lattice, min_abs4, real_sample_with_bitmap, sample_from_box, sampling_points,
    SampleDist,
};
use implicit::svg::svg_footer;
use implicit::{Implicit, SyncImplicit};

fn pt(x: i32, y: i32) -> Point {
    Point { x, y }
}

fn rect(l: i32, t: i32, r: i32, b: i32) -> Rect {
    Rect { top_left: pt(l, t), bottom_right: pt(r, b), null: false }
}

fn disc(x: i32, y: i32, r: i32) -> Circle {
    Circle { center: pt(x, y), radius: r }
}

fn takes_sync<S: SyncImplicit>(s: &S) -> i64 {
    s.sample(pt(0, 0))
}

#[test]
fn circle_field_is_distance_less_radius() {
    let c = disc(0, 0, 50);
    assert_eq!(c.sample(pt(0, 0)), -50);
    assert_eq!(c.sample(pt(30, 40)), 0);
    assert_eq!(c.sample(pt(60, 80)), 50);
    assert_eq!(c.sample(pt(1, 1)), -49);
    assert_eq!(c.bounding_box(), Some(rect(-50, -50, 50, 50)));
    assert!(c.follows_rules());
    assert_eq!(c.center(), Some(pt(0, 0)));
    assert_eq!(takes_sync(&c), -50);
    let edge = disc(i32::MAX, i32::MIN, 10);
    assert_eq!(edge.bounding_box(), Some(rect(i32::MAX - 10, i32::MIN, i32::MAX, i32::MIN + 10)));
}

#[test]
fn polygon_field_is_signed_distance_to_its_edges() {
    let square = Polygon::new(vec![pt(0, 0), pt(100, 0), pt(100, 100), pt(0, 100)]);
    assert_eq!(square.lines().len(), 4);
    assert_eq!(square.lines()[0], Line(pt(0, 0), pt(100, 0)));
    assert_eq!(square.lines()[3], Line(pt(0, 0), pt(0, 100)));
    assert_eq!(square.points().len(), 4);
    assert_eq!(square.sample(pt(50, 50)), -50);
    assert_eq!(square.sample(pt(50, 10)), -10);
    assert_eq!(square.sample(pt(50, -10)), 10);
    assert_eq!(square.sample(pt(130, 140)), 50);
    assert_eq!(square.sample(pt(-7, 50)), 7);
    assert_eq!(square.bounding_box(), Some(rect(0, 0, 100, 100)));
    assert!(square.follows_rules());
}

#[test]
fn polygon_with_few_corners() {
    let none = Polygon::new(vec![]);
    assert!(none.lines().is_empty());
    assert_eq!(none.sample(pt(3, 4)), i64::MAX);
    assert!(none.bounding_box().unwrap().is_null());
    let two = Polygon::new(vec![pt(0, 0), pt(10, 0)]);
    assert_eq!(two.lines().len(), 1);
    assert_eq!(two.sample(pt(5, 3)), 3);
    let copy = two.clone();
    assert_eq!(copy.points(), two.points());
}

#[test]
fn rectangle_is_the_polygon_of_its_corners() {
    let r = Rectangle::new(rect(0, 0, 200, 100));
    assert_eq!(r.rect(), rect(0, 0, 200, 100));
    assert_eq!(r.sample(pt(100, 50)), -50);
    assert_eq!(r.sample(pt(100, 130)), 30);
    assert_eq!(r.sample(pt(250, 50)), 50);
    assert_eq!(r.bounding_box(), Some(rect(0, 0, 200, 100)));
    assert_eq!(r.clone().rect(), r.rect());
}

#[test]
fn combinators_combine_fields() {
    let a = disc(0, 0, 100);
    let b = disc(150, 0, 100);
    let p = pt(75, 0);
    assert_eq!(a.sample(p), -25);
    assert_eq!(b.sample(p), -25);
    assert_eq!(and(a, b).sample(pt(40, 0)), 10);
    assert_eq!(or(a, b).sample(pt(40, 0)), -60);
    assert_eq!(not(a).sample(pt(40, 0)), 60);
    assert_eq!(and_not(a, b).sample(pt(40, 0)), -10);
    assert_eq!(grow(a, 20).sample(pt(110, 0)), -10);
    assert_eq!(shrink(a, 20).sample(pt(90, 0)), 10);
    assert_eq!(grow(a, -20).sample(pt(110, 0)), 10);
    assert_eq!(and(a, b).bounding_box(), Some(rect(50, -100, 100, 100)));
    assert_eq!(or(a, b).bounding_box(), Some(rect(-100, -100, 250, 100)));
    assert_eq!(not(a).bounding_box(), None);
    assert_eq!(and(a, not(b)).bounding_box(), Some(rect(-100, -100, 100, 100)));
    assert_eq!(or(a, not(b)).bounding_box(), None);
    assert_eq!(grow(a, 20).bounding_box(), Some(rect(-120, -120, 120, 120)));
    assert_eq!(shrink(a, 20).bounding_box(), Some(rect(-80, -80, 80, 80)));
    assert!(and(a, b).follows_rules());
    assert!(or(a, not(b)).follows_rules());
    let cached = cache_bounding_box(a);
    assert_eq!(cached.bounding_box(), Some(rect(-100, -100, 100, 100)));
    assert_eq!(cached.sample(pt(0, 0)), -100);
    assert_eq!(outline_inner(a, 10).sample(pt(0, 0)), 90);
    assert_eq!(outline_inner(a, 10).sample(pt(95, 0)), -5);
    assert_eq!(outline_outer(a, 10).sample(pt(105, 0)), -5);
    assert_eq!(outline_outer(a, 10).sample(pt(0, 0)), 100);
}

#[test]
fn xor_field_by_cases() {
    let a = disc(0, 0, 100);
    let b = disc(150, 0, 100);
    let x = xor(a, b);
    // In both: as deep as the nearer outline, but outside.
    assert_eq!(x.sample(pt(75, 0)), 25);
    // In neither.
    assert_eq!(x.sample(pt(-150, 0)), 50);
    // In the left one only, far from the right one.
    assert_eq!(x.sample(pt(-50, 0)), -50);
    // In the left one only, near the right one.
    assert_eq!(x.sample(pt(40, 0)), -10);
    // In the right one only.
    assert_eq!(x.sample(pt(200, 0)), -50);
    assert_eq!(x.bounding_box(), Some(rect(-100, -100, 250, 100)));
}

#[test]
fn lists_of_shapes() {
    let discs = vec![disc(0, 0, 100), disc(150, 0, 100), disc(300, 0, 100)];
    let any = OrThese::new(discs.clone());
    let all = AndThese::new(discs);
    assert_eq!(any.sample(pt(40, 0)), -60);
    assert_eq!(all.sample(pt(40, 0)), 160);
    assert_eq!(any.bounding_box(), Some(rect(-100, -100, 400, 100)));
    assert_eq!(all.bounding_box(), None);
    assert!(any.follows_rules() && all.follows_rules());
    let two = AndThese::new(vec![disc(0, 0, 100), disc(150, 0, 100)]);
    assert_eq!(two.bounding_box(), Some(rect(50, -100, 100, 100)));
    let none: OrThese<Circle> = OrThese::new(vec![]);
    assert_eq!(none.sample(pt(0, 0)), i64::MAX);
    assert_eq!(none.bounding_box(), None);
    let none: AndThese<Circle> = AndThese::new(vec![]);
    assert_eq!(none.sample(pt(0, 0)), i64::MIN);
}

#[test]
fn example_shapes() {
    let collar = front_collar();
    assert_eq!(collar.left.rect(), rect(0, 0, 108_750, 10_000));
    assert_eq!(collar.right.points(), &vec![pt(-5_000, 5_000), pt(0, 0), pt(0, 10_000)]);
    assert_eq!(collar.bounding_box(), Some(rect(-5_000, 0, 108_750, 10_000)));
    assert!(collar.sample(pt(50_000, 5_000)) < 0);
    assert!(collar.sample(pt(-2_000, 5_000)) < 0);
    assert!(collar.sample(pt(-6_000, 5_000)) > 0);
    let wall = rice_wall();
    assert_eq!(wall.move_by, 500);
    // On the wire of the frame.
    assert!(wall.sample(pt(500, 16_000)) < 0);
    // In the open field between the wires.
    assert!(wall.sample(pt(3_000, 16_000)) > 0);
    // On the wire of the frame in the middle.
    assert!(wall.sample(pt(7_000, 20_000)) < 0);
    let circles = xored_circles();
    assert_eq!(circles.right.radius, 500_000);
    assert_eq!(circles.bounding_box(), Some(rect(0, 0, 1_500_000, 1_500_000)));
}

#[test]
fn svg_footer_closes_the_document() {
    assert_eq!(svg_footer(), "</svg>\n");
}

#[test]
fn null_device_takes_everything() {
    let mut d = NullDevice;
    d.set_size(10, 10);
    d.start_line();
    d.add_point(pt(1, 2));
    d.end_line();
}

#[test]
fn rounding_divisions() {
    assert_eq!(floor_div(7, 2), 3);
    assert_eq!(floor_div(-7, 2), -4);
    assert_eq!(floor_div(-8, 2), -4);
    assert_eq!(ceil_div(7, 2), 4);
    assert_eq!(ceil_div(-7, 2), -3);
    assert_eq!(ceil_div(8, 2), 4);
}

#[test]
fn bitmap_samples_the_shape_on_a_grid() {
    let c = disc(100_000, 100_000, 50_000);
    // The box is (50000, 50000) to (150000, 150000); with a step of 50000
    // widened to (0, 0) to (200000, 200000): four by four samples.
    assert!(check_raster(&c.bounding_box().unwrap(), 50_000));
    let b = Bitmap::new(&c, 50_000);
    assert_eq!(b.size(), (4, 4));
    // Samples start at the top-left corner of the box.
    assert_eq!(b.get(0, 0), c.sample(pt(50_000, 50_000)));
    assert_eq!(b.get(1, 1), c.sample(pt(100_000, 100_000)));
    assert_eq!(b.get(1, 1), -50_000);
    assert_eq!(b.get(3, 2), c.sample(pt(200_000, 150_000)));
    // Around a place between grid points.
    let got = b.corners(75_000, 100_000);
    assert_eq!(got, (b.get(0, 1), b.get(0, 1), b.get(1, 1), b.get(1, 1)));
    // Places outside the raster take the samples at its border.
    assert_eq!(b.corners(-1_000_000, -1_000_000), (b.get(0, 0), b.get(0, 0), b.get(0, 0), b.get(0, 0)));
    assert_eq!(b.sample(100_000, 100_000, min_abs4), 50_000);
    assert_eq!(b.sample(100_000, 100_000, |a, _, _, _| a + 1), -49_999);
}

#[test]
fn raster_that_does_not_fit() {
    assert!(!check_raster(&rect(0, 0, 10, 10), 0));
    assert!(!check_raster(&Rect::null(), 10));
    assert!(!check_raster(&rect(10, 10, 0, 0), 10));
    assert!(!check_raster(&rect(i32::MAX - 5, 0, i32::MAX, 10), 1000));
    assert!(check_raster(&rect(0, 0, 10, 10), 10));
}

#[test]
fn min_abs4_is_the_smallest_size() {
    assert_eq!(min_abs4(-5, 7, 3, -9), 3);
    assert_eq!(min_abs4(-5, 7, -3, -9), 3);
    assert_eq!(min_abs4(i64::MIN, i64::MIN, i64::MIN, i64::MIN), i64::MAX);
    assert_eq!(min_abs4(0, 7, 3, 9), 0);
}

#[test]
fn lattice_walk_goes_row_by_row() {
    let d = SampleDist { x_bump: 10, y_bump: 10 };
    let mut walk = sample_from_box(rect(3, 5, 47, 49), d);
    let mut got: Vec<(Point, bool)> = Vec::new();
    while let Some(x) = walk.next() {
        got.push(x);
    }
    assert!(walk.next().is_none());
    // The corners are moved to (0, 0) and (40, 40). A point lies inside
    // the lattice if it is not in the first row or column and the next row
    // and column do not reach the far edges.
    let mut expected = Vec::new();
    for y in [0, 10, 20, 30, 40] {
        for x in [0, 10, 20, 30, 40] {
            expected.push((pt(x, y), (x == 10 || x == 20) && (y == 10 || y == 20)));
        }
    }
    assert_eq!(got, expected);
    assert_eq!(count_lattice(rect(3, 5, 27, 29), d, 100), 9);
    assert_eq!(count_lattice(rect(3, 5, 27, 29), d, 8), 9);
    assert_eq!(count_lattice(rect(3, 5, 27, 29), d, 5), 6);
    assert_eq!(count_cells(rect(0, 0, 20, 20), d, 8, 7, 100), 9);
    // Two strips that share the row at the middle.
    assert_eq!(count_cells(rect(0, 0, 20, 20), d, 4, 7, 100), 12);
    assert_eq!(count_cells(rect(0, 0, 20, 20), d, 4, 7, 10), 11);
}

#[test]
fn lattice_snaps_toward_zero() {
    let d = SampleDist { x_bump: 10, y_bump: 10 };
    let mut walk = sample_from_box(rect(-27, -5, -3, 5), d);
    let mut got: Vec<Point> = Vec::new();
    while let Some((p, _)) = walk.next() {
        got.push(p);
    }
    assert_eq!(got, vec![pt(-20, 0), pt(-10, 0), pt(0, 0)]);
}

#[test]
fn sample_points_lie_near_the_outline() {
    let c = disc(500_000, 500_000, 300_000);
    let b = Bitmap::new(&c, 50_000);
    let d = SampleDist { x_bump: 10_000, y_bump: 10_000 };
    let (inside, border) = real_sample_with_bitmap(rect(180_000, 180_000, 820_000, 820_000), d, &b, true);
    assert!(!inside.is_empty());
    assert!(!border.is_empty());
    for p in inside.iter().chain(border.iter()) {
        let field = c.sample(*p);
        assert!(field.abs() < 130_000, "{:?} is {} away", p, field);
    }
    // The center is far from the outline.
    assert!(!inside.contains(&pt(500_000, 500_000)));
    let pts = sampling_points(&c, 10_000);
    assert!(pts.len() > 1000);
    for p in &pts {
        assert!(c.sample(*p).abs() < 130_000);
    }
    // No point comes twice.
    let mut sorted: Vec<(i32, i32)> = pts.iter().map(|p| (p.x, p.y)).collect();
    sorted.sort();
    let before = sorted.len();
    sorted.dedup();
    assert_eq!(sorted.len(), before);
}

#[test]
fn sample_these_marches_over_cells() {
    let c = disc(0, 0, 1000);
    let pts = vec![pt(-100, -1000), pt(0, -1000), pt(100, -1000), pt(0, 0)];
    let lines = sample_these(&c, &pts, 0, 4, 100);
    // Three cells on top of the disc hold one segment each, the cell at
    // the center none.
    assert_eq!(lines.len(), 3);
    for l in &lines {
        assert!(c.sample(l.0).abs() <= 5, "{:?}", l);
        assert!(c.sample(l.1).abs() <= 5, "{:?}", l);
    }
    // Neighbours share the crossing on their common edge.
    assert_eq!(lines[0].1.x, -50);
    assert_eq!(lines[1].0, lines[0].1);
    assert_eq!(sample_these(&c, &pts, 1, 1, 100), vec![]);
    assert_eq!(sample_these(&c, &pts, 3, 4, 100), vec![]);
}

#[test]
fn chunks_share_out_the_points() {
    assert_eq!(chunk_len(100, 4), 25);
    assert_eq!(chunk_len(3, 4), 1);
    assert_eq!(chunk_len(0, 4), 1);
    assert_eq!(chunk_len(10, 0), 1);
    assert_eq!(chunk_len(10, 3), 3);
    let c = disc(0, 0, 1000);
    let pts: Vec<Point> = (-12..=12).map(|i| pt(i * 100, -1000)).collect();
    let whole = sample_these(&c, &pts, 0, pts.len(), 100);
    for cpus in [1usize, 2, 3, 7, 100] {
        let mut chunked = gather_chunked(100, &pts, &c, cpus);
        assert_eq!(chunked.len(), whole.len());
        // Chunks come out last first; within a chunk cells keep their order.
        chunked.sort_by_key(|l| l.0.x.min(l.1.x));
        let mut sorted = whole.clone();
        sorted.sort_by_key(|l| l.0.x.min(l.1.x));
        assert_eq!(chunked, sorted);
    }
}

#[test]
fn top_down_search_finds_the_outline() {
    let c = disc(500_000, 500_000, 300_000);
    for depth in [0u32, 1, 5] {
        let (_, lines) = gather_lines(&mut NoTree, &c, depth);
        assert!(!lines.is_empty());
        for l in &lines {
            assert!(c.sample(l.0).abs() < 200_000);
        }
    }
    let (_, fine) = gather_lines(&mut NoTree, &c, 6);
    let (_, coarse) = gather_lines(&mut NoTree, &c, 4);
    assert!(fine.len() > coarse.len());
    for l in &fine {
        assert!(c.sample(l.0).abs() < 3_000, "{:?}", l);
        assert!(c.sample(l.1).abs() < 3_000, "{:?}", l);
    }
    let (_, other) = gather_lines_2(&mut NoTree, &c, 6);
    assert!(!other.is_empty());
    for l in &other {
        assert!(c.sample(l.0).abs() < 3_000, "{:?}", l);
    }
    let (_, single) = gather_lines_2(&mut NoTree, &disc(0, 0, 10), 0);
    assert!(single.len() <= 2);
}

#[test]
fn rectangle_follows_its_box_when_the_box_is_changed() {
    let mut shape = Rectangle::new(Rect {
        top_left: Point { x: 0, y: 0 },
        bottom_right: Point { x: 100_000, y: 100_000 },
        null: false,
    });
    assert!(shape.sample(Point { x: 150_000, y: 50_000 }) > 0);
    let old_width = shape.with_underlying(|b| (b.expand(0, 0, 100_000, 0), b.width()));
    assert_eq!(old_width, 100_000);
    assert_eq!(shape.rect().bottom_right, Point { x: 200_000, y: 100_000 });
    // The point now lies inside, five units from the nearest edges.
    assert_eq!(shape.sample(Point { x: 150_000, y: 50_000 }), -50_000);
    assert_eq!(
        shape.bounding_box(),
        Some(Rect { top_left: Point { x: 0, y: 0 }, bottom_right: Point { x: 200_000, y: 100_000 }, null: false })
    );
}
