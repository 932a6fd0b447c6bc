use implicit::arith::{div_toward_zero, isqrt, sat_neg, sat_sub};
use implicit::geom::{Line, Point, Ray, Rect, Vector, UNIT};

fn pt(x: i32, y: i32) -> Point {
    Point { x, y }
}

fn rect(l: i32, t: i32, r: i32, b: i32) -> Rect {
    Rect { top_left: pt(l, t), bottom_right: pt(r, b), null: false }
}

#[test]
fn unit_is_ten_thousand_ticks() {
    assert_eq!(UNIT, 10_000);
}

#[test]
fn isqrt_rounds_down() {
    assert_eq!(isqrt(0), 0);
    assert_eq!(isqrt(1), 1);
    assert_eq!(isqrt(3), 1);
    assert_eq!(isqrt(4), 2);
    assert_eq!(isqrt(24), 4);
    assert_eq!(isqrt(25), 5);
    assert_eq!(isqrt(1_000_000_000_000), 1_000_000);
    assert_eq!(isqrt(u128::MAX), u64::MAX);
}

#[test]
fn division_rounds_toward_zero() {
    assert_eq!(div_toward_zero(7, 2), 3);
    assert_eq!(div_toward_zero(-7, 2), -3);
    assert_eq!(div_toward_zero(-6, 2), -3);
    assert_eq!(div_toward_zero(0, 5), 0);
}

#[test]
fn saturating_helpers_stay_in_range() {
    assert_eq!(sat_neg(5), -5);
    assert_eq!(sat_neg(i64::MIN), i64::MAX);
    assert_eq!(sat_sub(5, 7), -2);
    assert_eq!(sat_sub(i64::MIN, 1), i64::MIN);
    assert_eq!(sat_sub(i64::MAX, -1), i64::MAX);
}

#[test]
fn point_distances() {
    let a = pt(0, 0);
    let b = pt(3, 4);
    assert_eq!(a.distance_2(&b), 25);
    assert_eq!(a.distance(&b), 5);
    assert_eq!(pt(0, 0).distance(&pt(1, 1)), 1);
    assert!(a.close_to(&b, 6));
    assert!(!a.close_to(&b, 5));
    assert_eq!(pt(i32::MIN, i32::MIN).distance_2(&pt(i32::MAX, i32::MAX)), 2 * (0xffff_ffffi128 * 0xffff_ffffi128));
    assert_eq!(b.into_tuple(), (3, 4));
}

#[test]
fn point_and_vector_arithmetic() {
    let p = pt(10, 20);
    let v = Vector { x: 3, y: -4 };
    assert_eq!(p.offset(v), pt(13, 16));
    assert_eq!(p.offset_back(v), pt(7, 24));
    assert_eq!(pt(13, 16).displacement(p), v);
    assert_eq!(v.neg(), Vector { x: -3, y: 4 });
    assert_eq!(v.plus(v), Vector { x: 6, y: -8 });
    assert_eq!(v.magnitude(), 5);
    assert_eq!(v.cross(&Vector { x: 1, y: 0 }), 4);
    assert_eq!(v.dot(&Vector { x: 1, y: 2 }), -5);
    assert_eq!(v.mul_e(&Vector { x: 2, y: 3 }), Vector { x: 6, y: -12 });
    assert_eq!(v.scale_e(2, 3), Vector { x: 6, y: -12 });
}

#[test]
fn normalized_vector_is_one_unit_long() {
    let v = Vector { x: 30_000, y: -40_000 };
    assert_eq!(v.normalized(), Vector { x: 6_000, y: -8_000 });
    let zero = Vector { x: 0, y: 0 };
    assert_eq!(zero.normalized(), zero);
}

#[test]
fn rect_contains_is_closed() {
    let r = rect(0, 0, 10, 10);
    assert!(r.contains(&pt(0, 0)));
    assert!(r.contains(&pt(10, 10)));
    assert!(r.contains(&pt(5, 10)));
    assert!(!r.contains(&pt(11, 5)));
    assert!(!r.contains(&pt(5, -1)));
    assert!(!Rect::null().contains(&pt(0, 0)));
}

#[test]
fn rects_touching_at_an_edge_intersect() {
    let a = rect(0, 0, 10, 10);
    assert!(a.does_intersect(&rect(10, 0, 20, 10)));
    assert!(a.does_intersect(&rect(10, 10, 20, 20)));
    assert!(!a.does_intersect(&rect(11, 0, 20, 10)));
    assert!(!a.does_intersect(&rect(0, 11, 10, 20)));
    assert!(a.does_intersect(&rect(2, 2, 3, 3)));
    // A null box is apart from nothing.
    assert!(a.does_intersect(&Rect::null()));
    assert!(Rect::null().does_intersect(&a));
}

#[test]
fn union_with_null_yields_the_other() {
    let a = rect(0, 0, 10, 10);
    assert_eq!(a.union_with(&Rect::null()), a);
    assert_eq!(Rect::null().union_with(&a), a);
    assert_eq!(a.union_with(&rect(5, -5, 20, 3)), rect(0, -5, 20, 10));
    assert!(Rect::null().union_with(&Rect::null()).is_null());
}

#[test]
fn intersect_with_null_yields_null() {
    let a = rect(0, 0, 10, 10);
    assert!(a.intersect_with(&Rect::null()).is_null());
    assert!(Rect::null().intersect_with(&a).is_null());
}

#[test]
fn intersect_with_spans_contained_corners() {
    let a = rect(0, 0, 10, 10);
    // One box inside the other.
    assert_eq!(a.intersect_with(&rect(2, 3, 4, 5)), rect(2, 3, 4, 5));
    assert_eq!(rect(2, 3, 4, 5).intersect_with(&a), rect(2, 3, 4, 5));
    // Overlap at a corner.
    assert_eq!(a.intersect_with(&rect(5, 5, 20, 20)), rect(5, 5, 10, 10));
    assert_eq!(a.intersect_with(&rect(-5, -5, 5, 5)), rect(0, 0, 5, 5));
    // Apart.
    assert!(a.intersect_with(&rect(20, 20, 30, 30)).is_null());
    // A box that crosses the other without a corner inside.
    assert!(a.intersect_with(&rect(3, -5, 6, 15)).is_null());
}

#[test]
fn expand_to_include_grows_the_box() {
    let mut r = Rect::null();
    assert!(r.is_null());
    r.expand_to_include(&pt(3, 4));
    assert_eq!(r, Rect::null_at(&pt(3, 4)));
    r.expand_to_include(&pt(-1, 10));
    assert_eq!(r, rect(-1, 4, 3, 10));
    assert_eq!(r.expanded_by(&pt(0, 0)), rect(-1, 0, 3, 10));
    assert_eq!(Rect::from_points(&pt(5, 1), &pt(2, 7)), rect(2, 1, 5, 7));
}

#[test]
fn rect_measures_and_corners() {
    let r = rect(-4, 2, 6, 12);
    assert_eq!(r.width(), 10);
    assert_eq!(r.height(), 10);
    assert_eq!(r.left(), -4);
    assert_eq!(r.right(), 6);
    assert_eq!(r.top(), 2);
    assert_eq!(r.bottom(), 12);
    assert_eq!(r.top_left(), pt(-4, 2));
    assert_eq!(r.bottom_right(), pt(6, 12));
    assert_eq!(r.bottom_left(), pt(-4, 12));
    assert_eq!(r.top_right(), pt(6, 2));
    assert_eq!(r.midpoint(), pt(1, 7));
    assert_eq!(r.north(), pt(1, 2));
    assert_eq!(r.south(), pt(1, 12));
    assert_eq!(r.east(), pt(6, 7));
    assert_eq!(r.west(), pt(-4, 7));
    assert_eq!(r.expand(1, 2, 3, 4), rect(-5, 0, 9, 16));
    assert_eq!(Rect::centered_with_radius(&pt(0, 0), 5), rect(-5, -5, 5, 5));
    assert_eq!(
        Rect::from_point_and_size(&pt(1, 2), &Vector { x: 3, y: 4 }),
        rect(1, 2, 4, 6)
    );
}

#[test]
fn split_quad_meets_at_the_midpoint() {
    let r = rect(0, 0, 10, 7);
    let q = r.split_quad();
    assert_eq!(q[0], rect(0, 0, 5, 3));
    assert_eq!(q[1], rect(5, 0, 10, 3));
    assert_eq!(q[2], rect(0, 3, 5, 7));
    assert_eq!(q[3], rect(5, 3, 10, 7));
    let n = Rect::null().split_quad();
    assert!(n[0].is_null() && n[1].is_null() && n[2].is_null() && n[3].is_null());
    let (top, bot) = r.split_hori();
    assert_eq!(top, rect(0, 0, 10, 3));
    assert_eq!(bot, rect(0, 3, 10, 7));
}

#[test]
fn rect_close_to_compares_corners() {
    let a = rect(0, 0, 100, 100);
    assert!(a.close_to(&rect(3, 4, 100, 100), 6));
    assert!(!a.close_to(&rect(3, 4, 100, 100), 5));
    assert!(!a.close_to(&Rect::null(), 1000));
    assert!(a.holds_center_of(&rect(40, 40, 60, 60)));
    assert!(!rect(0, 0, 10, 10).holds_center_of(&a));
    assert!(!a.holds_center_of(&Rect::null()));
}

#[test]
fn distance_to_segment_clamps_to_the_ends() {
    let l = Line(pt(0, 0), pt(10, 0));
    // Foot of the perpendicular on the segment.
    assert_eq!(l.dist_to_point_2(pt(5, 3)), 9);
    assert_eq!(l.dist_to_point(pt(5, 3)), 3);
    // Before the first end.
    assert_eq!(l.dist_to_point_2(pt(-3, 4)), 25);
    // Behind the second end.
    assert_eq!(l.dist_to_point_2(pt(13, 4)), 25);
    // On the segment.
    assert_eq!(l.dist_to_point(pt(7, 0)), 0);
    assert_eq!(l.bounding_box(), rect(0, 0, 10, 0));
}

#[test]
fn distance_to_segment_without_length() {
    let l = Line(pt(2, 2), pt(2, 2));
    assert_eq!(l.dist_to_point_2(pt(5, 6)), 25);
    assert_eq!(l.dist_to_point(pt(5, 6)), 5);
    assert!(l.nearer_than(&pt(5, 6), 6));
    assert!(!l.nearer_than(&pt(5, 6), 5));
}

#[test]
fn distance_to_slanted_segment_rounds_down() {
    let l = Line(pt(0, 0), pt(10, 10));
    // The point (10, 0) is sqrt(50) away: the square is 50, the root 7.
    assert_eq!(l.dist_to_point_2(pt(10, 0)), 50);
    assert_eq!(l.dist_to_point(pt(10, 0)), 7);
    assert!(l.nearer_than(&pt(10, 0), 8));
    assert!(!l.nearer_than(&pt(10, 0), 7));
    assert!(!l.nearer_than(&pt(10, 0), 0));
    assert!(!l.nearer_than(&pt(0, 0), -1));
}

#[test]
fn nearer_than_works_across_the_whole_grid() {
    let l = Line(pt(i32::MIN, i32::MIN), pt(i32::MAX, i32::MAX));
    assert!(l.nearer_than(&pt(0, 0), 1));
    assert!(!l.nearer_than(&pt(i32::MAX, i32::MIN), i32::MAX));
    assert!(l.nearer_than(&pt(5, -5), 8));
    assert!(!l.nearer_than(&pt(5, -5), 7));
}

#[test]
fn ray_meets_segment() {
    let right = Ray(pt(0, 0), Vector { x: 1, y: 0 });
    assert!(right.does_intersect_with_line(&Line(pt(5, -5), pt(5, 5))));
    assert!(right.does_intersect_with_line(&Line(pt(5, 5), pt(5, -5))));
    // Behind the start of the ray.
    assert!(!right.does_intersect_with_line(&Line(pt(-5, -5), pt(-5, 5))));
    // Above the ray.
    assert!(!right.does_intersect_with_line(&Line(pt(5, 1), pt(5, 5))));
    // Parallel to the ray.
    assert!(!right.does_intersect_with_line(&Line(pt(1, 0), pt(5, 0))));
    // At an end of the segment.
    assert!(right.does_intersect_with_line(&Line(pt(5, 0), pt(5, 5))));
    let down = Ray(pt(0, 0), Vector { x: 0, y: 1 });
    assert!(down.does_intersect_with_line(&Line(pt(-1, 3), pt(1, 3))));
    assert!(!down.does_intersect_with_line(&Line(pt(-1, -3), pt(1, -3))));
}
