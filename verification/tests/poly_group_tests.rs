use implicit::geom::{Point, Rect};
use implicit::implementations::{PolyGroup, Polygon};
use implicit::poly_group::PolySegment;

fn pt(x: i32, y: i32) -> Point {
    Point { x, y }
}

fn square(lo: i32, hi: i32) -> Polygon {
    Polygon::new(vec![pt(lo, lo), pt(hi, lo), pt(hi, hi), pt(lo, hi)])
}

fn corners(polys: &Vec<Polygon>) -> Vec<Vec<Point>> {
    polys.iter().map(|p| p.points().clone()).collect()
}

#[test]
fn polygon_inside_another_takes_away() {
    let outer = square(0, 1_000_000);
    let inner = square(200_000, 800_000);
    let far = Polygon::new(vec![pt(2_000_000, 0), pt(3_000_000, 0), pt(2_000_000, 900_000)]);
    let (additive, subtractive, bb) = PolyGroup::segregate_polys(vec![outer, inner, far]);
    // The last polygon is looked at first.
    assert_eq!(
        corners(&additive),
        vec![
            vec![pt(2_000_000, 0), pt(3_000_000, 0), pt(2_000_000, 900_000)],
            vec![pt(0, 0), pt(1_000_000, 0), pt(1_000_000, 1_000_000), pt(0, 1_000_000)],
        ]
    );
    assert_eq!(
        corners(&subtractive),
        vec![vec![
            pt(200_000, 200_000),
            pt(800_000, 200_000),
            pt(800_000, 800_000),
            pt(200_000, 800_000)
        ]]
    );
    assert_eq!(bb, Rect { top_left: pt(0, 0), bottom_right: pt(3_000_000, 1_000_000), null: false });
}

#[test]
fn polygon_inside_two_others_adds_again() {
    let outer = square(0, 1_000_000);
    let middle = square(100_000, 900_000);
    let inner = square(300_000, 700_000);
    let (additive, subtractive, _) = PolyGroup::segregate_polys(vec![inner, outer, middle]);
    assert_eq!(additive.len(), 2);
    assert_eq!(subtractive.len(), 1);
    assert_eq!(subtractive[0].points()[0], pt(100_000, 100_000));
    assert_eq!(additive[0].points()[0], pt(0, 0));
    assert_eq!(additive[1].points()[0], pt(300_000, 300_000));
}

#[test]
fn no_polygons_give_no_lists_and_a_null_box() {
    let (additive, subtractive, bb) = PolyGroup::segregate_polys(vec![]);
    assert!(additive.is_empty());
    assert!(subtractive.is_empty());
    assert!(bb.is_null());
    let (additive, subtractive, bb) = PolyGroup::segregate_polys(vec![Polygon::new(vec![])]);
    assert_eq!(additive.len(), 1);
    assert!(subtractive.is_empty());
    assert!(bb.is_null());
}

#[test]
fn tree_of_a_group_holds_every_edge_with_its_mark() {
    let outer = square(0, 1_000_000);
    let inner = square(200_000, 800_000);
    let (additive, subtractive, bb) = PolyGroup::segregate_polys(vec![outer, inner]);
    let tree = PolyGroup::build_qt(additive, subtractive, bb);
    assert_eq!(tree.len(), 8);
    let rows = tree.query(bb);
    assert_eq!(rows.len(), 8);
    for (k, row) in rows.iter().enumerate() {
        let segment: &PolySegment = row.0;
        assert_eq!((row.2).0 as usize, k);
        // The four edges of the outer square come first.
        assert_eq!(segment.additive, k < 4);
        assert_eq!(*row.1, segment.line.bounding_box());
    }
    let first: &PolySegment = rows[0].0;
    assert_eq!(first.line.0, pt(0, 0));
    assert_eq!(first.line.1, pt(1_000_000, 0));
    let fifth: &PolySegment = rows[4].0;
    assert_eq!(fifth.line.0, pt(200_000, 200_000));
}
