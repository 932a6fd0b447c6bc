use implicit::geom::{Line, Point, Rect};
use implicit::quadtree::{ItemId, QuadTree, Spatial};

fn pt(x: i32, y: i32) -> Point {
    Point { x, y }
}

fn rect(l: i32, t: i32, r: i32, b: i32) -> Rect {
    Rect { top_left: pt(l, t), bottom_right: pt(r, b), null: false }
}

fn ids(rows: &Vec<(&u32, &Rect, ItemId)>) -> Vec<u32> {
    rows.iter().map(|r| (r.2).0).collect()
}

#[test]
fn new_tree_is_empty() {
    let tree: QuadTree<u32> = QuadTree::default(rect(0, 0, 100, 100));
    assert!(tree.is_empty());
    assert_eq!(tree.len(), 0);
    assert!(tree.first().is_none());
    assert!(tree.query(rect(0, 0, 100, 100)).is_empty());
    assert!(tree.iter().is_empty());
    assert!(tree.validate());
    assert_eq!(tree.inspect(), vec![(rect(0, 0, 100, 100), 0, true)]);
}

#[test]
fn insert_hands_out_ids_in_order() {
    let mut tree: QuadTree<u32> = QuadTree::default(rect(0, 0, 100, 100));
    assert_eq!(tree.insert_with_box(7, rect(1, 1, 2, 2)), ItemId(0));
    assert_eq!(tree.insert_with_box(8, rect(3, 3, 4, 4)), ItemId(1));
    assert_eq!(tree.insert_with_box(9, rect(5, 5, 6, 6)), ItemId(2));
    assert_eq!(tree.len(), 3);
    assert!(!tree.is_empty());
    let first = tree.first().unwrap();
    assert!(first.0 < 3);
}

#[test]
fn query_finds_what_intersects() {
    let mut tree: QuadTree<u32> = QuadTree::default(rect(0, 0, 100, 100));
    tree.insert_with_box(10, rect(0, 0, 10, 10));
    tree.insert_with_box(11, rect(50, 50, 60, 60));
    tree.insert_with_box(12, rect(90, 0, 100, 10));
    let rows = tree.query(rect(5, 5, 55, 55));
    assert_eq!(ids(&rows), vec![0, 1]);
    assert_eq!(*rows[0].0, 10);
    assert_eq!(*rows[0].1, rect(0, 0, 10, 10));
    assert_eq!(*rows[1].0, 11);
    // Touching at a corner counts.
    assert_eq!(ids(&tree.query(rect(10, 10, 20, 20))), vec![0]);
    assert!(tree.query(rect(20, 20, 30, 30)).is_empty());
}

#[test]
fn remove_returns_the_item_once() {
    let mut tree: QuadTree<u32> = QuadTree::default(rect(0, 0, 100, 100));
    let a = tree.insert_with_box(10, rect(0, 0, 10, 10));
    let b = tree.insert_with_box(11, rect(50, 50, 60, 60));
    assert_eq!(tree.remove(a), Some((10, rect(0, 0, 10, 10))));
    assert_eq!(tree.remove(a), None);
    assert_eq!(tree.remove(ItemId(77)), None);
    assert_eq!(tree.len(), 1);
    assert_eq!(ids(&tree.query(rect(0, 0, 100, 100))), vec![b.0]);
}

#[test]
fn full_box_query_returns_every_item_through_splits_and_compactions() {
    let bounds = rect(0, 0, 1000, 1000);
    let mut tree: QuadTree<u32> = QuadTree::new(bounds, true, 4, 8, 6);
    let mut expected: Vec<u32> = Vec::new();
    // Boxes of many sizes, some across the midpoints of nodes.
    for i in 0..200u32 {
        let x = ((i * 37) % 990) as i32;
        let y = ((i * 91) % 990) as i32;
        let w = 1 + ((i * 13) % 300) as i32;
        let b = rect(x, y, (x + w).min(1000), (y + w / 2 + 1).min(1000));
        let id = tree.insert_with_box(i, b);
        assert_eq!(id.0, i);
        expected.push(i);
        if i % 10 == 0 {
            assert_eq!(ids(&tree.query(bounds)), expected);
        }
    }
    assert_eq!(ids(&tree.query(bounds)), expected);
    assert!(tree.inspect().len() > 1);
    assert!(tree.inspect().iter().all(|n| n.1 <= 6));
    // Take out three of every four, which makes branches into leaves again.
    for i in 0..200u32 {
        if i % 4 != 0 {
            let got = tree.remove(ItemId(i));
            assert_eq!(got.map(|g| g.0), Some(i));
            expected.retain(|e| *e != i);
            if i % 9 == 0 {
                assert_eq!(ids(&tree.query(bounds)), expected);
            }
        }
    }
    assert_eq!(ids(&tree.query(bounds)), expected);
    assert_eq!(tree.len(), expected.len());
    for i in 0..200u32 {
        if i % 4 == 0 {
            tree.remove(ItemId(i));
        }
    }
    assert!(tree.query(bounds).is_empty());
    assert!(tree.is_empty());
    assert_eq!(tree.inspect(), vec![(bounds, 0, true)]);
}

#[test]
fn query_never_returns_duplicates() {
    let bounds = rect(0, 0, 64, 64);
    let mut tree: QuadTree<u32> = QuadTree::new(bounds, true, 1, 2, 4);
    // Boxes that reach into several quadrants without holding the midpoint.
    for i in 0..20u32 {
        tree.insert_with_box(i, rect(0, 40 + (i as i32 % 5), 64, 45 + (i as i32 % 5)));
    }
    let rows = tree.query(bounds);
    assert_eq!(ids(&rows), (0..20u32).collect::<Vec<u32>>());
}

#[test]
fn small_query_finds_items_stored_at_every_level() {
    let bounds = rect(0, 0, 1024, 1024);
    let mut tree: QuadTree<u32> = QuadTree::new(bounds, true, 2, 4, 5);
    let mut boxes: Vec<Rect> = Vec::new();
    for i in 0..120u32 {
        let x = ((i * 53) % 1000) as i32;
        let y = ((i * 29) % 1000) as i32;
        let w = 1 + ((i * 7) % 400) as i32;
        let b = rect(x, y, (x + w).min(1024), (y + w).min(1024));
        tree.insert_with_box(i, b);
        boxes.push(b);
    }
    for q in [rect(500, 500, 520, 520), rect(0, 0, 10, 10), rect(1000, 1000, 1024, 1024), rect(100, 700, 400, 720)] {
        let expected: Vec<u32> =
            (0..120u32).filter(|i| q.does_intersect(&boxes[*i as usize])).collect();
        assert_eq!(ids(&tree.query(q)), expected);
    }
}

#[test]
fn tree_without_duplicates_drops_near_copies() {
    let bounds = rect(0, 0, 100, 100);
    let mut tree: QuadTree<u32> = QuadTree::new(bounds, false, 4, 16, 8);
    tree.insert_with_box(1, rect(10, 10, 20, 20));
    tree.insert_with_box(2, rect(11, 11, 21, 21));
    tree.insert_with_box(3, rect(40, 40, 50, 50));
    // The second box has both corners within ten ticks of the first.
    assert_eq!(ids(&tree.query(bounds)), vec![0, 2]);
    // All three are still items of the tree.
    assert_eq!(tree.len(), 3);
    assert_eq!(tree.iter().len(), 3);
    assert_eq!(tree.remove(ItemId(1)), Some((2, rect(11, 11, 21, 21))));
    assert_eq!(ids(&tree.query(bounds)), vec![0, 2]);
}

#[test]
fn iter_lists_every_item_once() {
    let mut tree: QuadTree<u32> = QuadTree::default(rect(0, 0, 100, 100));
    for i in 0..30u32 {
        tree.insert_with_box(i + 100, rect(i as i32, i as i32, i as i32 + 2, i as i32 + 2));
    }
    let mut seen: Vec<(u32, u32)> = tree.iter().iter().map(|r| ((r.0).0, *r.1)).collect();
    seen.sort();
    let expected: Vec<(u32, u32)> = (0..30u32).map(|i| (i, i + 100)).collect();
    assert_eq!(seen, expected);
}

#[test]
fn clone_keeps_items_and_shape() {
    let mut tree: QuadTree<u32> = QuadTree::new(rect(0, 0, 100, 100), true, 1, 2, 3);
    for i in 0..10u32 {
        tree.insert_with_box(i, rect(i as i32 * 9, 0, i as i32 * 9 + 5, 5));
    }
    let copy = tree.clone();
    assert_eq!(copy.len(), 10);
    assert_eq!(copy.inspect(), tree.inspect());
    assert_eq!(ids(&copy.query(rect(0, 0, 100, 100))), ids(&tree.query(rect(0, 0, 100, 100))));
    tree.remove(ItemId(3));
    assert_eq!(copy.len(), 10);
    assert_eq!(tree.len(), 9);
}

#[test]
fn spatial_items_bring_their_own_box() {
    let mut tree: QuadTree<Line> = QuadTree::default(rect(0, 0, 100, 100));
    let l = Line(pt(30, 10), pt(10, 40));
    assert_eq!(l.aabb(), rect(10, 10, 30, 40));
    let id = tree.insert(l);
    let rows = tree.query(rect(0, 0, 100, 100));
    assert_eq!(rows.len(), 1);
    assert_eq!(*rows[0].0, l);
    assert_eq!(*rows[0].1, rect(10, 10, 30, 40));
    assert_eq!(rows[0].2, id);
    assert_eq!(pt(3, 4).aabb(), Rect::null_at(&pt(3, 4)));
    assert_eq!(rect(1, 2, 3, 4).aabb(), rect(1, 2, 3, 4));
}

#[test]
fn null_query_returns_everything_indexed() {
    let mut tree: QuadTree<u32> = QuadTree::new(rect(0, 0, 100, 100), true, 1, 2, 3);
    for i in 0..12u32 {
        tree.insert_with_box(i, rect(i as i32 * 8, i as i32 * 8, i as i32 * 8 + 3, i as i32 * 8 + 3));
    }
    assert_eq!(ids(&tree.query(Rect::null())), (0..12u32).collect::<Vec<u32>>());
}

#[test]
fn tree_without_duplicates_keeps_what_it_indexed_through_splits() {
    let bounds = rect(0, 0, 1000, 1000);
    let mut tree: QuadTree<Point> = QuadTree::new(bounds, false, 1, 2, 6);
    let mut expected: Vec<u32> = Vec::new();
    let mut next: u32 = 0;
    let mut y = 0;
    while y <= 1000 {
        let mut x = 0;
        while x <= 1000 {
            // The point itself is indexed, its near copy is not.
            assert_eq!(tree.insert(pt(x, y)), ItemId(next));
            expected.push(next);
            assert_eq!(tree.insert(pt(x, y)), ItemId(next + 1));
            next += 2;
            x += 100;
        }
        y += 100;
    }
    let rows = tree.query(Rect::null());
    let found: Vec<u32> = rows.iter().map(|row| (row.2).0).collect();
    assert_eq!(found, expected);
    assert_eq!(tree.len(), 2 * expected.len());
}

#[test]
fn full_leaf_splits_when_the_next_item_comes() {
    let bounds = rect(0, 0, 100, 100);
    let mut tree: QuadTree<u32> = QuadTree::new(bounds, true, 2, 3, 4);
    tree.insert_with_box(0, rect(10, 10, 12, 12));
    tree.insert_with_box(1, rect(80, 10, 82, 12));
    tree.insert_with_box(2, rect(10, 80, 12, 82));
    // Three items fill the leaf; it is still a leaf.
    assert_eq!(tree.inspect(), vec![(bounds, 0, true)]);
    tree.insert_with_box(3, rect(80, 80, 82, 82));
    let quads = bounds.split_quad();
    assert_eq!(
        tree.inspect(),
        vec![
            (bounds, 0, false),
            (quads[0], 1, true),
            (quads[1], 1, true),
            (quads[2], 1, true),
            (quads[3], 1, true),
        ]
    );
    // The branch has counted four items; with three left it stays, with one
    // left it counts fewer than two and turns back into a leaf.
    tree.remove(ItemId(0));
    assert_eq!(tree.inspect().len(), 5);
    tree.remove(ItemId(1));
    assert_eq!(tree.inspect().len(), 5);
    tree.remove(ItemId(2));
    assert_eq!(tree.inspect(), vec![(bounds, 0, true)]);
    assert_eq!(ids(&tree.query(bounds)), vec![3]);
}

#[test]
fn leaf_at_the_greatest_depth_is_not_split() {
    let bounds = rect(0, 0, 100, 100);
    let mut tree: QuadTree<u32> = QuadTree::new(bounds, true, 1, 2, 0);
    for k in 0..10 {
        tree.insert_with_box(k, rect(k as i32, k as i32, k as i32 + 1, k as i32 + 1));
    }
    assert_eq!(tree.inspect(), vec![(bounds, 0, true)]);
    assert_eq!(tree.query(bounds).len(), 10);
}

#[test]
fn tree_without_duplicates_returns_every_item_that_lies_apart() {
    let bounds = rect(0, 0, 1000, 1000);
    let mut tree: QuadTree<Point> = QuadTree::new(bounds, false, 3, 2, 6);
    let mut live: Vec<u32> = Vec::new();
    let mut next: u32 = 0;
    let mut y = 0;
    while y <= 1000 {
        let mut x = 0;
        while x <= 1000 {
            let id = tree.insert(pt(x, y));
            assert_eq!(id, ItemId(next));
            // A query with the box of the new item finds it.
            let own = tree.query(Rect::null_at(&pt(x, y)));
            assert!(own.iter().any(|row| row.2 == id));
            live.push(next);
            next += 1;
            x += 50;
        }
        y += 50;
    }
    assert_eq!(ids_of(&tree.query(bounds)), live);
    // Removals turn branches back into leaves; nothing else is lost.
    let mut k = 0;
    while k < live.len() {
        let id = live.remove(k);
        assert!(tree.remove(ItemId(id)).is_some());
        k += 2;
    }
    assert_eq!(ids_of(&tree.query(bounds)), live);
    // The places that were given up are taken again.
    let id = tree.insert(pt(0, 0));
    live.push(id.0);
    let id = tree.insert(pt(600, 500));
    live.push(id.0);
    assert_eq!(ids_of(&tree.query(bounds)), live);
    assert!(tree.query(Rect::null_at(&pt(600, 500))).iter().any(|row| row.2 == id));
}

fn ids_of(rows: &Vec<(&Point, &Rect, ItemId)>) -> Vec<u32> {
    rows.iter().map(|row| (row.2).0).collect()
}
