use implicit::geom::{Line, Point};
use implicit::line_join::{
    connect_lines, connect_linetypes, fuse_ends, join_lines, simplify_line, LineType,
};

fn pt(x: i32, y: i32) -> Point {
    Point { x, y }
}

fn joined(l: &LineType) -> Option<&Vec<Point>> {
    match l {
        LineType::Joined(p) => Some(p),
        LineType::Unjoined(_) => None,
    }
}

fn unjoined(l: &LineType) -> Option<&Vec<Point>> {
    match l {
        LineType::Unjoined(p) => Some(p),
        LineType::Joined(_) => None,
    }
}

#[test]
fn simplify_leaves_short_lists_alone() {
    assert_eq!(simplify_line(vec![]), vec![]);
    assert_eq!(simplify_line(vec![pt(1, 2)]), vec![pt(1, 2)]);
    assert_eq!(simplify_line(vec![pt(1, 2), pt(1, 2)]), vec![pt(1, 2), pt(1, 2)]);
}

#[test]
fn simplify_drops_points_on_a_straight_line() {
    let pts = vec![pt(0, 0), pt(1000, 0), pt(2000, 0), pt(3000, 5), pt(4000, 0)];
    assert_eq!(simplify_line(pts), vec![pt(0, 0), pt(4000, 0)]);
}

#[test]
fn simplify_keeps_corners() {
    let pts = vec![pt(0, 0), pt(1000, 0), pt(1000, 1000), pt(0, 1000)];
    assert_eq!(simplify_line(pts.clone()), pts);
    // A point ten ticks off the segment is kept, one nine ticks off is not.
    assert_eq!(
        simplify_line(vec![pt(0, 0), pt(500, 10), pt(1000, 0)]),
        vec![pt(0, 0), pt(500, 10), pt(1000, 0)]
    );
    assert_eq!(simplify_line(vec![pt(0, 0), pt(500, 9), pt(1000, 0)]), vec![pt(0, 0), pt(1000, 0)]);
}

#[test]
fn simplify_keeps_first_and_last_point() {
    let pts = vec![pt(5, 5), pt(6, 5), pt(7, 5), pt(8, 5), pt(9, 5)];
    assert_eq!(simplify_line(pts), vec![pt(5, 5), pt(9, 5)]);
}

#[test]
fn simplified_polyline_with_bent_points_is_a_fixed_point() {
    let pts = vec![pt(0, 0), pt(500, 0), pt(1000, 0), pt(1000, 500), pt(1000, 1000), pt(0, 1000)];
    let once = simplify_line(pts);
    assert_eq!(once, vec![pt(0, 0), pt(1000, 0), pt(1000, 1000), pt(0, 1000)]);
    let twice = simplify_line(once.clone());
    assert_eq!(twice, once);
}

#[test]
fn simplifying_twice_can_drop_a_point_that_once_keeps() {
    // (10000, 0) is kept against (10000, 15), which is then left out
    // itself; against (20000, 0) it is not bent.
    let pts = vec![pt(0, 0), pt(10_000, 0), pt(10_000, 15), pt(10_000, 6), pt(20_000, 0)];
    let once = simplify_line(pts);
    assert_eq!(once, vec![pt(0, 0), pt(10_000, 0), pt(20_000, 0)]);
    let twice = simplify_line(once);
    assert_eq!(twice, vec![pt(0, 0), pt(20_000, 0)]);
}

#[test]
fn fuse_closes_a_chain_that_comes_back_to_its_start() {
    let lines = vec![LineType::Unjoined(vec![pt(0, 0), pt(1000, 0), pt(1000, 1000), pt(3, 4)])];
    let (out, progress) = fuse_ends(lines);
    assert!(progress);
    assert_eq!(out.len(), 1);
    assert_eq!(joined(&out[0]), Some(&vec![pt(0, 0), pt(1000, 0), pt(1000, 1000)]));
}

#[test]
fn fuse_leaves_an_open_chain_open() {
    let lines = vec![LineType::Unjoined(vec![pt(0, 0), pt(1000, 0), pt(1000, 1000)])];
    let (out, progress) = fuse_ends(lines);
    assert!(!progress);
    assert_eq!(unjoined(&out[0]), Some(&vec![pt(0, 0), pt(1000, 0), pt(1000, 1000)]));
}

#[test]
fn fuse_limit_is_a_squared_distance() {
    // 316 * 316 = 99856 is below the limit of 100000, 317 * 317 is not.
    let near = vec![LineType::Unjoined(vec![pt(0, 0), pt(5000, 0), pt(316, 0)])];
    let (out, progress) = fuse_ends(near);
    assert!(progress);
    assert!(joined(&out[0]).is_some());
    let far = vec![LineType::Unjoined(vec![pt(0, 0), pt(5000, 0), pt(317, 0)])];
    let (out, progress) = fuse_ends(far);
    assert!(!progress);
    assert!(unjoined(&out[0]).is_some());
}

#[test]
fn fuse_drops_what_has_no_point_left() {
    let lines = vec![
        LineType::Unjoined(vec![pt(7, 7)]),
        LineType::Joined(vec![pt(9, 9)]),
        LineType::Unjoined(vec![]),
        LineType::Joined(vec![pt(0, 0), pt(5000, 0), pt(0, 5000)]),
    ];
    let (out, progress) = fuse_ends(lines);
    // The loop of one point counts as progress, the chain of one point
    // does not.
    assert!(progress);
    assert_eq!(out.len(), 1);
    assert_eq!(joined(&out[0]), Some(&vec![pt(0, 0), pt(5000, 0), pt(0, 5000)]));
}

#[test]
fn connect_splices_chains_in_all_four_ways() {
    let a = || vec![pt(0, 0), pt(100, 0), pt(200, 0)];
    // First meets first.
    let (out, progress) = connect_linetypes(vec![
        LineType::Unjoined(a()),
        LineType::Unjoined(vec![pt(1, 1), pt(0, 100), pt(0, 200)]),
    ]);
    assert!(progress);
    assert_eq!(out.len(), 1);
    assert_eq!(
        unjoined(&out[0]),
        Some(&vec![pt(0, 200), pt(0, 100), pt(0, 0), pt(100, 0), pt(200, 0)])
    );
    // First meets last.
    let (out, _) = connect_linetypes(vec![
        LineType::Unjoined(a()),
        LineType::Unjoined(vec![pt(0, 200), pt(0, 100), pt(1, 1)]),
    ]);
    assert_eq!(
        unjoined(&out[0]),
        Some(&vec![pt(0, 200), pt(0, 100), pt(0, 0), pt(100, 0), pt(200, 0)])
    );
    // Last meets first.
    let (out, _) = connect_linetypes(vec![
        LineType::Unjoined(a()),
        LineType::Unjoined(vec![pt(201, 1), pt(300, 0)]),
    ]);
    assert_eq!(unjoined(&out[0]), Some(&vec![pt(0, 0), pt(100, 0), pt(201, 1), pt(300, 0)]));
    // Last meets last.
    let (out, _) = connect_linetypes(vec![
        LineType::Unjoined(a()),
        LineType::Unjoined(vec![pt(300, 0), pt(250, 0), pt(201, 1)]),
    ]);
    assert_eq!(
        unjoined(&out[0]),
        Some(&vec![pt(0, 0), pt(100, 0), pt(200, 0), pt(250, 0), pt(300, 0)])
    );
}

#[test]
fn connect_leaves_loops_and_distant_chains_alone() {
    let lines = vec![
        LineType::Joined(vec![pt(0, 0), pt(100, 0), pt(0, 100)]),
        LineType::Unjoined(vec![pt(0, 0), pt(-100, 0)]),
        LineType::Unjoined(vec![pt(5000, 5000), pt(6000, 5000)]),
    ];
    let (out, progress) = connect_linetypes(lines);
    assert!(!progress);
    assert_eq!(out.len(), 3);
    // Ends ten ticks apart do not meet, ends nine ticks apart do.
    let (_, progress) = connect_linetypes(vec![
        LineType::Unjoined(vec![pt(0, 0), pt(100, 0)]),
        LineType::Unjoined(vec![pt(110, 0), pt(200, 0)]),
    ]);
    assert!(!progress);
    let (_, progress) = connect_linetypes(vec![
        LineType::Unjoined(vec![pt(0, 0), pt(100, 0)]),
        LineType::Unjoined(vec![pt(109, 0), pt(200, 0)]),
    ]);
    assert!(progress);
}

#[test]
fn connect_merges_until_nothing_meets() {
    let lines = vec![
        LineType::Unjoined(vec![pt(0, 0), pt(100, 0)]),
        LineType::Unjoined(vec![pt(200, 0), pt(300, 0)]),
        LineType::Unjoined(vec![pt(100, 0), pt(200, 0)]),
    ];
    let (out, progress) = connect_linetypes(lines);
    assert!(progress);
    assert_eq!(out.len(), 1);
    let pts = unjoined(&out[0]).unwrap();
    assert_eq!(pts.len(), 4);
    assert!(pts[0] == pt(0, 0) || pts[0] == pt(300, 0));
}

#[test]
fn join_lines_of_nothing_is_nothing() {
    let (out, tree) = join_lines(vec![], 10_000);
    assert!(out.is_empty());
    assert!(tree.is_empty());
}

#[test]
fn join_lines_chains_segments_that_share_ends() {
    // The sides of a square, out of order and in mixed directions.
    let lines = vec![
        Line(pt(0, 0), pt(1000, 0)),
        Line(pt(1000, 1000), pt(0, 1000)),
        Line(pt(1000, 1000), pt(1000, 0)),
        Line(pt(0, 1000), pt(0, 0)),
    ];
    let (out, tree) = join_lines(lines.clone(), 10);
    assert_eq!(tree.len(), 4);
    assert_eq!(out.len(), 1);
    let chain = unjoined(&out[0]).unwrap();
    assert_eq!(chain.len(), 5);
    assert_eq!(chain.first(), chain.last());
    // The tree that comes back still holds every segment under its place.
    let rows = tree.query(implicit::geom::Rect::null());
    assert_eq!(rows.len(), 4);
    for (k, row) in rows.iter().enumerate() {
        assert_eq!(*row.0, lines[k]);
        assert_eq!((row.2).0 as usize, k);
    }
}

#[test]
fn join_lines_keeps_distant_segments_apart() {
    let lines = vec![Line(pt(0, 0), pt(1000, 0)), Line(pt(5000, 5000), pt(6000, 5000))];
    let (out, _) = join_lines(lines, 10);
    assert_eq!(out.len(), 2);
    for chain in &out {
        assert_eq!(unjoined(chain).unwrap().len(), 2);
    }
}

#[test]
fn join_lines_takes_the_closest_segment() {
    // From (1000, 0) two segments are in reach; the one that starts three
    // ticks away is taken before the one that starts four ticks away.
    let lines = vec![
        Line(pt(1000, 4), pt(2000, 500)),
        Line(pt(1000, -3), pt(2000, -500)),
    ];
    let mut with_seed = lines.clone();
    with_seed.insert(0, Line(pt(0, 0), pt(1000, 0)));
    let (out, _) = join_lines(with_seed, 10);
    let chains: Vec<&Vec<Point>> = out.iter().map(|c| unjoined(c).unwrap()).collect();
    let total: usize = chains.iter().map(|c| c.len() - 1).sum();
    assert_eq!(total, 3);
    // Unless the nearer segment has started a chain of its own before.
    let nearer_was_seed = chains.iter().any(|c| c[0] == pt(1000, -3));
    for chain in chains {
        if chain[0] == pt(0, 0) && !nearer_was_seed {
            assert_eq!(chain[2], pt(2000, -500));
        }
    }
}

#[test]
fn connect_lines_closes_a_square() {
    let lines = vec![
        Line(pt(0, 0), pt(1000, 0)),
        Line(pt(1000, 1000), pt(0, 1000)),
        Line(pt(1001, 1), pt(1000, 1000)),
        Line(pt(0, 1000), pt(1, 1)),
    ];
    let (out, tree) = connect_lines(lines, 10);
    assert_eq!(tree.len(), 4);
    assert_eq!(out.len(), 1);
    let pts = joined(&out[0]).expect("closed");
    assert_eq!(pts.len(), 4);
}

#[test]
fn connect_lines_leaves_an_open_boundary_open() {
    let lines = vec![Line(pt(0, 0), pt(1000, 0)), Line(pt(1000, 0), pt(2000, 500))];
    let (out, _) = connect_lines(lines, 10);
    assert_eq!(out.len(), 1);
    let pts = unjoined(&out[0]).expect("open");
    assert_eq!(pts.len(), 3);
}

#[test]
fn connect_lines_drops_what_is_left_with_one_point() {
    // A segment without length makes a chain whose ends are fused.
    let (out, _) = connect_lines(vec![Line(pt(5, 5), pt(5, 5))], 10);
    assert!(out.is_empty());
    let (out, _) = connect_lines(vec![], 10);
    assert!(out.is_empty());
}

#[test]
fn linetype_hands_out_its_points() {
    assert_eq!(LineType::Joined(vec![pt(1, 2)]).points(), vec![pt(1, 2)]);
    assert_eq!(LineType::Unjoined(vec![pt(3, 4), pt(5, 6)]).points(), vec![pt(3, 4), pt(5, 6)]);
}
