use vstd::prelude::*;
use crate::geom::{Point, Rect, Vector};
use crate::implementations::{
    and_not, grow, or, shrink, And, Boundary, Circle, Not, Or, Polygon, Rectangle, Xor,
};

verus! {

/// Three discs of radius 50 units, of which the first two and then the
/// third are combined so that what lies in exactly one of them stays.
pub fn xored_circles() -> (r: Xor<Xor<Circle, Circle>, Circle>)
    ensures
        r.left.left.center == (Point { x: 500_000, y: 500_000 }),
        r.left.right.center == (Point { x: 1_000_000, y: 500_000 }),
        r.right.center == (Point { x: 750_000, y: 1_000_000 }),
        r.left.left.radius == 500_000,
        r.left.right.radius == 500_000,
        r.right.radius == 500_000,
{
    let circle_1 = Circle { center: Point { x: 500_000, y: 500_000 }, radius: 500_000 };
    let circle_2 = Circle { center: Point { x: 1_000_000, y: 500_000 }, radius: 500_000 };
    let circle_3 = Circle { center: Point { x: 750_000, y: 1_000_000 }, radius: 500_000 };
    let xored = Xor { left: circle_1, right: circle_2 };
    Xor { left: xored, right: circle_3 }
}

/// The front of a collar: a long rectangle with a triangle at its left
/// end.
pub fn front_collar() -> (r: Or<Rectangle, Polygon>)
    ensures
        r.left.spec_rect() == (Rect {
            top_left: Point { x: 0, y: 0 },
            bottom_right: Point { x: 108_750, y: 10_000 },
            null: false,
        }),
        r.right@ == seq![
            Point { x: -5_000i32, y: 5_000 },
            Point { x: 0, y: 0 },
            Point { x: 0, y: 10_000 },
        ],
{
    let neck_circ: i32 = 145_000;
    let front_len: i32 = neck_circ / 4 * 3;
    let main_height: i32 = 10_000;
    let tri_offset: i32 = 5_000;

    let main_front_rect = Rectangle::new(
        Rect::from_points(&Point { x: 0, y: 0 }, &Point { x: front_len, y: main_height }),
    );

    let mut corners: Vec<Point> = Vec::new();
    corners.push(Point { x: -tri_offset, y: main_height / 2 });
    corners.push(Point { x: 0, y: 0 });
    corners.push(Point { x: 0, y: main_height });
    proof {
        assert(corners@ =~= seq![
            Point { x: -5_000i32, y: 5_000 },
            Point { x: 0, y: 0 },
            Point { x: 0, y: 10_000 },
        ]);
    }
    let left_triangle = Polygon::new(corners);

    Or { left: main_front_rect, right: left_triangle }
}

/// Whether `frame` is the frame of wire of `wire_size` ticks along the
/// inside of the rectangle: what lies in the rectangle and not in the
/// rectangle shrunk by `wire_size`.
pub open spec fn is_wire(
    frame: And<Rectangle, Not<Boundary<Rectangle>>>,
    rect: Rect,
    wire_size: i32,
) -> bool {
    &&& frame.left.spec_rect() == rect
    &&& frame.right.target.target.spec_rect() == rect
    &&& frame.right.target.move_by == -wire_size
}

/// The frame of wire of `wire_size` ticks along the inside of the
/// rectangle.
fn wire(rect: Rect, wire_size: i32) -> (r: And<Rectangle, Not<Boundary<Rectangle>>>)
    requires
        crate::implementations::in_range(rect.top_left),
        crate::implementations::in_range(rect.bottom_right),
        wire_size > 0,
    ensures
        is_wire(r, rect, wire_size),
{
    and_not(Rectangle::new(rect), shrink(Rectangle::new(rect), wire_size))
}

/// A wall for growing rice on: a frame of wire in the proportions of the
/// golden section, with a smaller frame in each corner and one in the
/// middle, all of wire of a tenth of a unit and all made a little thicker.
/// The frames stand in the order: the whole wall, the corners top-left,
/// top-right, bottom-right and bottom-left, the middle.
pub fn rice_wall() -> (r: Boundary<
    Or<
        Or<
            Or<
                Or<
                    Or<And<Rectangle, Not<Boundary<Rectangle>>>, And<Rectangle, Not<Boundary<Rectangle>>>>,
                    And<Rectangle, Not<Boundary<Rectangle>>>,
                >,
                And<Rectangle, Not<Boundary<Rectangle>>>,
            >,
            And<Rectangle, Not<Boundary<Rectangle>>>,
        >,
        And<Rectangle, Not<Boundary<Rectangle>>>,
    >,
>)
    ensures
        r.move_by == 500,
        is_wire(
            r.target.left.left.left.left.left,
            (Rect {
                top_left: Point { x: 0, y: 0 },
                bottom_right: Point { x: 20_000, y: 32_360 },
                null: false,
            }),
            1_000,
        ),
        is_wire(
            r.target.left.left.left.left.right,
            (Rect {
                top_left: Point { x: 0, y: 0 },
                bottom_right: Point { x: 5_000, y: 10_786 },
                null: false,
            }),
            1_000,
        ),
        is_wire(
            r.target.left.left.left.right,
            (Rect {
                top_left: Point { x: 15_000, y: 0 },
                bottom_right: Point { x: 20_000, y: 10_786 },
                null: false,
            }),
            1_000,
        ),
        is_wire(
            r.target.left.left.right,
            (Rect {
                top_left: Point { x: 15_000, y: 21_574 },
                bottom_right: Point { x: 20_000, y: 32_360 },
                null: false,
            }),
            1_000,
        ),
        is_wire(
            r.target.left.right,
            (Rect {
                top_left: Point { x: 0, y: 21_574 },
                bottom_right: Point { x: 5_000, y: 32_360 },
                null: false,
            }),
            1_000,
        ),
        is_wire(
            r.target.right,
            (Rect {
                top_left: Point { x: 6_666, y: 3_595 },
                bottom_right: Point { x: 13_332, y: 32_360 },
                null: false,
            }),
            1_000,
        ),
{
    let w: i32 = 20_000;
    // The height is the width times the golden section.
    let h: i32 = 32_360;
    let wire_size: i32 = 1_000;

    let aw: i32 = w / 4;
    let bh: i32 = h / 3;
    let bw: i32 = w / 3;
    let bbh: i32 = h / 9;

    let main_rect = Rect::from_points(&Point { x: 0, y: 0 }, &Point { x: w, y: h });
    let wire_1 = Rect::from_point_and_size(&Point { x: 0, y: 0 }, &Vector { x: aw, y: bh });
    let wire_2 = Rect::from_point_and_size(&Point { x: w - aw, y: 0 }, &Vector { x: aw, y: bh });
    let wire_3 = Rect::from_point_and_size(
        &Point { x: w - aw, y: h - bh },
        &Vector { x: aw, y: bh },
    );
    let wire_4 = Rect::from_point_and_size(&Point { x: 0, y: h - bh }, &Vector { x: aw, y: bh });
    let center = Rect::from_point_and_size(
        &Point { x: bw, y: bbh },
        &Vector { x: bw, y: h - bbh },
    );

    let frame = wire(main_rect, wire_size);
    let finished = or(
        or(
            or(or(or(frame, wire(wire_1, wire_size)), wire(wire_2, wire_size)), wire(wire_3, wire_size)),
            wire(wire_4, wire_size),
        ),
        wire(center, wire_size),
    );
    grow(finished, 500)
}

} // verus!
