use vstd::prelude::*;
use crate::arith::{
    div_toward_zero, isqrt, lemma_div_below, lemma_isqrt_below, lemma_product_bound,
    lemma_lagrange, lemma_square_bound, lemma_square_monotonic, lemma_trunc_div_bound, spec_isqrt,
    trunc_div,
};

verus! {

/// Number of grid ticks in one world unit. All coordinates, lengths and
/// signed distances of this crate are whole numbers of ticks.
pub const UNIT: i32 = 10_000;

/// A position on the fixed-point grid.
#[derive(Copy, Clone, Debug, PartialEq, Eq, Structural)]
pub struct Point {
    pub x: i32,
    pub y: i32,
}

/// A displacement on the fixed-point grid.
#[derive(Copy, Clone, Debug, PartialEq, Eq, Structural)]
pub struct Vector {
    pub x: i32,
    pub y: i32,
}

/// A directed segment from `.0` to `.1`.
#[derive(Copy, Clone, Debug, PartialEq, Eq, Structural)]
pub struct Line(pub Point, pub Point);

/// An axis-aligned box. `null` marks the empty box, whose corners carry no
/// meaning.
#[derive(Copy, Clone, Debug, PartialEq, Eq, Structural)]
pub struct Rect {
    pub top_left: Point,
    pub bottom_right: Point,
    pub null: bool,
}

/// A half-line starting at `.0` and running along `.1`.
#[derive(Copy, Clone, Debug, PartialEq, Eq, Structural)]
pub struct Ray(pub Point, pub Vector);

/// `v` brought into the range of a coordinate.
pub open spec fn clamp_to_grid(v: int) -> i32 {
    if v < i32::MIN {
        i32::MIN
    } else if v > i32::MAX {
        i32::MAX
    } else {
        v as i32
    }
}

/// `v` brought into the range of a coordinate.
pub fn clamp_grid(v: i128) -> (r: i32)
    ensures
        r == clamp_to_grid(v as int),
{
    if v < i32::MIN as i128 {
        i32::MIN
    } else if v > i32::MAX as i128 {
        i32::MAX
    } else {
        v as i32
    }
}

/// True when `v` can be stored in a coordinate.
pub open spec fn fits_coord(v: int) -> bool {
    i32::MIN <= v <= i32::MAX
}

impl Point {
    /// Squared Euclidean distance between two points.
    pub open spec fn dist2(self, other: Point) -> int {
        (self.x - other.x) * (self.x - other.x) + (self.y - other.y) * (self.y - other.y)
    }

    /// The point moved by `v`.
    pub open spec fn moved(self, v: Vector) -> Point {
        Point { x: (self.x + v.x) as i32, y: (self.y + v.y) as i32 }
    }

    /// The displacement that leads from `other` to `self`.
    pub open spec fn minus(self, other: Point) -> Vector {
        Vector { x: (self.x - other.x) as i32, y: (self.y - other.y) as i32 }
    }

    /// The two coordinates, `x` first.
    pub fn into_tuple(self) -> (r: (i32, i32))
        ensures
            r == (self.x, self.y),
    {
        (self.x, self.y)
    }

    /// `self + v`.
    pub fn offset(self, v: Vector) -> (r: Point)
        requires
            fits_coord(self.x + v.x),
            fits_coord(self.y + v.y),
        ensures
            r == self.moved(v),
            r.x == self.x + v.x,
            r.y == self.y + v.y,
    {
        Point { x: self.x + v.x, y: self.y + v.y }
    }

    /// `self - v`.
    pub fn offset_back(self, v: Vector) -> (r: Point)
        requires
            fits_coord(self.x - v.x),
            fits_coord(self.y - v.y),
        ensures
            r.x == self.x - v.x,
            r.y == self.y - v.y,
    {
        Point { x: self.x - v.x, y: self.y - v.y }
    }

    /// `self - other`.
    pub fn displacement(self, other: Point) -> (r: Vector)
        requires
            fits_coord(self.x - other.x),
            fits_coord(self.y - other.y),
        ensures
            r == self.minus(other),
            r.x == self.x - other.x,
            r.y == self.y - other.y,
    {
        Vector { x: self.x - other.x, y: self.y - other.y }
    }

    /// The square of the distance to `other`.
    pub fn distance_2(&self, other: &Point) -> (r: i128)
        ensures
            r == self.dist2(*other),
            0 <= r <= 0x2_0000_0000_0000_0000,
    {
        let dx: i128 = self.x as i128 - other.x as i128;
        let dy: i128 = self.y as i128 - other.y as i128;
        proof {
            lemma_square_bound(dx as int, 0x1_0000_0000);
            lemma_square_bound(dy as int, 0x1_0000_0000);
        }
        dx * dx + dy * dy
    }

    /// Whether the two points are less than `epsilon` apart.
    pub open spec fn spec_close_to(self, other: Point, epsilon: i32) -> bool {
        self.dist2(other) < epsilon * epsilon
    }

    /// Whether the two points are less than `epsilon` apart.
    pub fn close_to(&self, other: &Point, epsilon: i32) -> (r: bool)
        ensures
            r == self.spec_close_to(*other, epsilon),
    {
        let e: i128 = epsilon as i128;
        proof {
            lemma_square_bound(e as int, 0x8000_0000);
        }
        self.distance_2(other) < e * e
    }

    /// The distance between the two points, rounded down to a whole tick.
    pub fn distance(&self, other: &Point) -> (r: i64)
        ensures
            r == spec_isqrt(self.dist2(*other) as nat),
    {
        let d2: i128 = self.distance_2(other);
        let root: u64 = isqrt(d2 as u128);
        proof {
            // root * root <= 2^65 forces root < 2^33.
            if root >= 0x2_0000_0000 {
                lemma_square_monotonic(0x2_0000_0000, root as int);
            }
        }
        root as i64
    }
}

impl Vector {
    /// Squared length.
    pub open spec fn norm2(self) -> int {
        self.x * self.x + self.y * self.y
    }

    /// The cross product of the two vectors: positive where `other` points to
    /// the right-hand side of `self`, with `y` growing downward.
    pub open spec fn spec_cross(self, other: Vector) -> int {
        self.x * other.y - self.y * other.x
    }

    /// The scalar product of the two vectors.
    pub open spec fn spec_dot(self, other: Vector) -> int {
        self.x * other.x + self.y * other.y
    }

    /// The opposite displacement.
    pub fn neg(self) -> (r: Vector)
        requires
            self.x != i32::MIN,
            self.y != i32::MIN,
        ensures
            r.x == -self.x,
            r.y == -self.y,
    {
        Vector { x: -self.x, y: -self.y }
    }

    /// `self + other`.
    pub fn plus(self, other: Vector) -> (r: Vector)
        requires
            fits_coord(self.x + other.x),
            fits_coord(self.y + other.y),
        ensures
            r.x == self.x + other.x,
            r.y == self.y + other.y,
    {
        Vector { x: self.x + other.x, y: self.y + other.y }
    }

    /// The length, rounded down to a whole tick.
    pub fn magnitude(&self) -> (r: i64)
        ensures
            r == spec_isqrt(self.norm2() as nat),
            0 <= r < 0x1_0000_0000,
    {
        let x: i128 = self.x as i128;
        let y: i128 = self.y as i128;
        proof {
            lemma_square_bound(x as int, 0x8000_0000);
            lemma_square_bound(y as int, 0x8000_0000);
        }
        let n: i128 = x * x + y * y;
        let root: u64 = isqrt(n as u128);
        proof {
            if root >= 0x1_0000_0000 {
                lemma_square_monotonic(0x1_0000_0000, root as int);
            }
        }
        root as i64
    }

    /// The vector of the same direction whose length is one world unit, each
    /// component rounded toward zero; the zero vector is returned as it is.
    pub open spec fn spec_normalized(self) -> Vector {
        let m = spec_isqrt(self.norm2() as nat) as int;
        if m == 0 {
            self
        } else {
            Vector {
                x: trunc_div(self.x * UNIT, m) as i32,
                y: trunc_div(self.y * UNIT, m) as i32,
            }
        }
    }

    /// The vector of length `UNIT` with the direction of this one.
    pub fn normalized(&self) -> (r: Vector)
        requires
            -0x2_0000 < self.x < 0x2_0000,
            -0x2_0000 < self.y < 0x2_0000,
        ensures
            r == self.spec_normalized(),
    {
        let m: i64 = self.magnitude();
        if m == 0 {
            *self
        } else {
            let sx: i128 = self.x as i128 * 10_000;
            let sy: i128 = self.y as i128 * 10_000;
            let qx: i128 = div_toward_zero(sx, m as i128);
            let qy: i128 = div_toward_zero(sy, m as i128);
            proof {
                lemma_trunc_div_bound(sx as int, m as int);
                lemma_trunc_div_bound(sy as int, m as int);
            }
            Vector { x: qx as i32, y: qy as i32 }
        }
    }

    /// The vector made `factor` times as long.
    pub fn scaled(&self, factor: i32) -> (r: Vector)
        requires
            fits_coord(self.x * factor),
            fits_coord(self.y * factor),
        ensures
            r.x == self.x * factor,
            r.y == self.y * factor,
    {
        self.mul_e(&Vector { x: factor, y: factor })
    }

    /// The vector with both components divided by a positive `divisor`
    /// and rounded toward zero.
    pub fn divided(&self, divisor: i32) -> (r: Vector)
        requires
            divisor > 0,
        ensures
            r.x == trunc_div(self.x as int, divisor as int),
            r.y == trunc_div(self.y as int, divisor as int),
    {
        proof {
            lemma_trunc_div_bound(self.x as int, divisor as int);
            lemma_trunc_div_bound(self.y as int, divisor as int);
        }
        Vector {
            x: div_toward_zero(self.x as i128, divisor as i128) as i32,
            y: div_toward_zero(self.y as i128, divisor as i128) as i32,
        }
    }

    /// Component-wise product.
    pub fn mul_e(&self, other: &Vector) -> (r: Vector)
        requires
            fits_coord(self.x * other.x),
            fits_coord(self.y * other.y),
        ensures
            r.x == self.x * other.x,
            r.y == self.y * other.y,
    {
        let x: i64 = self.x as i64;
        let y: i64 = self.y as i64;
        proof {
            lemma_product_bound(x as int, other.x as int, 0x8000_0000, 0x8000_0000);
            lemma_product_bound(y as int, other.y as int, 0x8000_0000, 0x8000_0000);
        }
        Vector { x: (x * (other.x as i64)) as i32, y: (y * (other.y as i64)) as i32 }
    }

    /// Component-wise scaling by whole factors.
    pub fn scale_e(&self, sx: i32, sy: i32) -> (r: Vector)
        requires
            fits_coord(self.x * sx),
            fits_coord(self.y * sy),
        ensures
            r.x == self.x * sx,
            r.y == self.y * sy,
    {
        self.mul_e(&Vector { x: sx, y: sy })
    }

    /// The cross product of the two vectors.
    pub fn cross(&self, other: &Vector) -> (r: i128)
        ensures
            r == self.spec_cross(*other),
            -0x8000_0000_0000_0000 <= r <= 0x8000_0000_0000_0000,
    {
        proof {
            lemma_product_bound(self.x as int, other.y as int, 0x8000_0000, 0x8000_0000);
            lemma_product_bound(self.y as int, other.x as int, 0x8000_0000, 0x8000_0000);
        }
        (self.x as i128) * (other.y as i128) - (self.y as i128) * (other.x as i128)
    }

    /// The scalar product of the two vectors.
    pub fn dot(&self, other: &Vector) -> (r: i128)
        ensures
            r == self.spec_dot(*other),
            -0x8000_0000_0000_0000 <= r <= 0x8000_0000_0000_0000,
    {
        proof {
            lemma_product_bound(self.x as int, other.x as int, 0x8000_0000, 0x8000_0000);
            lemma_product_bound(self.y as int, other.y as int, 0x8000_0000, 0x8000_0000);
        }
        (self.x as i128) * (other.x as i128) + (self.y as i128) * (other.y as i128)
    }
}


impl Rect {
    /// A box is well formed when it is null or its corners are in order.
    pub open spec fn wf(self) -> bool {
        self.null || (self.top_left.x <= self.bottom_right.x && self.top_left.y
            <= self.bottom_right.y)
    }

    /// The null box, which holds no point.
    pub open spec fn spec_null() -> Rect {
        Rect { top_left: Point { x: 0, y: 0 }, bottom_right: Point { x: 0, y: 0 }, null: true }
    }

    /// The box that holds the point `p` and nothing else.
    pub open spec fn spec_null_at(p: Point) -> Rect {
        Rect { top_left: p, bottom_right: p, null: false }
    }

    /// Closed-interval containment; the null box contains nothing.
    pub open spec fn spec_contains(self, p: Point) -> bool {
        !self.null && p.x >= self.top_left.x && p.x <= self.bottom_right.x && p.y
            >= self.top_left.y && p.y <= self.bottom_right.y
    }

    /// Two boxes intersect unless they are apart on some axis; touching
    /// edges count, and a null box is apart from nothing.
    pub open spec fn spec_does_intersect(self, other: Rect) -> bool {
        self.null || other.null || !(other.top_left.x > self.bottom_right.x
            || other.bottom_right.x < self.top_left.x || other.top_left.y > self.bottom_right.y
            || other.bottom_right.y < self.top_left.y)
    }

    /// The smallest box that holds `self` and `p`.
    pub open spec fn spec_expanded_by(self, p: Point) -> Rect {
        if self.null {
            Rect::spec_null_at(p)
        } else {
            Rect {
                top_left: Point {
                    x: if p.x < self.top_left.x { p.x } else { self.top_left.x },
                    y: if p.y < self.top_left.y { p.y } else { self.top_left.y },
                },
                bottom_right: Point {
                    x: if p.x > self.bottom_right.x { p.x } else { self.bottom_right.x },
                    y: if p.y > self.bottom_right.y { p.y } else { self.bottom_right.y },
                },
                null: false,
            }
        }
    }

    /// The smallest box that holds `self` and both corners of `other`; a null
    /// `other` adds nothing.
    pub open spec fn spec_union(self, other: Rect) -> Rect {
        if other.null {
            self
        } else {
            self.spec_expanded_by(other.top_left).spec_expanded_by(other.bottom_right)
        }
    }

    /// The box spanned by those corners of either box that the other box
    /// contains: first the two corners of `other`, and, unless both were
    /// contained, then the two corners of `self`. Null when either box is.
    pub open spec fn spec_intersect(self, other: Rect) -> Rect {
        if self.null || other.null {
            Rect::spec_null()
        } else {
            self.spec_corner_span(other)
        }
    }

    /// The box spanned by the corners of `other` that `self` contains, and,
    /// unless those are both, the corners of `self` that `other` contains.
    pub open spec fn spec_corner_span(self, other: Rect) -> Rect {
        let r0 = Rect::spec_null();
        let r1 = if self.spec_contains(other.top_left) {
            r0.spec_expanded_by(other.top_left)
        } else {
            r0
        };
        let r2 = if self.spec_contains(other.bottom_right) {
            r1.spec_expanded_by(other.bottom_right)
        } else {
            r1
        };
        if self.spec_contains(other.top_left) && self.spec_contains(other.bottom_right) {
            r2
        } else {
            let r3 = if other.spec_contains(self.top_left) {
                r2.spec_expanded_by(self.top_left)
            } else {
                r2
            };
            if other.spec_contains(self.bottom_right) {
                r3.spec_expanded_by(self.bottom_right)
            } else {
                r3
            }
        }
    }

    /// The distance from the left edge to the right edge.
    pub open spec fn spec_width(self) -> int {
        self.bottom_right.x - self.top_left.x
    }

    /// The distance from the top edge to the bottom edge.
    pub open spec fn spec_height(self) -> int {
        self.bottom_right.y - self.top_left.y
    }

    /// The top-left corner moved by half the width and half the height, each
    /// half rounded toward zero.
    pub open spec fn spec_midpoint(self) -> Point {
        Point {
            x: (self.top_left.x + trunc_div(self.spec_width(), 2)) as i32,
            y: (self.top_left.y + trunc_div(self.spec_height(), 2)) as i32,
        }
    }

    /// Whether this box contains the midpoint of a non-null `region`.
    pub open spec fn spec_holds_center_of(self, region: Rect) -> bool {
        !region.null && self.spec_contains(region.spec_midpoint())
    }

    /// The quadrant of this box with the given index: 0 north-west, 1
    /// north-east, 2 south-west, 3 south-east. The quadrants meet at the
    /// midpoint and reach the edges of the box; those of a null box are null.
    pub open spec fn spec_quadrant(self, i: int) -> Rect {
        let m = self.spec_midpoint();
        if self.null {
            Rect::spec_null()
        } else if i == 0 {
            Rect { top_left: self.top_left, bottom_right: m, null: false }
        } else if i == 1 {
            Rect {
                top_left: Point { x: m.x, y: self.top_left.y },
                bottom_right: Point { x: self.bottom_right.x, y: m.y },
                null: false,
            }
        } else if i == 2 {
            Rect {
                top_left: Point { x: self.top_left.x, y: m.y },
                bottom_right: Point { x: m.x, y: self.bottom_right.y },
                null: false,
            }
        } else {
            Rect { top_left: m, bottom_right: self.bottom_right, null: false }
        }
    }

    /// Whether this box holds all of `inner`: it is null, which stands in
    /// the way of no search, or it contains both corners of a non-null
    /// `inner`.
    pub open spec fn spec_covers(self, inner: Rect) -> bool {
        self.null || (!inner.null && self.spec_contains(inner.top_left) && self.spec_contains(
            inner.bottom_right,
        ))
    }

    /// Whether one box is a duplicate of the other does not depend on which
    /// of the two is asked.
    pub proof fn lemma_close_symmetric(self, other: Rect, epsilon: i32)
        ensures
            self.spec_close_to(other, epsilon) == other.spec_close_to(self, epsilon),
    {
        let a = self.top_left;
        let b = other.top_left;
        let c = self.bottom_right;
        let d = other.bottom_right;
        assert((a.x - b.x) * (a.x - b.x) == (b.x - a.x) * (b.x - a.x)) by (nonlinear_arith);
        assert((a.y - b.y) * (a.y - b.y) == (b.y - a.y) * (b.y - a.y)) by (nonlinear_arith);
        assert((c.x - d.x) * (c.x - d.x) == (d.x - c.x) * (d.x - c.x)) by (nonlinear_arith);
        assert((c.y - d.y) * (c.y - d.y) == (d.y - c.y) * (d.y - c.y)) by (nonlinear_arith);
    }

    /// Both pairs of corners are less than `epsilon` apart; a null box is
    /// close to nothing.
    pub open spec fn spec_close_to(self, other: Rect, epsilon: i32) -> bool {
        !self.null && !other.null && self.top_left.spec_close_to(other.top_left, epsilon)
            && self.bottom_right.spec_close_to(other.bottom_right, epsilon)
    }

    /// The null box, which holds no point.
    pub fn null() -> (r: Rect)
        ensures
            r == Rect::spec_null(),
    {
        Rect { top_left: Point { x: 0, y: 0 }, bottom_right: Point { x: 0, y: 0 }, null: true }
    }

    /// The box that holds the point and nothing else.
    pub fn null_at(point: &Point) -> (r: Rect)
        ensures
            r == Rect::spec_null_at(*point),
    {
        Rect { top_left: *point, bottom_right: *point, null: false }
    }

    /// Whether this is a null box.
    pub fn is_null(&self) -> (r: bool)
        ensures
            r == self.null,
    {
        self.null
    }

    /// The smallest box that holds both points.
    pub fn from_points(first: &Point, second: &Point) -> (r: Rect)
        ensures
            r == Rect::spec_null_at(*first).spec_expanded_by(*second),
            r.wf(),
            !r.null,
    {
        let mut r = Rect::null_at(first);
        r.expand_to_include(second);
        r
    }

    /// The box with the given top-left corner and the given width and height.
    pub fn from_point_and_size(point: &Point, size: &Vector) -> (r: Rect)
        requires
            size.x > 0,
            size.y > 0,
            fits_coord(point.x + size.x),
            fits_coord(point.y + size.y),
        ensures
            r == (Rect { top_left: *point, bottom_right: point.moved(*size), null: false }),
            r.wf(),
    {
        Rect { top_left: *point, bottom_right: point.offset(*size), null: false }
    }

    /// The square around the point whose edges are `radius` away from it.
    pub fn centered_with_radius(first: &Point, radius: i32) -> (r: Rect)
        requires
            fits_coord(first.x - radius),
            fits_coord(first.x + radius),
            fits_coord(first.y - radius),
            fits_coord(first.y + radius),
        ensures
            r == Rect::spec_null_at(Point { x: (first.x - radius) as i32, y: (first.y - radius) as i32 })
                .spec_expanded_by(Point { x: (first.x + radius) as i32, y: (first.y + radius) as i32 }),
            r.wf(),
            !r.null,
    {
        let v = Vector { x: radius, y: radius };
        Rect::from_points(&first.offset_back(v), &first.offset(v))
    }

    /// The box grown by the given amounts on its four sides; a null box
    /// stays null.
    pub open spec fn spec_expand(self, left: i32, top: i32, right: i32, bottom: i32) -> Rect {
        Rect {
            top_left: Point {
                x: (self.top_left.x - left) as i32,
                y: (self.top_left.y - top) as i32,
            },
            bottom_right: Point {
                x: (self.bottom_right.x + right) as i32,
                y: (self.bottom_right.y + bottom) as i32,
            },
            null: self.null,
        }
    }

    /// The box with each edge moved outward by the given amount.
    pub fn expand(&self, left: i32, top: i32, right: i32, bottom: i32) -> (r: Rect)
        requires
            fits_coord(self.top_left.x - left),
            fits_coord(self.top_left.y - top),
            fits_coord(self.bottom_right.x + right),
            fits_coord(self.bottom_right.y + bottom),
        ensures
            r == self.spec_expand(left, top, right, bottom),
    {
        Rect {
            top_left: self.top_left.offset_back(Vector { x: left, y: top }),
            bottom_right: self.bottom_right.offset(Vector { x: right, y: bottom }),
            null: self.null,
        }
    }

    /// The distance from the left edge to the right edge.
    pub fn width(&self) -> (r: i64)
        ensures
            r == self.spec_width(),
    {
        self.bottom_right.x as i64 - self.top_left.x as i64
    }

    /// The distance from the top edge to the bottom edge.
    pub fn height(&self) -> (r: i64)
        ensures
            r == self.spec_height(),
    {
        self.bottom_right.y as i64 - self.top_left.y as i64
    }

    /// The `x` of the left edge.
    pub fn left(&self) -> (r: i32)
        ensures
            r == self.top_left.x,
    {
        self.top_left.x
    }

    /// The `x` of the right edge.
    pub fn right(&self) -> (r: i32)
        ensures
            r == self.bottom_right.x,
    {
        self.bottom_right.x
    }

    /// The `y` of the top edge.
    pub fn top(&self) -> (r: i32)
        ensures
            r == self.top_left.y,
    {
        self.top_left.y
    }

    /// The `y` of the bottom edge.
    pub fn bottom(&self) -> (r: i32)
        ensures
            r == self.bottom_right.y,
    {
        self.bottom_right.y
    }

    /// The corner with the smallest coordinates.
    pub fn top_left(&self) -> (r: Point)
        ensures
            r == self.top_left,
    {
        self.top_left
    }

    /// The corner with the greatest coordinates.
    pub fn bottom_right(&self) -> (r: Point)
        ensures
            r == self.bottom_right,
    {
        self.bottom_right
    }

    /// The corner on the left edge and the bottom edge.
    pub fn bottom_left(&self) -> (r: Point)
        ensures
            r == (Point { x: self.top_left.x, y: self.bottom_right.y }),
    {
        Point { x: self.top_left().x, y: self.bottom_right().y }
    }

    /// The corner on the right edge and the top edge.
    pub fn top_right(&self) -> (r: Point)
        ensures
            r == (Point { x: self.bottom_right.x, y: self.top_left.y }),
    {
        Point { x: self.bottom_right().x, y: self.top_left().y }
    }

    /// The smallest box that holds this box and the point.
    pub fn expanded_by(&self, point: &Point) -> (r: Rect)
        ensures
            r == self.spec_expanded_by(*point),
    {
        let mut r = *self;
        r.expand_to_include(point);
        r
    }

    /// Grows the box until it holds the point; a null box becomes the box of
    /// the point alone.
    pub fn expand_to_include(&mut self, point: &Point)
        ensures
            *final(self) == old(self).spec_expanded_by(*point),
            !final(self).null,
            old(self).wf() ==> final(self).wf(),
            final(self).spec_contains(*point),
    {
        if self.null {
            self.top_left = *point;
            self.bottom_right = *point;
            self.null = false;
        } else {
            if point.x < self.top_left.x {
                self.top_left.x = point.x;
            }
            if point.y < self.top_left.y {
                self.top_left.y = point.y;
            }
            if point.x > self.bottom_right.x {
                self.bottom_right.x = point.x;
            }
            if point.y > self.bottom_right.y {
                self.bottom_right.y = point.y;
            }
        }
    }

    /// The smallest box that holds both boxes; a null box adds nothing.
    pub fn union_with(&self, other: &Rect) -> (r: Rect)
        ensures
            r == self.spec_union(*other),
            self.wf() && other.wf() ==> r.wf(),
    {
        let mut r = *self;
        if !other.null {
            r.expand_to_include(&other.top_left);
            r.expand_to_include(&other.bottom_right);
        }
        r
    }

    /// Whether the point lies in the box, edges and corners included; a null
    /// box contains nothing.
    pub fn contains(&self, p: &Point) -> (r: bool)
        ensures
            r == self.spec_contains(*p),
    {
        !self.null && p.x >= self.top_left.x && p.x <= self.bottom_right.x && p.y
            >= self.top_left.y && p.y <= self.bottom_right.y
    }

    /// Whether the two boxes have a point in common, touching edges included;
    /// with a null box the answer is yes.
    pub fn does_intersect(&self, other: &Rect) -> (r: bool)
        ensures
            r == self.spec_does_intersect(*other),
    {
        let r1 = self;
        let r2 = other;
        r1.null || r2.null || !(r2.left() > r1.right() || r2.right() < r1.left() || r2.top()
            > r1.bottom() || r2.bottom() < r1.top())
    }

    /// The box spanned by the corners of either box that lie in the other
    /// one, as `spec_intersect` says; the null box if there is no such
    /// corner.
    pub fn intersect_with(&self, other: &Rect) -> (r: Rect)
        ensures
            r == self.spec_intersect(*other),
            self.null || other.null ==> r.null,
    {
        let mut r = Rect::null();
        if self.null || other.null {
            return r;
        }
        let mut added: u8 = 0;
        if self.contains(&other.top_left) {
            r.expand_to_include(&other.top_left);
            added += 1;
        }
        if self.contains(&other.bottom_right) {
            r.expand_to_include(&other.bottom_right);
            added += 1;
        }
        if added == 2 {
            return r;
        }
        if other.contains(&self.top_left) {
            r.expand_to_include(&self.top_left);
        }
        if other.contains(&self.bottom_right) {
            r.expand_to_include(&self.bottom_right);
        }
        r
    }

    /// The point in the middle of the box, each half rounded toward zero.
    pub fn midpoint(&self) -> (r: Point)
        ensures
            r == self.spec_midpoint(),
            self.wf() && !self.null ==> self.spec_contains(r),
    {
        let hw: i128 = div_toward_zero(self.width() as i128, 2);
        let hh: i128 = div_toward_zero(self.height() as i128, 2);
        proof {
            lemma_trunc_div_bound(self.spec_width(), 2);
            lemma_trunc_div_bound(self.spec_height(), 2);
        }
        Point { x: (self.top_left.x as i128 + hw) as i32, y: (self.top_left.y as i128 + hh) as i32 }
    }

    /// Whether this box contains the midpoint of a non-null `region`.
    pub fn holds_center_of(&self, region: &Rect) -> (r: bool)
        ensures
            r == self.spec_holds_center_of(*region),
    {
        !region.null && self.contains(&region.midpoint())
    }

    /// The four quadrants of the box, which meet at its midpoint.
    pub fn split_quad(&self) -> (r: [Rect; 4])
        ensures
            forall|i: int| 0 <= i < 4 ==> r[i] == #[trigger] self.spec_quadrant(i),
    {
        if self.null {
            [Rect::null(), Rect::null(), Rect::null(), Rect::null()]
        } else {
            let m = self.midpoint();
            [
                Rect { top_left: self.top_left, bottom_right: m, null: false },
                Rect {
                    top_left: Point { x: m.x, y: self.top_left.y },
                    bottom_right: Point { x: self.bottom_right.x, y: m.y },
                    null: false,
                },
                Rect {
                    top_left: Point { x: self.top_left.x, y: m.y },
                    bottom_right: Point { x: m.x, y: self.bottom_right.y },
                    null: false,
                },
                Rect { top_left: m, bottom_right: self.bottom_right, null: false },
            ]
        }
    }

    /// The upper and the lower half of the box, which meet at the height of
    /// its midpoint; null halves for a null box.
    pub open spec fn spec_split_hori(self) -> (Rect, Rect) {
        if self.null {
            (Rect::spec_null(), Rect::spec_null())
        } else {
            (
                Rect {
                    top_left: self.top_left,
                    bottom_right: Point { x: self.bottom_right.x, y: self.spec_midpoint().y },
                    null: false,
                },
                Rect {
                    top_left: Point { x: self.top_left.x, y: self.spec_midpoint().y },
                    bottom_right: self.bottom_right,
                    null: false,
                },
            )
        }
    }

    /// The upper and the lower half of the box, which meet at the height of
    /// its midpoint.
    pub fn split_hori(&self) -> (r: (Rect, Rect))
        ensures
            r == self.spec_split_hori(),
            self.wf() ==> r.0.wf() && r.1.wf(),
    {
        if self.null {
            (Rect::null(), Rect::null())
        } else {
            let m = self.midpoint();
            (
                Rect {
                    top_left: self.top_left,
                    bottom_right: Point { x: self.bottom_right.x, y: m.y },
                    null: false,
                },
                Rect {
                    top_left: Point { x: self.top_left.x, y: m.y },
                    bottom_right: self.bottom_right,
                    null: false,
                },
            )
        }
    }

    /// The middle of the upper edge.
    pub fn north(&self) -> (r: Point)
        ensures
            r == (Point { x: self.spec_midpoint().x, y: self.top_left.y }),
    {
        Point { x: self.midpoint().x, y: self.top_left.y }
    }

    /// The middle of the lower edge.
    pub fn south(&self) -> (r: Point)
        ensures
            r == (Point { x: self.spec_midpoint().x, y: self.bottom_right.y }),
    {
        Point { x: self.midpoint().x, y: self.bottom_right.y }
    }

    /// The middle of the right edge.
    pub fn east(&self) -> (r: Point)
        ensures
            r == (Point { x: self.bottom_right.x, y: self.spec_midpoint().y }),
    {
        Point { x: self.bottom_right.x, y: self.midpoint().y }
    }

    /// The middle of the left edge.
    pub fn west(&self) -> (r: Point)
        ensures
            r == (Point { x: self.top_left.x, y: self.spec_midpoint().y }),
    {
        Point { x: self.top_left.x, y: self.midpoint().y }
    }

    /// Whether the one box is a duplicate of the other: both pairs of corners
    /// are less than `epsilon` apart.
    pub fn close_to(&self, other: &Rect, epsilon: i32) -> (r: bool)
        ensures
            r == self.spec_close_to(*other, epsilon),
    {
        !self.null && !other.null && self.top_left.close_to(&other.top_left, epsilon)
            && self.bottom_right.close_to(&other.bottom_right, epsilon)
    }
}

/// The quadrants of a well-formed box are well formed, lie inside it, and
/// every point of the box lies in one of them.
pub proof fn lemma_quadrants_cover(r: Rect, p: Point)
    requires
        r.wf(),
        !r.null,
    ensures
        forall|i: int| 0 <= i < 4 ==> (#[trigger] r.spec_quadrant(i)).wf(),
        forall|i: int, q: Point|
            0 <= i < 4 && #[trigger] r.spec_quadrant(i).spec_contains(q) ==> r.spec_contains(q),
        r.spec_contains(p) ==> exists|i: int| 0 <= i < 4 && (#[trigger] r.spec_quadrant(i)).spec_contains(p),
{
    lemma_trunc_div_bound(r.spec_width(), 2);
    lemma_trunc_div_bound(r.spec_height(), 2);
    let m = r.spec_midpoint();
    assert(r.top_left.x <= m.x <= r.bottom_right.x);
    assert(r.top_left.y <= m.y <= r.bottom_right.y);
    assert(r.spec_quadrant(0).wf());
    assert(r.spec_quadrant(1).wf());
    assert(r.spec_quadrant(2).wf());
    assert(r.spec_quadrant(3).wf());
    if r.spec_contains(p) {
        if p.x <= m.x {
            if p.y <= m.y {
                assert(r.spec_quadrant(0).spec_contains(p));
            } else {
                assert(r.spec_quadrant(2).spec_contains(p));
            }
        } else {
            if p.y <= m.y {
                assert(r.spec_quadrant(1).spec_contains(p));
            } else {
                assert(r.spec_quadrant(3).spec_contains(p));
            }
        }
    }
}

impl Line {
    /// The smallest box that holds both ends of the segment.
    pub open spec fn spec_bounding_box(self) -> Rect {
        Rect::spec_null_at(self.0).spec_expanded_by(self.1)
    }

    /// The scalar product of the way from `.0` to `p` with the way from
    /// `.0` to `.1`.
    pub open spec fn spec_along(self, p: Point) -> int {
        (p.x - self.0.x) * (self.1.x - self.0.x) + (p.y - self.0.y) * (self.1.y - self.0.y)
    }

    /// The cross product of the way from `.0` to `p` with the way from `.0`
    /// to `.1`.
    pub open spec fn spec_aside(self, p: Point) -> int {
        (p.x - self.0.x) * (self.1.y - self.0.y) - (p.y - self.0.y) * (self.1.x - self.0.x)
    }

    /// The squared distance from `p` to the nearest point of the segment,
    /// rounded down: to an end where the foot of the perpendicular falls
    /// outside the segment or the segment has no length, to the foot
    /// otherwise.
    pub open spec fn spec_dist_to_point_2(self, p: Point) -> int {
        let l2 = self.0.dist2(self.1);
        if l2 == 0 || self.spec_along(p) < 0 {
            p.dist2(self.0)
        } else if self.spec_along(p) > l2 {
            p.dist2(self.1)
        } else {
            (self.spec_aside(p) * self.spec_aside(p)) / l2
        }
    }

    /// The distance from `p` to the segment, rounded down to a whole tick.
    pub open spec fn spec_dist_to_point(self, p: Point) -> int {
        spec_isqrt(self.spec_dist_to_point_2(p) as nat) as int
    }

    /// Whether the ends of the segment and `p` lie so close together that
    /// each way between two of them fits in a displacement.
    pub open spec fn spec_within_reach(self, p: Point) -> bool {
        &&& -0x7fff_ffff <= p.x - self.0.x <= 0x7fff_ffff
        &&& -0x7fff_ffff <= p.y - self.0.y <= 0x7fff_ffff
        &&& -0x7fff_ffff <= self.1.x - self.0.x <= 0x7fff_ffff
        &&& -0x7fff_ffff <= self.1.y - self.0.y <= 0x7fff_ffff
    }

    /// The smallest box that holds both ends of the segment.
    pub fn bounding_box(&self) -> (r: Rect)
        ensures
            r == self.spec_bounding_box(),
            r.wf(),
            !r.null,
    {
        Rect::from_points(&self.0, &self.1)
    }

    fn along(&self, p: &Point) -> (r: i128)
        ensures
            r == self.spec_along(*p),
            -0x2_0000_0000_0000_0000 <= r <= 0x2_0000_0000_0000_0000,
    {
        let px: i128 = p.x as i128 - self.0.x as i128;
        let py: i128 = p.y as i128 - self.0.y as i128;
        let wx: i128 = self.1.x as i128 - self.0.x as i128;
        let wy: i128 = self.1.y as i128 - self.0.y as i128;
        proof {
            lemma_product_bound(px as int, wx as int, 0x1_0000_0000, 0x1_0000_0000);
            lemma_product_bound(py as int, wy as int, 0x1_0000_0000, 0x1_0000_0000);
        }
        px * wx + py * wy
    }

    fn aside(&self, p: &Point) -> (r: i128)
        ensures
            r == self.spec_aside(*p),
            -0x2_0000_0000_0000_0000 <= r <= 0x2_0000_0000_0000_0000,
            self.spec_within_reach(*p) ==> -0x7fff_ffff_ffff_ffff <= r <= 0x7fff_ffff_ffff_ffff,
    {
        let px: i128 = p.x as i128 - self.0.x as i128;
        let py: i128 = p.y as i128 - self.0.y as i128;
        let wx: i128 = self.1.x as i128 - self.0.x as i128;
        let wy: i128 = self.1.y as i128 - self.0.y as i128;
        proof {
            lemma_product_bound(px as int, wy as int, 0x1_0000_0000, 0x1_0000_0000);
            lemma_product_bound(py as int, wx as int, 0x1_0000_0000, 0x1_0000_0000);
            if self.spec_within_reach(*p) {
                lemma_product_bound(px as int, wy as int, 0x7fff_ffff, 0x7fff_ffff);
                lemma_product_bound(py as int, wx as int, 0x7fff_ffff, 0x7fff_ffff);
            }
        }
        px * wy - py * wx
    }

    /// Whether the cross product of the ways to `p` and to `.1` is small
    /// enough for its square to be taken.
    pub open spec fn spec_aside_fits(self, p: Point) -> bool {
        -0xffff_ffff_ffff_ffff <= self.spec_aside(p) <= 0xffff_ffff_ffff_ffff
    }

    /// A segment whose ends lie within `0x4000_0000` ticks of the origin
    /// on both axes has a cross product with every point that is small
    /// enough.
    pub proof fn lemma_aside_fits(self, p: Point)
        requires
            -0x4000_0000 <= self.0.x <= 0x4000_0000,
            -0x4000_0000 <= self.0.y <= 0x4000_0000,
            -0x4000_0000 <= self.1.x <= 0x4000_0000,
            -0x4000_0000 <= self.1.y <= 0x4000_0000,
        ensures
            self.spec_aside_fits(p),
    {
        lemma_product_bound(p.x - self.0.x, self.1.y - self.0.y, 0xc000_0000, 0x8000_0000);
        lemma_product_bound(p.y - self.0.y, self.1.x - self.0.x, 0xc000_0000, 0x8000_0000);
    }

    /// The square of the distance from the point to the segment, rounded as
    /// `spec_dist_to_point_2` says.
    pub fn dist_to_point_2(&self, p: Point) -> (r: i128)
        requires
            self.spec_within_reach(p) || self.spec_aside_fits(p),
        ensures
            r == self.spec_dist_to_point_2(p),
            0 <= r <= 0x2_0000_0000_0000_0000,
    {
        let l2: i128 = self.0.distance_2(&self.1);
        if l2 == 0 {
            return p.distance_2(&self.0);
        }
        let t: i128 = self.along(&p);
        if t < 0 {
            p.distance_2(&self.0)
        } else if t > l2 {
            p.distance_2(&self.1)
        } else {
            let c: i128 = self.aside(&p);
            let a: u128 = if c < 0 { (-c) as u128 } else { c as u128 };
            proof {
                lemma_square_bound(c as int, 0xffff_ffff_ffff_ffff);
                assert(a * a == c * c) by (nonlinear_arith)
                    requires
                        a == c || a == -c,
                ;
                self.lemma_foot_is_nearer(p);
                let d = p.dist2(self.0);
                lemma_square_bound(p.x - self.0.x, 0x1_0000_0000);
                lemma_square_bound(p.y - self.0.y, 0x1_0000_0000);
                assert((d + 1) * l2 == d * l2 + l2) by (nonlinear_arith);
                lemma_div_below((c * c) as int, l2 as int, d + 1);
            }
            ((a * a) / (l2 as u128)) as i128
        }
    }

    /// Where the foot of the perpendicular falls on the segment, it is no
    /// farther from `p` than the first end is.
    pub proof fn lemma_foot_is_nearer(self, p: Point)
        requires
            self.0.dist2(self.1) > 0,
        ensures
            self.spec_aside(p) * self.spec_aside(p) <= p.dist2(self.0) * self.0.dist2(self.1),
    {
        let px = p.x - self.0.x;
        let py = p.y - self.0.y;
        let wx = self.1.x - self.0.x;
        let wy = self.1.y - self.0.y;
        lemma_lagrange(px, py, wx, wy);
        assert(p.dist2(self.0) == px * px + py * py);
        assert(self.0.dist2(self.1) == wx * wx + wy * wy) by (nonlinear_arith)
            requires
                wx == self.1.x - self.0.x,
                wy == self.1.y - self.0.y,
                self.0.dist2(self.1) == (self.0.x - self.1.x) * (self.0.x - self.1.x) + (self.0.y
                    - self.1.y) * (self.0.y - self.1.y),
        ;
    }

    /// The distance from the point to the segment, rounded down.
    pub fn dist_to_point(&self, p: Point) -> (r: i64)
        requires
            self.spec_within_reach(p) || self.spec_aside_fits(p),
        ensures
            r == self.spec_dist_to_point(p),
            r >= 0,
    {
        let d2: i128 = self.dist_to_point_2(p);
        let root: u64 = isqrt(d2 as u128);
        proof {
            if root >= 0x2_0000_0000 {
                lemma_square_monotonic(0x2_0000_0000, root as int);
            }
        }
        root as i64
    }

    /// Whether `p` is less than `epsilon` ticks away from the segment.
    pub fn nearer_than(&self, p: &Point, epsilon: i32) -> (r: bool)
        ensures
            r == (self.spec_dist_to_point(*p) < epsilon),
    {
        if epsilon <= 0 {
            return false;
        }
        let e: i128 = epsilon as i128;
        proof {
            lemma_square_bound(e as int, 0x7fff_ffff);
            lemma_isqrt_below(self.spec_dist_to_point_2(*p) as nat, e as int);
            assert(self.spec_aside(*p) * self.spec_aside(*p) >= 0) by (nonlinear_arith);
            if self.0.dist2(self.1) > 0 {
                self.lemma_foot_is_nearer(*p);
                lemma_div_below(
                    self.spec_aside(*p) * self.spec_aside(*p),
                    self.0.dist2(self.1),
                    (e * e) as int,
                );
            }
        }
        let e2: i128 = e * e;
        let l2: i128 = self.0.distance_2(&self.1);
        if l2 == 0 {
            return p.distance_2(&self.0) < e2;
        }
        let t: i128 = self.along(p);
        if t < 0 {
            p.distance_2(&self.0) < e2
        } else if t > l2 {
            p.distance_2(&self.1) < e2
        } else {
            let c: i128 = self.aside(p);
            let a: u128 = if c < 0 { (-c) as u128 } else { c as u128 };
            proof {
                lemma_product_bound(e2 as int, l2 as int, 0x3fff_ffff_0000_0001, 0x2_0000_0000_0000_0000);
                if a >= 0x1_0000_0000_0000_0000 {
                    lemma_square_monotonic(0x1_0000_0000_0000_0000, a as int);
                }
                assert(a * a == c * c) by (nonlinear_arith)
                    requires
                        a == c || a == -c,
                ;
            }
            let limit: u128 = (e2 as u128) * (l2 as u128);
            if a >= 0x1_0000_0000_0000_0000 {
                false
            } else {
                proof {
                    lemma_square_bound(a as int, 0xffff_ffff_ffff_ffff);
                }
                a * a < limit
            }
        }
    }
}

impl Ray {
    /// The scalar product of the way from the first end of the segment to
    /// its second end with the normal of the ray: zero when the two are
    /// parallel.
    pub open spec fn spec_slant(self, line: Line) -> int {
        (line.1.x - line.0.x) * (-self.1.y) + (line.1.y - line.0.y) * self.1.x
    }

    /// The cross product of the way along the segment with the way from
    /// the first end of the segment to the start of the ray.
    pub open spec fn spec_ahead(self, line: Line) -> int {
        (line.1.x - line.0.x) * (self.0.y - line.0.y) - (line.1.y - line.0.y) * (self.0.x
            - line.0.x)
    }

    /// The scalar product of the way from the first end of the segment to
    /// the start of the ray with the normal of the ray.
    pub open spec fn spec_across(self, line: Line) -> int {
        (self.0.x - line.0.x) * (-self.1.y) + (self.0.y - line.0.y) * self.1.x
    }

    /// Whether the ray meets the segment: the two are not parallel, the
    /// meeting point lies ahead on the ray or at its start, and between the
    /// ends of the segment or at one of them.
    pub open spec fn spec_does_intersect_with_line(self, line: Line) -> bool {
        let den = self.spec_slant(line);
        let ahead = self.spec_ahead(line);
        let across = self.spec_across(line);
        if den > 0 {
            ahead >= 0 && 0 <= across <= den
        } else if den < 0 {
            ahead <= 0 && den <= across <= 0
        } else {
            false
        }
    }

    /// The point that lies on the ray, from its start, as many units away
    /// as the ray has to be stretched to reach the line through the
    /// segment; each coordinate is rounded toward that of the start and kept
    /// on the grid.
    pub open spec fn spec_meeting_point(self, line: Line) -> Point {
        let den = self.spec_slant(line);
        let ahead = self.spec_ahead(line);
        let mag = spec_isqrt(self.1.norm2() as nat) as int;
        let num = if den > 0 { ahead } else { -ahead };
        let pos = if den > 0 { den } else { -den };
        Point {
            x: clamp_to_grid(self.0.x + trunc_div(self.1.x * num * UNIT, pos * mag)),
            y: clamp_to_grid(self.0.y + trunc_div(self.1.y * num * UNIT, pos * mag)),
        }
    }

    /// The point at which the ray meets the segment, if it meets it.
    pub fn intersect_with_line(&self, line: &Line) -> (r: Option<Point>)
        ensures
            r == (if self.spec_does_intersect_with_line(*line) {
                Some(self.spec_meeting_point(*line))
            } else {
                None
            }),
    {
        if !self.does_intersect_with_line(line) {
            return None;
        }
        let ox: i128 = self.0.x as i128 - line.0.x as i128;
        let oy: i128 = self.0.y as i128 - line.0.y as i128;
        let wx: i128 = line.1.x as i128 - line.0.x as i128;
        let wy: i128 = line.1.y as i128 - line.0.y as i128;
        let nx: i128 = -(self.1.y as i128);
        let ny: i128 = self.1.x as i128;
        proof {
            lemma_product_bound(wx as int, nx as int, 0x1_0000_0000, 0x8000_0000);
            lemma_product_bound(wy as int, ny as int, 0x1_0000_0000, 0x8000_0000);
            lemma_product_bound(wx as int, oy as int, 0x1_0000_0000, 0x1_0000_0000);
            lemma_product_bound(wy as int, ox as int, 0x1_0000_0000, 0x1_0000_0000);
        }
        let den: i128 = wx * nx + wy * ny;
        let ahead: i128 = wx * oy - wy * ox;
        let mag: i128 = self.1.magnitude() as i128;
        let num: i128 = if den > 0 { ahead } else { -ahead };
        let pos: i128 = if den > 0 { den } else { -den };
        proof {
            if mag == 0 {
                // A ray that meets a segment has a direction.
                crate::arith::lemma_isqrt_bounds(self.1.norm2() as nat);
                assert(self.1.x * self.1.x >= 0) by (nonlinear_arith);
                assert(self.1.y * self.1.y >= 0) by (nonlinear_arith);
                let root = spec_isqrt(self.1.norm2() as nat);
                assert(root == 0);
                assert((root + 1) * (root + 1) == 1) by (nonlinear_arith)
                    requires
                        root == 0,
                ;
                assert(self.1.norm2() == 0);
                let dx = self.1.x as int;
                let dy = self.1.y as int;
                assert(dx == 0) by (nonlinear_arith)
                    requires
                        dx * dx <= 0,
                ;
                assert(dy == 0) by (nonlinear_arith)
                    requires
                        dy * dy <= 0,
                ;
                assert(wx * nx == 0) by (nonlinear_arith)
                    requires
                        nx == 0,
                ;
                assert(wy * ny == 0) by (nonlinear_arith)
                    requires
                        ny == 0,
                ;
                assert(den == 0);
            }
            lemma_product_bound(self.1.x as int, num as int, 0x8000_0000, 0x2_0000_0000_0000_0000);
            lemma_product_bound(self.1.y as int, num as int, 0x8000_0000, 0x2_0000_0000_0000_0000);
            lemma_product_bound(pos as int, mag as int, 0x1_0000_0000_0000_0000, 0x1_0000_0000);
            assert(pos * mag > 0) by (nonlinear_arith)
                requires
                    pos > 0,
                    mag > 0,
            ;
            assert(self.1.x * num * UNIT == (self.1.x * num) * 10_000);
            assert(self.1.y * num * UNIT == (self.1.y * num) * 10_000);
            lemma_trunc_div_bound(self.1.x * num * UNIT, (pos * mag) as int);
            lemma_trunc_div_bound(self.1.y * num * UNIT, (pos * mag) as int);
        }
        let span: i128 = pos * mag;
        let dx: i128 = div_toward_zero((self.1.x as i128) * num * 10_000, span);
        let dy: i128 = div_toward_zero((self.1.y as i128) * num * 10_000, span);
        Some(Point { x: clamp_grid(self.0.x as i128 + dx), y: clamp_grid(self.0.y as i128 + dy) })
    }

    /// Whether the ray meets the segment.
    pub fn does_intersect_with_line(&self, line: &Line) -> (r: bool)
        ensures
            r == self.spec_does_intersect_with_line(*line),
    {
        let ox: i128 = self.0.x as i128 - line.0.x as i128;
        let oy: i128 = self.0.y as i128 - line.0.y as i128;
        let wx: i128 = line.1.x as i128 - line.0.x as i128;
        let wy: i128 = line.1.y as i128 - line.0.y as i128;
        let nx: i128 = -(self.1.y as i128);
        let ny: i128 = self.1.x as i128;
        proof {
            lemma_product_bound(wx as int, nx as int, 0x1_0000_0000, 0x8000_0000);
            lemma_product_bound(wy as int, ny as int, 0x1_0000_0000, 0x8000_0000);
            lemma_product_bound(wx as int, oy as int, 0x1_0000_0000, 0x1_0000_0000);
            lemma_product_bound(wy as int, ox as int, 0x1_0000_0000, 0x1_0000_0000);
            lemma_product_bound(ox as int, nx as int, 0x1_0000_0000, 0x8000_0000);
            lemma_product_bound(oy as int, ny as int, 0x1_0000_0000, 0x8000_0000);
        }
        let den: i128 = wx * nx + wy * ny;
        let ahead: i128 = wx * oy - wy * ox;
        let across: i128 = ox * nx + oy * ny;
        if den > 0 {
            ahead >= 0 && 0 <= across && across <= den
        } else if den < 0 {
            ahead <= 0 && den <= across && across <= 0
        } else {
            false
        }
    }
}

} // verus!
