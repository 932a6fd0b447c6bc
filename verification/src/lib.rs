//! Outlines of shapes given by signed distance fields.
//!
//! A shape answers one question: how far is this point from my edge, and on
//! which side? From such shapes the library finds sample points near the
//! outline, cuts the grid cells there into line segments, joins the segments
//! into polylines, and closes, simplifies and dashes them.
//!
//! All of it is integer arithmetic on a grid. A coordinate is a number of
//! ticks, `geom::UNIT` of them to one unit of the drawing, and a sample of a
//! field is a distance in ticks. Every public function states what it
//! returns over these integers.

use vstd::prelude::*;

pub mod arith;
pub mod bitmap;
pub mod dash;
pub mod disc_outline;
pub mod examples;
pub mod geom;
pub mod implementations;
pub mod lattice_laws;
pub mod line_gather;
pub mod line_join;
pub mod marching_squares;
pub mod output_device;
pub mod pdf;
pub mod poly_group;
pub mod quadtree;
pub mod quadtree_lemmas;
pub mod render;
pub mod sample_points;
pub mod stitch_laws;
pub mod svg;

use crate::geom::{Point, Rect};

verus! {

/// A shape given by its signed distance field, in ticks.
pub trait Implicit {
    /// The signed distance from `pos` to the nearest edge of the shape:
    /// positive outside, negative inside, zero on the edge.
    spec fn value(&self, pos: Point) -> i64;

    /// A box that surrounds the shape, if the shape is bounded.
    spec fn bounds(&self) -> Option<Rect>;

    /// Whether the field changes by at most one tick per tick of movement.
    spec fn regular(&self) -> bool;

    fn sample(&self, pos: Point) -> (r: i64)
        ensures
            r == self.value(pos),
    ;

    fn bounding_box(&self) -> (r: Option<Rect>)
        ensures
            r == self.bounds(),
    ;

    fn follows_rules(&self) -> (r: bool)
        ensures
            r == self.regular(),
    ;

    /// The midpoint of the box of this shape, if it has one.
    fn center(&self) -> (r: Option<Point>)
        ensures
            r == (match self.bounds() {
                Some(b) => Some(b.spec_midpoint()),
                None => None,
            }),
    {
        match self.bounding_box() {
            Some(b) => Some(b.midpoint()),
            None => None,
        }
    }
}

/// A shape that may be sampled from several threads at once.
pub trait SyncImplicit: Sync + Implicit {

}

impl<A> SyncImplicit for A where A: Implicit + Sync {

}

} // verus!
