//! Geometric value types: points in grid-cell coordinates and the directed
//! boundary-crossing segments that contour extraction emits.

use vstd::prelude::*;

verus! {

/// A point in grid-cell coordinates, fixed-point scaled: the pair `(x, y)`
/// stands for the real point `(x / SCALE, y / SCALE)`, with both axes ranging
/// over `[0, size - 1]` grid units.
#[derive(Clone, Copy, PartialEq, Eq, Structural, Debug)]
pub struct Point {
    pub x: i64,
    pub y: i64,
}

impl Point {
    pub fn new(x: i64, y: i64) -> (p: Point)
        ensures
            p.x == x,
            p.y == y,
    {
        Point { x, y }
    }
}

/// A directed boundary-crossing edge produced by one grid cell; not yet known
/// to belong to any polyline.
#[derive(Clone, Copy, PartialEq, Eq, Structural, Debug)]
pub struct Segment {
    pub a: Point,
    pub b: Point,
}

impl Segment {
    pub fn new(a: Point, b: Point) -> (s: Segment)
        ensures
            s.a == a,
            s.b == b,
    {
        Segment { a, b }
    }
}

/// An endpoint pair with its orientation discarded: the lexicographically
/// smaller endpoint first. Two segments cover the same edge exactly when
/// their normalized pairs are equal.
pub open spec fn norm_pair(a: Point, b: Point) -> (Point, Point) {
    if a.x < b.x || (a.x == b.x && a.y <= b.y) {
        (a, b)
    } else {
        (b, a)
    }
}

/// The undirected edge covered by a segment.
pub open spec fn seg_edge(s: Segment) -> (Point, Point) {
    norm_pair(s.a, s.b)
}

/// The undirected edges traced by a polyline: one per consecutive point pair.
pub open spec fn poly_edges(p: Seq<Point>) -> Seq<(Point, Point)>
    decreases p.len(),
{
    if p.len() < 2 {
        Seq::empty()
    } else {
        seq![norm_pair(p[0], p[1])] + poly_edges(p.skip(1))
    }
}

} // verus!
