//! Isoline extraction by marching squares.
//!
//! Every grid cell is classified by which of its four corners exceed the
//! threshold (a 4-bit configuration), and for each of the 14 crossing
//! configurations the cell emits one segment — two for the ambiguous saddle
//! configurations 5 and 10, which are always resolved the same fixed way, a
//! deliberate simplification with no secondary tie-break. Crossing points are
//! found by exact fixed-point linear interpolation along cell edges; an edge
//! is only ever interpolated when its endpoint values straddle the threshold,
//! which rules out division by zero. Each edge is interpolated in one
//! canonical direction (left to right, top to bottom), so the two cells that
//! share an edge compute bit-identical crossing points.

use vstd::prelude::*;
use vstd::arithmetic::div_mod::{
    lemma_div_by_multiple, lemma_div_is_ordered, lemma_div_pos_is_pos,
    lemma_fundamental_div_mod_converse,
};
use vstd::arithmetic::mul::lemma_mul_inequality;
use crate::field::{sq_idx, HeightField, HEIGHT_LIMIT};
use crate::fixed::SCALE;
use crate::math::{Point, Segment};

verus! {

/// The threshold of contour level `level` out of `levels`: `level / levels`
/// in fixed point.
pub open spec fn threshold_spec(level: int, levels: int) -> int {
    level * (SCALE as int) / levels
}

/// The two endpoint values lie on opposite sides of the threshold (one above,
/// one not above). Only such edges are interpolated.
pub open spec fn straddles(v1: int, v2: int, t: int) -> bool {
    (v1 > t) != (v2 > t)
}

/// Offset of the crossing point from the first edge endpoint, in fixed point:
/// `(t - v1) / (v2 - v1)` of the edge length `SCALE`. Written with a positive
/// divisor in both orientations.
pub open spec fn cross_k(v1: int, v2: int, t: int) -> int {
    if v2 > v1 {
        (t - v1) * (SCALE as int) / (v2 - v1)
    } else {
        (v1 - t) * (SCALE as int) / (v1 - v2)
    }
}

/// A point from mathematical coordinates (which the contracts keep in range).
pub open spec fn mk_point(x: int, y: int) -> Point {
    Point { x: x as i64, y: y as i64 }
}

/// The 4-bit cell configuration: bit 0/1/2/3 set when the top-left,
/// top-right, bottom-right, bottom-left corner exceeds the threshold.
pub open spec fn cell_config(vtl: int, vtr: int, vbr: int, vbl: int, t: int) -> int {
    (if vtl > t { 1int } else { 0int }) + (if vtr > t { 2int } else { 0int }) + (if vbr > t {
        4int
    } else {
        0int
    }) + (if vbl > t { 8int } else { 0int })
}

/// Crossing point on the horizontal edge from `(gx, gy)` to `(gx + 1, gy)`
/// (grid units; coordinates in fixed point).
pub open spec fn cross_h(gx: int, gy: int, v1: int, v2: int, t: int) -> Point {
    mk_point(gx * (SCALE as int) + cross_k(v1, v2, t), gy * (SCALE as int))
}

/// Crossing point on the vertical edge from `(gx, gy)` to `(gx, gy + 1)`.
pub open spec fn cross_v(gx: int, gy: int, v1: int, v2: int, t: int) -> Point {
    mk_point(gx * (SCALE as int), gy * (SCALE as int) + cross_k(v1, v2, t))
}

/// The segments one cell emits: the marching-squares case table. Cell
/// `(x, y)` has corner values `vtl, vtr, vbr, vbl` in clockwise order from
/// the top-left; its crossing points sit on the top, right, bottom and left
/// edges.
pub open spec fn cell_segments(
    x: int,
    y: int,
    vtl: int,
    vtr: int,
    vbr: int,
    vbl: int,
    t: int,
) -> Seq<Segment> {
    let cfg = cell_config(vtl, vtr, vbr, vbl, t);
    let top = cross_h(x, y, vtl, vtr, t);
    let bottom = cross_h(x, y + 1, vbl, vbr, t);
    let left = cross_v(x, y, vtl, vbl, t);
    let right = cross_v(x + 1, y, vtr, vbr, t);
    if cfg == 1 || cfg == 14 {
        seq![Segment { a: top, b: left }]
    } else if cfg == 2 || cfg == 13 {
        seq![Segment { a: top, b: right }]
    } else if cfg == 3 || cfg == 12 {
        seq![Segment { a: left, b: right }]
    } else if cfg == 4 || cfg == 11 {
        seq![Segment { a: right, b: bottom }]
    } else if cfg == 6 || cfg == 9 {
        seq![Segment { a: top, b: bottom }]
    } else if cfg == 7 || cfg == 8 {
        seq![Segment { a: left, b: bottom }]
    } else if cfg == 5 {
        seq![Segment { a: top, b: right }, Segment { a: bottom, b: left }]
    } else if cfg == 10 {
        seq![Segment { a: top, b: left }, Segment { a: right, b: bottom }]
    } else {
        Seq::empty()
    }
}

/// Law: whatever the cell, configurations 0 and 15 emit no segment; the
/// saddle configurations 5 and 10 emit exactly two; every other
/// configuration emits exactly one.
pub proof fn lemma_case_counts(x: int, y: int, vtl: int, vtr: int, vbr: int, vbl: int, t: int)
    ensures
        ({
            let cfg = cell_config(vtl, vtr, vbr, vbl, t);
            let len = cell_segments(x, y, vtl, vtr, vbr, vbl, t).len();
            &&& 0 <= cfg <= 15
            &&& ((cfg == 0 || cfg == 15) ==> len == 0)
            &&& ((cfg == 5 || cfg == 10) ==> len == 2)
            &&& ((cfg != 0 && cfg != 15 && cfg != 5 && cfg != 10) ==> len == 1)
        }),
{
}

/// The crossing offset lies within the edge: `0 <= cross_k <= SCALE`.
pub proof fn lemma_cross_k_range(v1: int, v2: int, t: int)
    requires
        straddles(v1, v2, t),
    ensures
        0 <= cross_k(v1, v2, t) <= SCALE as int,
{
    if v2 > v1 {
        lemma_div_pos_is_pos((t - v1) * (SCALE as int), v2 - v1);
        lemma_mul_inequality(t - v1, v2 - v1, SCALE as int);
        lemma_div_is_ordered((t - v1) * (SCALE as int), (v2 - v1) * (SCALE as int), v2 - v1);
        lemma_div_by_multiple(SCALE as int, v2 - v1);
    } else {
        lemma_div_pos_is_pos((v1 - t) * (SCALE as int), v1 - v2);
        lemma_mul_inequality(v1 - t, v1 - v2, SCALE as int);
        lemma_div_is_ordered((v1 - t) * (SCALE as int), (v1 - v2) * (SCALE as int), v1 - v2);
        lemma_div_by_multiple(SCALE as int, v1 - v2);
    }
}

/// Interpolated crossing point on the unit cell edge from `p1` to `p2` (in
/// canonical direction: left to right or top to bottom). The endpoint values
/// must straddle the threshold, which makes the divisor non-zero.
pub fn linear_interpolation(p1: Point, p2: Point, v1: i64, v2: i64, t: i64) -> (r: Point)
    requires
        straddles(v1 as int, v2 as int, t as int),
        -HEIGHT_LIMIT <= v1 <= HEIGHT_LIMIT,
        -HEIGHT_LIMIT <= v2 <= HEIGHT_LIMIT,
        -HEIGHT_LIMIT <= t <= HEIGHT_LIMIT,
        0 <= p1.x,
        0 <= p1.y,
        p1.x + SCALE < 0x4000_0000_0000,
        p1.y + SCALE < 0x4000_0000_0000,
        (p2.x == p1.x + SCALE && p2.y == p1.y) || (p2.x == p1.x && p2.y == p1.y + SCALE),
    ensures
        p1.y == p2.y ==> r.x == p1.x + cross_k(v1 as int, v2 as int, t as int) && r.y == p1.y,
        p1.x == p2.x ==> r.x == p1.x && r.y == p1.y + cross_k(v1 as int, v2 as int, t as int),
{
    let k: i64 = if v2 > v1 {
        proof {
            assert(v1 <= t < v2);
        }
        (((t - v1) as u64 * (SCALE as u64)) / ((v2 - v1) as u64)) as i64
    } else {
        proof {
            assert(v2 <= t < v1);
        }
        let d: u64 = (v1 - t) as u64;
        proof {
            assert(d as int == v1 - t);
            assert(d <= 8388608u64);
            assert(d as int * (SCALE as int) <= 0x8_0000_0000_0000) by (nonlinear_arith)
                requires
                    0 <= d as int <= 8388608,
                    SCALE == 65536,
            ;
        }
        let num: u64 = d * (SCALE as u64);
        (num / ((v1 - v2) as u64)) as i64
    };
    proof {
        lemma_cross_k_range(v1 as int, v2 as int, t as int);
    }
    if p1.y == p2.y {
        Point { x: p1.x + k, y: p1.y }
    } else {
        Point { x: p1.x, y: p1.y + k }
    }
}


impl HeightField {
    /// Classify one cell against the threshold and append its segments (none,
    /// one, or two for a saddle) to `segments`.
    pub fn marching_squares(&self, x: usize, y: usize, threshold: i64, segments: &mut Vec<Segment>)
        requires
            self.wf(),
            x < self.size - 1,
            y < self.size - 1,
            -HEIGHT_LIMIT <= threshold <= HEIGHT_LIMIT,
        ensures
            final(segments)@ == old(segments)@ + cell_segments(
                x as int,
                y as int,
                self.heights()[sq_idx(self.size as int, x as int, y as int)],
                self.heights()[sq_idx(self.size as int, x as int + 1, y as int)],
                self.heights()[sq_idx(self.size as int, x as int + 1, y as int + 1)],
                self.heights()[sq_idx(self.size as int, x as int, y as int + 1)],
                threshold as int,
            ),
    {
        let ghost n = self.size as int;
        let ghost t = threshold as int;
        // clockwise corner values, starting from the top left
        let vtl = self.get(x, y);
        let vtr = self.get(x + 1, y);
        let vbr = self.get(x + 1, y + 1);
        let vbl = self.get(x, y + 1);
        let ghost spec_segs = cell_segments(
            x as int,
            y as int,
            vtl as int,
            vtr as int,
            vbr as int,
            vbl as int,
            t,
        );
        proof {
            crate::gen::lemma_sq_idx_in_range(n, x as int, y as int);
            crate::gen::lemma_sq_idx_in_range(n, x as int + 1, y as int);
            crate::gen::lemma_sq_idx_in_range(n, x as int + 1, y as int + 1);
            crate::gen::lemma_sq_idx_in_range(n, x as int, y as int + 1);
            assert(-HEIGHT_LIMIT <= vtl <= HEIGHT_LIMIT);
            assert(-HEIGHT_LIMIT <= vtr <= HEIGHT_LIMIT);
            assert(-HEIGHT_LIMIT <= vbr <= HEIGHT_LIMIT);
            assert(-HEIGHT_LIMIT <= vbl <= HEIGHT_LIMIT);
        }

        let mut index: u32 = 0;
        if vtl > threshold {
            index = index + 1;
        }
        if vtr > threshold {
            index = index + 2;
        }
        if vbr > threshold {
            index = index + 4;
        }
        if vbl > threshold {
            index = index + 8;
        }
        proof {
            assert(index as int == cell_config(vtl as int, vtr as int, vbr as int, vbl as int, t));
        }

        if index == 0 || index == 15 {
            proof {
                assert(segments@ =~= old(segments)@ + spec_segs);
            }
            return ;
        }
        let gx = (x as i64) * SCALE;
        let gy = (y as i64) * SCALE;
        let point_tl = Point::new(gx, gy);
        let point_tr = Point::new(gx + SCALE, gy);
        let point_br = Point::new(gx + SCALE, gy + SCALE);
        let point_bl = Point::new(gx, gy + SCALE);
        proof {
            if straddles(vtl as int, vtr as int, t) {
                lemma_cross_k_range(vtl as int, vtr as int, t);
            }
            if straddles(vbl as int, vbr as int, t) {
                lemma_cross_k_range(vbl as int, vbr as int, t);
            }
            if straddles(vtl as int, vbl as int, t) {
                lemma_cross_k_range(vtl as int, vbl as int, t);
            }
            if straddles(vtr as int, vbr as int, t) {
                lemma_cross_k_range(vtr as int, vbr as int, t);
            }
        }

        // each edge is interpolated in its canonical direction: left to right
        // for the top and bottom edges, top to bottom for the left and right
        if index == 1 || index == 14 {
            let top = linear_interpolation(point_tl, point_tr, vtl, vtr, threshold);
            let left = linear_interpolation(point_tl, point_bl, vtl, vbl, threshold);
            segments.push(Segment::new(top, left));
        } else if index == 2 || index == 13 {
            let top = linear_interpolation(point_tl, point_tr, vtl, vtr, threshold);
            let right = linear_interpolation(point_tr, point_br, vtr, vbr, threshold);
            segments.push(Segment::new(top, right));
        } else if index == 3 || index == 12 {
            let left = linear_interpolation(point_tl, point_bl, vtl, vbl, threshold);
            let right = linear_interpolation(point_tr, point_br, vtr, vbr, threshold);
            segments.push(Segment::new(left, right));
        } else if index == 4 || index == 11 {
            let right = linear_interpolation(point_tr, point_br, vtr, vbr, threshold);
            let bottom = linear_interpolation(point_bl, point_br, vbl, vbr, threshold);
            segments.push(Segment::new(right, bottom));
        } else if index == 6 || index == 9 {
            let top = linear_interpolation(point_tl, point_tr, vtl, vtr, threshold);
            let bottom = linear_interpolation(point_bl, point_br, vbl, vbr, threshold);
            segments.push(Segment::new(top, bottom));
        } else if index == 7 || index == 8 {
            let left = linear_interpolation(point_tl, point_bl, vtl, vbl, threshold);
            let bottom = linear_interpolation(point_bl, point_br, vbl, vbr, threshold);
            segments.push(Segment::new(left, bottom));
        } else if index == 5 {
            // saddle: kept as the fixed pairing, with no tie-break
            let top = linear_interpolation(point_tl, point_tr, vtl, vtr, threshold);
            let right = linear_interpolation(point_tr, point_br, vtr, vbr, threshold);
            let bottom = linear_interpolation(point_bl, point_br, vbl, vbr, threshold);
            let left = linear_interpolation(point_tl, point_bl, vtl, vbl, threshold);
            segments.push(Segment::new(top, right));
            segments.push(Segment::new(bottom, left));
        } else {
            // saddle: the mirrored fixed pairing
            let top = linear_interpolation(point_tl, point_tr, vtl, vtr, threshold);
            let right = linear_interpolation(point_tr, point_br, vtr, vbr, threshold);
            let bottom = linear_interpolation(point_bl, point_br, vbl, vbr, threshold);
            let left = linear_interpolation(point_tl, point_bl, vtl, vbl, threshold);
            segments.push(Segment::new(top, left));
            segments.push(Segment::new(right, bottom));
        }
        proof {
            assert(segments@ =~= old(segments)@ + spec_segs);
        }
    }
}

/// The segments of the cell with row-major index `ci` among the
/// `(n-1) * (n-1)` cells.
pub open spec fn cell_segments_at(m: Seq<int>, n: int, ci: int, t: int) -> Seq<Segment> {
    let cx = ci % (n - 1);
    let cy = ci / (n - 1);
    cell_segments(
        cx,
        cy,
        m[sq_idx(n, cx, cy)],
        m[sq_idx(n, cx + 1, cy)],
        m[sq_idx(n, cx + 1, cy + 1)],
        m[sq_idx(n, cx, cy + 1)],
        t,
    )
}

/// All segments of the first `cells` cells, in cell scan order.
pub open spec fn level_segments_upto(m: Seq<int>, n: int, t: int, cells: int) -> Seq<Segment>
    decreases cells,
{
    if cells <= 0 {
        Seq::empty()
    } else {
        level_segments_upto(m, n, t, cells - 1) + cell_segments_at(m, n, cells - 1, t)
    }
}

/// The unordered segment set of one level: every cell of the grid scanned in
/// row-major order.
pub open spec fn level_segments(m: Seq<int>, n: int, t: int) -> Seq<Segment> {
    level_segments_upto(m, n, t, (n - 1) * (n - 1))
}

impl HeightField {
    /// Scan every cell of the field and collect the boundary-crossing
    /// segments for one threshold.
    pub fn extract_level(&self, threshold: i64) -> (segments: Vec<Segment>)
        requires
            self.wf(),
            -HEIGHT_LIMIT <= threshold <= HEIGHT_LIMIT,
        ensures
            segments@ == level_segments(self.heights(), self.size as int, threshold as int),
    {
        let ghost n = self.size as int;
        let ghost t = threshold as int;
        let ghost m = self.heights();
        let last = self.size - 1;
        let ghost lasti = last as int;
        let mut segments: Vec<Segment> = Vec::new();
        let mut y: usize = 0;
        while y < last
            invariant
                self.wf(),
                n == self.size as int,
                t == threshold as int,
                m == self.heights(),
                -HEIGHT_LIMIT <= threshold <= HEIGHT_LIMIT,
                last == self.size - 1,
                lasti == last as int,
                y <= last,
                segments@ == level_segments_upto(m, n, t, y as int * lasti),
            decreases lasti - y,
        {
            let mut x: usize = 0;
            proof {
                lemma_mul_inequality(y as int, lasti - 1, lasti);
                vstd::arithmetic::mul::lemma_mul_nonnegative(y as int, lasti);
            }
            while x < last
                invariant
                    self.wf(),
                    n == self.size as int,
                    t == threshold as int,
                    m == self.heights(),
                    -HEIGHT_LIMIT <= threshold <= HEIGHT_LIMIT,
                    last == self.size - 1,
                    lasti == last as int,
                    y < last,
                    x <= last,
                    0 <= y as int * lasti <= (lasti - 1) * lasti,
                    segments@ == level_segments_upto(m, n, t, y as int * lasti + x as int),
                decreases lasti - x,
            {
                let ghost ci = y as int * lasti + x as int;
                self.marching_squares(x, y, threshold, &mut segments);
                proof {
                    lemma_fundamental_div_mod_converse(ci, lasti, y as int, x as int);
                    assert(cell_segments_at(m, n, ci, t) == cell_segments(
                        x as int,
                        y as int,
                        m[sq_idx(n, x as int, y as int)],
                        m[sq_idx(n, x as int + 1, y as int)],
                        m[sq_idx(n, x as int + 1, y as int + 1)],
                        m[sq_idx(n, x as int, y as int + 1)],
                        t,
                    ));
                    assert(segments@ == level_segments_upto(m, n, t, ci + 1));
                }
                x += 1;
            }
            proof {
                assert(y as int * lasti + lasti == (y as int + 1) * lasti) by (nonlinear_arith);
            }
            y += 1;
        }
        proof {
            assert(y as int * lasti == lasti * lasti) by (nonlinear_arith)
                requires
                    y as int == lasti,
            ;
            assert(segments@ == level_segments(m, n, t));
        }
        segments
    }
}

} // verus!
