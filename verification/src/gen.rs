//! Fractal height-field synthesis by recursive midpoint displacement
//! (diamond-square).
//!
//! Starting from four randomly seeded corners, each round first sets the
//! center of every `chunk`-sized cell to the average of its four corners plus
//! a perturbation (the center, or "diamond", step), then sets every edge
//! midpoint to the average of its in-grid axis-aligned neighbors at distance
//! `chunk / 2` plus a perturbation (the edge, or "square", step). The chunk
//! then halves and the perturbation amplitude decays by the `decay` factor,
//! until the grid is filled at unit spacing.
//!
//! Randomness is injected as a sequence of uniform fixed-point samples in
//! `[0, SCALE)`; one sample is consumed per written cell, in a fixed scan
//! order, so generation is a pure function of the sample sequence.

use vstd::prelude::*;
use vstd::arithmetic::div_mod::{
    lemma_div_by_multiple, lemma_div_is_ordered, lemma_fundamental_div_mod,
    lemma_fundamental_div_mod_converse,
};
use vstd::arithmetic::mul::{lemma_mul_inequality, lemma_mul_is_commutative};
use crate::field::{bounded, sq_idx, valid_size, HeightField, HEIGHT_LIMIT};
use crate::fixed::{div_floor, SCALE};

verus! {

/// The integer contents of a fixed-point sample or height buffer.
pub open spec fn int_view(s: Seq<i64>) -> Seq<int> {
    s.map_values(|v: i64| v as int)
}

/// Every sample is a fixed-point value in `[0, SCALE)`.
pub open spec fn samples_ok(s: Seq<i64>) -> bool {
    forall|i: int| 0 <= i < s.len() ==> 0 <= #[trigger] s[i] < SCALE
}

/// The signed displacement drawn from one uniform sample at amplitude `amp`:
/// `(sample/SCALE - 1/2) * amp`, in fixed point with flooring.
pub open spec fn perturb(sample: int, amp: int) -> int {
    (2 * sample - SCALE as int) * amp / (2 * SCALE as int)
}

/// `(x, y)` is the center of a `c`-cell of the grid of side `n`.
pub open spec fn is_center(n: int, c: int, x: int, y: int) -> bool {
    &&& 0 <= x < n
    &&& 0 <= y < n
    &&& x % c == c / 2
    &&& y % c == c / 2
}

/// `(x, y)` is the midpoint of a horizontal or vertical cell edge at chunk
/// spacing `c`.
pub open spec fn is_edge_mid(n: int, c: int, x: int, y: int) -> bool {
    &&& 0 <= x < n
    &&& 0 <= y < n
    &&& ((x % c == c / 2 && y % c == 0) || (x % c == 0 && y % c == c / 2))
}

/// Cells per row at chunk spacing `c`.
pub open spec fn cells_per_row(n: int, c: int) -> int {
    (n - 1) / c
}

/// Samples consumed by the center step of one round.
pub open spec fn center_count(n: int, c: int) -> int {
    cells_per_row(n, c) * cells_per_row(n, c)
}

/// The value written at cell center `(x, y)`: the average of the four cell
/// corners at diagonal distance `h`, plus the perturbation of one sample.
pub open spec fn center_value(
    m: Seq<int>,
    n: int,
    x: int,
    y: int,
    h: int,
    sample: int,
    amp: int,
) -> int {
    (m[sq_idx(n, x - h, y - h)] + m[sq_idx(n, x + h, y - h)] + m[sq_idx(n, x - h, y + h)]
        + m[sq_idx(n, x + h, y + h)]) / 4 + perturb(sample, amp)
}

/// The map after the center step has processed every cell in rows before
/// `ky`, and in row `ky` every cell left of `kx` (cell counters, not grid
/// coordinates). Centers take their new value; everything else is unchanged.
pub open spec fn center_partial(
    m: Seq<int>,
    n: int,
    c: int,
    amp: int,
    samples: Seq<int>,
    cur: int,
    kx: int,
    ky: int,
) -> Seq<int> {
    Seq::new(
        m.len(),
        |i: int|
            {
                let px = i % n;
                let py = i / n;
                if is_center(n, c, px, py) && (py / c < ky || (py / c == ky && px / c < kx)) {
                    center_value(
                        m,
                        n,
                        px,
                        py,
                        c / 2,
                        samples[cur + (py / c) * cells_per_row(n, c) + px / c],
                        amp,
                    )
                } else {
                    m[i]
                }
            },
    )
}

/// The map after a whole center step.
pub open spec fn apply_center_step(
    m: Seq<int>,
    n: int,
    c: int,
    amp: int,
    samples: Seq<int>,
    cur: int,
) -> Seq<int> {
    center_partial(m, n, c, amp, samples, cur, 0, cells_per_row(n, c))
}

/// A multiple of `c` plus a remainder `h` decomposes uniquely.
pub proof fn lemma_decompose(k: int, c: int, h: int)
    requires
        0 < c,
        0 <= h < c,
        0 <= k,
    ensures
        (k * c + h) % c == h,
        (k * c + h) / c == k,
{
    lemma_fundamental_div_mod_converse(k * c + h, c, k, h);
}

/// A flat index below `n * n` decomposes into column `i % n` and row `i / n`.
pub proof fn lemma_idx_bounds(i: int, n: int)
    requires
        0 < n,
        0 <= i < n * n,
    ensures
        0 <= i % n < n,
        0 <= i / n < n,
        sq_idx(n, i % n, i / n) == i,
{
    lemma_fundamental_div_mod(i, n);
    vstd::arithmetic::div_mod::lemma_mod_division_less_than_divisor(i, n);
    let q = i / n;
    let r = i % n;
    assert(q < n) by {
        if q >= n {
            lemma_mul_inequality(n, q, n);
            lemma_mul_is_commutative(q, n);
            assert(false);
        }
    }
    assert(q >= 0) by {
        if q <= -1 {
            lemma_mul_inequality(q, -1, n);
            lemma_mul_is_commutative(q, n);
            assert(false);
        }
    }
    lemma_mul_is_commutative(q, n);
}


/// An in-range coordinate pair yields an in-range flat index.
pub proof fn lemma_sq_idx_in_range(n: int, x: int, y: int)
    requires
        0 < n,
        0 <= x < n,
        0 <= y < n,
    ensures
        0 <= sq_idx(n, x, y) < n * n,
{
    lemma_mul_inequality(y, n - 1, n);
    vstd::arithmetic::mul::lemma_mul_nonnegative(y, n);
    assert((n - 1) * n == n * n - n) by (nonlinear_arith);
}

/// Two in-range coordinate pairs with the same flat index are equal.
pub proof fn lemma_sq_idx_injective(n: int, x1: int, y1: int, x2: int, y2: int)
    requires
        0 < n,
        0 <= x1 < n,
        0 <= y1 < n,
        0 <= x2 < n,
        0 <= y2 < n,
        sq_idx(n, x1, y1) == sq_idx(n, x2, y2),
    ensures
        x1 == x2,
        y1 == y2,
{
    assert(y1 == y2) by (nonlinear_arith)
        requires
            0 <= x1 < n,
            0 <= y1 < n,
            0 <= x2 < n,
            0 <= y2 < n,
            x1 + y1 * n == x2 + y2 * n,
    ;
}

/// Scaling both ends of an interval: dividing by `d` maps `[-b*d, b*d]` into
/// `[-b, b]`.
pub proof fn lemma_div_scale_bound(a: int, d: int, b: int)
    requires
        0 < d,
        0 <= b,
        -(b * d) <= a <= b * d,
    ensures
        -b <= a / d <= b,
{
    lemma_div_is_ordered(a, b * d, d);
    lemma_div_by_multiple(b, d);
    lemma_div_is_ordered(-(b * d), a, d);
    assert(-(b * d) == (-b) * d + 0) by (nonlinear_arith);
    lemma_fundamental_div_mod_converse(-(b * d), d, -b, 0);
}

/// Before any cell is processed, the center step has changed nothing.
pub proof fn lemma_center_start(m: Seq<int>, n: int, c: int, amp: int, samples: Seq<int>, cur: int)
    requires
        0 < n,
        0 < c,
        m.len() == n * n,
    ensures
        center_partial(m, n, c, amp, samples, cur, 0, 0) == m,
{
    assert forall|i: int| 0 <= i < m.len() implies center_partial(m, n, c, amp, samples, cur, 0, 0)[i]
        == m[i] by {
        lemma_idx_bounds(i, n);
        vstd::arithmetic::div_mod::lemma_div_pos_is_pos(i / n, c);
        vstd::arithmetic::div_mod::lemma_div_pos_is_pos(i % n, c);
    }
    assert(center_partial(m, n, c, amp, samples, cur, 0, 0) =~= m);
}

/// Processing the cell with counters `(kx, ky)` extends the partially-updated
/// map by exactly one write: the cell's center takes its new value.
pub proof fn lemma_center_update(
    m: Seq<int>,
    n: int,
    c: int,
    amp: int,
    samples: Seq<int>,
    cur: int,
    kx: int,
    ky: int,
)
    requires
        0 < c,
        c % 2 == 0,
        c <= n - 1,
        (n - 1) % c == 0,
        m.len() == n * n,
        0 <= kx < cells_per_row(n, c),
        0 <= ky < cells_per_row(n, c),
    ensures
        center_partial(m, n, c, amp, samples, cur, kx, ky).update(
            sq_idx(n, kx * c + c / 2, ky * c + c / 2),
            center_value(
                m,
                n,
                kx * c + c / 2,
                ky * c + c / 2,
                c / 2,
                samples[cur + ky * cells_per_row(n, c) + kx],
                amp,
            ),
        ) == center_partial(m, n, c, amp, samples, cur, kx + 1, ky),
{
    let h = c / 2;
    let cpr = cells_per_row(n, c);
    let px = kx * c + h;
    let py = ky * c + h;
    // the written point lies inside the grid
    lemma_fundamental_div_mod(c, 2);
    lemma_fundamental_div_mod(n - 1, c);
    lemma_mul_is_commutative(c, cpr);
    assert(n - 1 == cpr * c);
    assert(kx * c + c <= cpr * c) by (nonlinear_arith)
        requires
            kx + 1 <= cpr,
            c > 0,
    ;
    assert(ky * c + c <= cpr * c) by (nonlinear_arith)
        requires
            ky + 1 <= cpr,
            c > 0,
    ;
    assert(0 < h < c);
    assert(px < n && py < n);
    let istar = sq_idx(n, px, py);
    lemma_sq_idx_in_range(n, px, py);
    lemma_decompose(kx, c, h);
    lemma_decompose(ky, c, h);
    let lhs = center_partial(m, n, c, amp, samples, cur, kx, ky).update(
        istar,
        center_value(m, n, px, py, h, samples[cur + ky * cpr + kx], amp),
    );
    let rhs = center_partial(m, n, c, amp, samples, cur, kx + 1, ky);
    lemma_idx_bounds(istar, n);
    assert(istar % n == px && istar / n == py) by {
        lemma_sq_idx_injective(n, istar % n, istar / n, px, py);
    }
    assert forall|i: int| 0 <= i < m.len() implies lhs[i] == rhs[i] by {
        lemma_idx_bounds(i, n);
        let qx = i % n;
        let qy = i / n;
        if i == istar {
            assert(is_center(n, c, px, py));
            assert(px / c == kx && py / c == ky);
        } else {
            // the classification of i is the same on both sides: otherwise i
            // would be this very cell's center, i.e. istar
            if is_center(n, c, qx, qy) && qy / c == ky && kx <= qx / c < kx + 1 {
                lemma_fundamental_div_mod(qx, c);
                lemma_fundamental_div_mod(qy, c);
                lemma_mul_is_commutative(c, kx);
                lemma_mul_is_commutative(c, ky);
                assert(qx == kx * c + h && qy == ky * c + h);
                assert(sq_idx(n, qx, qy) == i);
                assert(false);
            }
        }
    }
    assert(lhs =~= rhs);
}

/// Finishing a row of cells is the same as starting the next row.
pub proof fn lemma_center_row_complete(
    m: Seq<int>,
    n: int,
    c: int,
    amp: int,
    samples: Seq<int>,
    cur: int,
    ky: int,
)
    requires
        0 < c,
        c % 2 == 0,
        c <= n - 1,
        (n - 1) % c == 0,
        m.len() == n * n,
        0 <= ky,
    ensures
        center_partial(m, n, c, amp, samples, cur, cells_per_row(n, c), ky) == center_partial(
            m,
            n,
            c,
            amp,
            samples,
            cur,
            0,
            ky + 1,
        ),
{
    let h = c / 2;
    let cpr = cells_per_row(n, c);
    let lhs = center_partial(m, n, c, amp, samples, cur, cpr, ky);
    let rhs = center_partial(m, n, c, amp, samples, cur, 0, ky + 1);
    assert forall|i: int| 0 <= i < m.len() implies lhs[i] == rhs[i] by {
        lemma_idx_bounds(i, n);
        let qx = i % n;
        let qy = i / n;
        if is_center(n, c, qx, qy) {
            // every center column counter is below cells_per_row
            lemma_fundamental_div_mod(qx, c);
            vstd::arithmetic::div_mod::lemma_mod_division_less_than_divisor(qx, c);
            vstd::arithmetic::div_mod::lemma_div_pos_is_pos(qx, c);
            lemma_fundamental_div_mod(n - 1, c);
            assert(qx / c < cpr) by (nonlinear_arith)
                requires
                    qx == c * (qx / c) + h,
                    n - 1 == c * cpr,
                    qx < n,
                    0 < h < c,
                    0 <= qx / c,
            ;
        }
    }
    assert(lhs =~= rhs);
}

/// A lattice corner (both coordinates multiples of the chunk) is untouched by
/// the center step.
pub proof fn lemma_center_keeps_corner(
    m: Seq<int>,
    n: int,
    c: int,
    amp: int,
    samples: Seq<int>,
    cur: int,
    kx: int,
    ky: int,
    x: int,
    y: int,
)
    requires
        0 < c,
        c % 2 == 0,
        m.len() == n * n,
        x % c == 0,
        y % c == 0,
        0 <= x < n,
        0 <= y < n,
    ensures
        center_partial(m, n, c, amp, samples, cur, kx, ky)[sq_idx(n, x, y)] == m[sq_idx(n, x, y)],
{
    let i = sq_idx(n, x, y);
    lemma_sq_idx_in_range(n, x, y);
    lemma_idx_bounds(i, n);
    lemma_sq_idx_injective(n, i % n, i / n, x, y);
    assert(x % c != c / 2);
}


impl HeightField {
    /// The center ("diamond") step of one round: every `chunk`-cell's center
    /// becomes the average of its four corners plus a perturbation, consuming
    /// one sample per cell in row-major cell order starting at `cursor`.
    fn diamond_step(
        &mut self,
        chunk: usize,
        amp: i64,
        samples: &Vec<i64>,
        cursor: usize,
        Ghost(bnd): Ghost<int>,
    ) -> (newcur: usize)
        requires
            old(self).wf(),
            2 <= chunk <= old(self).size - 1,
            chunk % 2 == 0,
            (old(self).size - 1) as int % (chunk as int) == 0,
            0 <= amp <= SCALE,
            samples_ok(samples@),
            cursor + center_count(old(self).size as int, chunk as int) <= samples@.len(),
            samples@.len() <= usize::MAX,
            0 <= bnd,
            bounded(old(self).heights(), bnd),
            bnd + SCALE <= HEIGHT_LIMIT as int,
        ensures
            final(self).size == old(self).size,
            final(self).wf(),
            final(self).heights() == apply_center_step(
                old(self).heights(),
                old(self).size as int,
                chunk as int,
                amp as int,
                int_view(samples@),
                cursor as int,
            ),
            bounded(final(self).heights(), bnd + SCALE),
            newcur == cursor + center_count(old(self).size as int, chunk as int),
    {
        let n = self.size;
        let h = chunk / 2;
        let ghost ni = n as int;
        let ghost c = chunk as int;
        let ghost m0 = self.heights();
        let ghost svals = int_view(samples@);
        let ghost cpr = cells_per_row(ni, c);
        proof {
            lemma_fundamental_div_mod(c, 2);
            lemma_fundamental_div_mod(ni - 1, c);
            lemma_mul_is_commutative(c, cpr);
            assert(ni - 1 == cpr * c);
            vstd::arithmetic::div_mod::lemma_div_pos_is_pos(ni - 1, c);
            lemma_center_start(m0, ni, c, amp as int, svals, cursor as int);
        }
        let mut cur: usize = cursor;
        let mut y: usize = 0;
        let ghost mut ky: int = 0;
        while y < n - 1
            invariant
                self.size == old(self).size,
                self.size == n,
                valid_size(ni),
                ni == n as int,
                c == chunk as int,
                2 <= chunk <= n - 1,
                chunk % 2 == 0,
                h == chunk / 2,
                (ni - 1) % c == 0,
                cpr == cells_per_row(ni, c),
                ni - 1 == cpr * c,
                0 <= amp <= SCALE,
                samples_ok(samples@),
                samples@.len() <= usize::MAX,
                svals == int_view(samples@),
                cursor + cpr * cpr <= samples@.len(),
                m0 == old(self).heights(),
                m0.len() == ni * ni,
                bounded(m0, bnd),
                0 <= bnd,
                bnd + SCALE <= HEIGHT_LIMIT as int,
                self.data@.len() == self.size * self.size,
                y == ky * c,
                0 <= ky <= cpr,
                cur == cursor + ky * cpr,
                cur <= samples@.len(),
                self.heights() == center_partial(m0, ni, c, amp as int, svals, cursor as int, 0, ky),
                bounded(self.heights(), bnd + SCALE),
                self.wf(),
            decreases ni - y,
        {
            let mut x: usize = 0;
            let ghost mut kx: int = 0;
            proof {
                // one full row of cells still fits in the sample budget
                lemma_mul_inequality(ky + 1, cpr, cpr);
                assert(ky * cpr + cpr == (ky + 1) * cpr) by (nonlinear_arith);
            }
            while x < n - 1
                invariant
                    self.size == old(self).size,
                    self.size == n,
                    valid_size(ni),
                    ni == n as int,
                    c == chunk as int,
                    2 <= chunk <= n - 1,
                    chunk % 2 == 0,
                    h == chunk / 2,
                    (ni - 1) % c == 0,
                    cpr == cells_per_row(ni, c),
                    ni - 1 == cpr * c,
                    0 <= amp <= SCALE,
                    samples_ok(samples@),
                    samples@.len() <= usize::MAX,
                    svals == int_view(samples@),
                    cursor + cpr * cpr <= samples@.len(),
                    m0 == old(self).heights(),
                    m0.len() == ni * ni,
                    bounded(m0, bnd),
                    0 <= bnd,
                    bnd + SCALE <= HEIGHT_LIMIT as int,
                    self.data@.len() == self.size * self.size,
                    y == ky * c,
                    0 <= ky < cpr,
                    y < n - 1,
                    x == kx * c,
                    0 <= kx <= cpr,
                    cur == cursor + ky * cpr + kx,
                    cur + (cpr - kx) <= cursor + (ky + 1) * cpr,
                    (ky + 1) * cpr <= cpr * cpr,
                    self.heights() == center_partial(
                        m0,
                        ni,
                        c,
                        amp as int,
                        svals,
                        cursor as int,
                        kx,
                        ky,
                    ),
                    bounded(self.heights(), bnd + SCALE),
                    self.wf(),
                decreases ni - x,
            {
                proof {
                    assert(kx < cpr) by (nonlinear_arith)
                        requires
                            x == kx * c,
                            ni - 1 == cpr * c,
                            x < ni - 1,
                            c > 0,
                            0 <= kx,
                    ;
                    assert(kx * c + c <= cpr * c) by (nonlinear_arith)
                        requires
                            kx + 1 <= cpr,
                            c > 0,
                    ;
                    assert(ky * c + c <= cpr * c) by (nonlinear_arith)
                        requires
                            ky + 1 <= cpr,
                            c > 0,
                    ;
                }
                // the four corner values are still the pre-step ones
                proof {
                    assert((kx + 1) * c == kx * c + c) by (nonlinear_arith);
                    assert((ky + 1) * c == ky * c + c) by (nonlinear_arith);
                    lemma_decompose(kx, c, 0);
                    lemma_decompose(kx + 1, c, 0);
                    lemma_decompose(ky, c, 0);
                    lemma_decompose(ky + 1, c, 0);
                    lemma_center_keeps_corner(m0, ni, c, amp as int, svals, cursor as int, kx, ky, x as int, y as int);
                    lemma_center_keeps_corner(m0, ni, c, amp as int, svals, cursor as int, kx, ky, x as int + c, y as int);
                    lemma_center_keeps_corner(m0, ni, c, amp as int, svals, cursor as int, kx, ky, x as int, y as int + c);
                    lemma_center_keeps_corner(m0, ni, c, amp as int, svals, cursor as int, kx, ky, x as int + c, y as int + c);
                    lemma_sq_idx_in_range(ni, x as int, y as int);
                    lemma_sq_idx_in_range(ni, x as int + c, y as int);
                    lemma_sq_idx_in_range(ni, x as int, y as int + c);
                    lemma_sq_idx_in_range(ni, x as int + c, y as int + c);
                    assert(-bnd <= m0[sq_idx(ni, x as int, y as int)] <= bnd);
                    assert(-bnd <= m0[sq_idx(ni, x as int + c, y as int)] <= bnd);
                    assert(-bnd <= m0[sq_idx(ni, x as int, y as int + c)] <= bnd);
                    assert(-bnd <= m0[sq_idx(ni, x as int + c, y as int + c)] <= bnd);
                }
                let tl = self.get(x, y);
                let tr = self.get(x + chunk, y);
                let bl = self.get(x, y + chunk);
                let br = self.get(x + chunk, y + chunk);
                let sum = tl + tr + bl + br;
                let avg = div_floor(sum, 4);
                proof {
                    lemma_div_scale_bound(sum as int, 4, bnd);
                }
                let s_raw = samples[cur];
                proof {
                    assert(-(32768 * (2 * SCALE as int)) <= (2 * s_raw - SCALE) as int * (amp as int)
                        <= 32768 * (2 * SCALE as int)) by (nonlinear_arith)
                        requires
                            0 <= s_raw < SCALE,
                            0 <= amp <= SCALE,
                            SCALE == 65536,
                    ;
                }
                let pert = div_floor((2 * s_raw - SCALE) * amp, 2 * SCALE);
                proof {
                    lemma_div_scale_bound((2 * s_raw - SCALE) as int * (amp as int), 2 * SCALE as int, 32768);
                }
                let v = avg + pert;
                let ghost iw = sq_idx(ni, x as int + h as int, y as int + h as int);
                proof {
                    lemma_center_update(m0, ni, c, amp as int, svals, cursor as int, kx, ky);
                    lemma_sq_idx_in_range(ni, x as int + h as int, y as int + h as int);
                }
                self.set(x + h, y + h, v);
                proof {
                    assert(v as int == center_value(
                        m0,
                        ni,
                        x as int + h as int,
                        y as int + h as int,
                        h as int,
                        svals[cur as int],
                        amp as int,
                    ));
                    assert(self.heights() =~= center_partial(
                        m0,
                        ni,
                        c,
                        amp as int,
                        svals,
                        cursor as int,
                        kx + 1,
                        ky,
                    ));
                    kx = kx + 1;
                    assert(kx * c == (kx - 1) * c + c) by (nonlinear_arith);
                    assert((ky + 1) * cpr == ky * cpr + cpr) by (nonlinear_arith);
                    assert(cursor + ky * cpr + kx <= cursor + (ky + 1) * cpr);
                }
                cur += 1;
                x += chunk;
            }
            proof {
                assert(kx == cpr) by (nonlinear_arith)
                    requires
                        x == kx * c,
                        ni - 1 == cpr * c,
                        x >= ni - 1,
                        kx <= cpr,
                        c > 0,
                ;
                lemma_center_row_complete(m0, ni, c, amp as int, svals, cursor as int, ky);
                ky = ky + 1;
                assert(ky * c == (ky - 1) * c + c) by (nonlinear_arith);
                assert(ky * cpr == (ky - 1) * cpr + cpr) by (nonlinear_arith);
                lemma_mul_inequality(ky, cpr, c);
            }
            y += chunk;
        }
        proof {
            assert(ky == cpr) by (nonlinear_arith)
                requires
                    y == ky * c,
                    ni - 1 == cpr * c,
                    y >= ni - 1,
                    ky <= cpr,
                    c > 0,
            ;
        }
        cur
    }
}


/// Sum of the in-grid axis-aligned neighbors of `(x, y)` at distance `h`, in
/// north, west, east, south order.
pub open spec fn edge_nbr_sum(m: Seq<int>, n: int, x: int, y: int, h: int) -> int {
    (if y - h >= 0 { m[sq_idx(n, x, y - h)] } else { 0int })
    + (if x - h >= 0 { m[sq_idx(n, x - h, y)] } else { 0int })
    + (if x + h < n { m[sq_idx(n, x + h, y)] } else { 0int })
    + (if y + h < n { m[sq_idx(n, x, y + h)] } else { 0int })
}

/// How many of those neighbors lie inside the grid (2, 3 or 4, depending on
/// whether the midpoint sits on the grid border).
pub open spec fn edge_nbr_count(n: int, x: int, y: int, h: int) -> int {
    (if y - h >= 0 { 1int } else { 0int })
    + (if x - h >= 0 { 1int } else { 0int })
    + (if x + h < n { 1int } else { 0int })
    + (if y + h < n { 1int } else { 0int })
}

/// The value written at edge midpoint `(x, y)`: the average of its in-grid
/// axis-aligned neighbors at distance `h`, plus the perturbation of one
/// sample.
pub open spec fn edge_value(m: Seq<int>, n: int, x: int, y: int, h: int, sample: int, amp: int) -> int {
    edge_nbr_sum(m, n, x, y, h) / edge_nbr_count(n, x, y, h) + perturb(sample, amp)
}

/// Midpoints written per scan row: even rows (cell-corner rows) hold the
/// horizontal-edge midpoints, odd rows the vertical-edge midpoints.
pub open spec fn edge_row_width(n: int, c: int, r: int) -> int {
    if r % 2 == 0 {
        cells_per_row(n, c)
    } else {
        cells_per_row(n, c) + 1
    }
}

/// Samples consumed by the edge step before scan row `r`.
pub open spec fn edge_row_base(n: int, c: int, r: int) -> int
    decreases r,
{
    if r <= 0 {
        0
    } else {
        edge_row_base(n, c, r - 1) + edge_row_width(n, c, r - 1)
    }
}

/// Samples consumed by the whole edge step of one round.
pub open spec fn edge_count(n: int, c: int) -> int {
    edge_row_base(n, c, 2 * cells_per_row(n, c) + 1)
}

/// The map after the edge step has processed every scan row before `r`, and
/// in row `r` every midpoint with column counter below `k`.
pub open spec fn edge_partial(
    m: Seq<int>,
    n: int,
    c: int,
    amp: int,
    samples: Seq<int>,
    cur: int,
    k: int,
    r: int,
) -> Seq<int> {
    Seq::new(
        m.len(),
        |i: int|
            {
                let px = i % n;
                let py = i / n;
                let h = c / 2;
                if is_edge_mid(n, c, px, py) && (py / h < r || (py / h == r && px / c < k)) {
                    edge_value(
                        m,
                        n,
                        px,
                        py,
                        h,
                        samples[cur + edge_row_base(n, c, py / h) + px / c],
                        amp,
                    )
                } else {
                    m[i]
                }
            },
    )
}

/// The map after a whole edge step.
pub open spec fn apply_edge_step(
    m: Seq<int>,
    n: int,
    c: int,
    amp: int,
    samples: Seq<int>,
    cur: int,
) -> Seq<int> {
    edge_partial(m, n, c, amp, samples, cur, 0, 2 * cells_per_row(n, c) + 1)
}

/// Scan-row sample offsets grow with the row index.
pub proof fn lemma_edge_base_monotone(n: int, c: int, r1: int, r2: int)
    requires
        0 < c <= n - 1,
        r1 <= r2,
    ensures
        edge_row_base(n, c, r1) <= edge_row_base(n, c, r2),
    decreases r2 - r1,
{
    vstd::arithmetic::div_mod::lemma_div_pos_is_pos(n - 1, c);
    if r1 < r2 {
        lemma_edge_base_monotone(n, c, r1, r2 - 1);
    }
}

/// Before any midpoint is processed, the edge step has changed nothing.
pub proof fn lemma_edge_start(m: Seq<int>, n: int, c: int, amp: int, samples: Seq<int>, cur: int)
    requires
        0 < n,
        2 <= c,
        c % 2 == 0,
        m.len() == n * n,
    ensures
        edge_partial(m, n, c, amp, samples, cur, 0, 0) == m,
{
    let h = c / 2;
    lemma_fundamental_div_mod(c, 2);
    assert forall|i: int| 0 <= i < m.len() implies edge_partial(m, n, c, amp, samples, cur, 0, 0)[i]
        == m[i] by {
        lemma_idx_bounds(i, n);
        vstd::arithmetic::div_mod::lemma_div_pos_is_pos(i / n, h);
        vstd::arithmetic::div_mod::lemma_div_pos_is_pos(i % n, c);
    }
    assert(edge_partial(m, n, c, amp, samples, cur, 0, 0) =~= m);
}

/// A lattice corner or a cell center is untouched by the edge step.
pub proof fn lemma_edge_keeps(
    m: Seq<int>,
    n: int,
    c: int,
    amp: int,
    samples: Seq<int>,
    cur: int,
    k: int,
    r: int,
    x: int,
    y: int,
)
    requires
        2 <= c,
        c % 2 == 0,
        m.len() == n * n,
        (x % c == 0 && y % c == 0) || (x % c == c / 2 && y % c == c / 2),
        0 <= x < n,
        0 <= y < n,
    ensures
        edge_partial(m, n, c, amp, samples, cur, k, r)[sq_idx(n, x, y)] == m[sq_idx(n, x, y)],
{
    let i = sq_idx(n, x, y);
    lemma_fundamental_div_mod(c, 2);
    lemma_sq_idx_in_range(n, x, y);
    lemma_idx_bounds(i, n);
    lemma_sq_idx_injective(n, i % n, i / n, x, y);
    assert(!is_edge_mid(n, c, x, y));
}


/// Facts about the grid point written for row `r`, column counter `k`.
pub proof fn lemma_edge_point(n: int, c: int, k: int, r: int)
    requires
        2 <= c <= n - 1,
        c % 2 == 0,
        (n - 1) % c == 0,
        0 <= r <= 2 * cells_per_row(n, c),
        0 <= k < edge_row_width(n, c, r),
    ensures
        ({
            let h = c / 2;
            let x = if r % 2 == 0 { k * c + h } else { k * c };
            let y = r * h;
            &&& 0 < h < c
            &&& c == 2 * h
            &&& 0 <= x < n
            &&& 0 <= y < n
            &&& y / h == r
            &&& x / c == k
            &&& (if r % 2 == 0 { x % c == h && y % c == 0 } else { x % c == 0 && y % c == h })
            &&& is_edge_mid(n, c, x, y)
        }),
{
    let h = c / 2;
    let cpr = cells_per_row(n, c);
    let x = if r % 2 == 0 { k * c + h } else { k * c };
    let y = r * h;
    lemma_fundamental_div_mod(c, 2);
    lemma_fundamental_div_mod(n - 1, c);
    lemma_mul_is_commutative(c, cpr);
    assert(n - 1 == cpr * c);
    vstd::arithmetic::div_mod::lemma_div_pos_is_pos(n - 1, c);
    // y in range
    lemma_mul_inequality(r, 2 * cpr, h);
    assert((2 * cpr) * h == cpr * c) by (nonlinear_arith)
        requires
            c == 2 * h,
    ;
    vstd::arithmetic::mul::lemma_mul_nonnegative(r, h);
    lemma_decompose(r, h, 0);
    // x in range
    if r % 2 == 0 {
        assert(k * c + c <= cpr * c) by (nonlinear_arith)
            requires
                k + 1 <= cpr,
                c > 0,
        ;
        lemma_decompose(k, c, h);
        // y is a corner row
        lemma_fundamental_div_mod(r, 2);
        assert(y == (r / 2) * c) by (nonlinear_arith)
            requires
                r == 2 * (r / 2),
                c == 2 * h,
                y == r * h,
        ;
        vstd::arithmetic::div_mod::lemma_div_pos_is_pos(r, 2);
        lemma_decompose(r / 2, c, 0);
    } else {
        assert(k * c <= cpr * c) by (nonlinear_arith)
            requires
                k <= cpr,
                c > 0,
        ;
        vstd::arithmetic::mul::lemma_mul_nonnegative(k, c);
        lemma_decompose(k, c, 0);
        // y is a center row
        lemma_fundamental_div_mod(r, 2);
        assert(y == (r / 2) * c + h) by (nonlinear_arith)
            requires
                r == 2 * (r / 2) + 1,
                c == 2 * h,
                y == r * h,
        ;
        vstd::arithmetic::div_mod::lemma_div_pos_is_pos(r, 2);
        lemma_decompose(r / 2, c, h);
    }
}

/// An edge midpoint in scan row `r` (row counter `py / h == r`) lies at
/// exactly the point that column counter `px / c` says, and that counter is
/// below the row width.
pub proof fn lemma_edge_locate(n: int, c: int, qx: int, qy: int, r: int)
    requires
        2 <= c <= n - 1,
        c % 2 == 0,
        (n - 1) % c == 0,
        is_edge_mid(n, c, qx, qy),
        qy / (c / 2) == r,
    ensures
        qy == r * (c / 2),
        0 <= r <= 2 * cells_per_row(n, c),
        0 <= qx / c < edge_row_width(n, c, r),
        (if r % 2 == 0 {
            qx % c == c / 2 && qx == (qx / c) * c + c / 2
        } else {
            qx % c == 0 && qx == (qx / c) * c
        }),
{
    let h = c / 2;
    let cpr = cells_per_row(n, c);
    lemma_fundamental_div_mod(c, 2);
    lemma_fundamental_div_mod(n - 1, c);
    lemma_mul_is_commutative(c, cpr);
    assert(n - 1 == cpr * c);
    lemma_fundamental_div_mod(qx, c);
    lemma_fundamental_div_mod(qy, c);
    vstd::arithmetic::div_mod::lemma_div_pos_is_pos(qx, c);
    vstd::arithmetic::div_mod::lemma_div_pos_is_pos(qy, c);
    // qy is a multiple of h: either 2*(qy/c) of them, or 2*(qy/c)+1
    if qy % c == 0 {
        assert(qy == (2 * (qy / c)) * h) by (nonlinear_arith)
            requires
                qy == c * (qy / c),
                c == 2 * h,
        ;
        lemma_decompose(2 * (qy / c), h, 0);
    } else {
        assert(qy == (2 * (qy / c) + 1) * h) by (nonlinear_arith)
            requires
                qy == c * (qy / c) + h,
                c == 2 * h,
        ;
        lemma_decompose(2 * (qy / c) + 1, h, 0);
    }
    assert(qy == r * h) by {
        lemma_fundamental_div_mod(qy, h);
        lemma_mul_is_commutative(h, r);
    }
    // row counter bound: qy <= n - 1 == (2*cpr)*h
    assert((2 * cpr) * h == cpr * c) by (nonlinear_arith)
        requires
            c == 2 * h,
    ;
    assert(r <= 2 * cpr) by (nonlinear_arith)
        requires
            r * h <= (2 * cpr) * h,
            h > 0,
    ;
    assert(r >= 0) by (nonlinear_arith)
        requires
            r * h >= 0,
            h > 0,
    ;
    // parity of the row decides the midpoint kind
    if r % 2 == 0 {
        lemma_fundamental_div_mod(r, 2);
        assert(qy % c == 0) by {
            assert(qy == (r / 2) * c) by (nonlinear_arith)
                requires
                    r == 2 * (r / 2),
                    c == 2 * h,
                    qy == r * h,
            ;
            vstd::arithmetic::div_mod::lemma_div_pos_is_pos(r, 2);
            lemma_decompose(r / 2, c, 0);
        }
        assert(qx % c == h);
        lemma_mul_is_commutative(c, qx / c);
        assert(qx / c < cpr) by (nonlinear_arith)
            requires
                qx == (qx / c) * c + h,
                qx < n,
                n - 1 == cpr * c,
                0 < h < c,
                0 <= qx / c,
        ;
    } else {
        lemma_fundamental_div_mod(r, 2);
        assert(qy % c == h) by {
            assert(qy == (r / 2) * c + h) by (nonlinear_arith)
                requires
                    r == 2 * (r / 2) + 1,
                    c == 2 * h,
                    qy == r * h,
            ;
            vstd::arithmetic::div_mod::lemma_div_pos_is_pos(r, 2);
            lemma_decompose(r / 2, c, h);
        }
        assert(qx % c == 0);
        lemma_mul_is_commutative(c, qx / c);
        assert(qx / c <= cpr) by (nonlinear_arith)
            requires
                qx == (qx / c) * c,
                qx < n,
                n - 1 == cpr * c,
                0 < c,
                0 <= qx / c,
        ;
    }
}

/// Processing the midpoint with counters `(k, r)` extends the
/// partially-updated map by exactly one write.
pub proof fn lemma_edge_update(
    m: Seq<int>,
    n: int,
    c: int,
    amp: int,
    samples: Seq<int>,
    cur: int,
    k: int,
    r: int,
)
    requires
        2 <= c <= n - 1,
        c % 2 == 0,
        (n - 1) % c == 0,
        m.len() == n * n,
        0 <= r <= 2 * cells_per_row(n, c),
        0 <= k < edge_row_width(n, c, r),
    ensures
        ({
            let h = c / 2;
            let x = if r % 2 == 0 { k * c + h } else { k * c };
            let y = r * h;
            edge_partial(m, n, c, amp, samples, cur, k, r).update(
                sq_idx(n, x, y),
                edge_value(m, n, x, y, h, samples[cur + edge_row_base(n, c, r) + k], amp),
            ) == edge_partial(m, n, c, amp, samples, cur, k + 1, r)
        }),
{
    let h = c / 2;
    let x = if r % 2 == 0 { k * c + h } else { k * c };
    let y = r * h;
    lemma_edge_point(n, c, k, r);
    let istar = sq_idx(n, x, y);
    lemma_sq_idx_in_range(n, x, y);
    lemma_idx_bounds(istar, n);
    lemma_sq_idx_injective(n, istar % n, istar / n, x, y);
    let lhs = edge_partial(m, n, c, amp, samples, cur, k, r).update(
        istar,
        edge_value(m, n, x, y, h, samples[cur + edge_row_base(n, c, r) + k], amp),
    );
    let rhs = edge_partial(m, n, c, amp, samples, cur, k + 1, r);
    assert forall|i: int| 0 <= i < m.len() implies lhs[i] == rhs[i] by {
        lemma_idx_bounds(i, n);
        let qx = i % n;
        let qy = i / n;
        if i != istar {
            if is_edge_mid(n, c, qx, qy) && qy / h == r && k <= qx / c < k + 1 {
                lemma_edge_locate(n, c, qx, qy, r);
                assert(qx == x && qy == y);
                assert(sq_idx(n, qx, qy) == i);
                assert(false);
            }
        }
    }
    assert(lhs =~= rhs);
}

/// Finishing a scan row of the edge step is the same as starting the next.
pub proof fn lemma_edge_row_complete(
    m: Seq<int>,
    n: int,
    c: int,
    amp: int,
    samples: Seq<int>,
    cur: int,
    r: int,
)
    requires
        2 <= c <= n - 1,
        c % 2 == 0,
        (n - 1) % c == 0,
        m.len() == n * n,
        0 <= r <= 2 * cells_per_row(n, c),
    ensures
        edge_partial(m, n, c, amp, samples, cur, edge_row_width(n, c, r), r) == edge_partial(
            m,
            n,
            c,
            amp,
            samples,
            cur,
            0,
            r + 1,
        ),
{
    let h = c / 2;
    let lhs = edge_partial(m, n, c, amp, samples, cur, edge_row_width(n, c, r), r);
    let rhs = edge_partial(m, n, c, amp, samples, cur, 0, r + 1);
    lemma_fundamental_div_mod(c, 2);
    assert forall|i: int| 0 <= i < m.len() implies lhs[i] == rhs[i] by {
        lemma_idx_bounds(i, n);
        let qx = i % n;
        let qy = i / n;
        if is_edge_mid(n, c, qx, qy) && qy / h == r {
            lemma_edge_locate(n, c, qx, qy, r);
        }
    }
    assert(lhs =~= rhs);
}


impl HeightField {
    /// The edge ("square") step of one round: every cell-edge midpoint
    /// becomes the average of its in-grid axis-aligned neighbors at distance
    /// `chunk / 2` plus a perturbation, consuming one sample per midpoint in
    /// scan-row order starting at `cursor`.
    fn square_step(
        &mut self,
        chunk: usize,
        amp: i64,
        samples: &Vec<i64>,
        cursor: usize,
        Ghost(bnd): Ghost<int>,
    ) -> (newcur: usize)
        requires
            old(self).wf(),
            2 <= chunk <= old(self).size - 1,
            chunk % 2 == 0,
            (old(self).size - 1) as int % (chunk as int) == 0,
            0 <= amp <= SCALE,
            samples_ok(samples@),
            cursor + edge_count(old(self).size as int, chunk as int) <= samples@.len(),
            samples@.len() <= usize::MAX,
            0 <= bnd,
            bounded(old(self).heights(), bnd),
            bnd + SCALE <= HEIGHT_LIMIT as int,
        ensures
            final(self).size == old(self).size,
            final(self).wf(),
            final(self).heights() == apply_edge_step(
                old(self).heights(),
                old(self).size as int,
                chunk as int,
                amp as int,
                int_view(samples@),
                cursor as int,
            ),
            bounded(final(self).heights(), bnd + SCALE),
            newcur == cursor + edge_count(old(self).size as int, chunk as int),
    {
        let n = self.size;
        let h = chunk / 2;
        let ghost ni = n as int;
        let ghost c = chunk as int;
        let ghost hi = h as int;
        let ghost m0 = self.heights();
        let ghost svals = int_view(samples@);
        let ghost cpr = cells_per_row(ni, c);
        proof {
            lemma_fundamental_div_mod(c, 2);
            lemma_fundamental_div_mod(ni - 1, c);
            lemma_mul_is_commutative(c, cpr);
            assert(ni - 1 == cpr * c);
            lemma_div_is_ordered(c, ni - 1, c);
            lemma_div_by_multiple(1, c);
            assert(cpr >= 1);
            assert((2 * cpr) * hi == cpr * c) by (nonlinear_arith)
                requires
                    c == 2 * hi,
            ;
            lemma_edge_start(m0, ni, c, amp as int, svals, cursor as int);
            lemma_edge_base_monotone(ni, c, 0, 2 * cpr + 1);
        }
        let mut cur: usize = cursor;
        let mut y: usize = 0;
        let ghost mut r: int = 0;
        while y < n
            invariant
                self.size == old(self).size,
                self.size == n,
                valid_size(ni),
                ni == n as int,
                c == chunk as int,
                hi == h as int,
                2 <= chunk <= n - 1,
                chunk % 2 == 0,
                h == chunk / 2,
                c == 2 * hi,
                0 < hi < c,
                (ni - 1) % c == 0,
                cpr == cells_per_row(ni, c),
                1 <= cpr,
                ni - 1 == cpr * c,
                (2 * cpr) * hi == cpr * c,
                0 <= amp <= SCALE,
                samples_ok(samples@),
                samples@.len() <= usize::MAX,
                svals == int_view(samples@),
                cursor + edge_count(ni, c) <= samples@.len(),
                m0 == old(self).heights(),
                m0.len() == ni * ni,
                bounded(m0, bnd),
                0 <= bnd,
                bnd + SCALE <= HEIGHT_LIMIT as int,
                self.data@.len() == self.size * self.size,
                y == r * hi,
                0 <= r <= 2 * cpr + 1,
                cur == cursor + edge_row_base(ni, c, r),
                cur <= samples@.len(),
                self.heights() == edge_partial(m0, ni, c, amp as int, svals, cursor as int, 0, r),
                bounded(self.heights(), bnd + SCALE),
                self.wf(),
            decreases 2 * cpr + 1 - r,
        {
            proof {
                assert(r <= 2 * cpr) by (nonlinear_arith)
                    requires
                        y == r * hi,
                        y <= ni - 1,
                        (2 * cpr) * hi == cpr * c,
                        ni - 1 == cpr * c,
                        hi > 0,
                ;
                lemma_edge_base_monotone(ni, c, r + 1, 2 * cpr + 1);
                lemma_fundamental_div_mod(r, 2);
                vstd::arithmetic::div_mod::lemma_div_pos_is_pos(r, 2);
                if r % 2 == 0 {
                    assert(y as int == (r / 2) * c) by (nonlinear_arith)
                        requires
                            r == 2 * (r / 2),
                            c == 2 * hi,
                            y == r * hi,
                    ;
                    lemma_decompose(r / 2, c, 0);
                } else {
                    assert(y as int == (r / 2) * c + hi) by (nonlinear_arith)
                        requires
                            r == 2 * (r / 2) + 1,
                            c == 2 * hi,
                            y == r * hi,
                    ;
                    lemma_decompose(r / 2, c, hi);
                }
            }
            if y % chunk == 0 {
                // corner row: horizontal-edge midpoints, x = h, h + c, ...
                proof {
                    assert(r % 2 == 0);
                }
                let mut x: usize = h;
                let ghost mut k: int = 0;
                while x < n
                    invariant
                        self.size == old(self).size,
                        self.size == n,
                        valid_size(ni),
                        ni == n as int,
                        c == chunk as int,
                        hi == h as int,
                        2 <= chunk <= n - 1,
                        chunk % 2 == 0,
                        h == chunk / 2,
                        c == 2 * hi,
                        0 < hi < c,
                        (ni - 1) % c == 0,
                        cpr == cells_per_row(ni, c),
                        1 <= cpr,
                        ni - 1 == cpr * c,
                        (2 * cpr) * hi == cpr * c,
                        0 <= amp <= SCALE,
                        samples_ok(samples@),
                        samples@.len() <= usize::MAX,
                        svals == int_view(samples@),
                        cursor + edge_count(ni, c) <= samples@.len(),
                        m0 == old(self).heights(),
                        m0.len() == ni * ni,
                        bounded(m0, bnd),
                        0 <= bnd,
                        bnd + SCALE <= HEIGHT_LIMIT as int,
                        self.data@.len() == self.size * self.size,
                        y == r * hi,
                        0 <= r <= 2 * cpr,
                        r % 2 == 0,
                        y as int == (r / 2) * c,
                        y < n,
                        x == k * c + hi,
                        0 <= k <= cpr,
                        cur == cursor + edge_row_base(ni, c, r) + k,
                        edge_row_base(ni, c, r) + edge_row_width(ni, c, r) <= edge_count(ni, c),
                        self.heights() == edge_partial(
                            m0,
                            ni,
                            c,
                            amp as int,
                            svals,
                            cursor as int,
                            k,
                            r,
                        ),
                        bounded(self.heights(), bnd + SCALE),
                        self.wf(),
                    decreases cpr - k,
                {
                    proof {
                        assert(k < cpr) by (nonlinear_arith)
                            requires
                                x == k * c + hi,
                                ni - 1 == cpr * c,
                                x < ni,
                                0 < hi < c,
                                0 <= k,
                        ;
                        assert(k * c + c <= cpr * c) by (nonlinear_arith)
                            requires
                                k + 1 <= cpr,
                                c > 0,
                        ;
                        assert((k + 1) * c == k * c + c) by (nonlinear_arith);
                        // neighbor coordinates and their untouched classes
                        lemma_decompose(k, c, 0);
                        lemma_decompose(k + 1, c, 0);
                        lemma_decompose(k, c, hi);
                        if y >= h {
                            assert(y as int - hi == (r / 2 - 1) * c + hi) by (nonlinear_arith)
                                requires
                                    y as int == (r / 2) * c,
                                    c == 2 * hi,
                            ;
                            lemma_decompose(r / 2 - 1, c, hi);
                            lemma_edge_keeps(m0, ni, c, amp as int, svals, cursor as int, k, r,
                                x as int, y as int - hi);
                            lemma_sq_idx_in_range(ni, x as int, y as int - hi);
                        }
                        if y + h < n {
                            assert(y as int + hi == (r / 2) * c + hi);
                            lemma_decompose(r / 2, c, hi);
                            lemma_edge_keeps(m0, ni, c, amp as int, svals, cursor as int, k, r,
                                x as int, y as int + hi);
                            lemma_sq_idx_in_range(ni, x as int, y as int + hi);
                        }
                        lemma_decompose(r / 2, c, 0);
                        lemma_edge_keeps(m0, ni, c, amp as int, svals, cursor as int, k, r,
                            x as int - hi, y as int);
                        lemma_sq_idx_in_range(ni, x as int - hi, y as int);
                        lemma_edge_keeps(m0, ni, c, amp as int, svals, cursor as int, k, r,
                            x as int + hi, y as int);
                        lemma_sq_idx_in_range(ni, x as int + hi, y as int);
                    }
                    let mut sum: i64 = 0;
                    let mut count: i64 = 0;
                    if y >= h {
                        sum = sum + self.get(x, y - h);
                        count = count + 1;
                    }
                    if x >= h {
                        sum = sum + self.get(x - h, y);
                        count = count + 1;
                    }
                    if x + h < n {
                        sum = sum + self.get(x + h, y);
                        count = count + 1;
                    }
                    if y + h < n {
                        sum = sum + self.get(x, y + h);
                        count = count + 1;
                    }
                    proof {
                        assert(count as int == edge_nbr_count(ni, x as int, y as int, hi));
                        assert(sum as int == edge_nbr_sum(m0, ni, x as int, y as int, hi));
                        assert(-(bnd * count) <= sum as int <= bnd * count) by {
                            if count == 1 {
                            } else if count == 2 {
                            } else if count == 3 {
                            }
                        }
                    }
                    let avg = div_floor(sum, count);
                    proof {
                        lemma_div_scale_bound(sum as int, count as int, bnd);
                    }
                    let s_raw = samples[cur];
                    proof {
                        assert(-(32768 * (2 * SCALE as int)) <= (2 * s_raw - SCALE) as int * (
                        amp as int) <= 32768 * (2 * SCALE as int)) by (nonlinear_arith)
                            requires
                                0 <= s_raw < SCALE,
                                0 <= amp <= SCALE,
                                SCALE == 65536,
                        ;
                    }
                    let pert = div_floor((2 * s_raw - SCALE) * amp, 2 * SCALE);
                    proof {
                        lemma_div_scale_bound(
                            (2 * s_raw - SCALE) as int * (amp as int),
                            2 * SCALE as int,
                            32768,
                        );
                    }
                    let v = avg + pert;
                    proof {
                        lemma_edge_update(m0, ni, c, amp as int, svals, cursor as int, k, r);
                        lemma_sq_idx_in_range(ni, x as int, y as int);
                    }
                    self.set(x, y, v);
                    proof {
                        assert(v as int == edge_value(
                            m0,
                            ni,
                            x as int,
                            y as int,
                            hi,
                            svals[cur as int],
                            amp as int,
                        ));
                        assert(self.heights() =~= edge_partial(
                            m0,
                            ni,
                            c,
                            amp as int,
                            svals,
                            cursor as int,
                            k + 1,
                            r,
                        ));
                        k = k + 1;
                        assert(k * c == (k - 1) * c + c) by (nonlinear_arith);
                    }
                    cur += 1;
                    x += chunk;
                }
                proof {
                    assert(k == cpr) by (nonlinear_arith)
                        requires
                            x == k * c + hi,
                            ni - 1 == cpr * c,
                            x >= ni,
                            k <= cpr,
                            0 < hi < c,
                    ;
                    lemma_edge_row_complete(m0, ni, c, amp as int, svals, cursor as int, r);
                    r = r + 1;
                    assert(y as int + hi == r * hi) by (nonlinear_arith)
                        requires
                            y == (r - 1) * hi,
                    ;
                }
            } else {
                // center row: vertical-edge midpoints, x = 0, c, 2c, ...
                proof {
                    assert(r % 2 == 1) by {
                        if r % 2 == 0 {
                            assert(y as int % c == 0);
                        }
                    }
                }
                let mut x: usize = 0;
                let ghost mut k: int = 0;
                while x < n
                    invariant
                        self.size == old(self).size,
                        self.size == n,
                        valid_size(ni),
                        ni == n as int,
                        c == chunk as int,
                        hi == h as int,
                        2 <= chunk <= n - 1,
                        chunk % 2 == 0,
                        h == chunk / 2,
                        c == 2 * hi,
                        0 < hi < c,
                        (ni - 1) % c == 0,
                        cpr == cells_per_row(ni, c),
                        1 <= cpr,
                        ni - 1 == cpr * c,
                        (2 * cpr) * hi == cpr * c,
                        0 <= amp <= SCALE,
                        samples_ok(samples@),
                        samples@.len() <= usize::MAX,
                        svals == int_view(samples@),
                        cursor + edge_count(ni, c) <= samples@.len(),
                        m0 == old(self).heights(),
                        m0.len() == ni * ni,
                        bounded(m0, bnd),
                        0 <= bnd,
                        bnd + SCALE <= HEIGHT_LIMIT as int,
                        self.data@.len() == self.size * self.size,
                        y == r * hi,
                        0 <= r <= 2 * cpr,
                        r % 2 == 1,
                        y as int == (r / 2) * c + hi,
                        y < n,
                        x == k * c,
                        0 <= k <= cpr + 1,
                        cur == cursor + edge_row_base(ni, c, r) + k,
                        edge_row_base(ni, c, r) + edge_row_width(ni, c, r) <= edge_count(ni, c),
                        self.heights() == edge_partial(
                            m0,
                            ni,
                            c,
                            amp as int,
                            svals,
                            cursor as int,
                            k,
                            r,
                        ),
                        bounded(self.heights(), bnd + SCALE),
                        self.wf(),
                    decreases cpr + 1 - k,
                {
                    proof {
                        assert(k <= cpr) by (nonlinear_arith)
                            requires
                                x == k * c,
                                ni - 1 == cpr * c,
                                x < ni,
                                0 < c,
                                0 <= k,
                        ;
                        assert(k * c <= cpr * c) by (nonlinear_arith)
                            requires
                                k <= cpr,
                                c > 0,
                        ;
                        // neighbor coordinates and their untouched classes
                        lemma_decompose(k, c, 0);
                        vstd::arithmetic::div_mod::lemma_div_pos_is_pos(r, 2);
                        lemma_decompose(r / 2, c, 0);
                        lemma_decompose(r / 2, c, hi);
                        lemma_decompose(r / 2 + 1, c, 0);
                        assert(y as int - hi == (r / 2) * c);
                        assert(y as int + hi == (r / 2 + 1) * c) by (nonlinear_arith)
                            requires
                                y as int == (r / 2) * c + hi,
                                c == 2 * hi,
                        ;
                        lemma_edge_keeps(m0, ni, c, amp as int, svals, cursor as int, k, r,
                            x as int, y as int - hi);
                        lemma_sq_idx_in_range(ni, x as int, y as int - hi);
                        if y + h < n {
                            lemma_edge_keeps(m0, ni, c, amp as int, svals, cursor as int, k, r,
                                x as int, y as int + hi);
                            lemma_sq_idx_in_range(ni, x as int, y as int + hi);
                        }
                        if x >= h {
                            assert(k >= 1) by (nonlinear_arith)
                                requires
                                    x == k * c,
                                    x >= hi,
                                    0 < hi,
                                    0 < c,
                                    0 <= k,
                            ;
                            assert(x as int - hi == (k - 1) * c + hi) by (nonlinear_arith)
                                requires
                                    x == k * c,
                                    c == 2 * hi,
                                    0 < hi,
                            ;
                            lemma_decompose(k - 1, c, hi);
                            lemma_edge_keeps(m0, ni, c, amp as int, svals, cursor as int, k, r,
                                x as int - hi, y as int);
                            lemma_sq_idx_in_range(ni, x as int - hi, y as int);
                        }
                        if x + h < n {
                            lemma_decompose(k, c, hi);
                            lemma_edge_keeps(m0, ni, c, amp as int, svals, cursor as int, k, r,
                                x as int + hi, y as int);
                            lemma_sq_idx_in_range(ni, x as int + hi, y as int);
                        }
                    }
                    let mut sum: i64 = 0;
                    let mut count: i64 = 0;
                    if y >= h {
                        sum = sum + self.get(x, y - h);
                        count = count + 1;
                    }
                    if x >= h {
                        sum = sum + self.get(x - h, y);
                        count = count + 1;
                    }
                    if x + h < n {
                        sum = sum + self.get(x + h, y);
                        count = count + 1;
                    }
                    if y + h < n {
                        sum = sum + self.get(x, y + h);
                        count = count + 1;
                    }
                    proof {
                        assert(count as int == edge_nbr_count(ni, x as int, y as int, hi));
                        assert(sum as int == edge_nbr_sum(m0, ni, x as int, y as int, hi));
                        assert(-(bnd * count) <= sum as int <= bnd * count) by {
                            if count == 1 {
                            } else if count == 2 {
                            } else if count == 3 {
                            }
                        }
                    }
                    let avg = div_floor(sum, count);
                    proof {
                        lemma_div_scale_bound(sum as int, count as int, bnd);
                    }
                    let s_raw = samples[cur];
                    proof {
                        assert(-(32768 * (2 * SCALE as int)) <= (2 * s_raw - SCALE) as int * (
                        amp as int) <= 32768 * (2 * SCALE as int)) by (nonlinear_arith)
                            requires
                                0 <= s_raw < SCALE,
                                0 <= amp <= SCALE,
                                SCALE == 65536,
                        ;
                    }
                    let pert = div_floor((2 * s_raw - SCALE) * amp, 2 * SCALE);
                    proof {
                        lemma_div_scale_bound(
                            (2 * s_raw - SCALE) as int * (amp as int),
                            2 * SCALE as int,
                            32768,
                        );
                    }
                    let v = avg + pert;
                    proof {
                        lemma_edge_update(m0, ni, c, amp as int, svals, cursor as int, k, r);
                        lemma_sq_idx_in_range(ni, x as int, y as int);
                    }
                    self.set(x, y, v);
                    proof {
                        assert(v as int == edge_value(
                            m0,
                            ni,
                            x as int,
                            y as int,
                            hi,
                            svals[cur as int],
                            amp as int,
                        ));
                        assert(self.heights() =~= edge_partial(
                            m0,
                            ni,
                            c,
                            amp as int,
                            svals,
                            cursor as int,
                            k + 1,
                            r,
                        ));
                        k = k + 1;
                        assert(k * c == (k - 1) * c + c) by (nonlinear_arith);
                    }
                    cur += 1;
                    x += chunk;
                }
                proof {
                    assert(k == cpr + 1) by (nonlinear_arith)
                        requires
                            x == k * c,
                            ni - 1 == cpr * c,
                            x >= ni,
                            k <= cpr + 1,
                            0 < c,
                    ;
                    lemma_edge_row_complete(m0, ni, c, amp as int, svals, cursor as int, r);
                    r = r + 1;
                    assert(y as int + hi == r * hi) by (nonlinear_arith)
                        requires
                            y == (r - 1) * hi,
                    ;
                }
            }
            y += h;
        }
        proof {
            assert(r == 2 * cpr + 1) by (nonlinear_arith)
                requires
                    y == r * hi,
                    (2 * cpr) * hi == cpr * c,
                    ni - 1 == cpr * c,
                    y >= ni,
                    r <= 2 * cpr + 1,
                    hi > 0,
            ;
        }
        cur
    }
}


/// The all-zero buffer of a grid of side `n`.
pub open spec fn zero_map(n: int) -> Seq<int> {
    Seq::new((n * n) as nat, |i: int| 0int)
}

/// The four grid corners overwritten with the first four samples, in the
/// order top-left, top-right, bottom-left, bottom-right.
pub open spec fn seeded(m: Seq<int>, n: int, samples: Seq<int>) -> Seq<int> {
    m.update(sq_idx(n, 0, 0), samples[0]).update(sq_idx(n, n - 1, 0), samples[1]).update(
        sq_idx(n, 0, n - 1),
        samples[2],
    ).update(sq_idx(n, n - 1, n - 1), samples[3])
}

/// Samples consumed by one round (center step then edge step).
pub open spec fn round_count(n: int, c: int) -> int {
    center_count(n, c) + edge_count(n, c)
}

/// The rounds of midpoint displacement from chunk `c` down to chunk 1: each
/// round applies the center step, then the edge step, then halves the chunk
/// and decays the amplitude by `decay / SCALE`.
pub open spec fn ds_rounds(
    m: Seq<int>,
    n: int,
    c: int,
    amp: int,
    decay: int,
    samples: Seq<int>,
    cur: int,
) -> Seq<int>
    decreases c,
{
    if c <= 1 {
        m
    } else {
        let m1 = apply_center_step(m, n, c, amp, samples, cur);
        let m2 = apply_edge_step(m1, n, c, amp, samples, cur + center_count(n, c));
        ds_rounds(
            m2,
            n,
            c / 2,
            amp * decay / (SCALE as int),
            decay,
            samples,
            cur + round_count(n, c),
        )
    }
}

/// The complete generated field: zeroed, corner-seeded with the first four
/// samples, then displaced round by round. Generation is a pure function of
/// the grid side, the parameters and the sample sequence.
pub open spec fn ds_spec(n: int, roughness: int, decay: int, samples: Seq<int>) -> Seq<int> {
    ds_rounds(seeded(zero_map(n), n, samples), n, n - 1, roughness, decay, samples, 4)
}

/// Samples demanded by the rounds from chunk `c` down.
pub open spec fn ds_demand(n: int, c: int) -> int
    decreases c,
{
    if c <= 1 {
        0
    } else {
        round_count(n, c) + ds_demand(n, c / 2)
    }
}

/// Powers of two.
pub open spec fn pow2(e: nat) -> int
    decreases e,
{
    if e == 0 {
        1
    } else {
        2 * pow2((e - 1) as nat)
    }
}

/// Closed form of the edge-step scan-row offsets.
pub proof fn lemma_edge_base_closed(n: int, c: int, r: int)
    requires
        2 <= c <= n - 1,
        (n - 1) % c == 0,
        0 <= r,
    ensures
        edge_row_base(n, c, r) == (r / 2) * (2 * cells_per_row(n, c) + 1) + (if r % 2 == 1 {
            cells_per_row(n, c)
        } else {
            0int
        }),
    decreases r,
{
    let q = cells_per_row(n, c);
    lemma_fundamental_div_mod(r, 2);
    vstd::arithmetic::div_mod::lemma_mod_division_less_than_divisor(r, 2);
    if r == 0 {
        assert(r / 2 == 0);
        assert(edge_row_base(n, c, 0) == 0);
        assert((r / 2) * (2 * q + 1) == 0) by (nonlinear_arith)
            requires
                r / 2 == 0,
        ;
    } else {
        lemma_edge_base_closed(n, c, r - 1);
        assert(edge_row_base(n, c, r) == edge_row_base(n, c, r - 1) + edge_row_width(n, c, r - 1));
        if r % 2 == 0 {
            // r - 1 is odd and (r - 1) / 2 == r / 2 - 1
            assert(r - 1 == (r / 2 - 1) * 2 + 1) by (nonlinear_arith)
                requires
                    r == 2 * (r / 2),
            ;
            lemma_fundamental_div_mod_converse(r - 1, 2, r / 2 - 1, 1);
            assert(edge_row_base(n, c, r - 1) == (r / 2 - 1) * (2 * q + 1) + q);
            assert(edge_row_width(n, c, r - 1) == q + 1);
            assert((r / 2 - 1) * (2 * q + 1) + q + (q + 1) == (r / 2) * (2 * q + 1))
                by (nonlinear_arith);
        } else {
            // r - 1 is even and (r - 1) / 2 == r / 2
            assert(r - 1 == (r / 2) * 2 + 0) by (nonlinear_arith)
                requires
                    r == 2 * (r / 2) + 1,
            ;
            lemma_fundamental_div_mod_converse(r - 1, 2, r / 2, 0);
            assert(edge_row_base(n, c, r - 1) == (r / 2) * (2 * q + 1));
            assert(edge_row_width(n, c, r - 1) == q);
        }
    }
}

/// The demands of all the steps are non-negative.
pub proof fn lemma_ds_demand_nonneg(n: int, c: int)
    requires
        2 <= n,
        1 <= c <= n - 1,
    ensures
        ds_demand(n, c) >= 0,
        center_count(n, c) >= 0,
        edge_count(n, c) >= 0,
    decreases c,
{
    vstd::arithmetic::div_mod::lemma_div_pos_is_pos(n - 1, c);
    vstd::arithmetic::mul::lemma_mul_nonnegative(cells_per_row(n, c), cells_per_row(n, c));
    lemma_edge_base_monotone(n, c, 0, 2 * cells_per_row(n, c) + 1);
    if c > 1 {
        lemma_ds_demand_nonneg(n, c / 2);
    }
}

/// The rounds from chunk `c` down consume exactly the samples for every grid
/// point that is not on the chunk-`c` lattice: `n*n - (q+1)*(q+1)` of them,
/// where `q + 1` points of each axis lie on that lattice.
pub proof fn lemma_ds_demand_total(n: int, c: int)
    requires
        3 <= n,
        1 <= c <= n - 1,
        (n - 1) % c == 0,
        crate::field::is_pow2(c as nat),
    ensures
        ds_demand(n, c) == n * n - ((n - 1) / c + 1) * ((n - 1) / c + 1),
    decreases c,
{
    let q = (n - 1) / c;
    lemma_fundamental_div_mod(n - 1, c);
    lemma_mul_is_commutative(c, q);
    assert(n - 1 == q * c);
    if c == 1 {
        assert(n * n - ((n - 1) + 1) * ((n - 1) + 1) == 0) by (nonlinear_arith);
    } else {
        assert(c % 2 == 0 && crate::field::is_pow2((c / 2) as nat));
        lemma_fundamental_div_mod(c, 2);
        // the next chunk still divides the grid, with twice the cells per row
        assert(n - 1 == (2 * q) * (c / 2) + 0) by (nonlinear_arith)
            requires
                n - 1 == q * c,
                c == 2 * (c / 2),
        ;
        vstd::arithmetic::div_mod::lemma_div_pos_is_pos(n - 1, c);
        lemma_fundamental_div_mod_converse(n - 1, c / 2, 2 * q, 0);
        lemma_ds_demand_total(n, c / 2);
        // this round's own consumption: q*q centers and 2*q*(q+1) midpoints
        lemma_edge_base_closed(n, c, 2 * q + 1);
        lemma_fundamental_div_mod_converse(2 * q + 1, 2, q, 1);
        assert(q * (2 * q + 1) + q + (q * q) == n * n - ((2 * q) + 1) * ((2 * q) + 1) + n * n
            - (q + 1) * (q + 1) - (n * n - ((2 * q) + 1) * ((2 * q) + 1)) - (n * n - (q + 1) * (q
            + 1)) + q * (2 * q + 1) + q + q * q);
        assert(ds_demand(n, c) == q * q + (q * (2 * q + 1) + q) + ds_demand(n, c / 2));
        assert(q * q + (q * (2 * q + 1) + q) + (n * n - (2 * q + 1) * (2 * q + 1)) == n * n - (q
            + 1) * (q + 1)) by (nonlinear_arith);
    }
}


impl HeightField {
    /// Full diamond-square generation: reset the buffer, seed the four
    /// corners from the first four samples, then run the displacement rounds
    /// from the coarsest chunk down to unit spacing. The result is a pure
    /// function of the grid side, the parameters and the samples.
    pub fn diamond_square(&mut self, roughness: i64, decay: i64, samples: &Vec<i64>)
        requires
            old(self).wf(),
            0 <= roughness <= SCALE,
            0 <= decay <= SCALE,
            samples_ok(samples@),
            samples@.len() >= old(self).size * old(self).size,
        ensures
            final(self).wf(),
            final(self).size == old(self).size,
            final(self).heights() == ds_spec(
                old(self).size as int,
                roughness as int,
                decay as int,
                int_view(samples@),
            ),
    {
        let n = self.size;
        // pins the sample count to a machine word for the cursor arithmetic
        let _samples_len = samples.len();
        let ghost ni = n as int;
        let ghost svals = int_view(samples@);
        proof {
            crate::field::lemma_size_sq_bound(ni);
            assert(_samples_len == samples@.len());
            assert(samples@.len() <= usize::MAX);
        }
        // reset: generation overwrites every cell, starting from a zero field
        let mut i: usize = 0;
        while i < self.data.len()
            invariant
                self.size == old(self).size,
                self.size == n,
                ni == n as int,
                valid_size(ni),
                self.data@.len() == self.size * self.size,
                i <= self.data@.len(),
                forall|j: int| 0 <= j < i ==> #[trigger] self.data@[j] == 0i64,
            decreases self.data@.len() - i,
        {
            self.data.set(i, 0i64);
            i += 1;
        }
        proof {
            assert(self.heights() =~= zero_map(ni));
            assert(bounded(self.heights(), HEIGHT_LIMIT as int));
        }
        // seed the corners with the first four samples
        let last = n - 1;
        proof {
            lemma_sq_idx_in_range(ni, 0, 0);
            lemma_sq_idx_in_range(ni, ni - 1, 0);
            lemma_sq_idx_in_range(ni, 0, ni - 1);
            lemma_sq_idx_in_range(ni, ni - 1, ni - 1);
        }
        let s0 = samples[0];
        let s1 = samples[1];
        let s2 = samples[2];
        let s3 = samples[3];
        self.set(0, 0, s0);
        self.set(last, 0, s1);
        self.set(0, last, s2);
        self.set(last, last, s3);
        proof {
            assert(self.heights() == seeded(zero_map(ni), ni, svals));
            assert forall|j: int| 0 <= j < self.heights().len() implies -(SCALE as int)
                <= #[trigger] self.heights()[j] <= SCALE as int by {
                assert(self.heights()[j] == seeded(zero_map(ni), ni, svals)[j]);
            }
        }
        let ghost target = ds_rounds(
            self.heights(),
            ni,
            ni - 1,
            roughness as int,
            decay as int,
            svals,
            4,
        );
        proof {
            assert(target == ds_spec(ni, roughness as int, decay as int, svals));
            lemma_ds_demand_total(ni, ni - 1);
            lemma_div_by_multiple(1, ni - 1);
            assert((ni - 1) / (ni - 1) == 1);
            assert(((ni - 1) / (ni - 1) + 1) * ((ni - 1) / (ni - 1) + 1) == 4) by (nonlinear_arith)
                requires
                    (ni - 1) / (ni - 1) == 1,
            ;
            assert(4 + ds_demand(ni, ni - 1) == ni * ni);
            assert(pow2(13) == 8192) by {
                reveal_with_fuel(pow2, 14);
            }
        }
        let mut chunk: usize = n - 1;
        let mut amp: i64 = roughness;
        let mut cursor: usize = 4;
        let ghost mut e: nat = 13;
        let ghost mut bnd: int = SCALE as int;
        while chunk > 1
            invariant
                self.size == old(self).size,
                self.size == n,
                ni == n as int,
                valid_size(ni),
                self.data@.len() == self.size * self.size,
                svals == int_view(samples@),
                samples_ok(samples@),
                samples@.len() >= ni * ni,
                samples@.len() <= usize::MAX,
                1 <= chunk <= n - 1,
                crate::field::is_pow2(chunk as nat),
                (ni - 1) % (chunk as int) == 0,
                0 <= amp <= SCALE,
                0 <= decay <= SCALE,
                cursor as int + ds_demand(ni, chunk as int) == ni * ni,
                cursor <= samples@.len(),
                chunk as int <= pow2(e),
                0 <= bnd,
                bnd + 2 * (SCALE as int) * (e as int) <= HEIGHT_LIMIT as int,
                bounded(self.heights(), bnd),
                self.wf(),
                ds_rounds(
                    self.heights(),
                    ni,
                    chunk as int,
                    amp as int,
                    decay as int,
                    svals,
                    cursor as int,
                ) == target,
            decreases chunk,
        {
            let ghost c = chunk as int;
            let ghost m_round = self.heights();
            proof {
                assert(chunk % 2 == 0);
                assert(e >= 1) by {
                    if e == 0 {
                        assert(pow2(0) == 1);
                    }
                }
                assert(bnd + 2 * SCALE as int <= HEIGHT_LIMIT as int) by (nonlinear_arith)
                    requires
                        bnd + 2 * (SCALE as int) * (e as int) <= HEIGHT_LIMIT as int,
                        e >= 1,
                        SCALE == 65536,
                        0 <= bnd,
                ;
                lemma_ds_demand_nonneg(ni, c);
                lemma_ds_demand_nonneg(ni, c / 2);
            }
            let cursor1 = self.diamond_step(chunk, amp, samples, cursor, Ghost(bnd));
            proof {
                bnd = bnd + SCALE as int;
            }
            let cursor2 = self.square_step(chunk, amp, samples, cursor1, Ghost(bnd));
            proof {
                bnd = bnd + SCALE as int;
            }
            proof {
                assert(-(SCALE as int) * (SCALE as int) <= (amp as int) * (decay as int)
                    <= (SCALE as int) * (SCALE as int)) by (nonlinear_arith)
                    requires
                        0 <= amp <= SCALE,
                        0 <= decay <= SCALE,
                ;
            }
            let amp_next = div_floor(amp * decay, SCALE);
            proof {
                vstd::arithmetic::mul::lemma_mul_nonnegative(amp as int, decay as int);
                vstd::arithmetic::div_mod::lemma_div_pos_is_pos((amp as int) * (decay as int), SCALE as int);
                lemma_mul_inequality(decay as int, SCALE as int, amp as int);
                lemma_mul_is_commutative(decay as int, amp as int);
                lemma_mul_is_commutative(SCALE as int, amp as int);
                lemma_div_is_ordered((amp as int) * (decay as int), (amp as int) * (SCALE as int), SCALE as int);
                lemma_div_by_multiple(amp as int, SCALE as int);
                assert(0 <= amp_next <= amp);
                // one spec round has just been computed
                assert(ds_rounds(self.heights(), ni, c / 2, amp_next as int, decay as int, svals, cursor2 as int)
                    == target);
                // the next chunk keeps the loop facts
                lemma_fundamental_div_mod(c, 2);
                lemma_fundamental_div_mod(ni - 1, c);
                assert(ni - 1 == (2 * ((ni - 1) / c)) * (c / 2) + 0) by (nonlinear_arith)
                    requires
                        ni - 1 == c * ((ni - 1) / c),
                        c == 2 * (c / 2),
                ;
                vstd::arithmetic::div_mod::lemma_div_pos_is_pos(ni - 1, c);
                lemma_fundamental_div_mod_converse(ni - 1, c / 2, 2 * ((ni - 1) / c), 0);
                // pow2 bookkeeping
                assert(pow2(e) == 2 * pow2((e - 1) as nat));
                lemma_div_is_ordered(c, pow2(e), 2);
                assert((2 * pow2((e - 1) as nat)) / 2 == pow2((e - 1) as nat)) by {
                    lemma_fundamental_div_mod_converse(
                        2 * pow2((e - 1) as nat),
                        2,
                        pow2((e - 1) as nat),
                        0,
                    );
                }
                assert(2 * (SCALE as int) * ((e - 1) as int) == 2 * (SCALE as int) * (e as int) - 2
                    * (SCALE as int)) by (nonlinear_arith)
                    requires
                        e >= 1,
                ;
                e = (e - 1) as nat;
            }
            amp = amp_next;
            cursor = cursor2;
            chunk = chunk / 2;
        }
        proof {
            assert(chunk == 1);
        }
    }
}


/// `(x, y)` is one of the four seeded corners.
pub open spec fn is_corner(n: int, x: int, y: int) -> bool {
    (x == 0 || x == n - 1) && (y == 0 || y == n - 1)
}

/// `(x, y)` is written by the round at chunk `c`.
pub open spec fn written_at_chunk(n: int, c: int, x: int, y: int) -> bool {
    is_center(n, c, x, y) || is_edge_mid(n, c, x, y)
}

/// `(x, y)` is written by some round of the generation that starts at chunk
/// `c` (the chunks `c, c/2, ..., 2`).
pub open spec fn gen_writes(n: int, c: int, x: int, y: int) -> bool
    decreases c,
{
    if c <= 1 {
        false
    } else {
        written_at_chunk(n, c, x, y) || gen_writes(n, c / 2, x, y)
    }
}

/// Between two powers of two there is a factor of at least two.
pub proof fn lemma_pow2_le(b: nat, a: nat)
    requires
        crate::field::is_pow2(a),
        crate::field::is_pow2(b),
        b < a,
    ensures
        2 * b <= a,
    decreases a,
{
    if b >= 2 {
        lemma_pow2_le(b / 2, a / 2);
    }
}

/// A point written at chunk `c2` is written by a generation that starts at
/// any power-of-two chunk at least `c2`.
pub proof fn lemma_gen_writes_at(n: int, cfrom: int, c2: int, x: int, y: int)
    requires
        written_at_chunk(n, c2, x, y),
        2 <= c2 <= cfrom,
        crate::field::is_pow2(cfrom as nat),
        crate::field::is_pow2(c2 as nat),
    ensures
        gen_writes(n, cfrom, x, y),
    decreases cfrom,
{
    if cfrom > c2 {
        lemma_pow2_le(c2 as nat, cfrom as nat);
        lemma_gen_writes_at(n, cfrom / 2, c2, x, y);
    }
}

/// Every point of the sub-lattice with spacing `c` is a seeded corner or is
/// written by some round.
proof fn lemma_lattice_covered(n: int, c: int, x: int, y: int)
    requires
        valid_size(n),
        1 <= c <= n - 1,
        (n - 1) % c == 0,
        crate::field::is_pow2(c as nat),
        x % c == 0,
        y % c == 0,
        0 <= x < n,
        0 <= y < n,
    ensures
        is_corner(n, x, y) || gen_writes(n, n - 1, x, y),
    decreases n - c,
{
    if c == n - 1 {
        // the lattice at the coarsest spacing is exactly the four corners
        lemma_fundamental_div_mod(x, c);
        vstd::arithmetic::div_mod::lemma_div_pos_is_pos(x, c);
        assert(x == 0 || x == n - 1) by (nonlinear_arith)
            requires
                x == c * (x / c),
                0 <= x / c,
                0 <= x <= c,
                c >= 2,
                c == n - 1,
        ;
        lemma_fundamental_div_mod(y, c);
        vstd::arithmetic::div_mod::lemma_div_pos_is_pos(y, c);
        assert(y == 0 || y == n - 1) by (nonlinear_arith)
            requires
                y == c * (y / c),
                0 <= y / c,
                0 <= y <= c,
                c >= 2,
                c == n - 1,
        ;
    } else {
        // step up to spacing 2c, which still divides the grid side
        let c2 = 2 * c;
        assert(crate::field::is_pow2((n - 1) as nat));
        lemma_pow2_le(c as nat, (n - 1) as nat);
        assert(crate::field::is_pow2(c2 as nat)) by {
            assert(c2 as nat % 2 == 0 && (c2 as nat) / 2 == c as nat) by (nonlinear_arith)
                requires
                    c2 == 2 * c,
                    c >= 1,
            ;
        }
        // (n - 1) % (2c) == 0: the quotient is even because both are powers of 2
        let q = (n - 1) / c;
        lemma_fundamental_div_mod(n - 1, c);
        lemma_pow2_quotient(((n - 1)) as nat, c as nat);
        assert(n - 1 == (q / 2) * c2 + (q % 2) * c) by (nonlinear_arith)
            requires
                n - 1 == c * q,
                q == 2 * (q / 2) + q % 2,
                c2 == 2 * c,
        ;
        assert(q % 2 == 0);
        vstd::arithmetic::div_mod::lemma_div_pos_is_pos(n - 1, c);
        lemma_fundamental_div_mod_converse(n - 1, c2, q / 2, 0);
        // where does (x, y) sit on the 2c grid?
        let mx = x / c;
        let my = y / c;
        lemma_fundamental_div_mod(x, c);
        lemma_fundamental_div_mod(y, c);
        vstd::arithmetic::div_mod::lemma_div_pos_is_pos(x, c);
        vstd::arithmetic::div_mod::lemma_div_pos_is_pos(y, c);
        lemma_fundamental_div_mod(mx, 2);
        lemma_fundamental_div_mod(my, 2);
        vstd::arithmetic::div_mod::lemma_mod_division_less_than_divisor(mx, 2);
        vstd::arithmetic::div_mod::lemma_mod_division_less_than_divisor(my, 2);
        assert(x == (mx / 2) * c2 + (mx % 2) * c) by (nonlinear_arith)
            requires
                x == c * mx,
                mx == 2 * (mx / 2) + mx % 2,
                c2 == 2 * c,
        ;
        assert(y == (my / 2) * c2 + (my % 2) * c) by (nonlinear_arith)
            requires
                y == c * my,
                my == 2 * (my / 2) + my % 2,
                c2 == 2 * c,
        ;
        vstd::arithmetic::div_mod::lemma_div_pos_is_pos(mx, 2);
        vstd::arithmetic::div_mod::lemma_div_pos_is_pos(my, 2);
        if mx % 2 == 0 && my % 2 == 0 {
            lemma_fundamental_div_mod_converse(x, c2, mx / 2, 0);
            lemma_fundamental_div_mod_converse(y, c2, my / 2, 0);
            lemma_lattice_covered(n, c2, x, y);
        } else {
            assert(0 <= (mx % 2) * c < c2) by (nonlinear_arith)
                requires
                    0 <= mx % 2 < 2,
                    c2 == 2 * c,
                    c >= 1,
            ;
            assert(0 <= (my % 2) * c < c2) by (nonlinear_arith)
                requires
                    0 <= my % 2 < 2,
                    c2 == 2 * c,
                    c >= 1,
            ;
            lemma_fundamental_div_mod_converse(x, c2, mx / 2, (mx % 2) * c);
            lemma_fundamental_div_mod_converse(y, c2, my / 2, (my % 2) * c);
            assert(c2 / 2 == c) by {
                lemma_fundamental_div_mod_converse(c2, 2, c, 0);
            }
            if mx % 2 == 1 {
                assert(x % c2 == 1 * c == c);
            } else {
                assert(x % c2 == 0 * c == 0);
            }
            if my % 2 == 1 {
                assert(y % c2 == 1 * c == c);
            } else {
                assert(y % c2 == 0 * c == 0);
            }
            assert(written_at_chunk(n, c2, x, y));
            lemma_gen_writes_at(n, n - 1, c2, x, y);
        }
    }
}

/// The quotient of two powers of two is even unless they are equal.
proof fn lemma_pow2_quotient(a: nat, b: nat)
    requires
        crate::field::is_pow2(a),
        crate::field::is_pow2(b),
        b < a,
    ensures
        a % b == 0,
        (a / b) % 2 == 0,
    decreases a,
{
    if b == a / 2 {
        lemma_fundamental_div_mod_converse(a as int, b as int, 2, 0);
    } else {
        lemma_pow2_le(b, a);
        assert(b < a / 2) by {
            if b >= a / 2 {
                assert(2 * b >= a);
                assert(a == 2 * (a / 2));
            }
        }
        lemma_pow2_quotient(a / 2, b);
        let q = ((a / 2) as int) / (b as int);
        lemma_fundamental_div_mod((a / 2) as int, b as int);
        assert(a as int == (2 * q) * (b as int) + 0) by (nonlinear_arith)
            requires
                (a / 2) as int == (b as int) * q,
                a as int == 2 * ((a / 2) as int),
        ;
        vstd::arithmetic::div_mod::lemma_div_pos_is_pos((a / 2) as int, b as int);
        lemma_fundamental_div_mod_converse(a as int, b as int, 2 * q, 0);
        lemma_fundamental_div_mod(q, 2);
        lemma_fundamental_div_mod_converse(2 * q, 2, q, 0);
    }
}

/// Law: the generator writes every cell. Each grid point is either one of
/// the four seeded corners or the center or edge midpoint of some round's
/// cell, so no cell is left at its initial value.
pub proof fn lemma_generator_covers_grid(n: int, x: int, y: int)
    requires
        valid_size(n),
        0 <= x < n,
        0 <= y < n,
    ensures
        is_corner(n, x, y) || gen_writes(n, n - 1, x, y),
{
    lemma_fundamental_div_mod_converse(x, 1, x, 0);
    lemma_fundamental_div_mod_converse(y, 1, y, 0);
    lemma_fundamental_div_mod_converse(n - 1, 1, n - 1, 0);
    lemma_lattice_covered(n, 1, x, y);
}

} // verus!
