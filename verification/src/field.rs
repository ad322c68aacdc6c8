//! The square height-field buffer: a flat, row-major grid of fixed-point
//! elevation samples, plus the linear rescaling (normalization) pass.

use vstd::prelude::*;
use vstd::arithmetic::div_mod::{lemma_div_by_multiple, lemma_div_is_ordered, lemma_div_of0, lemma_div_pos_is_pos};
use vstd::arithmetic::mul::lemma_mul_inequality;
use crate::fixed::SCALE;

verus! {

/// Every height stays strictly inside this magnitude, which keeps all
/// intermediate products of the engine inside `i64` and `u64`.
pub const HEIGHT_LIMIT: i64 = 4194304;

/// Largest supported grid side, `2^13 + 1`: keeps every buffer index and the
/// sample count for a full generation comfortably inside `usize`.
pub const MAX_SIZE: usize = 8193;

/// `n` is a (positive) power of two.
pub open spec fn is_pow2(n: nat) -> bool
    decreases n,
{
    if n == 0 {
        false
    } else if n == 1 {
        true
    } else {
        n % 2 == 0 && is_pow2(n / 2)
    }
}

/// A usable grid side: `size - 1` must be a power of two and at least 2.
pub open spec fn valid_size(n: int) -> bool {
    3 <= n <= MAX_SIZE && is_pow2((n - 1) as nat)
}

/// Row-major index of grid point `(x, y)` in a grid of side `n`.
pub open spec fn sq_idx(n: int, x: int, y: int) -> int {
    x + y * n
}

/// All values of `s` are at most `b` in magnitude.
pub open spec fn bounded(s: Seq<int>, b: int) -> bool {
    forall|i: int| 0 <= i < s.len() ==> -b <= #[trigger] s[i] <= b
}

/// For a valid grid side `n`, the buffer length `n * n` is small.
pub proof fn lemma_size_sq_bound(n: int)
    requires
        3 <= n <= MAX_SIZE,
    ensures
        9 <= n * n <= 67125249,
{
    lemma_mul_inequality(3, n, n);
    lemma_mul_inequality(n, MAX_SIZE as int, n);
    lemma_mul_inequality(n, MAX_SIZE as int, MAX_SIZE as int);
}

/// A square grid of fixed-point elevation samples in a flat row-major buffer
/// (`index(x, y) = x + y * size`), as the rendering and host layers consume
/// it.
#[derive(Debug)]
pub struct HeightField {
    pub size: usize,
    pub data: Vec<i64>,
}

impl HeightField {
    /// The mathematical contents of the buffer.
    pub open spec fn heights(&self) -> Seq<int> {
        self.data@.map_values(|v: i64| v as int)
    }

    /// Structural invariant: valid side, full buffer, bounded samples.
    pub open spec fn wf(&self) -> bool {
        &&& valid_size(self.size as int)
        &&& self.data@.len() == self.size * self.size
        &&& bounded(self.heights(), HEIGHT_LIMIT as int)
    }

    /// A zero-filled field of side `size`.
    pub fn new(size: usize) -> (f: HeightField)
        requires
            valid_size(size as int),
        ensures
            f.wf(),
            f.size == size,
            forall|i: int| 0 <= i < f.heights().len() ==> #[trigger] f.heights()[i] == 0,
    {
        proof {
            lemma_size_sq_bound(size as int);
        }
        let n: usize = size * size;
        let mut data: Vec<i64> = Vec::new();
        while data.len() < n
            invariant
                data@.len() <= n,
                forall|i: int| 0 <= i < data@.len() ==> #[trigger] data@[i] == 0i64,
            decreases n - data@.len(),
        {
            data.push(0i64);
        }
        HeightField { size, data }
    }

    /// Row-major index of `(x, y)`.
    pub fn index(&self, x: usize, y: usize) -> (i: usize)
        requires
            valid_size(self.size as int),
            x < self.size,
            y < self.size,
        ensures
            i == sq_idx(self.size as int, x as int, y as int),
            i < self.size * self.size,
    {
        proof {
            lemma_size_sq_bound(self.size as int);
            lemma_mul_inequality(y as int, y as int + 1, self.size as int);
            lemma_mul_inequality(y as int + 1, self.size as int, self.size as int);
            assert((y as int + 1) * (self.size as int) == y as int * self.size as int
                + self.size as int) by (nonlinear_arith);
        }
        x + y * self.size
    }

    /// The sample at `(x, y)`.
    pub fn get(&self, x: usize, y: usize) -> (v: i64)
        requires
            self.wf(),
            x < self.size,
            y < self.size,
        ensures
            v as int == self.heights()[sq_idx(self.size as int, x as int, y as int)],
    {
        let i = self.index(x, y);
        self.data[i]
    }

    /// Overwrite the sample at `(x, y)`.
    pub fn set(&mut self, x: usize, y: usize, v: i64)
        requires
            old(self).wf(),
            x < old(self).size,
            y < old(self).size,
            -HEIGHT_LIMIT <= v <= HEIGHT_LIMIT,
        ensures
            final(self).wf(),
            final(self).size == old(self).size,
            final(self).heights() == old(self).heights().update(
                sq_idx(old(self).size as int, x as int, y as int),
                v as int,
            ),
    {
        let i = self.index(x, y);
        self.data.set(i, v);
        proof {
            assert(self.heights() =~= old(self).heights().update(
                sq_idx(self.size as int, x as int, y as int),
                v as int,
            ));
        }
    }
}

/// The rescaled field: minimum maps to 0, maximum to `SCALE`, everything else
/// linearly (and exactly, in fixed point) in between. A constant field is
/// mapped to all zeros — the documented fallback that avoids dividing by the
/// zero range.
pub open spec fn normalize_spec(s: Seq<int>) -> Seq<int> {
    let mn = s.min();
    let mx = s.max();
    if mn == mx {
        s.map_values(|v: int| 0int)
    } else {
        s.map_values(|v: int| (v - mn) * (SCALE as int) / (mx - mn))
    }
}

impl HeightField {
    /// The smallest and largest sample in the buffer.
    fn min_max(&self) -> (r: (i64, i64))
        requires
            self.wf(),
        ensures
            r.0 as int == self.heights().min(),
            r.1 as int == self.heights().max(),
    {
        proof {
            lemma_size_sq_bound(self.size as int);
        }
        let ghost s = self.heights();
        let mut mn: i64 = self.data[0];
        let mut mx: i64 = self.data[0];
        let mut i: usize = 1;
        assert(s[0] == self.data@[0] as int);
        while i < self.data.len()
            invariant
                s == self.heights(),
                s.len() == self.data@.len(),
                1 <= i <= self.data@.len(),
                forall|j: int| 0 <= j < i ==> mn <= #[trigger] self.data@[j] <= mx,
                exists|j: int| 0 <= j < i && self.data@[j] == mn,
                exists|j: int| 0 <= j < i && self.data@[j] == mx,
            decreases self.data@.len() - i,
        {
            let v = self.data[i];
            if v < mn {
                mn = v;
            }
            if v > mx {
                mx = v;
            }
            i += 1;
        }
        assert(forall|j: int| 0 <= j < s.len() ==> mn as int <= #[trigger] s[j] <= mx as int);
        assert(exists|j: int| 0 <= j < s.len() && s[j] == mn as int) by {
            let j = choose|j: int| 0 <= j < self.data@.len() && self.data@[j] == mn;
            assert(s[j] == self.data@[j] as int);
        }
        assert(exists|j: int| 0 <= j < s.len() && s[j] == mx as int) by {
            let j = choose|j: int| 0 <= j < self.data@.len() && self.data@[j] == mx;
            assert(s[j] == self.data@[j] as int);
        }
        proof {
            s.min_ensures();
            s.max_ensures();
            // mn and mx are elements, so the true extrema bound them ...
            let jmn = choose|j: int| 0 <= j < s.len() && s[j] == mn as int;
            assert(s.min() <= s[jmn]);
            let jmx = choose|j: int| 0 <= j < s.len() && s[j] == mx as int;
            assert(s[jmx] <= s.max());
            // ... and mn and mx bound every element, the extrema included.
            assert(s.contains(s.min()));
            let kmn = choose|j: int| 0 <= j < s.len() && s[j] == s.min();
            assert(mn as int <= s[kmn]);
            assert(s.contains(s.max()));
            let kmx = choose|j: int| 0 <= j < s.len() && s[j] == s.max();
            assert(s[kmx] <= mx as int);
        }
        (mn, mx)
    }

    /// Linearly rescale the field so its minimum maps to 0 and its maximum to
    /// `SCALE`; a constant field becomes all zeros.
    pub fn normalize(&mut self)
        requires
            old(self).wf(),
        ensures
            final(self).wf(),
            final(self).size == old(self).size,
            final(self).heights() == normalize_spec(old(self).heights()),
    {
        let ghost s0 = old(self).heights();
        let (mn, mx) = self.min_max();
        proof {
            s0.min_ensures();
            s0.max_ensures();
        }
        if mn == mx {
            let mut i: usize = 0;
            while i < self.data.len()
                invariant
                    self.size == old(self).size,
                    valid_size(self.size as int),
                    self.data@.len() == self.size * self.size,
                    self.data@.len() == s0.len(),
                    i <= self.data@.len(),
                    forall|j: int| 0 <= j < i ==> #[trigger] self.data@[j] == 0i64,
                decreases self.data@.len() - i,
            {
                self.data.set(i, 0i64);
                i += 1;
            }
            proof {
                assert(self.heights() =~= normalize_spec(s0));
            }
        } else {
            let range: i64 = mx - mn;
            let mut i: usize = 0;
            while i < self.data.len()
                invariant
                    self.size == old(self).size,
                    valid_size(self.size as int),
                    self.data@.len() == self.size * self.size,
                    self.data@.len() == s0.len(),
                    i <= self.data@.len(),
                    mn as int == s0.min(),
                    mx as int == s0.max(),
                    mn < mx,
                    range == mx - mn,
                    0 < range <= 2 * HEIGHT_LIMIT,
                    forall|j: int| 0 <= j < s0.len() ==> -HEIGHT_LIMIT <= #[trigger] s0[j] <= HEIGHT_LIMIT,
                    forall|j: int| 0 <= j < s0.len() ==> mn as int <= #[trigger] s0[j] <= mx as int,
                    forall|j: int| 0 <= j < i ==>
                        #[trigger] self.data@[j] as int == (s0[j] - mn as int) * (SCALE as int) / (mx as int - mn as int),
                    forall|j: int| 0 <= j < i ==> 0 <= #[trigger] self.data@[j] <= SCALE,
                    forall|j: int| i <= j < s0.len() ==> #[trigger] self.data@[j] as int == s0[j],
                decreases self.data@.len() - i,
            {
                let v: i64 = self.data[i];
                assert(v as int == s0[i as int]);
                let scaled: u64 = ((v - mn) as u64) * (SCALE as u64) / (range as u64);
                proof {
                    let d = v as int - mn as int;
                    let r = range as int;
                    lemma_div_pos_is_pos(d * (SCALE as int), r);
                    lemma_mul_inequality(d, r, SCALE as int);
                    lemma_div_is_ordered(d * (SCALE as int), r * (SCALE as int), r);
                    lemma_div_by_multiple(SCALE as int, r);
                    assert(0 <= d * (SCALE as int) / r <= SCALE as int);
                }
                self.data.set(i, scaled as i64);
                i += 1;
            }
            proof {
                assert(self.heights() =~= normalize_spec(s0));
            }
        }
    }
}


/// Law: rescaling pins the extrema. For any non-constant field the normalized
/// minimum is exactly 0 and the normalized maximum exactly `SCALE`, and every
/// value lies between them.
pub proof fn lemma_normalize_extrema(s: Seq<int>)
    requires
        s.len() > 0,
        s.min() != s.max(),
    ensures
        normalize_spec(s).min() == 0,
        normalize_spec(s).max() == SCALE as int,
        forall|j: int| 0 <= j < s.len() ==> 0 <= #[trigger] normalize_spec(s)[j] <= SCALE as int,
{
    let t = normalize_spec(s);
    let mn = s.min();
    let mx = s.max();
    let r = mx - mn;
    s.min_ensures();
    s.max_ensures();
    assert(mn <= s[0] <= mx);
    assert forall|j: int| 0 <= j < s.len() implies 0 <= #[trigger] t[j] <= SCALE as int by {
        let d = s[j] - mn;
        lemma_div_pos_is_pos(d * (SCALE as int), r);
        lemma_mul_inequality(d, r, SCALE as int);
        lemma_div_is_ordered(d * (SCALE as int), r * (SCALE as int), r);
        lemma_div_by_multiple(SCALE as int, r);
    }
    // the minimum of s maps to exactly 0 ...
    assert(s.contains(mn));
    let jmn = choose|j: int| 0 <= j < s.len() && s[j] == mn;
    assert(t[jmn] == (mn - mn) * (SCALE as int) / r);
    lemma_div_of0(r);
    assert(t[jmn] == 0);
    // ... and the maximum to exactly SCALE.
    assert(s.contains(mx));
    let jmx = choose|j: int| 0 <= j < s.len() && s[j] == mx;
    lemma_div_by_multiple(SCALE as int, r);
    assert((SCALE as int) * (mx - mn) == (mx - mn) * (SCALE as int)) by (nonlinear_arith);
    assert(t[jmx] == SCALE as int);
    t.min_ensures();
    t.max_ensures();
    let kmn = choose|j: int| 0 <= j < t.len() && t[j] == t.min();
    assert(t.min() <= t[jmn] && 0 <= t[kmn]);
    let kmx = choose|j: int| 0 <= j < t.len() && t[j] == t.max();
    assert(t[jmx] <= t.max() && t[kmx] <= SCALE as int);
}

/// Law: normalizing is idempotent — rescaling an already-rescaled field
/// leaves every value unchanged, exactly (not merely within tolerance).
pub proof fn lemma_normalize_idempotent(s: Seq<int>)
    requires
        s.len() > 0,
    ensures
        normalize_spec(normalize_spec(s)) == normalize_spec(s),
{
    let t = normalize_spec(s);
    if s.min() == s.max() {
        // constant fallback: the all-zero field normalizes to itself
        t.min_ensures();
        t.max_ensures();
        assert(t[0] == 0);
        let kmn = choose|j: int| 0 <= j < t.len() && t[j] == t.min();
        let kmx = choose|j: int| 0 <= j < t.len() && t[j] == t.max();
        assert(t.min() == 0 && t.max() == 0);
        assert(normalize_spec(t) =~= t);
    } else {
        lemma_normalize_extrema(s);
        t.min_ensures();
        t.max_ensures();
        assert forall|j: int| 0 <= j < t.len() implies #[trigger] normalize_spec(t)[j] == t[j] by {
            assert(normalize_spec(t)[j] == (t[j] - 0) * (SCALE as int) / (SCALE as int - 0));
            lemma_div_by_multiple(t[j], SCALE as int);
            assert(t[j] * (SCALE as int) == (t[j] - 0) * (SCALE as int)) by (nonlinear_arith);
        }
        assert(normalize_spec(t) =~= t);
    }
}

} // verus!
