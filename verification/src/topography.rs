//! The terrain engine facade: generate, normalize, extract, stitch.

use vstd::prelude::*;
use vstd::arithmetic::div_mod::{lemma_div_by_multiple, lemma_div_is_ordered, lemma_div_pos_is_pos};
use crate::contour::{level_segments, threshold_spec};
use crate::field::{valid_size, HeightField, MAX_SIZE};
use crate::fixed::SCALE;
use crate::gen::{ds_spec, int_view, samples_ok};
use crate::math::{Point, Segment};
use crate::sampler::random_samples;
use crate::stitch::{polys_ms, polys_view, seg_edges_ms};

verus! {

/// Why construction was refused.
#[derive(Clone, Copy, PartialEq, Eq, Structural, Debug)]
pub enum TopographyError {
    /// `size` is not `2^k + 1` for some `k >= 1`, or exceeds `MAX_SIZE`.
    InvalidSize,
    /// `levels` is zero, or exceeds `MAX_LEVELS`.
    InvalidLevels,
    /// `roughness` or `decay` is outside the unit range `[0, SCALE]`.
    InvalidParameter,
}

/// Largest supported number of contour levels.
pub const MAX_LEVELS: usize = 65536;

/// A usable level count.
pub open spec fn valid_levels(l: int) -> bool {
    1 <= l <= MAX_LEVELS
}

/// A fixed-point value in the unit range.
pub open spec fn valid_unit(v: int) -> bool {
    0 <= v <= SCALE
}

/// The polylines of one level cover exactly the segments that marching
/// squares emits for that level's threshold over the map `m`: equal multisets
/// of undirected edges.
pub open spec fn level_linked(
    m: Seq<int>,
    n: int,
    levels: int,
    polys: Seq<Vec<Point>>,
    lvl: int,
) -> bool {
    polys_ms(polys_view(polys)) == seg_edges_ms(
        level_segments(m, n, threshold_spec(lvl, levels)),
    )
}

/// The terrain engine: a height field, its generation parameters, and the
/// extracted contour polylines per level. `roughness` is the initial
/// displacement amplitude in `[0, SCALE]`; `decay` is the per-round amplitude
/// factor in `[0, SCALE]` (for a Hurst exponent `h`, `decay = 2^(-h)` in
/// fixed point).
#[derive(Debug)]
pub struct Topography {
    pub field: HeightField,
    pub levels: usize,
    pub roughness: i64,
    pub decay: i64,
    pub borders: Vec<Vec<Vec<Point>>>,
}

impl Topography {
    /// Structural invariant.
    pub open spec fn wf(&self) -> bool {
        &&& self.field.wf()
        &&& valid_levels(self.levels as int)
        &&& valid_unit(self.roughness as int)
        &&& valid_unit(self.decay as int)
        &&& self.borders@.len() == self.levels
    }

    /// Every level's polylines match its segment set over map `m`, and every
    /// polyline has at least two points.
    pub open spec fn borders_linked(&self, m: Seq<int>) -> bool {
        &&& forall|lvl: int|
            0 <= lvl < self.levels ==> level_linked(
                m,
                self.field.size as int,
                self.levels as int,
                #[trigger] self.borders@[lvl]@,
                lvl,
            )
        &&& forall|lvl: int, i: int|
            0 <= lvl < self.levels && 0 <= i < self.borders@[lvl]@.len()
                ==> (#[trigger] self.borders@[lvl]@[i]@).len() >= 2
    }

    /// Build an engine with a zero-filled field and empty border lists, or
    /// report exactly why the parameters are refused.
    pub fn new(size: usize, levels: usize, roughness: i64, decay: i64) -> (r: Result<
        Topography,
        TopographyError,
    >)
        ensures
            match r {
                Ok(t) => {
                    &&& valid_size(size as int)
                    &&& valid_levels(levels as int)
                    &&& valid_unit(roughness as int)
                    &&& valid_unit(decay as int)
                    &&& t.wf()
                    &&& t.field.size == size
                    &&& t.levels == levels
                    &&& t.roughness == roughness
                    &&& t.decay == decay
                    &&& forall|i: int|
                        0 <= i < t.field.heights().len() ==> #[trigger] t.field.heights()[i] == 0
                    &&& forall|lvl: int|
                        0 <= lvl < levels ==> (#[trigger] t.borders@[lvl]@).len() == 0
                },
                Err(e) => {
                    &&& (e == TopographyError::InvalidSize <==> !valid_size(size as int))
                    &&& (e == TopographyError::InvalidLevels <==> (valid_size(size as int)
                        && !valid_levels(levels as int)))
                    &&& (e == TopographyError::InvalidParameter <==> (valid_size(size as int)
                        && valid_levels(levels as int) && !(valid_unit(roughness as int)
                        && valid_unit(decay as int))))
                },
            },
            r is Err <==> !(valid_size(size as int) && valid_levels(levels as int) && valid_unit(
                roughness as int,
            ) && valid_unit(decay as int)),
    {
        if !size_is_valid(size) {
            return Err(TopographyError::InvalidSize);
        }
        if levels < 1 || levels > MAX_LEVELS {
            return Err(TopographyError::InvalidLevels);
        }
        if roughness < 0 || roughness > SCALE || decay < 0 || decay > SCALE {
            return Err(TopographyError::InvalidParameter);
        }
        let field = HeightField::new(size);
        let mut borders: Vec<Vec<Vec<Point>>> = Vec::new();
        while borders.len() < levels
            invariant
                borders@.len() <= levels,
                forall|lvl: int| 0 <= lvl < borders@.len() ==> (#[trigger] borders@[lvl]@).len()
                    == 0,
            decreases levels - borders@.len(),
        {
            borders.push(Vec::new());
        }
        Ok(Topography { field, levels, roughness, decay, borders })
    }

    /// Snapshot of the current field: the flat row-major buffer.
    pub fn get_map(&self) -> (r: &Vec<i64>)
        ensures
            r@ == self.field.data@,
    {
        &self.field.data
    }

    /// The number of contour levels.
    pub fn levels(&self) -> (r: usize)
        ensures
            r == self.levels,
    {
        self.levels
    }

    /// All polylines, per level.
    pub fn get_borders(&self) -> (r: &Vec<Vec<Vec<Point>>>)
        ensures
            r@ == self.borders@,
    {
        &self.borders
    }

    /// The polylines of one level; an out-of-range level is no error and
    /// yields an empty list.
    pub fn get_level_borders(&self, level: usize) -> (r: Vec<Vec<Point>>)
        ensures
            level < self.borders@.len() ==> r@.len() == self.borders@[level as int]@.len()
                && (forall|i: int| 0 <= i < r@.len() ==> #[trigger] r@[i]@ == self.borders@[
                level as int
            ]@[i]@),
            level >= self.borders@.len() ==> r@.len() == 0,
    {
        if level >= self.borders.len() {
            return Vec::new();
        }
        clone_polylines(&self.borders[level])
    }

    /// Rescale the live field so its minimum maps to 0 and its maximum to
    /// `SCALE` (a constant field becomes all zeros); previously computed
    /// borders are left as they are.
    pub fn normalize(&mut self)
        requires
            old(self).wf(),
        ensures
            final(self).wf(),
            final(self).field.size == old(self).field.size,
            final(self).field.heights() == crate::field::normalize_spec(
                old(self).field.heights(),
            ),
            final(self).levels == old(self).levels,
            final(self).roughness == old(self).roughness,
            final(self).decay == old(self).decay,
            final(self).borders@ == old(self).borders@,
    {
        self.field.normalize();
    }

    /// Extract and stitch the contours of every level from the current field,
    /// replacing all previous borders.
    pub fn compute_borders(&mut self)
        requires
            old(self).wf(),
        ensures
            final(self).wf(),
            final(self).field == old(self).field,
            final(self).levels == old(self).levels,
            final(self).roughness == old(self).roughness,
            final(self).decay == old(self).decay,
            final(self).borders_linked(old(self).field.heights()),
    {
        let ghost m = self.field.heights();
        let ghost n = self.field.size as int;
        let ghost lv = self.levels as int;
        let mut borders: Vec<Vec<Vec<Point>>> = Vec::new();
        let mut level: usize = 0;
        while level < self.levels
            invariant
                self == old(self),
                self.wf(),
                m == self.field.heights(),
                n == self.field.size as int,
                lv == self.levels as int,
                level <= self.levels,
                borders@.len() == level,
                forall|l: int|
                    0 <= l < level ==> level_linked(m, n, lv, #[trigger] borders@[l]@, l),
                forall|l: int, i: int|
                    0 <= l < level && 0 <= i < borders@[l]@.len() ==> (#[trigger] borders@[l]@[i]@).len() >= 2,
            decreases self.levels - level,
        {
            let t: i64 = (((level as u64) * (SCALE as u64)) / (self.levels as u64)) as i64;
            proof {
                lemma_div_pos_is_pos(level as int * (SCALE as int), lv);
                vstd::arithmetic::mul::lemma_mul_inequality(level as int, lv, SCALE as int);
                vstd::arithmetic::mul::lemma_mul_is_commutative(level as int, SCALE as int);
                vstd::arithmetic::mul::lemma_mul_is_commutative(lv, SCALE as int);
                lemma_div_is_ordered(level as int * (SCALE as int), lv * (SCALE as int), lv);
                lemma_div_by_multiple(SCALE as int, lv);
                assert(0 <= threshold_spec(level as int, lv) <= SCALE as int);
                assert(t as int == threshold_spec(level as int, lv));
            }
            let segments = self.field.extract_level(t);
            let polylines = Segment::segments_to_polylines(segments);
            borders.push(polylines);
            level += 1;
        }
        self.borders = borders;
    }

    /// Run the full pipeline on injected samples: generate the fractal field
    /// deterministically from the sample sequence, then extract and stitch
    /// the contours of every level. All previous results are replaced.
    pub fn compute_with_samples(&mut self, samples: &Vec<i64>)
        requires
            old(self).wf(),
            samples_ok(samples@),
            samples@.len() >= old(self).field.size * old(self).field.size,
        ensures
            final(self).wf(),
            final(self).field.size == old(self).field.size,
            final(self).levels == old(self).levels,
            final(self).roughness == old(self).roughness,
            final(self).decay == old(self).decay,
            final(self).field.heights() == ds_spec(
                old(self).field.size as int,
                old(self).roughness as int,
                old(self).decay as int,
                int_view(samples@),
            ),
            final(self).borders_linked(final(self).field.heights()),
    {
        let roughness = self.roughness;
        let decay = self.decay;
        self.field.diamond_square(roughness, decay, samples);
        self.compute_borders();
    }

    /// Run the full pipeline on fresh random samples.
    pub fn compute(&mut self)
        requires
            old(self).wf(),
        ensures
            final(self).wf(),
            final(self).field.size == old(self).field.size,
            final(self).levels == old(self).levels,
            final(self).roughness == old(self).roughness,
            final(self).decay == old(self).decay,
            final(self).borders_linked(final(self).field.heights()),
    {
        proof {
            crate::field::lemma_size_sq_bound(self.field.size as int);
        }
        let count = self.field.size * self.field.size;
        let samples = random_samples(count);
        self.compute_with_samples(&samples);
    }
}

/// Whether `size` is a usable grid side: at least 3, at most `MAX_SIZE`, and
/// one more than a power of two.
pub fn size_is_valid(size: usize) -> (b: bool)
    ensures
        b == valid_size(size as int),
{
    if size < 3 || size > MAX_SIZE {
        return false;
    }
    let mut v: usize = size - 1;
    while v > 1 && v % 2 == 0
        invariant
            1 <= v,
            crate::field::is_pow2((size - 1) as nat) == crate::field::is_pow2(v as nat),
        decreases v,
    {
        v = v / 2;
    }
    v == 1
}

/// An element-wise copy of one polyline.
fn clone_polyline(p: &Vec<Point>) -> (r: Vec<Point>)
    ensures
        r@ == p@,
{
    let mut r: Vec<Point> = Vec::new();
    let mut i: usize = 0;
    while i < p.len()
        invariant
            i <= p@.len(),
            r@ == p@.take(i as int),
        decreases p@.len() - i,
    {
        r.push(p[i]);
        proof {
            assert(r@ =~= p@.take(i as int + 1));
        }
        i += 1;
    }
    proof {
        assert(p@.take(p@.len() as int) =~= p@);
    }
    r
}

/// An element-wise copy of a list of polylines.
fn clone_polylines(ps: &Vec<Vec<Point>>) -> (r: Vec<Vec<Point>>)
    ensures
        r@.len() == ps@.len(),
        forall|i: int| 0 <= i < r@.len() ==> #[trigger] r@[i]@ == ps@[i]@,
{
    let mut r: Vec<Vec<Point>> = Vec::new();
    let mut i: usize = 0;
    while i < ps.len()
        invariant
            i <= ps@.len(),
            r@.len() == i,
            forall|j: int| 0 <= j < i ==> #[trigger] r@[j]@ == ps@[j]@,
        decreases ps@.len() - i,
    {
        r.push(clone_polyline(&ps[i]));
        i += 1;
    }
    r
}

} // verus!
