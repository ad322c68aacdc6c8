use topography_engine::topography::MAX_LEVELS;
use topography_engine::{Topography, TopographyError, SCALE};

const HALF: i64 = SCALE / 2;

/// A constant sampler with roughness 0 gives a perfectly flat field.
#[test]
fn constant_sampler_gives_flat_field() {
    let mut t = Topography::new(5, 1, 0, 40000).unwrap();
    let samples = vec![HALF; 25];
    t.compute_with_samples(&samples);
    assert_eq!(t.get_map().len(), 25);
    for &v in t.get_map().iter() {
        assert_eq!(v, HALF);
    }
    // a constant field: only configurations 0/15, so no contours at level 0?
    // level 0 has threshold 0 and every value is above it: configuration 15.
    assert_eq!(t.get_level_borders(0).len(), 0);
    // normalization of the constant field takes the documented fallback
    t.normalize();
    for &v in t.get_map().iter() {
        assert_eq!(v, 0);
    }
}

/// Every cell of the tiny 3x3 grid (corners, center, edge midpoints) is
/// written by the generator.
#[test]
fn tiny_grid_fully_written() {
    let mut t = Topography::new(3, 1, 0, 0).unwrap();
    let samples = vec![HALF; 9];
    t.compute_with_samples(&samples);
    for &v in t.get_map().iter() {
        assert_ne!(v, 0);
        assert_eq!(v, HALF);
    }
}

/// No cell is left at its initial zero value for larger sizes either, with a
/// sampler bounded away from zero.
#[test]
fn generator_writes_every_cell() {
    for &size in &[5usize, 9, 17] {
        let mut t = Topography::new(size, 1, 0, 0).unwrap();
        let samples = vec![HALF + 3; size * size];
        t.compute_with_samples(&samples);
        assert_eq!(t.get_map().len(), size * size);
        for &v in t.get_map().iter() {
            assert_ne!(v, 0);
        }
    }
}

/// Generation is a pure function of the sample sequence.
#[test]
fn generation_is_reproducible() {
    let samples: Vec<i64> = (0..25).map(|i| (i * 2048) % SCALE).collect();
    let mut t1 = Topography::new(5, 2, 50000, 30000).unwrap();
    let mut t2 = Topography::new(5, 2, 50000, 30000).unwrap();
    t1.compute_with_samples(&samples);
    t2.compute_with_samples(&samples);
    assert_eq!(t1.get_map(), t2.get_map());
    assert_eq!(t1.get_borders(), t2.get_borders());
}

/// Construction rejects sides that are not a power of two plus one.
#[test]
fn new_rejects_bad_size() {
    assert_eq!(Topography::new(4, 1, 0, 0).unwrap_err(), TopographyError::InvalidSize);
    assert_eq!(Topography::new(0, 1, 0, 0).unwrap_err(), TopographyError::InvalidSize);
    assert_eq!(Topography::new(2, 1, 0, 0).unwrap_err(), TopographyError::InvalidSize);
    assert_eq!(Topography::new(6, 1, 0, 0).unwrap_err(), TopographyError::InvalidSize);
    assert!(Topography::new(3, 1, 0, 0).is_ok());
    assert!(Topography::new(257, 1, 0, 0).is_ok());
}

/// Construction rejects a zero or oversized level count.
#[test]
fn new_rejects_bad_levels() {
    assert_eq!(Topography::new(5, 0, 0, 0).unwrap_err(), TopographyError::InvalidLevels);
    assert_eq!(
        Topography::new(5, MAX_LEVELS + 1, 0, 0).unwrap_err(),
        TopographyError::InvalidLevels
    );
    assert!(Topography::new(5, MAX_LEVELS, 0, 0).is_ok());
}

/// Construction rejects parameters outside the unit range.
#[test]
fn new_rejects_bad_parameters() {
    assert_eq!(Topography::new(5, 1, -1, 0).unwrap_err(), TopographyError::InvalidParameter);
    assert_eq!(
        Topography::new(5, 1, SCALE + 1, 0).unwrap_err(),
        TopographyError::InvalidParameter
    );
    assert_eq!(Topography::new(5, 1, 0, -5).unwrap_err(), TopographyError::InvalidParameter);
    assert_eq!(
        Topography::new(5, 1, 0, SCALE + 1).unwrap_err(),
        TopographyError::InvalidParameter
    );
    assert!(Topography::new(5, 1, SCALE, SCALE).is_ok());
}

/// An out-of-range level query is no error: it yields an empty list.
#[test]
fn out_of_range_level_is_empty() {
    let mut t = Topography::new(5, 2, HALF, HALF).unwrap();
    t.compute();
    assert_eq!(t.levels(), 2);
    assert!(t.get_level_borders(2).is_empty());
    assert!(t.get_level_borders(1000).is_empty());
}

/// The random path fills the buffer and produces one border list per level.
#[test]
fn compute_with_random_sampler() {
    let mut t = Topography::new(17, 3, 60000, 40000).unwrap();
    t.compute();
    assert_eq!(t.get_map().len(), 17 * 17);
    assert_eq!(t.get_borders().len(), 3);
    for polylines in t.get_borders() {
        for polyline in polylines {
            assert!(polyline.len() >= 2);
        }
    }
}

/// The default sampler yields the documented count and range.
#[test]
fn random_samples_in_range() {
    let samples = topography_engine::sampler::random_samples(1000);
    assert_eq!(samples.len(), 1000);
    for &s in &samples {
        assert!((0..SCALE).contains(&s));
    }
    // a thousand uniform draws are not all equal
    assert!(samples.iter().any(|&s| s != samples[0]));
}

/// Normalization pins the extrema of a non-constant field exactly.
#[test]
fn normalize_pins_extrema() {
    let mut t = Topography::new(9, 2, 60000, 35000).unwrap();
    let samples: Vec<i64> = (0..81).map(|i| (i * 797) % SCALE).collect();
    t.compute_with_samples(&samples);
    let before = t.get_map().clone();
    assert!(before.iter().any(|&v| v != before[0]), "field should not be constant");
    t.normalize();
    let after = t.get_map();
    assert_eq!(*after.iter().min().unwrap(), 0);
    assert_eq!(*after.iter().max().unwrap(), SCALE);
    for &v in after.iter() {
        assert!((0..=SCALE).contains(&v));
    }
}

/// Normalizing twice produces exactly the same field as normalizing once.
#[test]
fn normalize_is_idempotent() {
    let mut t = Topography::new(9, 1, 55000, 30000).unwrap();
    let samples: Vec<i64> = (0..81).map(|i| (i * 131 + 7) % SCALE).collect();
    t.compute_with_samples(&samples);
    t.normalize();
    let once = t.get_map().clone();
    t.normalize();
    assert_eq!(*t.get_map(), once);
}
