use topography_engine::{HeightField, Point, Segment, SCALE};

const T: i64 = SCALE / 2; // threshold 0.5
const LO: i64 = 13107; // roughly 0.2
const HI: i64 = 52429; // roughly 0.8

fn field_with(size: usize, values: &[(usize, usize, i64)]) -> HeightField {
    let mut f = HeightField::new(size);
    for &(x, y, v) in values {
        f.set(x, y, v);
    }
    f
}

/// One cell with corners 0.2 / 0.8 / 0.8 / 0.2 crosses the 0.5 threshold on
/// its top and bottom edges, both exactly halfway: the linear-interpolation
/// formula gives x = (0.5 - 0.2) / (0.8 - 0.2) = 0.5 exactly.
#[test]
fn single_cell_interpolates_exactly() {
    let f = field_with(5, &[(0, 0, LO), (1, 0, HI), (1, 1, HI), (0, 1, LO)]);
    let mut segments: Vec<Segment> = Vec::new();
    f.marching_squares(0, 0, T, &mut segments);
    assert_eq!(segments.len(), 1);
    assert_eq!(segments[0].a, Point::new(SCALE / 2, 0));
    assert_eq!(segments[0].b, Point::new(SCALE / 2, SCALE));
}

/// A cell with only its top-left corner above the threshold emits the
/// top-left segment, with both crossings exactly halfway along their edges.
#[test]
fn single_corner_cell_emits_top_left() {
    let f = field_with(5, &[(0, 0, HI), (1, 0, LO), (1, 1, LO), (0, 1, LO)]);
    let mut segments: Vec<Segment> = Vec::new();
    f.marching_squares(0, 0, T, &mut segments);
    assert_eq!(segments.len(), 1);
    assert_eq!(segments[0].a, Point::new(SCALE / 2, 0));
    assert_eq!(segments[0].b, Point::new(0, SCALE / 2));
}

/// Configurations 0 and 15 emit nothing, 5 and 10 emit two segments, every
/// other configuration exactly one.
#[test]
fn case_table_counts() {
    let expected = [0usize, 1, 1, 1, 1, 2, 1, 1, 1, 1, 2, 1, 1, 1, 1, 0];
    for cfg in 0..16usize {
        let pick = |bit: usize| if cfg & (1 << bit) != 0 { HI } else { LO };
        // bits 0..3 are TL, TR, BR, BL
        let f = field_with(
            3,
            &[(0, 0, pick(0)), (1, 0, pick(1)), (1, 1, pick(2)), (0, 1, pick(3))],
        );
        let mut segments: Vec<Segment> = Vec::new();
        f.marching_squares(0, 0, T, &mut segments);
        assert_eq!(segments.len(), expected[cfg], "configuration {}", cfg);
    }
}

/// Two adjacent cells compute the crossing on their shared edge from the same
/// corner values, so the stitcher joins them into a single polyline on exact
/// coordinate equality.
#[test]
fn adjacent_cells_share_crossing_and_join() {
    let mut f = HeightField::new(5);
    for y in 0..5 {
        for x in 0..5 {
            f.set(x, y, LO);
        }
    }
    f.set(0, 0, HI);
    f.set(1, 0, HI);
    let segments = f.extract_level(T);
    assert_eq!(segments.len(), 2);
    // both cells computed the same point on the shared edge, bit for bit
    assert_eq!(segments[0].b, segments[1].b);
    let polylines = Segment::segments_to_polylines(segments);
    assert_eq!(polylines.len(), 1);
    assert_eq!(
        polylines[0],
        vec![
            Point::new(0, SCALE / 2),
            Point::new(SCALE, SCALE / 2),
            Point::new(SCALE + SCALE / 2, 0),
        ]
    );
}

/// An enclosed island of above-threshold ground yields a polyline that closes
/// into a cycle: its first and last points coincide.
#[test]
fn island_closes_into_cycle() {
    let mut f = HeightField::new(5);
    for y in 0..5 {
        for x in 0..5 {
            f.set(x, y, LO);
        }
    }
    f.set(2, 2, HI);
    let segments = f.extract_level(T);
    assert_eq!(segments.len(), 4);
    let polylines = Segment::segments_to_polylines(segments);
    assert_eq!(polylines.len(), 1);
    let ring = &polylines[0];
    assert_eq!(ring.len(), 5);
    assert_eq!(ring.first(), ring.last());
}

/// A saddle cell emits its two fixed segments, with no tie-break.
#[test]
fn saddle_emits_two_segments() {
    let f = field_with(5, &[(0, 0, HI), (1, 0, LO), (1, 1, HI), (0, 1, LO)]);
    let mut segments: Vec<Segment> = Vec::new();
    f.marching_squares(0, 0, T, &mut segments);
    assert_eq!(segments.len(), 2);
    // top-right pairing, then bottom-left
    assert_eq!(segments[0].a, Point::new(SCALE / 2, 0));
    assert_eq!(segments[0].b, Point::new(SCALE, SCALE / 2));
    assert_eq!(segments[1].a, Point::new(SCALE / 2, SCALE));
    assert_eq!(segments[1].b, Point::new(0, SCALE / 2));
}

/// An isolated segment becomes a two-point polyline.
#[test]
fn isolated_segment_is_two_point_polyline() {
    let f = field_with(5, &[(0, 0, HI), (1, 0, LO), (1, 1, LO), (0, 1, LO)]);
    let mut segments: Vec<Segment> = Vec::new();
    f.marching_squares(0, 0, T, &mut segments);
    let polylines = Segment::segments_to_polylines(segments);
    assert_eq!(polylines.len(), 1);
    assert_eq!(polylines[0].len(), 2);
}

fn norm(p: Point, q: Point) -> (i64, i64, i64, i64) {
    if p.x < q.x || (p.x == q.x && p.y <= q.y) {
        (p.x, p.y, q.x, q.y)
    } else {
        (q.x, q.y, p.x, p.y)
    }
}

/// Stitching is a bijection on segments: over all output polylines the
/// undirected point-pair edges are exactly the input segments, with no
/// duplicates and no omissions.
#[test]
fn stitching_preserves_every_segment() {
    let mut t = topography_engine::Topography::new(17, 4, 61000, 38000).unwrap();
    let samples: Vec<i64> = (0..17 * 17).map(|i| (i * 523 + 11) % SCALE).collect();
    t.compute_with_samples(&samples);
    for level in 0..t.levels() {
        let threshold = ((level as i64) * SCALE) / (t.levels() as i64);
        let segments = t.field.extract_level(threshold);
        let polylines = t.get_level_borders(level);

        let edge_count: usize = polylines.iter().map(|p| p.len() - 1).sum();
        assert_eq!(edge_count, segments.len());

        let mut expected: Vec<(i64, i64, i64, i64)> =
            segments.iter().map(|s| norm(s.a, s.b)).collect();
        let mut actual: Vec<(i64, i64, i64, i64)> = Vec::new();
        for polyline in &polylines {
            for w in polyline.windows(2) {
                actual.push(norm(w[0], w[1]));
            }
        }
        expected.sort();
        actual.sort();
        assert_eq!(expected, actual);
    }
}
