use topography_engine::{clear, draw_line, draw_pixel, HeightField, SCALE};

/// The flat buffer is row-major: `index(x, y) = x + y * size`.
#[test]
fn field_is_row_major() {
    let mut f = HeightField::new(5);
    f.set(3, 1, 42);
    assert_eq!(f.get(3, 1), 42);
    assert_eq!(f.data[3 + 1 * 5], 42);
    assert_eq!(f.data.len(), 25);
}

/// Rescaling maps the minimum to 0 and the maximum to SCALE, linearly and
/// exactly in fixed point.
#[test]
fn normalize_small_field_exact_values() {
    let mut f = HeightField::new(3);
    f.set(0, 0, -100);
    f.set(1, 0, 100);
    f.set(2, 0, 0);
    f.normalize();
    assert_eq!(f.get(0, 0), 0);
    assert_eq!(f.get(1, 0), SCALE);
    // 0 sits exactly halfway between -100 and 100
    assert_eq!(f.get(2, 0), SCALE / 2);
    // untouched zeros also map to the midpoint
    assert_eq!(f.get(1, 1), SCALE / 2);
}

/// A constant field normalizes to the documented all-zero fallback, without
/// any division by the zero range.
#[test]
fn normalize_constant_field_fallback() {
    let mut f = HeightField::new(3);
    for y in 0..3 {
        for x in 0..3 {
            f.set(x, y, 7777);
        }
    }
    f.normalize();
    for &v in f.data.iter() {
        assert_eq!(v, 0);
    }
    // and normalizing the fallback again changes nothing
    f.normalize();
    for &v in f.data.iter() {
        assert_eq!(v, 0);
    }
}

#[test]
fn clear_fills_buffer() {
    let mut buffer: Vec<u32> = vec![1, 2, 3, 4, 5, 6];
    clear(&mut buffer, 0xababab);
    assert_eq!(buffer, vec![0xababab; 6]);
}

#[test]
fn draw_pixel_sets_only_its_cell() {
    let mut buffer: Vec<u32> = vec![0; 12];
    draw_pixel(&mut buffer, 2, 1, 4, 3, 9);
    assert_eq!(buffer[1 * 4 + 2], 9);
    assert_eq!(buffer.iter().filter(|&&p| p == 9).count(), 1);
}

#[test]
fn draw_pixel_ignores_out_of_bounds() {
    let mut buffer: Vec<u32> = vec![0; 12];
    draw_pixel(&mut buffer, -1, 0, 4, 3, 9);
    draw_pixel(&mut buffer, 4, 0, 4, 3, 9);
    draw_pixel(&mut buffer, 0, 3, 4, 3, 9);
    assert_eq!(buffer, vec![0; 12]);
}

#[test]
fn draw_line_paints_diagonal() {
    let mut buffer: Vec<u32> = vec![0; 16];
    draw_line(&mut buffer, 0, 0, 3, 3, 4, 4, 7);
    for i in 0..4 {
        assert_eq!(buffer[i * 4 + i], 7, "diagonal pixel {}", i);
    }
    assert_eq!(buffer.iter().filter(|&&p| p == 7).count(), 4);
}

#[test]
fn draw_line_horizontal_and_clipped() {
    let mut buffer: Vec<u32> = vec![0; 16];
    draw_line(&mut buffer, -2, 1, 5, 1, 4, 4, 3);
    for x in 0..4 {
        assert_eq!(buffer[1 * 4 + x], 3);
    }
    assert_eq!(buffer.iter().filter(|&&p| p == 3).count(), 4);
    // a single-point line paints its pixel
    let mut dot: Vec<u32> = vec![0; 16];
    draw_line(&mut dot, 2, 2, 2, 2, 4, 4, 5);
    assert_eq!(dot[2 * 4 + 2], 5);
    assert_eq!(dot.iter().filter(|&&p| p == 5).count(), 1);
}

#[test]
fn draw_line_steep_and_vertical() {
    let mut buffer: Vec<u32> = vec![0; 16];
    draw_line(&mut buffer, 1, 0, 1, 3, 4, 4, 8);
    for y in 0..4 {
        assert_eq!(buffer[y * 4 + 1], 8);
    }
    assert_eq!(buffer.iter().filter(|&&p| p == 8).count(), 4);
    let mut steep: Vec<u32> = vec![0; 16];
    draw_line(&mut steep, 0, 0, 1, 3, 4, 4, 6);
    // the end points are always painted
    assert_eq!(steep[0], 6);
    assert_eq!(steep[3 * 4 + 1], 6);
    // a line visits one pixel per row when the y span dominates
    assert_eq!(steep.iter().filter(|&&p| p == 6).count(), 4);
}
