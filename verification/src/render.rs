//! Pixel-buffer drawing for the native host: clearing, single pixels, and
//! Bresenham line rasterization, over a flat row-major `width * height`
//! buffer.

use vstd::prelude::*;

verus! {

/// Row-major index of pixel `(x, y)` in a buffer of width `w`.
pub open spec fn pix(w: int, x: int, y: int) -> int {
    y * w + x
}

/// Fill the whole buffer with one color.
pub fn clear(buffer: &mut Vec<u32>, color: u32)
    ensures
        final(buffer)@.len() == old(buffer)@.len(),
        forall|i: int| 0 <= i < final(buffer)@.len() ==> #[trigger] final(buffer)@[i] == color,
{
    let mut i: usize = 0;
    while i < buffer.len()
        invariant
            buffer@.len() == old(buffer)@.len(),
            i <= buffer@.len(),
            forall|j: int| 0 <= j < i ==> #[trigger] buffer@[j] == color,
        decreases buffer@.len() - i,
    {
        buffer.set(i, color);
        i += 1;
    }
}

/// Set one pixel, ignoring coordinates outside the buffer.
pub fn draw_pixel(buffer: &mut Vec<u32>, x: i32, y: i32, width: i32, height: i32, color: u32)
    requires
        old(buffer)@.len() == width * height,
        0 <= width,
        0 <= height,
        width * height <= 0x7fff_ffff,
    ensures
        final(buffer)@.len() == old(buffer)@.len(),
        (0 <= x < width && 0 <= y < height) ==> final(buffer)@ == old(buffer)@.update(
            pix(width as int, x as int, y as int),
            color,
        ),
        !(0 <= x < width && 0 <= y < height) ==> final(buffer)@ == old(buffer)@,
{
    if x < 0 || y < 0 || x >= width || y >= height {
        return ;
    }
    proof {
        vstd::arithmetic::mul::lemma_mul_inequality(y as int, height as int - 1, width as int);
        assert((height as int - 1) * (width as int) == height as int * width as int - width as int)
            by (nonlinear_arith);
        vstd::arithmetic::mul::lemma_mul_nonnegative(y as int, width as int);
        vstd::arithmetic::mul::lemma_mul_is_commutative(height as int, width as int);
    }
    let idx = (y * width + x) as usize;
    buffer.set(idx, color);
}

/// Rasterize the line from `(x0, y0)` to `(x1, y1)` with Bresenham's
/// algorithm, painting only in-buffer pixels. Touched pixels take the color;
/// everything else is unchanged; the end point's pixel, when inside the
/// buffer, is painted.
pub fn draw_line(
    buffer: &mut Vec<u32>,
    x0: i32,
    y0: i32,
    x1: i32,
    y1: i32,
    width: i32,
    height: i32,
    color: u32,
)
    requires
        old(buffer)@.len() == width * height,
        0 <= width,
        0 <= height,
        width * height <= 0x7fff_ffff,
        -1000000 <= x0 <= 1000000,
        -1000000 <= y0 <= 1000000,
        -1000000 <= x1 <= 1000000,
        -1000000 <= y1 <= 1000000,
    ensures
        final(buffer)@.len() == old(buffer)@.len(),
        forall|i: int|
            0 <= i < final(buffer)@.len() ==> final(buffer)@[i] == old(buffer)@[i]
                || final(buffer)@[i] == color,
        (0 <= x1 < width && 0 <= y1 < height) ==> final(buffer)@[pix(
            width as int,
            x1 as int,
            y1 as int,
        )] == color,
{
    let mut cx = x0;
    let mut cy = y0;
    let dx = if x1 > x0 {
        x1 - x0
    } else {
        x0 - x1
    };
    let sx: i32 = if x0 < x1 {
        1
    } else {
        -1
    };
    let dy = if y1 > y0 {
        -(y1 - y0)
    } else {
        -(y0 - y1)
    };
    let sy: i32 = if y0 < y1 {
        1
    } else {
        -1
    };
    let mut err = dx + dy;
    let ghost orig = buffer@;
    let ghost dxg = dx as int;
    let ghost dyg = dy as int;
    let ghost sxg = sx as int;
    let ghost syg = sy as int;
    let ghost mut px: int = 0;
    let ghost mut py: int = 0;
    loop
        invariant_except_break
            orig == old(buffer)@,
            buffer@.len() == orig.len(),
            buffer@.len() == width * height,
            0 <= width,
            0 <= height,
            width * height <= 0x7fff_ffff,
            dxg == dx as int,
            dyg == dy as int,
            sxg == sx as int,
            syg == sy as int,
            0 <= dxg <= 2000000,
            -2000000 <= dyg <= 0,
            sxg == 1 || sxg == -1,
            syg == 1 || syg == -1,
            x1 == x0 + dxg * sxg,
            y1 == y0 + (-dyg) * syg,
            -1000000 <= x0 <= 1000000,
            -1000000 <= y0 <= 1000000,
            cx as int == x0 + px * sxg,
            cy as int == y0 + py * syg,
            0 <= px <= dxg,
            0 <= py <= -dyg,
            err as int == dxg + dyg + px * dyg + py * dxg,
            2 * dyg <= err as int <= 2 * dxg,
            forall|i: int|
                0 <= i < buffer@.len() ==> buffer@[i] == orig[i] || #[trigger] buffer@[i] == color,
        ensures
            orig == old(buffer)@,
            buffer@.len() == orig.len(),
            forall|i: int|
                0 <= i < buffer@.len() ==> buffer@[i] == orig[i] || #[trigger] buffer@[i] == color,
            (0 <= x1 < width && 0 <= y1 < height) ==> buffer@[pix(
                width as int,
                x1 as int,
                y1 as int,
            )] == color,
        decreases (dxg - px) + (-dyg - py),
    {
        let ghost before = buffer@;
        draw_pixel(buffer, cx, cy, width, height, color);
        proof {
            assert forall|i: int|
                0 <= i < buffer@.len() implies buffer@[i] == orig[i] || #[trigger] buffer@[i]
                == color by {
                assert(buffer@.len() == before.len());
                assert(before[i] == orig[i] || before[i] == color);
                if 0 <= cx < width && 0 <= cy < height {
                    vstd::arithmetic::mul::lemma_mul_inequality(
                        cy as int,
                        height as int - 1,
                        width as int,
                    );
                    assert((height as int - 1) * (width as int) == height as int * width as int
                        - width as int) by (nonlinear_arith);
                    vstd::arithmetic::mul::lemma_mul_nonnegative(cy as int, width as int);
                    vstd::arithmetic::mul::lemma_mul_is_commutative(height as int, width as int);
                    assert(0 <= pix(width as int, cx as int, cy as int) < buffer@.len());
                    assert(buffer@ == before.update(
                        pix(width as int, cx as int, cy as int),
                        color,
                    ));
                    if i == pix(width as int, cx as int, cy as int) {
                        assert(buffer@[i] == color);
                    } else {
                        assert(buffer@[i] == before[i]);
                    }
                } else {
                    assert(buffer@ == before);
                }
            }
        }
        if cx == x1 && cy == y1 {
            proof {
                if 0 <= x1 < width && 0 <= y1 < height {
                    vstd::arithmetic::mul::lemma_mul_inequality(
                        y1 as int,
                        height as int - 1,
                        width as int,
                    );
                    assert((height as int - 1) * (width as int) == height as int * width as int
                        - width as int) by (nonlinear_arith);
                    vstd::arithmetic::mul::lemma_mul_nonnegative(y1 as int, width as int);
                    vstd::arithmetic::mul::lemma_mul_is_commutative(height as int, width as int);
                    assert(0 <= pix(width as int, x1 as int, y1 as int) < buffer@.len());
                    assert(buffer@[pix(width as int, x1 as int, y1 as int)] == color);
                }
            }
            break ;
        }
        proof {
            // the chain has not reached the end point, so at least one
            // counter is short of its total
            assert(cx == x1 <==> px == dxg) by (nonlinear_arith)
                requires
                    cx as int == x0 + px * sxg,
                    x1 == x0 + dxg * sxg,
                    sxg == 1 || sxg == -1,
            ;
            assert(cy == y1 <==> py == -dyg) by (nonlinear_arith)
                requires
                    cy as int == y0 + py * syg,
                    y1 == y0 + (-dyg) * syg,
                    syg == 1 || syg == -1,
            ;
            // no overshoot: a finished axis cannot step again
            if px == dxg {
                assert(2 * (err as int) < dyg) by (nonlinear_arith)
                    requires
                        err as int == dxg + dyg + px * dyg + py * dxg,
                        px == dxg,
                        0 <= py <= -dyg - 1,
                        0 <= dxg,
                ;
            }
            if py == -dyg {
                assert(2 * (err as int) > dxg) by (nonlinear_arith)
                    requires
                        err as int == dxg + dyg + px * dyg + py * dxg,
                        py == -dyg,
                        0 <= px <= dxg - 1,
                        dyg <= 0,
                ;
            }
        }
        let e2 = 2 * err;
        if e2 >= dy {
            err = err + dy;
            cx = cx + sx;
            proof {
                px = px + 1;
                assert(px * dyg == (px - 1) * dyg + dyg) by (nonlinear_arith);
                assert(px * sxg == (px - 1) * sxg + sxg) by (nonlinear_arith);
            }
        }
        if e2 <= dx {
            err = err + dx;
            cy = cy + sy;
            proof {
                py = py + 1;
                assert(py * dxg == (py - 1) * dxg + dxg) by (nonlinear_arith);
                assert(py * syg == (py - 1) * syg + syg) by (nonlinear_arith);
            }
        }
    }
}

} // verus!
