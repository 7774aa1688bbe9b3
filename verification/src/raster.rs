//! An RGBA pixel buffer of a `width` x `height` viewport: four bytes per
//! pixel, row after row.

use vstd::prelude::*;

verus! {

/// Index of the first byte of pixel `(x, y)`.
pub open spec fn pixel_base(width: int, x: int, y: int) -> int {
    (y * width + x) * 4
}

/// The four bytes of pixel `(x, y)`.
pub open spec fn pixel_at(buf: Seq<u8>, width: int, x: int, y: int) -> (u8, u8, u8, u8) {
    let b = pixel_base(width, x, y);
    (buf[b], buf[b + 1], buf[b + 2], buf[b + 3])
}

/// An opaque pixel of colour `c`.
pub open spec fn opaque(c: [u8; 3]) -> (u8, u8, u8, u8) {
    (c[0], c[1], c[2], 255u8)
}

/// Whether `(x, y)` is a pixel of the viewport.
pub open spec fn on_screen(width: int, height: int, x: int, y: int) -> bool {
    0 <= x < width && 0 <= y < height
}

/// Whether `buf` holds exactly the pixels of a `width` x `height` viewport,
/// with every byte index fitting a `u32`.
pub open spec fn sized(buf: Seq<u8>, width: int, height: int) -> bool {
    &&& buf.len() == width * height * 4
    &&& width * height * 4 <= u32::MAX
}

/// The pixel `(x, y)` lies within the buffer.
pub proof fn lemma_pixel_in_bounds(width: int, height: int, x: int, y: int)
    requires
        on_screen(width, height, x, y),
    ensures
        0 <= y * width + x < width * height,
        0 <= pixel_base(width, x, y),
        pixel_base(width, x, y) + 4 <= width * height * 4,
{
    assert(0 <= y * width + x < width * height) by (nonlinear_arith)
        requires
            0 <= x < width,
            0 <= y < height,
    ;
}

/// Distinct pixels occupy disjoint bytes.
pub proof fn lemma_pixels_distinct(width: int, x1: int, y1: int, x2: int, y2: int)
    requires
        0 <= x1 < width,
        0 <= x2 < width,
        0 <= y1,
        0 <= y2,
        x1 != x2 || y1 != y2,
    ensures
        y1 * width + x1 != y2 * width + x2,
{
    if y1 < y2 {
        assert(y1 * width + x1 < y2 * width + x2) by (nonlinear_arith)
            requires
                0 <= x1 < width,
                0 <= x2,
                0 <= y1 < y2,
        ;
    } else if y2 < y1 {
        assert(y2 * width + x2 < y1 * width + x1) by (nonlinear_arith)
            requires
                0 <= x2 < width,
                0 <= x1,
                0 <= y2 < y1,
        ;
    }
}

/// Sets pixel `(x, y)` to the opaque colour `color`, leaving every other
/// pixel as it was.
pub fn put_pixel(rgba: &mut Vec<u8>, width: u32, height: u32, x: u32, y: u32, color: [u8; 3])
    requires
        sized(old(rgba)@, width as int, height as int),
        x < width,
        y < height,
    ensures
        final(rgba)@.len() == old(rgba)@.len(),
        pixel_at(final(rgba)@, width as int, x as int, y as int) == opaque(color),
        forall|px: int, py: int|
            on_screen(width as int, height as int, px, py) && (px != x || py != y) ==> #[trigger]
                pixel_at(final(rgba)@, width as int, px, py) == pixel_at(
                old(rgba)@,
                width as int,
                px,
                py,
            ),
{
    proof {
        lemma_pixel_in_bounds(width as int, height as int, x as int, y as int);
    }
    let idx = ((y * width + x) as usize) * 4;
    rgba[idx] = color[0];
    rgba[idx + 1] = color[1];
    rgba[idx + 2] = color[2];
    rgba[idx + 3] = 255;
    proof {
        assert forall|px: int, py: int|
            on_screen(width as int, height as int, px, py) && (px != x || py != y) implies #[trigger]
            pixel_at(rgba@, width as int, px, py) == pixel_at(old(rgba)@, width as int, px, py) by {
            lemma_pixel_in_bounds(width as int, height as int, px, py);
            lemma_pixels_distinct(width as int, px, py, x as int, y as int);
        }
    }
}

} // verus!
