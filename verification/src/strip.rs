//! A palette as an image: one square block for each entry, side by side.

use crate::color::Color;
use crate::raster::{color_at, Raster};
use crate::text::{cap, shown};
use vstd::prelude::*;

verus! {

/// The side of the block of one palette entry, in pixels.
pub const BLOCK: u32 = 32;

/// One row of the strip: `BLOCK` pixels of each of the first `n` colours.
fn strip_row(palette: &Vec<Color>, n: usize) -> (row: Vec<u8>)
    requires
        n <= palette.len(),
        n <= 0xffff,
    ensures
        row.len() == 3 * (BLOCK * n),
        forall|x: int| 0 <= x < BLOCK * n ==> #[trigger] color_at(row@, x) == palette[x / BLOCK as int],
{
    let width: usize = 32 * n;
    let mut row: Vec<u8> = Vec::new();
    let mut x: usize = 0;
    while x < width
        invariant
            0 <= x <= width,
            width == BLOCK * n,
            n <= palette.len(),
            row.len() == 3 * x,
            forall|k: int| 0 <= k < x ==> #[trigger] color_at(row@, k) == palette[k / BLOCK as int],
        decreases width - x,
    {
        let c = palette[x / 32];
        let ghost before = row@;
        row.push(c.0);
        row.push(c.1);
        row.push(c.2);
        proof {
            assert forall|k: int| 0 <= k < x + 1 implies #[trigger] color_at(row@, k) == palette[k
                / BLOCK as int] by {
                if k < x {
                    assert(color_at(row@, k) == color_at(before, k));
                }
            }
        }
        x = x + 1;
    }
    row
}

/// The strip of the first `quantity` entries of the palette, or of all of
/// them where it has fewer: `BLOCK` rows, and in each row `BLOCK` pixels of
/// each entry, in the order of the palette.
pub fn strip(palette: &Vec<Color>, quantity: u16) -> (image: Raster)
    ensures
        image.cols() == BLOCK * shown(quantity, palette.len() as nat),
        image.rows() == BLOCK,
        forall|x: int, y: int|
            0 <= x < image.cols() && 0 <= y < image.rows() ==> #[trigger] image.pixel(x, y)
                == palette[x / BLOCK as int],
{
    let n = cap(quantity, palette.len());
    let row = strip_row(palette, n);
    let ghost span = row.len() as int;
    let mut pixels: Vec<u8> = Vec::new();
    let mut y: usize = 0;
    while y < 32
        invariant
            0 <= y <= 32,
            span == row.len(),
            span == 3 * (BLOCK * n),
            n <= 0xffff,
            pixels.len() == y * span,
            forall|r: int, j: int|
                0 <= r < y && 0 <= j < span ==> #[trigger] pixels[r * span + j] == row[j],
        decreases 32 - y,
    {
        let ghost before = pixels@;
        pixels.extend_from_slice(row.as_slice());
        proof {
            assert((y + 1) * span == y * span + span) by (nonlinear_arith);
            assert forall|r: int, j: int| 0 <= r < y + 1 && 0 <= j < span implies #[trigger] pixels[r
                * span + j] == row[j] by {
                if r < y {
                    assert(r * span + span <= y * span) by (nonlinear_arith)
                        requires
                            r < y,
                            span >= 0,
                    ;
                    assert(0 <= r * span) by (nonlinear_arith)
                        requires
                            r >= 0,
                            span >= 0,
                    ;
                    assert(pixels[r * span + j] == before[r * span + j]);
                }
            }
        }
        y = y + 1;
    }
    let width: u32 = 32 * (n as u32);
    proof {
        assert(32 * span == 3 * (width * 32)) by (nonlinear_arith)
            requires
                span == 3 * (32 * n),
                width == 32 * n,
        ;
    }
    let made = Raster::new(width, 32, pixels);
    let image = made.unwrap();
    proof {
        assert forall|x: int, y: int| 0 <= x < image.cols() && 0 <= y < image.rows() implies #[trigger] image.pixel(
            x,
            y,
        ) == palette[x / BLOCK as int] by {
            let k = y * image.cols() + x;
            assert(3 * k == y * span + 3 * x) by (nonlinear_arith)
                requires
                    k == y * width + x,
                    span == 3 * width,
            ;
            assert(0 <= k < width * 32) by (nonlinear_arith)
                requires
                    k == y * width + x,
                    0 <= x < width,
                    0 <= y < 32,
            ;
            assert(pixels[y * span + 3 * x] == row[3 * x]);
            assert(pixels[y * span + (3 * x + 1)] == row[3 * x + 1]);
            assert(pixels[y * span + (3 * x + 2)] == row[3 * x + 2]);
            assert(color_at(pixels@, k) == color_at(row@, x));
            assert(image.bytes().len() / 3 == width * 32);
        }
    }
    image
}

} // verus!
