//! Images as plain rows of bytes, three to a pixel.

use crate::color::Color;
use vstd::prelude::*;

verus! {

/// The colour that the three bytes from index `3 * i` on stand for: red,
/// green, blue.
pub open spec fn color_at(bytes: Seq<u8>, i: int) -> Color {
    Color(bytes[3 * i], bytes[3 * i + 1], bytes[3 * i + 2])
}

/// The colours that a sequence of bytes holds, three bytes to a colour. Bytes
/// left over at the end stand for no colour.
pub open spec fn triples(bytes: Seq<u8>) -> Seq<Color> {
    Seq::new((bytes.len() / 3) as nat, |i: int| color_at(bytes, i))
}

/// The side of the square grid to which an image is resampled before its
/// colours are counted.
pub const GRID: u32 = 30;

/// The bytes of the `GRID` by `GRID` image that nearest-neighbour resampling
/// makes of the image of `width` by `height` pixels with the bytes `pixels`.
pub uninterp spec fn nearest_grid(width: u32, height: u32, pixels: Seq<u8>) -> Seq<u8>;

/// Whether each colour that the bytes of `grid` hold is one that the bytes of
/// `pixels` hold.
pub open spec fn drawn_from(grid: Seq<u8>, pixels: Seq<u8>) -> bool {
    forall|i: int|
        0 <= i < triples(grid).len() ==> triples(pixels).contains(#[trigger] triples(grid)[i])
}

/// Resamples an image to `GRID` by `GRID` pixels with `image::imageops::resize`
/// and the filter `FilterType::Nearest`.
///
/// The result is a function of the size and the bytes alone, named
/// `nearest_grid`. It holds three bytes for each pixel of the grid, and each
/// pixel of the grid is a pixel of the image: the filter's window holds one
/// pixel, with weight one. The image must have a pixel, and three bytes for
/// each.
#[verifier::external_body]
fn resample(width: u32, height: u32, pixels: &Vec<u8>) -> (grid: Vec<u8>)
    requires
        width > 0,
        height > 0,
        pixels.len() == 3 * (width * height),
    ensures
        grid@ == nearest_grid(width, height, pixels@),
        grid.len() == 3 * (GRID * GRID),
        drawn_from(grid@, pixels@),
{
    let source = image::ImageBuffer::<image::Rgb<u8>, &[u8]>::from_raw(
        width,
        height,
        pixels.as_slice(),
    ).unwrap();
    image::imageops::resize(&source, GRID, GRID, image::imageops::FilterType::Nearest).into_raw()
}

/// The colours that the bytes hold.
pub fn colors_of(bytes: &Vec<u8>) -> (colors: Vec<Color>)
    ensures
        colors@ == triples(bytes@),
{
    let total: usize = bytes.len() / 3;
    let mut colors: Vec<Color> = Vec::new();
    let mut i: usize = 0;
    while i < total
        invariant
            0 <= i <= total,
            total == bytes.len() / 3,
            colors.len() == i,
            forall|k: int| 0 <= k < i ==> #[trigger] colors[k] == triples(bytes@)[k],
        decreases total - i,
    {
        colors.push(Color(bytes[3 * i], bytes[3 * i + 1], bytes[3 * i + 2]));
        i = i + 1;
    }
    assert(colors@ =~= triples(bytes@));
    colors
}

/// An image of `width` by `height` pixels, stored row by row from the top,
/// each pixel as its red, green and blue byte.
#[derive(Debug)]
pub struct Raster {
    width: u32,
    height: u32,
    pixels: Vec<u8>,
}

impl Raster {
    #[verifier::type_invariant]
    spec fn three_bytes_a_pixel(self) -> bool {
        self.pixels.len() == 3 * (self.width * self.height)
    }

    /// The number of pixels in a row.
    pub closed spec fn cols(self) -> int {
        self.width as int
    }

    /// The number of rows.
    pub closed spec fn rows(self) -> int {
        self.height as int
    }

    /// The bytes of the pixels.
    pub closed spec fn bytes(self) -> Seq<u8> {
        self.pixels@
    }

    /// The colours of the pixels, row by row.
    pub open spec fn colors(self) -> Seq<Color> {
        triples(self.bytes())
    }

    /// The colour of the pixel in column `x` of row `y`.
    pub open spec fn pixel(self, x: int, y: int) -> Color {
        self.colors()[y * self.cols() + x]
    }

    /// The image of the given size and bytes, or `None` where the number of
    /// bytes is not three for each pixel.
    pub fn new(width: u32, height: u32, pixels: Vec<u8>) -> (raster: Option<Raster>)
        ensures
            raster.is_some() <==> pixels.len() == 3 * (width * height),
            raster matches Some(r) ==> r.cols() == width && r.rows() == height && r.bytes()
                == pixels@,
    {
        proof {
            crate::ratio::lemma_product_within(width as int, height as int, 0xffff_ffff, 0xffff_ffff);
        }
        let area: u64 = (width as u64) * (height as u64);
        if area <= 0x5555_5555_5555_5555 && pixels.len() as u64 == 3 * area {
            Some(Raster { width, height, pixels })
        } else {
            None
        }
    }

    /// The image resampled to `GRID` by `GRID` pixels, each of them a pixel of
    /// this image, or `None` where this image has no pixel.
    pub fn downsample(&self) -> (grid: Option<Raster>)
        ensures
            grid.is_none() <==> self.cols() == 0 || self.rows() == 0,
            grid matches Some(g) ==> {
                &&& g.cols() == GRID
                &&& g.rows() == GRID
                &&& g.bytes() == nearest_grid(self.cols() as u32, self.rows() as u32, self.bytes())
                &&& drawn_from(g.bytes(), self.bytes())
            },
    {
        proof {
            use_type_invariant(self);
        }
        if self.width == 0 || self.height == 0 {
            None
        } else {
            let pixels = resample(self.width, self.height, &self.pixels);
            Some(Raster { width: GRID, height: GRID, pixels })
        }
    }

    /// The colours of the pixels, row by row.
    pub fn samples(&self) -> (colors: Vec<Color>)
        ensures
            colors@ == self.colors(),
    {
        colors_of(&self.pixels)
    }

    /// The number of pixels in a row.
    pub fn width(&self) -> (w: u32)
        ensures
            w == self.cols(),
    {
        self.width
    }

    /// The number of rows.
    pub fn height(&self) -> (h: u32)
        ensures
            h == self.rows(),
    {
        self.height
    }

    /// The bytes of the pixels.
    pub fn pixels(&self) -> (bytes: &Vec<u8>)
        ensures
            bytes@ == self.bytes(),
            bytes.len() == 3 * (self.cols() * self.rows()),
    {
        proof {
            use_type_invariant(self);
        }
        &self.pixels
    }
}

} // verus!
