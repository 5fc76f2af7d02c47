//! Images as plain values: a width, a height and four bytes per pixel.

use vstd::prelude::*;

verus! {

/// A rectangular grid of pixels, row by row from the top, each pixel four
/// bytes: red, green, blue, alpha.
#[derive(Debug)]
pub struct Image {
    pub width: u32,
    pub height: u32,
    pub pixels: Vec<u8>,
}

/// Offset of the first byte of the pixel in column `x` of row `y`.
pub open spec fn pixel_offset(width: nat, x: int, y: int) -> int {
    4 * (y * width + x)
}

/// Whether byte `i` of a pixel buffer is an alpha channel.
pub open spec fn is_alpha(i: int) -> bool {
    i % 4 == 3
}

/// A pixel inside the grid lies inside the buffer; its right neighbour
/// follows it, and the pixel below is one row further.
pub proof fn lemma_pixel_offset(width: nat, height: nat, x: int, y: int)
    requires
        0 <= x < width,
        0 <= y < height,
    ensures
        0 <= pixel_offset(width, x, y),
        pixel_offset(width, x, y) + 4 <= 4 * width * height,
        pixel_offset(width, x + 1, y) == pixel_offset(width, x, y) + 4,
        pixel_offset(width, x - 1, y) == pixel_offset(width, x, y) - 4,
        pixel_offset(width, x, y + 1) == pixel_offset(width, x, y) + 4 * width,
        pixel_offset(width, 0, y + 1) == pixel_offset(width, width as int, y),
        pixel_offset(width, x, y) % 4 == 0,
{
    let w = width as int;
    let h = height as int;
    assert((y + 1) * w == y * w + w) by (nonlinear_arith);
    assert(y * w >= 0) by (nonlinear_arith)
        requires
            y >= 0,
            w >= 0,
    {}
    assert((y + 1) * w <= h * w) by (nonlinear_arith)
        requires
            y + 1 <= h,
            w >= 0,
    {}
    assert(4 * width * height == 4 * (h * w)) by (nonlinear_arith)
        requires
            w == width,
            h == height,
    {}
}

impl Image {
    /// The buffer holds exactly four bytes for each pixel of the grid.
    pub open spec fn wf(&self) -> bool {
        self.pixels@.len() == 4 * self.width * self.height
    }

    /// An image over `pixels`, where the buffer has the length that the
    /// dimensions ask for.
    pub fn new(width: u32, height: u32, pixels: Vec<u8>) -> (made: Option<Image>)
        ensures
            made.is_some() <==> pixels@.len() == 4 * width * height,
            match made {
                Some(image) => image.wf() && image.width == width && image.height == height
                    && image.pixels@ == pixels@,
                None => true,
            },
    {
        proof {
            assert(0 <= width * height <= 0xFFFF_FFFF * 0xFFFF_FFFF) by (nonlinear_arith)
                requires
                    0 <= width <= 0xFFFF_FFFF,
                    0 <= height <= 0xFFFF_FFFF,
            {}
            assert(4 * width * height == 4 * (width * height)) by (nonlinear_arith);
        }
        let cells: u64 = (width as u64) * (height as u64);
        let wanted: u128 = 4 * (cells as u128);
        if pixels.len() as u128 == wanted {
            Some(Image { width, height, pixels })
        } else {
            None
        }
    }

    /// The four channels of the pixel in column `x` of row `y`.
    pub fn pixel(&self, x: u32, y: u32) -> (rgba: [u8; 4])
        requires
            self.wf(),
            x < self.width,
            y < self.height,
        ensures
            forall|c: int|
                0 <= c < 4 ==> #[trigger] rgba@[c] == self.pixels@[pixel_offset(
                    self.width as nat,
                    x as int,
                    y as int,
                ) + c],
    {
        let width: usize = self.width as usize;
        let height: usize = self.height as usize;
        let len: usize = self.pixels.len();
        assert(4 * width * height == len);
        let at: usize = offset_of(width, height, x as usize, y as usize);
        [self.pixels[at], self.pixels[at + 1], self.pixels[at + 2], self.pixels[at + 3]]
    }
}

/// Offset of a pixel inside a buffer of `width` by `height` pixels.
pub(crate) fn offset_of(width: usize, height: usize, x: usize, y: usize) -> (at: usize)
    requires
        x < width,
        y < height,
        4 * width * height <= usize::MAX,
    ensures
        at == pixel_offset(width as nat, x as int, y as int),
        at + 4 <= 4 * width * height,
{
    proof {
        lemma_pixel_offset(width as nat, height as nat, x as int, y as int);
        assert(y * width >= 0) by (nonlinear_arith)
            requires
                y >= 0,
                width >= 0,
        {}
    }
    4 * (y * width + x)
}

} // verus!
