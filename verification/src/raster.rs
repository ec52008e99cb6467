//! RGBA pixel rectangles, row-major with the origin at the top left.

use crate::quantization::palette::Color;
use vstd::prelude::*;

verus! {

/// A rectangle of RGBA pixels.
#[derive(Debug, Clone)]
pub struct RgbaImage {
    /// Pixels per row.
    pub width: u32,
    /// Number of rows.
    pub height: u32,
    /// The pixels, row after row.
    pub pixels: Vec<Color>,
}

impl RgbaImage {
    /// The invariant: there is one pixel for each position.
    pub open spec fn wf(&self) -> bool {
        self.pixels@.len() == self.width * self.height
    }

    /// The pixel at column `x` of row `y`.
    pub open spec fn pixel(&self, x: int, y: int) -> Color {
        self.pixels@[y * self.width + x]
    }

    /// An image of the given size, every pixel transparent black.
    pub fn new(width: u32, height: u32) -> (img: RgbaImage)
        requires
            width * height <= usize::MAX,
        ensures
            img.wf(),
            img.width == width,
            img.height == height,
            forall|i: int| 0 <= i < width * height ==> img.pixels@[i] == (Color { r: 0, g: 0, b: 0, a: 0 }),
    {
        let count: u64 = area(width, height);
        let mut pixels: Vec<Color> = Vec::new();
        let mut i: u64 = 0;
        while i < count
            invariant
                i <= count,
                count == width * height,
                pixels@.len() == i,
                forall|k: int| 0 <= k < i ==> pixels@[k] == (Color { r: 0, g: 0, b: 0, a: 0 }),
            decreases count - i,
        {
            pixels.push(Color { r: 0, g: 0, b: 0, a: 0 });
            i = i + 1;
        }
        RgbaImage { width, height, pixels }
    }

    /// The image with the given rows of pixels, where their number fits the
    /// size.
    pub fn from_pixels(width: u32, height: u32, pixels: Vec<Color>) -> (img: Option<RgbaImage>)
        ensures
            img is Some <==> pixels@.len() == width * height,
            img matches Some(i) ==> i.wf() && i.width == width && i.height == height
                && i.pixels@ == pixels@,
    {
        if pixels.len() as u64 == area(width, height) {
            Some(RgbaImage { width, height, pixels })
        } else {
            None
        }
    }

    /// Pixels per row.
    pub fn width(&self) -> (w: u32)
        ensures
            w == self.width,
    {
        self.width
    }

    /// Number of rows.
    pub fn height(&self) -> (h: u32)
        ensures
            h == self.height,
    {
        self.height
    }

    /// The pixel at column `x` of row `y`.
    pub fn get_pixel(&self, x: u32, y: u32) -> (c: Color)
        requires
            self.wf(),
            x < self.width,
            y < self.height,
        ensures
            c == self.pixel(x as int, y as int),
    {
        let len: usize = self.pixels.len();
        let at: usize = offset(x, y, self.width, self.height);
        self.pixels[at]
    }

    /// Sets the pixel at column `x` of row `y`.
    pub fn put_pixel(&mut self, x: u32, y: u32, c: Color)
        requires
            old(self).wf(),
            x < old(self).width,
            y < old(self).height,
        ensures
            final(self).wf(),
            final(self).width == old(self).width,
            final(self).height == old(self).height,
            final(self).pixels@ == old(self).pixels@.update(y * old(self).width + x, c),
    {
        let len: usize = self.pixels.len();
        let at: usize = offset(x, y, self.width, self.height);
        self.pixels.set(at, c);
    }
}

/// The number of positions in a rectangle.
pub fn area(width: u32, height: u32) -> (n: u64)
    ensures
        n == width * height,
{
    assert(width * height <= 0xffff_ffff * 0xffff_ffff) by (nonlinear_arith)
        requires
            0 <= width <= 0xffff_ffff,
            0 <= height <= 0xffff_ffff,
    ;
    width as u64 * height as u64
}

/// The row-major offset of column `x` in row `y` of a rectangle whose
/// positions can all be addressed.
pub fn offset(x: u32, y: u32, width: u32, height: u32) -> (at: usize)
    requires
        x < width,
        y < height,
        width * height <= usize::MAX,
    ensures
        at == y * width + x,
        at < width * height,
{
    proof {
        lemma_position(x as int, y as int, width as int, height as int);
    }
    let row: u64 = area(y, width);
    (row + x as u64) as usize
}

/// A position inside a rectangle has its row-major offset inside the
/// rectangle's area.
pub proof fn lemma_position(x: int, y: int, width: int, height: int)
    requires
        0 <= x < width,
        0 <= y < height,
    ensures
        0 <= y * width + x < width * height,
        y * width + x < (y + 1) * width,
{
    assert(y * width + x < (y + 1) * width) by (nonlinear_arith)
        requires
            0 <= x < width,
    ;
    assert((y + 1) * width <= height * width) by (nonlinear_arith)
        requires
            0 <= y < height,
            0 < width,
    ;
    assert(0 <= y * width) by (nonlinear_arith)
        requires
            0 <= y,
            0 <= width,
    ;
    assert(height * width == width * height) by (nonlinear_arith);
}

} // verus!
