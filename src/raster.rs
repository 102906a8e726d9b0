//! An 8-bit grayscale image held row by row, and its mathematical view.
use vstd::prelude::*;

verus! {

/// Position of pixel `(x, y)` in a row-major buffer whose rows are `width` long.
pub open spec fn pixel_index(width: int, x: int, y: int) -> int {
    y * width + x
}

/// A pixel inside the image has its place inside the buffer.
pub proof fn lemma_pixel_index_in_buffer(width: int, height: int, x: int, y: int)
    requires
        0 <= x < width,
        0 <= y < height,
    ensures
        0 <= pixel_index(width, x, y) < width * height,
{
    assert(0 <= y * width) by (nonlinear_arith)
        requires
            0 <= y,
            0 <= width,
    ;
    assert(y * width + x < width * height) by (nonlinear_arith)
        requires
            0 <= x < width,
            0 <= y < height,
    ;
}

/// Two pixels inside the image never share a place in the buffer.
pub proof fn lemma_pixel_index_injective(width: int, x1: int, y1: int, x2: int, y2: int)
    requires
        0 <= x1 < width,
        0 <= x2 < width,
        0 <= y1,
        0 <= y2,
        pixel_index(width, x1, y1) == pixel_index(width, x2, y2),
    ensures
        x1 == x2,
        y1 == y2,
{
    if y1 < y2 {
        assert(y1 * width + width <= y2 * width) by (nonlinear_arith)
            requires
                y1 < y2,
                0 <= width,
        ;
    } else if y2 < y1 {
        assert(y2 * width + width <= y1 * width) by (nonlinear_arith)
            requires
                y2 < y1,
                0 <= width,
        ;
    }
}

/// What a grayscale image holds: its size and its pixels, row by row.
pub struct RasterView {
    pub width: nat,
    pub height: nat,
    pub pixels: Seq<u8>,
}

impl RasterView {
    pub open spec fn wf(self) -> bool {
        self.pixels.len() == self.width * self.height
    }

    pub open spec fn in_bounds(self, x: int, y: int) -> bool {
        0 <= x < self.width && 0 <= y < self.height
    }

    pub open spec fn pixel(self, x: int, y: int) -> u8 {
        self.pixels[pixel_index(self.width as int, x, y)]
    }

    /// A pixel is black when it lies inside the image and its value is 0.
    pub open spec fn is_black(self, x: int, y: int) -> bool {
        self.in_bounds(x, y) && self.pixel(x, y) == 0
    }

    /// The same image with pixel `(x, y)` set to `v`; unchanged when `(x, y)`
    /// has no place in the buffer.
    pub open spec fn set(self, x: int, y: int, v: u8) -> RasterView {
        let i = pixel_index(self.width as int, x, y);
        if self.in_bounds(x, y) && i < self.pixels.len() {
            RasterView { width: self.width, height: self.height, pixels: self.pixels.update(i, v) }
        } else {
            self
        }
    }
}

/// An 8-bit grayscale image stored row by row; 0 is black.
pub struct GrayImage {
    width: u32,
    height: u32,
    pixels: Vec<u8>,
}

impl View for GrayImage {
    type V = RasterView;

    closed spec fn view(&self) -> RasterView {
        RasterView { width: self.width as nat, height: self.height as nat, pixels: self.pixels@ }
    }
}

impl GrayImage {
    /// An image of the given size over a row-major buffer; `None` unless the
    /// buffer holds exactly `width * height` pixels.
    pub fn from_raw(width: u32, height: u32, pixels: Vec<u8>) -> (r: Option<GrayImage>)
        ensures
            r is Some <==> pixels@.len() == width * height,
            r matches Some(img) ==> img@ == (RasterView {
                width: width as nat,
                height: height as nat,
                pixels: pixels@,
            }),
    {
        assert(width as u64 * height as u64 <= u64::MAX) by (nonlinear_arith)
            requires
                width <= u32::MAX,
                height <= u32::MAX,
        ;
        let size: u64 = width as u64 * height as u64;
        if pixels.len() as u64 == size {
            Some(GrayImage { width, height, pixels })
        } else {
            None
        }
    }

    pub fn width(&self) -> (r: u32)
        ensures
            r == self@.width,
    {
        self.width
    }

    pub fn height(&self) -> (r: u32)
        ensures
            r == self@.height,
    {
        self.height
    }

    /// The buffer, row by row.
    pub fn into_raw(self) -> (r: Vec<u8>)
        ensures
            r@ == self@.pixels,
    {
        self.pixels
    }

    /// The buffer, row by row.
    pub fn as_raw(&self) -> (r: &Vec<u8>)
        ensures
            r@ == self@.pixels,
    {
        &self.pixels
    }

    /// Where pixel `(x, y)` lies in the buffer.
    pub fn index_of(&self, x: u32, y: u32) -> (r: usize)
        requires
            self@.wf(),
            self@.in_bounds(x as int, y as int),
        ensures
            r == pixel_index(self@.width as int, x as int, y as int),
            r < self@.pixels.len(),
    {
        let len = self.pixels.len();
        proof {
            lemma_pixel_index_in_buffer(self.width as int, self.height as int, x as int, y as int);
            assert(0 <= y * self.width <= y * self.width + x) by (nonlinear_arith)
                requires
                    0 <= y,
                    0 <= x,
                    0 <= self.width,
            ;
            assert(y * self.width + x < len);
        }
        y as usize * self.width as usize + x as usize
    }

    pub fn get_pixel(&self, x: u32, y: u32) -> (r: u8)
        requires
            self@.wf(),
            self@.in_bounds(x as int, y as int),
        ensures
            r == self@.pixel(x as int, y as int),
    {
        let i = self.index_of(x, y);
        self.pixels[i]
    }

    pub fn put_pixel(&mut self, x: u32, y: u32, v: u8)
        requires
            old(self)@.wf(),
            old(self)@.in_bounds(x as int, y as int),
        ensures
            final(self)@ == old(self)@.set(x as int, y as int, v),
            final(self)@.wf(),
    {
        let i = self.index_of(x, y);
        self.pixels.set(i, v);
        assert(self@.pixels.len() == old(self)@.pixels.len());
    }
}

} // verus!
