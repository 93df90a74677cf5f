//! Binary (inside/outside) views of a raster image.

use vstd::prelude::*;

verus! {

use crate::grid::lemma_pix_bounds;

/// Represents an image with each pixel being either true or false,
/// corresponding to inside-the-shape and outside-of-the-shape respectively.
///
/// Implementations promise that `width`, `height` and `is_inside` answer
/// according to the pure view given by the three spec functions, so that
/// the distance field engine's contracts can speak about the image.
/// `is_inside` must only be queried in range.
pub trait BinaryImage: Sized {
    /// The width of the image, as the implementation sees it.
    spec fn width_spec(&self) -> u16;

    /// The height of the image, as the implementation sees it.
    spec fn height_spec(&self) -> u16;

    /// Whether the pixel at (x, y) lies inside the shape.
    spec fn inside_spec(&self, x: int, y: int) -> bool;

    fn width(&self) -> (w: u16)
        ensures
            w == self.width_spec(),
    ;

    fn height(&self) -> (h: u16)
        ensures
            h == self.height_spec(),
    ;

    fn is_inside(&self, x: u16, y: u16) -> (r: bool)
        requires
            x < self.width_spec(),
            y < self.height_spec(),
        ensures
            r == self.inside_spec(x as int, y as int),
    ;
}

/// An image which is described by a row major slice of bytes, with one
/// byte per pixel. To determine if a byte is inside or outside, it is
/// compared to a threshold. The default threshold is 127.
pub struct BinaryByteSliceImage<'b> {
    width: u16,
    height: u16,
    /// A row-major image vector with one byte per pixel.
    buffer: &'b [u8],
    /// A pixel must be brighter than this value
    /// in order to be inside the shape.
    threshold: u8,
}

impl<'b> BinaryByteSliceImage<'b> {
    /// The buffer always holds exactly one byte per pixel.
    #[verifier::type_invariant]
    pub closed spec fn wf(self) -> bool {
        self.buffer@.len() == self.width as int * self.height as int
    }
}

/// Create a binary image from a row major byte slice with each byte
/// brighter than 127 being "inside-the-shape".
/// The buffer must hold exactly `width * height` bytes.
pub fn of_byte_slice<'b>(buffer: &'b [u8], width: u16, height: u16) -> (img: BinaryByteSliceImage<
    'b,
>)
    requires
        buffer@.len() == width as int * height as int,
    ensures
        img.width_spec() == width,
        img.height_spec() == height,
        forall|x: int, y: int|
            0 <= x < width && 0 <= y < height ==> img.inside_spec(x, y) == (buffer@[y * width as int
                + x] > 127),
{
    of_byte_slice_with_threshold(buffer, width, height, 127)
}

/// Create a binary image from a row major byte slice with each byte
/// brighter than the threshold being "inside-the-shape".
/// The buffer must hold exactly `width * height` bytes.
pub fn of_byte_slice_with_threshold<'b>(
    buffer: &'b [u8],
    width: u16,
    height: u16,
    threshold: u8,
) -> (img: BinaryByteSliceImage<'b>)
    requires
        buffer@.len() == width as int * height as int,
    ensures
        img.width_spec() == width,
        img.height_spec() == height,
        forall|x: int, y: int|
            0 <= x < width && 0 <= y < height ==> img.inside_spec(x, y) == (buffer@[y * width as int
                + x] > threshold),
{
    BinaryByteSliceImage { width, height, buffer, threshold }
}

impl<'b> BinaryImage for BinaryByteSliceImage<'b> {
    closed spec fn width_spec(&self) -> u16 {
        self.width
    }

    closed spec fn height_spec(&self) -> u16 {
        self.height
    }

    closed spec fn inside_spec(&self, x: int, y: int) -> bool {
        self.buffer@[y * self.width as int + x] > self.threshold
    }

    fn width(&self) -> (w: u16) {
        self.width
    }

    fn height(&self) -> (h: u16) {
        self.height
    }

    fn is_inside(&self, x: u16, y: u16) -> (r: bool) {
        proof {
            use_type_invariant(self);
            lemma_pix_bounds(self.width as int, self.height as int, x as int, y as int);
            assert(self.width as int * self.height as int <= 0xFFFE0001int && self.width as int * y
                as int == y as int * self.width as int) by (nonlinear_arith)
                requires
                    self.width <= 0xFFFFu16,
                    self.height <= 0xFFFFu16,
            ;
        }
        let index: usize = self.width as usize * y as usize + x as usize;
        *vstd::slice::slice_index_get(self.buffer, index) > self.threshold
    }
}

} // verus!
