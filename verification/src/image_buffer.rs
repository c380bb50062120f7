//! The calls this library makes into the `image` crate's `ImageBuffer`.
//!
//! An RGBA image is held as `ImageBuffer<Rgba<u8>, Vec<u8>>`. Its contents
//! are described by two names: `image_size` (width and height in pixels) and
//! `image_bytes` (the packed channel bytes, row by row, four per pixel).
use vstd::prelude::*;

use image::{ImageBuffer, Rgba};

use crate::color::Color;
use crate::pixels::painted;

verus! {

/// An RGBA image of the `image` crate, `ImageBuffer<Rgba<u8>, Vec<u8>>`:
/// a width and height in pixels and the packed channel bytes, which the names
/// `image_size` and `image_bytes` describe.
#[verifier::external_body]
pub struct RgbaImage {
    buffer: ImageBuffer<Rgba<u8>, Vec<u8>>,
}

/// The channel bytes that an RGBA image buffer holds, in its own order:
/// pixel `(x, y)` starts at byte `(y * width + x) * 4`, channels r, g, b, a.
pub uninterp spec fn image_bytes(image: RgbaImage) -> Seq<u8>;

/// The width and height, in pixels, that an RGBA image buffer was made with.
pub uninterp spec fn image_size(image: RgbaImage) -> (u32, u32);

/// `ImageBuffer::new`: a `width` by `height` image whose bytes are all zero.
/// The crate's source computes the length `4 * width * height` with checked
/// multiplications and panics when it overflows `usize`; `requires` rules
/// that out.
#[verifier::external_body]
pub(crate) fn new_image(width: u32, height: u32) -> (image: RgbaImage)
    requires
        4 * width <= usize::MAX,
        4 * width * height <= usize::MAX,
    ensures
        image_size(image) == (width, height),
        image_bytes(image) == Seq::new((4 * width * height) as nat, |i: int| 0u8),
{
    RgbaImage { buffer: ImageBuffer::new(width, height) }
}

/// `ImageBuffer::from_vec`: takes `buf` as the image's bytes when it holds at
/// least `4 * width * height` of them (computed with checked multiplications,
/// first `4 * width`, then times `height`), and gives `None` otherwise.
#[verifier::external_body]
pub(crate) fn image_from_vec(width: u32, height: u32, buf: Vec<u8>) -> (image: Option<RgbaImage>)
    ensures
        image is Some <==> (4 * width <= usize::MAX && 4 * width * height <= usize::MAX && 4
            * width * height <= buf@.len()),
        image matches Some(im) ==> image_size(im) == (width, height) && image_bytes(im) == buf@,
{
    match ImageBuffer::from_vec(width, height, buf) {
        Some(buffer) => Some(RgbaImage { buffer }),
        None => None,
    }
}

/// `ImageBuffer::width`: the width the image was made with.
#[verifier::external_body]
pub(crate) fn image_width(image: &RgbaImage) -> (w: u32)
    ensures
        w == image_size(*image).0,
{
    image.buffer.width()
}

/// `ImageBuffer::height`: the height the image was made with.
#[verifier::external_body]
pub(crate) fn image_height(image: &RgbaImage) -> (h: u32)
    ensures
        h == image_size(*image).1,
{
    image.buffer.height()
}

/// `ImageBuffer::as_raw`: the image's bytes.
#[verifier::external_body]
pub(crate) fn image_raw(image: &RgbaImage) -> (bytes: &Vec<u8>)
    ensures
        bytes@ == image_bytes(*image),
{
    image.buffer.as_raw()
}

/// `ImageBuffer::put_pixel`: sets the four channel bytes of pixel `(x, y)`,
/// which start at `(y * width + x) * 4`, to `c`; the size stays. The crate's
/// source panics when `x` or `y` is outside the image; `requires` rules that
/// out.
#[verifier::external_body]
pub(crate) fn put_pixel(image: &mut RgbaImage, x: u32, y: u32, c: Color)
    requires
        x < image_size(*old(image)).0,
        y < image_size(*old(image)).1,
    ensures
        image_size(*final(image)) == image_size(*old(image)),
        image_bytes(*final(image)) == painted(
            image_bytes(*old(image)),
            image_size(*old(image)).0 as int,
            x as int,
            y as int,
            c,
        ),
{
    image.buffer.put_pixel(x, y, Rgba([c.r, c.g, c.b, c.a]))
}

} // verus!
