//! The pixel grids of the `image` crate, as far as a conversion reads and
//! fills them.
//!
//! Nothing in this file is proved. The contracts say what the `image` crate
//! does, and the conversion is verified against them.

use vstd::prelude::*;
use crate::color::Rgba;

verus! {

/// A decoded image of any pixel format.
#[verifier::external_type_specification]
#[verifier::external_body]
pub struct ExDynamicImage(image::DynamicImage);

/// The image that a conversion produces: 8-bit RGBA, one pixel for each
/// position of the canvas. The field is the `image` crate's buffer, ready to
/// be encoded. `ImageBuffer` is bounded by a trait of the `image` crate,
/// which the verifier does not take in a declaration, so the buffer is held
/// in a struct that the verifier does not look into.
#[verifier::external_body]
pub struct OutputImage(pub image::RgbaImage);

/// The number of columns of a source image.
pub uninterp spec fn source_width(image: image::DynamicImage) -> u32;

/// The number of rows of a source image.
pub uninterp spec fn source_height(image: image::DynamicImage) -> u32;

/// The pixels of a source image as 8-bit RGBA, row after row from the top,
/// each row from the left.
pub uninterp spec fn source_pixels(image: image::DynamicImage) -> Seq<Rgba>;

/// The 8-bit luma that the `image` crate gives an 8-bit RGBA pixel.
pub uninterp spec fn luma_of(pixel: Rgba) -> u8;

/// The number of columns of an output image.
pub uninterp spec fn output_width(image: OutputImage) -> u32;

/// The number of rows of an output image.
pub uninterp spec fn output_height(image: OutputImage) -> u32;

/// The pixels of an output image, row after row from the top, each row from
/// the left.
pub uninterp spec fn output_pixels(image: OutputImage) -> Seq<Rgba>;

/// `GenericImageView::width` on a `DynamicImage` returns the width of the
/// buffer it holds.
#[verifier::external_body]
pub(crate) fn width_of(image: &image::DynamicImage) -> (width: u32)
    ensures
        width == source_width(*image),
{
    image::GenericImageView::width(image)
}

/// `GenericImageView::height` on a `DynamicImage` returns the height of the
/// buffer it holds.
#[verifier::external_body]
pub(crate) fn height_of(image: &image::DynamicImage) -> (height: u32)
    ensures
        height == source_height(*image),
{
    image::GenericImageView::height(image)
}

/// `GenericImageView::get_pixel` on a `DynamicImage` returns the pixel in
/// column `x` of row `y`, converted to 8-bit RGBA. It panics outside the
/// image, which the precondition rules out.
#[verifier::external_body]
pub(crate) fn pixel_at(image: &image::DynamicImage, x: u32, y: u32) -> (pixel: Rgba)
    requires
        x < source_width(*image),
        y < source_height(*image),
    ensures
        pixel == source_pixels(*image)[y * source_width(*image) + x],
{
    let rgba = image::GenericImageView::get_pixel(image, x, y);
    Rgba { r: rgba.0[0], g: rgba.0[1], b: rgba.0[2], a: rgba.0[3] }
}

/// `Pixel::to_luma` on an `Rgba<u8>` returns its luma, which depends on the
/// four channels only.
#[verifier::external_body]
pub(crate) fn luma(pixel: Rgba) -> (value: u8)
    ensures
        value == luma_of(pixel),
{
    image::Pixel::to_luma(&image::Rgba([pixel.r, pixel.g, pixel.b, pixel.a])).0[0]
}

/// `ImageBuffer::new` returns a buffer of the given size with every channel
/// of every pixel zero. It works out the number of bytes as four times the
/// width, and that times the height, and panics where either product is
/// beyond `usize`; it then allocates, which panics where the bytes are
/// beyond `isize`. The precondition rules all three out. Where the machine
/// cannot serve an allocation the process ends, as with any other
/// allocation.
#[verifier::external_body]
pub(crate) fn blank(width: u32, height: u32) -> (image: OutputImage)
    requires
        4 * width <= usize::MAX,
        4 * width * height <= isize::MAX,
    ensures
        output_width(image) == width,
        output_height(image) == height,
        output_pixels(image) == Seq::new(
            (width * height) as nat,
            |i: int| (Rgba { r: 0, g: 0, b: 0, a: 0 }),
        ),
{
    OutputImage(image::RgbaImage::new(width, height))
}

/// `ImageBuffer::get_pixel_mut` returns the place of the pixel in column `x`
/// of row `y`; writing to it changes that pixel and nothing else. It panics
/// outside the image, which the precondition rules out.
#[verifier::external_body]
pub(crate) fn put(image: &mut OutputImage, x: u32, y: u32, pixel: Rgba)
    requires
        x < output_width(*old(image)),
        y < output_height(*old(image)),
    ensures
        output_width(*final(image)) == output_width(*old(image)),
        output_height(*final(image)) == output_height(*old(image)),
        output_pixels(*final(image)) == output_pixels(*old(image)).update(
            y * output_width(*old(image)) + x,
            pixel,
        ),
{
    *image.0.get_pixel_mut(x, y) = image::Rgba([pixel.r, pixel.g, pixel.b, pixel.a]);
}

} // verus!
