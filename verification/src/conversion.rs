//! The conversion of a dark-theme and a light-theme image into the one
//! image that shows as either, depending on the background.

use vstd::prelude::*;
use vstd::arithmetic::div_mod::lemma_fundamental_div_mod_converse;
use crate::color::Color;
use crate::color::Rgba;
use crate::compositor::composite;
use crate::compositor::theme_pixel;
use crate::compositor::lerp_pixel;
use crate::compositor::unit_luma;
use crate::compositor::lemma_equal_lumas;
use crate::binary32::ONE;
use crate::error::Error;
use crate::frame::align;
use crate::frame::frame_of;
use crate::frame::Frame;
use crate::frame::Placement;
use crate::raster::blank;
use crate::raster::height_of;
use crate::raster::luma;
use crate::raster::luma_of;
use crate::raster::output_height;
use crate::raster::output_pixels;
use crate::raster::output_width;
use crate::raster::pixel_at;
use crate::raster::put;
use crate::raster::source_height;
use crate::raster::source_pixels;
use crate::raster::source_width;
use crate::raster::width_of;
use crate::raster::OutputImage;

verus! {

/// Where a source image lies on the canvas when its left edge is in column
/// `left` and its top edge in row `top`.
pub open spec fn placed_at(image: image::DynamicImage, left: u32, top: u32) -> Placement {
    Placement { x: left, y: top, width: source_width(image), height: source_height(image) }
}

/// The luminance byte that a source image placed at `(left, top)`
/// contributes at the canvas position `(x, y)`: the luma of the pixel it
/// shows there, and full intensity where the image does not reach.
pub open spec fn sampled_luma(image: image::DynamicImage, left: u32, top: u32, x: int, y: int) -> u8 {
    if placed_at(image, left, top).covers(x, y) {
        luma_of(source_pixels(image)[(y - top) * source_width(image) + (x - left)])
    } else {
        255
    }
}

/// The frame that a dark and a light image share.
pub open spec fn shared_frame(dark_image: image::DynamicImage, light_image: image::DynamicImage) -> Frame {
    frame_of(
        source_width(dark_image),
        source_height(dark_image),
        source_width(light_image),
        source_height(light_image),
    )
}

/// The output pixel at the canvas position `(x, y)`.
pub open spec fn converted_pixel(
    dark_image: image::DynamicImage,
    light_image: image::DynamicImage,
    dark_color: Color,
    light_color: Color,
    x: int,
    y: int,
) -> Rgba {
    let frame = shared_frame(dark_image, light_image);
    theme_pixel(
        sampled_luma(dark_image, frame.dark.x, frame.dark.y, x, y),
        sampled_luma(light_image, frame.light.x, frame.light.y, x, y),
        dark_color,
        light_color,
    )
}

/// The pixels of the whole output, row after row from the top, each row
/// from the left.
pub open spec fn converted_pixels(
    dark_image: image::DynamicImage,
    light_image: image::DynamicImage,
    dark_color: Color,
    light_color: Color,
) -> Seq<Rgba> {
    let frame = shared_frame(dark_image, light_image);
    Seq::new(
        (frame.width * frame.height) as nat,
        |i: int|
            converted_pixel(
                dark_image,
                light_image,
                dark_color,
                light_color,
                i % (frame.width as int),
                i / (frame.width as int),
            ),
    )
}

/// Whether an RGBA canvas of the frame's size fits one allocation: the
/// bytes of one row can be counted, and those of all rows can be
/// allocated. A canvas without rows still has to have a row that can be
/// counted.
pub open spec fn canvas_fits(frame: Frame) -> bool {
    &&& 4 * frame.width <= usize::MAX
    &&& 4 * frame.width * frame.height <= isize::MAX
}

/// Reads the luminance byte that `image`, placed with its left edge in
/// column `left` and its top edge in row `top`, contributes at the canvas
/// position `(x, y)`.
pub fn sample(image: &image::DynamicImage, left: u32, top: u32, x: u32, y: u32) -> (value: u8)
    ensures
        value == sampled_luma(*image, left, top, x as int, y as int),
{
    let placement = Placement {
        x: left,
        y: top,
        width: width_of(image),
        height: height_of(image),
    };
    match placement.locate(x, y) {
        Some((column, row)) => luma(pixel_at(image, column, row)),
        None => 255,
    }
}

/// Combines the image meant for the dark theme and the image meant for the
/// light theme into one image. Over `dark_color` it shows the luminance of
/// `dark_image`, over `light_color` that of `light_image`. The images may
/// differ in size: each is centred on a canvas that holds both. A canvas
/// too large for one allocation is refused.
pub fn convert(
    dark_image: &image::DynamicImage,
    light_image: &image::DynamicImage,
    dark_color: Color,
    light_color: Color,
) -> (result: Result<OutputImage, Error>)
    ensures
        match result {
            Ok(output) => {
                let frame = shared_frame(*dark_image, *light_image);
                &&& canvas_fits(frame)
                &&& output_width(output) == frame.width
                &&& output_height(output) == frame.height
                &&& output_pixels(output) == converted_pixels(
                    *dark_image,
                    *light_image,
                    dark_color,
                    light_color,
                )
            },
            Err(error) => {
                &&& error == Error::CanvasTooLarge
                &&& !canvas_fits(shared_frame(*dark_image, *light_image))
            },
        },
{
    let frame = align(
        width_of(dark_image),
        height_of(dark_image),
        width_of(light_image),
        height_of(light_image),
    );
    let width: u32 = frame.width;
    let height: u32 = frame.height;
    assert(4 * width * height <= 4 * 0xffff_ffff * 0xffff_ffff) by (nonlinear_arith)
        requires
            width <= 0xffff_ffff,
            height <= 0xffff_ffff,
    ;
    if 4 * (width as u128) > usize::MAX as u128 {
        return Err(Error::CanvasTooLarge);
    }
    if 4 * (width as u128) * (height as u128) > isize::MAX as u128 {
        return Err(Error::CanvasTooLarge);
    }
    let mut output = blank(width, height);
    let ghost expected = converted_pixels(*dark_image, *light_image, dark_color, light_color);
    let mut y: u32 = 0;
    while y < height
        invariant
            frame == shared_frame(*dark_image, *light_image),
            width == frame.width,
            height == frame.height,
            y <= height,
            output_width(output) == width,
            output_height(output) == height,
            output_pixels(output).len() == width * height,
            expected == converted_pixels(*dark_image, *light_image, dark_color, light_color),
            expected.len() == width * height,
            forall|i: int| 0 <= i < y * width ==> output_pixels(output)[i] == expected[i],
        decreases height - y,
    {
        let mut x: u32 = 0;
        while x < width
            invariant
                frame == shared_frame(*dark_image, *light_image),
                width == frame.width,
                height == frame.height,
                y < height,
                x <= width,
                output_width(output) == width,
                output_height(output) == height,
                output_pixels(output).len() == width * height,
                expected == converted_pixels(*dark_image, *light_image, dark_color, light_color),
                expected.len() == width * height,
                forall|i: int| 0 <= i < y * width + x ==> output_pixels(output)[i] == expected[i],
            decreases width - x,
        {
            let dark_luma: u8 = sample(dark_image, frame.dark.x, frame.dark.y, x, y);
            let light_luma: u8 = sample(light_image, frame.light.x, frame.light.y, x, y);
            let pixel = composite(dark_luma, light_luma, dark_color, light_color);
            proof {
                let i: int = y * width + x;
                lemma_fundamental_div_mod_converse(i, width as int, y as int, x as int);
                assert(i < width * height) by (nonlinear_arith)
                    requires
                        i == y * width + x,
                        0 <= x < width,
                        0 <= y < height,
                ;
            }
            put(&mut output, x, y, pixel);
            x = x + 1;
        }
        proof {
            assert((y + 1) * width == y * width + width) by (nonlinear_arith);
        }
        y = y + 1;
    }
    proof {
        assert(height * width == width * height) by (nonlinear_arith);
        assert(output_pixels(output) =~= expected);
    }
    Ok(output)
}

/// The pixel in column `x` of row `y` of the output is the one that the two
/// luminances at that canvas position give.
pub proof fn lemma_converted_pixel_at(
    dark_image: image::DynamicImage,
    light_image: image::DynamicImage,
    dark_color: Color,
    light_color: Color,
    x: int,
    y: int,
)
    requires
        0 <= x < shared_frame(dark_image, light_image).width,
        0 <= y < shared_frame(dark_image, light_image).height,
    ensures
        ({
            let width = shared_frame(dark_image, light_image).width as int;
            let pixels = converted_pixels(dark_image, light_image, dark_color, light_color);
            &&& 0 <= y * width + x < pixels.len()
            &&& pixels[y * width + x] == converted_pixel(
                dark_image,
                light_image,
                dark_color,
                light_color,
                x,
                y,
            )
        }),
{
    let frame = shared_frame(dark_image, light_image);
    let width: int = frame.width as int;
    let height: int = frame.height as int;
    lemma_fundamental_div_mod_converse(y * width + x, width, y, x);
    assert(0 <= y * width + x < width * height) by (nonlinear_arith)
        requires
            0 <= x < width,
            0 <= y < height,
    ;
}

/// An image converted with itself is half opaque at every position, and
/// its colour there lies as far from the dark colour towards the light
/// colour as the image is bright.
pub proof fn lemma_same_image_is_half_opaque(
    image: image::DynamicImage,
    dark_color: Color,
    light_color: Color,
    x: int,
    y: int,
)
    ensures
        ({
            let luma = sampled_luma(image, 0, 0, x, y);
            &&& shared_frame(image, image).dark == placed_at(image, 0, 0)
            &&& shared_frame(image, image).light == placed_at(image, 0, 0)
            &&& converted_pixel(image, image, dark_color, light_color, x, y) == lerp_pixel(
                dark_color,
                light_color,
                unit_luma(luma),
                ONE as int / 2,
            )
            &&& converted_pixel(image, image, dark_color, light_color, x, y).a == 127
        }),
{
    lemma_equal_lumas(sampled_luma(image, 0, 0, x, y), dark_color, light_color);
}

} // verus!
