//! The canvas that two images of any sizes share, each centred on it.

use vstd::prelude::*;

verus! {

/// The rectangle of the canvas that one source image takes.
#[derive(Clone, Copy, Debug, PartialEq, Eq, Structural)]
pub struct Placement {
    /// Canvas column of the image's left edge.
    pub x: u32,
    /// Canvas row of the image's top edge.
    pub y: u32,
    /// Width of the image.
    pub width: u32,
    /// Height of the image.
    pub height: u32,
}

/// The canvas and the place of the dark and of the light image on it.
#[derive(Clone, Copy, Debug, PartialEq, Eq, Structural)]
pub struct Frame {
    /// Width of the canvas.
    pub width: u32,
    /// Height of the canvas.
    pub height: u32,
    /// Where the dark image lies.
    pub dark: Placement,
    /// Where the light image lies.
    pub light: Placement,
}

/// The larger of two sizes.
pub open spec fn larger(a: int, b: int) -> int {
    if a >= b {
        a
    } else {
        b
    }
}

/// The offset that centres `size` within `canvas`, rounded down.
pub open spec fn centered(canvas: int, size: int) -> int {
    (canvas - size) / 2
}

/// An image of the given size centred on a canvas of the given size.
pub open spec fn placed(canvas_width: int, canvas_height: int, width: u32, height: u32) -> Placement {
    Placement {
        x: centered(canvas_width, width as int) as u32,
        y: centered(canvas_height, height as int) as u32,
        width,
        height,
    }
}

/// The frame for a dark and a light image of the given sizes: the canvas is
/// as wide as the wider and as high as the higher of the two, and each image
/// is centred on it.
pub open spec fn frame_of(dark_width: u32, dark_height: u32, light_width: u32, light_height: u32) -> Frame {
    let width: int = larger(dark_width as int, light_width as int);
    let height: int = larger(dark_height as int, light_height as int);
    Frame {
        width: width as u32,
        height: height as u32,
        dark: placed(width, height, dark_width, dark_height),
        light: placed(width, height, light_width, light_height),
    }
}

impl Placement {
    /// Whether the canvas position `(x, y)` falls on the image.
    pub open spec fn covers(self, x: int, y: int) -> bool {
        &&& self.x <= x < self.x + self.width
        &&& self.y <= y < self.y + self.height
    }

    /// Whether the image lies on a canvas of the given size.
    pub open spec fn fits(self, canvas_width: int, canvas_height: int) -> bool {
        &&& self.x + self.width <= canvas_width
        &&& self.y + self.height <= canvas_height
    }

    /// Whether the image lies in the middle of a canvas of the given size:
    /// the margin on its right is the margin on its left or one more, and
    /// so is the margin below it to the margin above it.
    pub open spec fn centered_on(self, canvas_width: int, canvas_height: int) -> bool {
        &&& 0 <= (canvas_width - self.x - self.width) - self.x <= 1
        &&& 0 <= (canvas_height - self.y - self.height) - self.y <= 1
    }

    /// The position within the image that the canvas position `(x, y)`
    /// shows, if it shows any.
    pub fn locate(&self, x: u32, y: u32) -> (at: Option<(u32, u32)>)
        ensures
            at == if self.covers(x as int, y as int) {
                Some(((x - self.x) as u32, (y - self.y) as u32))
            } else {
                None
            },
    {
        if self.x <= x && x - self.x < self.width && self.y <= y && y - self.y < self.height {
            Some((x - self.x, y - self.y))
        } else {
            None
        }
    }
}

impl Frame {
    /// The canvas is as wide as the wider image and as high as the higher
    /// one, and both images lie in the middle of it.
    pub open spec fn well_formed(self) -> bool {
        &&& self.width == larger(self.dark.width as int, self.light.width as int)
        &&& self.height == larger(self.dark.height as int, self.light.height as int)
        &&& self.dark.centered_on(self.width as int, self.height as int)
        &&& self.light.centered_on(self.width as int, self.height as int)
    }
}

fn center(canvas: u32, size: u32) -> (offset: u32)
    requires
        size <= canvas,
    ensures
        offset == centered(canvas as int, size as int),
        offset + size <= canvas,
{
    (canvas - size) / 2
}

/// Lays out the canvas for a dark and a light image of the given sizes.
pub fn align(dark_width: u32, dark_height: u32, light_width: u32, light_height: u32) -> (frame: Frame)
    ensures
        frame == frame_of(dark_width, dark_height, light_width, light_height),
        frame.well_formed(),
{
    let width: u32 = if dark_width >= light_width {
        dark_width
    } else {
        light_width
    };
    let height: u32 = if dark_height >= light_height {
        dark_height
    } else {
        light_height
    };
    Frame {
        width,
        height,
        dark: Placement {
            x: center(width, dark_width),
            y: center(height, dark_height),
            width: dark_width,
            height: dark_height,
        },
        light: Placement {
            x: center(width, light_width),
            y: center(height, light_height),
            width: light_width,
            height: light_height,
        },
    }
}

/// Two images of one size share a canvas of that size, and each covers all
/// of it: nothing is padded.
pub proof fn lemma_equal_sizes_fill_canvas(width: u32, height: u32)
    ensures
        ({
            let frame = frame_of(width, height, width, height);
            &&& frame.width == width
            &&& frame.height == height
            &&& frame.dark == (Placement { x: 0, y: 0, width, height })
            &&& frame.light == frame.dark
            &&& forall|x: int, y: int|
                0 <= x < width && 0 <= y < height ==> #[trigger] frame.dark.covers(x, y)
        }),
{
}

/// The sizes of two images leave one way to lay them out: a well-formed
/// frame is the frame of the sizes of its images. Both images lie on its
/// canvas, and on each axis one of them reaches from edge to edge.
pub proof fn lemma_well_formed_frame_is_unique(frame: Frame)
    requires
        frame.well_formed(),
    ensures
        frame == frame_of(
            frame.dark.width,
            frame.dark.height,
            frame.light.width,
            frame.light.height,
        ),
        frame.dark.fits(frame.width as int, frame.height as int),
        frame.light.fits(frame.width as int, frame.height as int),
        frame.dark.width == frame.width || frame.light.width == frame.width,
        frame.dark.height == frame.height || frame.light.height == frame.height,
{
}

} // verus!
