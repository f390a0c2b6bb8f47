//! Images that look different on a dark and on a light background.
//!
//! Two images of the same content, one drawn for a dark theme and one for a
//! light theme, are combined into a single RGBA image. Laid over the dark
//! theme's background it shows the first, laid over the light theme's
//! background it shows the second: each output pixel gets the opacity and
//! the colour that make the two compositions come out right.
//!
//! * [`conversion`] walks the canvas and fills the output image.
//! * [`frame`] lays two images of different sizes out on one canvas.
//! * [`compositor`] solves for one output pixel.
//! * [`binary32`] is the single-precision arithmetic that the compositor
//!   is defined in, carried out on whole numbers.
//! * [`color`] holds the colour and pixel types and the `#rrggbb` notation.
//! * [`raster`] is the boundary to the `image` crate.
//! * [`error`] lists what can go wrong.

pub mod binary32;
pub mod color;
pub mod compositor;
pub mod conversion;
pub mod error;
pub mod frame;
pub mod raster;

pub use crate::color::Color;
pub use crate::color::Rgba;
pub use crate::conversion::convert;
pub use crate::error::Error;
pub use crate::raster::OutputImage;
