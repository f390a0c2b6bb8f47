//! The ways in which a call into this library can fail.

use vstd::prelude::*;

verus! {

/// Why a colour was not parsed or an image not produced.
#[derive(Clone, Copy, Debug, PartialEq, Eq, Structural)]
pub enum Error {
    /// A colour text is not `#` followed by six hexadecimal digits.
    InvalidColorFormat,
    /// The canvas that holds both images takes more bytes than one
    /// allocation can have, or one row of it more than can be counted.
    CanvasTooLarge,
}

impl Error {
    /// What to tell a person about this error.
    pub fn message(&self) -> (text: &'static str)
        ensures
            text@ == match *self {
                Error::InvalidColorFormat => "Invalid format for color, expected #rrggbb"@,
                Error::CanvasTooLarge => "The images are too large to share one canvas"@,
            },
    {
        match self {
            Error::InvalidColorFormat => "Invalid format for color, expected #rrggbb",
            Error::CanvasTooLarge => "The images are too large to share one canvas",
        }
    }
}

} // verus!
