//! Theme colours, output pixels, and the `#rrggbb` notation.

use vstd::prelude::*;
use vstd::string::*;
use crate::error::Error;

verus! {

/// An opaque colour of three 8-bit channels: the background of a theme.
#[derive(Clone, Copy, Debug, PartialEq, Eq, Structural)]
pub struct Color {
    pub r: u8,
    pub g: u8,
    pub b: u8,
}

/// One pixel of the output: a colour and how opaque it is.
#[derive(Clone, Copy, Debug, PartialEq, Eq, Structural)]
pub struct Rgba {
    pub r: u8,
    pub g: u8,
    pub b: u8,
    pub a: u8,
}

/// The number that a hexadecimal digit stands for, in either case.
pub open spec fn hex_value(c: char) -> Option<u8> {
    if '0' <= c <= '9' {
        Some((c as u8 - '0' as u8) as u8)
    } else if 'a' <= c <= 'f' {
        Some((c as u8 - 'a' as u8 + 10) as u8)
    } else if 'A' <= c <= 'F' {
        Some((c as u8 - 'A' as u8 + 10) as u8)
    } else {
        None
    }
}

/// The channel that two hexadecimal digits stand for.
pub open spec fn hex_pair(high: char, low: char) -> Option<u8> {
    match (hex_value(high), hex_value(low)) {
        (Some(h), Some(l)) => Some((16 * h + l) as u8),
        _ => None,
    }
}

/// The colour that a text stands for: `#`, then two hexadecimal digits for
/// each of red, green and blue, and nothing else.
pub open spec fn parse_color(text: Seq<char>) -> Option<Color> {
    if text.len() == 7 && text[0] == '#' {
        match (hex_pair(text[1], text[2]), hex_pair(text[3], text[4]), hex_pair(text[5], text[6])) {
            (Some(r), Some(g), Some(b)) => Some(Color { r, g, b }),
            _ => None,
        }
    } else {
        None
    }
}

/// The lower-case hexadecimal digit for a number below sixteen.
pub open spec fn hex_digit(value: u8) -> char {
    if value < 10 {
        ('0' as u8 + value) as char
    } else {
        ('a' as u8 + (value - 10)) as char
    }
}

/// A colour written as `#rrggbb`, in lower case.
pub open spec fn color_text(color: Color) -> Seq<char> {
    seq![
        '#',
        hex_digit(color.r / 16),
        hex_digit(color.r % 16),
        hex_digit(color.g / 16),
        hex_digit(color.g % 16),
        hex_digit(color.b / 16),
        hex_digit(color.b % 16),
    ]
}

/// `String::push` of std appends the character to the string.
pub assume_specification[ String::push ](text: &mut String, c: char)
    ensures
        final(text)@ == old(text)@.push(c),
;

fn digit_char(value: u8) -> (c: char)
    requires
        value < 16,
    ensures
        c == hex_digit(value),
{
    if value < 10 {
        ('0' as u8 + value) as char
    } else {
        ('a' as u8 + (value - 10)) as char
    }
}

fn digit_value(c: char) -> (value: Option<u8>)
    ensures
        value == hex_value(c),
        value matches Some(v) ==> v < 16,
{
    if '0' <= c && c <= '9' {
        Some(c as u8 - '0' as u8)
    } else if 'a' <= c && c <= 'f' {
        Some(c as u8 - 'a' as u8 + 10)
    } else if 'A' <= c && c <= 'F' {
        Some(c as u8 - 'A' as u8 + 10)
    } else {
        None
    }
}

fn channel_value(high: char, low: char) -> (value: Option<u8>)
    ensures
        value == hex_pair(high, low),
{
    match (digit_value(high), digit_value(low)) {
        (Some(h), Some(l)) => Some(16 * h + l),
        _ => None,
    }
}

impl Color {
    /// Reads a colour written as `#rrggbb`.
    pub fn from_str(s: &str) -> (result: Result<Color, Error>)
        ensures
            result == match parse_color(s@) {
                Some(color) => Ok::<Color, Error>(color),
                None => Err::<Color, Error>(Error::InvalidColorFormat),
            },
    {
        if s.unicode_len() != 7 {
            return Err(Error::InvalidColorFormat);
        }
        if s.get_char(0) != '#' {
            return Err(Error::InvalidColorFormat);
        }
        let r = channel_value(s.get_char(1), s.get_char(2));
        let g = channel_value(s.get_char(3), s.get_char(4));
        let b = channel_value(s.get_char(5), s.get_char(6));
        match (r, g, b) {
            (Some(r), Some(g), Some(b)) => Ok(Color { r, g, b }),
            _ => Err(Error::InvalidColorFormat),
        }
    }

    /// Writes the colour as `#rrggbb`, in lower case.
    pub fn to_hex(&self) -> (text: String)
        ensures
            text@ == color_text(*self),
    {
        let mut text = String::new();
        text.push('#');
        text.push(digit_char(self.r / 16));
        text.push(digit_char(self.r % 16));
        text.push(digit_char(self.g / 16));
        text.push(digit_char(self.g % 16));
        text.push(digit_char(self.b / 16));
        text.push(digit_char(self.b % 16));
        assert(text@ =~= color_text(*self));
        text
    }
}

impl std::str::FromStr for Color {
    type Err = Error;

    /// Reads a colour written as `#rrggbb`, as `Color::from_str` does, so
    /// that `parse` works on a text.
    fn from_str(s: &str) -> (result: Result<Color, Error>)
        ensures
            result == match parse_color(s@) {
                Some(color) => Ok::<Color, Error>(color),
                None => Err::<Color, Error>(Error::InvalidColorFormat),
            },
    {
        Color::from_str(s)
    }
}

/// A colour that is written and read again is the same colour.
pub proof fn lemma_color_text_round_trip(color: Color)
    ensures
        parse_color(color_text(color)) == Some(color),
{
    lemma_hex_digit_value(color.r / 16);
    lemma_hex_digit_value(color.r % 16);
    lemma_hex_digit_value(color.g / 16);
    lemma_hex_digit_value(color.g % 16);
    lemma_hex_digit_value(color.b / 16);
    lemma_hex_digit_value(color.b % 16);
}

/// A digit written and read again is the same number.
pub proof fn lemma_hex_digit_value(value: u8)
    requires
        value < 16,
    ensures
        hex_value(hex_digit(value)) == Some(value),
{
}

} // verus!
