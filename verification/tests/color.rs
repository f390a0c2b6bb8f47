use discriminord::color::Color;
use discriminord::error::Error;

#[test]
fn parses_the_dark_theme_default() {
    assert_eq!(
        Color::from_str("#36393f"),
        Ok(Color { r: 0x36, g: 0x39, b: 0x3f })
    );
}

#[test]
fn parses_the_light_theme_default() {
    assert_eq!(
        Color::from_str("#ffffff"),
        Ok(Color { r: 255, g: 255, b: 255 })
    );
}

#[test]
fn parses_black() {
    assert_eq!(Color::from_str("#000000"), Ok(Color { r: 0, g: 0, b: 0 }));
}

#[test]
fn parses_digits_of_either_case() {
    let expected = Ok(Color { r: 0xab, g: 0xcd, b: 0xef });
    assert_eq!(Color::from_str("#abcdef"), expected);
    assert_eq!(Color::from_str("#ABCDEF"), expected);
    assert_eq!(Color::from_str("#aBcDeF"), expected);
}

#[test]
fn channels_come_in_red_green_blue_order() {
    assert_eq!(Color::from_str("#010203"), Ok(Color { r: 1, g: 2, b: 3 }));
    assert_eq!(Color::from_str("#10a0f0"), Ok(Color { r: 0x10, g: 0xa0, b: 0xf0 }));
}

#[test]
fn written_color_is_lower_case_hex() {
    assert_eq!(Color { r: 0x36, g: 0x39, b: 0x3f }.to_hex(), "#36393f");
    assert_eq!(Color { r: 0xAB, g: 0x0C, b: 0xF0 }.to_hex(), "#ab0cf0");
    assert_eq!(Color { r: 0, g: 0, b: 0 }.to_hex(), "#000000");
    assert_eq!(Color { r: 255, g: 255, b: 255 }.to_hex(), "#ffffff");
}

#[test]
fn default_color_round_trips() {
    let color = Color::from_str("#36393f").unwrap();
    let text = color.to_hex();
    assert_eq!(text, "#36393f");
    assert_eq!(Color::from_str(&text), Ok(color));
}

#[test]
fn every_channel_value_round_trips() {
    for v in 0..=255u8 {
        let w = v.wrapping_mul(7).wrapping_add(3);
        let colors = [
            Color { r: v, g: 0, b: 0 },
            Color { r: 0, g: v, b: 0 },
            Color { r: 0, g: 0, b: v },
            Color { r: v, g: w, b: 255 - v },
        ];
        for color in colors {
            assert_eq!(Color::from_str(&color.to_hex()), Ok(color));
        }
    }
}

#[test]
fn text_parses_into_a_color() {
    assert_eq!(
        "#36393f".parse::<Color>(),
        Ok(Color { r: 0x36, g: 0x39, b: 0x3f })
    );
    assert_eq!("#ABCDEF".parse::<Color>(), Color::from_str("#abcdef"));
    assert_eq!("36393f".parse::<Color>(), Err(Error::InvalidColorFormat));
    assert_eq!("#+1+2+3".parse::<Color>(), Err(Error::InvalidColorFormat));
    let parsed: Result<Color, Error> = std::str::FromStr::from_str("#010203");
    assert_eq!(parsed, Ok(Color { r: 1, g: 2, b: 3 }));
}

#[test]
fn rejects_a_missing_hash() {
    assert_eq!(Color::from_str("36393f"), Err(Error::InvalidColorFormat));
    assert_eq!(Color::from_str("36393f0"), Err(Error::InvalidColorFormat));
    assert_eq!(Color::from_str("x36393f"), Err(Error::InvalidColorFormat));
}

#[test]
fn rejects_other_lengths() {
    assert_eq!(Color::from_str(""), Err(Error::InvalidColorFormat));
    assert_eq!(Color::from_str("#"), Err(Error::InvalidColorFormat));
    assert_eq!(Color::from_str("#fff"), Err(Error::InvalidColorFormat));
    assert_eq!(Color::from_str("#36393"), Err(Error::InvalidColorFormat));
    assert_eq!(Color::from_str("#36393f0"), Err(Error::InvalidColorFormat));
    assert_eq!(Color::from_str("#36393fff"), Err(Error::InvalidColorFormat));
}

#[test]
fn rejects_what_is_no_hex_digit() {
    assert_eq!(Color::from_str("#36393g"), Err(Error::InvalidColorFormat));
    assert_eq!(Color::from_str("#g6393f"), Err(Error::InvalidColorFormat));
    assert_eq!(Color::from_str("#36 93f"), Err(Error::InvalidColorFormat));
    assert_eq!(Color::from_str("#36393/"), Err(Error::InvalidColorFormat));
    assert_eq!(Color::from_str("#36393:"), Err(Error::InvalidColorFormat));
    assert_eq!(Color::from_str("#36393@"), Err(Error::InvalidColorFormat));
    assert_eq!(Color::from_str("#36393G"), Err(Error::InvalidColorFormat));
    assert_eq!(Color::from_str("#36393`"), Err(Error::InvalidColorFormat));
}

#[test]
fn rejects_signs_in_place_of_digits() {
    assert_eq!(Color::from_str("#+1+2+3"), Err(Error::InvalidColorFormat));
    assert_eq!(Color::from_str("#-1-2-3"), Err(Error::InvalidColorFormat));
}

#[test]
fn rejects_characters_outside_ascii() {
    assert_eq!(Color::from_str("#3639é"), Err(Error::InvalidColorFormat));
    assert_eq!(Color::from_str("#36393é"), Err(Error::InvalidColorFormat));
    assert_eq!(Color::from_str("#３６３９３f"), Err(Error::InvalidColorFormat));
}

#[test]
fn error_messages_name_the_fault() {
    assert_eq!(
        Error::InvalidColorFormat.message(),
        "Invalid format for color, expected #rrggbb"
    );
    assert_ne!(
        Error::CanvasTooLarge.message(),
        Error::InvalidColorFormat.message()
    );
}
