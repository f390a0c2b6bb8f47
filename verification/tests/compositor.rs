use discriminord::binary32::ONE;
use discriminord::color::Color;
use discriminord::color::Rgba;
use discriminord::compositor::color_lerp;
use discriminord::compositor::composite;
use discriminord::compositor::normalize_luma;

const DARK: Color = Color { r: 0x36, g: 0x39, b: 0x3f };
const LIGHT: Color = Color { r: 0xff, g: 0xff, b: 0xff };

/// One, in ticks, as `color_lerp` takes it.
const UNIT: i64 = ONE as i64;

fn ticks(x: f32) -> u64 {
    let scaled = x as f64 * 4294967296.0;
    assert_eq!(scaled, scaled.trunc());
    scaled as u64
}

/// The pixel worked out in hardware single precision.
fn float_pixel(dark_luma: u8, light_luma: u8, zero: Color, one: Color) -> Rgba {
    let dark_value = dark_luma as f32 / 255.0;
    let light_value = light_luma as f32 / 255.0;
    let alpha = ((dark_value - light_value + 1.0) / 2.0).max(0.0).min(1.0);
    let mix = if alpha == 0.0 {
        0.0
    } else {
        (dark_value / 2.0 / alpha).max(0.0).min(1.0)
    };
    float_lerp(zero, one, mix, alpha)
}

fn float_lerp(zero: Color, one: Color, mix: f32, alpha: f32) -> Rgba {
    let mix = mix.max(0.0).min(1.0);
    let alpha = alpha.max(0.0).min(1.0);
    Rgba {
        r: (zero.r as f32 * (1.0 - mix) + one.r as f32 * mix) as u8,
        g: (zero.g as f32 * (1.0 - mix) + one.g as f32 * mix) as u8,
        b: (zero.b as f32 * (1.0 - mix) + one.b as f32 * mix) as u8,
        a: (alpha * 255.0) as u8,
    }
}

fn next(state: &mut u64) -> u64 {
    *state = state
        .wrapping_mul(6364136223846793005)
        .wrapping_add(1442695040888963407);
    *state >> 33
}

#[test]
fn intensity_is_the_byte_over_255() {
    assert_eq!(normalize_luma(0), 0);
    assert_eq!(normalize_luma(255), ONE);
    assert_eq!(normalize_luma(51), ticks(0.2));
    assert_eq!(normalize_luma(51), 858993472);
    for v in 0..=255u8 {
        let intensity = normalize_luma(v);
        assert_eq!(intensity, ticks(v as f32 / 255.0));
        assert!(intensity <= ONE);
    }
}

#[test]
fn intensity_rises_with_the_byte() {
    for v in 0..255u8 {
        assert!(normalize_luma(v) < normalize_luma(v + 1));
    }
}

#[test]
fn equal_lumas_give_half_opacity() {
    for v in 0..=255u8 {
        let pixel = composite(v, v, DARK, LIGHT);
        assert_eq!(pixel.a, 127);
        assert_eq!(pixel, color_lerp(DARK, LIGHT, normalize_luma(v) as i64, UNIT / 2));
    }
}

#[test]
fn equal_lumas_place_the_color_by_the_luma() {
    // 51 / 255 is one fifth: 54 * 0.8 + 255 * 0.2 = 94.2, and so on.
    assert_eq!(composite(51, 51, DARK, LIGHT), Rgba { r: 94, g: 96, b: 101, a: 127 });
    assert_eq!(composite(0, 0, DARK, LIGHT), Rgba { r: 0x36, g: 0x39, b: 0x3f, a: 127 });
    assert_eq!(composite(255, 255, DARK, LIGHT), Rgba { r: 255, g: 255, b: 255, a: 127 });
}

#[test]
fn black_over_dark_and_white_over_light_is_transparent() {
    assert_eq!(composite(0, 255, DARK, LIGHT), Rgba { r: 0x36, g: 0x39, b: 0x3f, a: 0 });
    let red = Color { r: 200, g: 10, b: 20 };
    let blue = Color { r: 1, g: 2, b: 250 };
    assert_eq!(composite(0, 255, red, blue), Rgba { r: 200, g: 10, b: 20, a: 0 });
    assert_eq!(composite(0, 255, blue, red).a, 0);
}

#[test]
fn white_over_dark_and_black_over_light_is_the_opaque_midpoint() {
    assert_eq!(
        composite(255, 0, DARK, LIGHT),
        Rgba { r: 154, g: 156, b: 159, a: 255 }
    );
    let red = Color { r: 200, g: 10, b: 21 };
    let blue = Color { r: 1, g: 2, b: 250 };
    assert_eq!(composite(255, 0, red, blue), Rgba { r: 100, g: 6, b: 135, a: 255 });
}

#[test]
fn opacity_is_half_the_difference_plus_one() {
    // (1 - 0.6 + 1) / 2 = 0.7, and 0.7 * 255 = 178.5.
    assert_eq!(composite(255, 153, DARK, LIGHT).a, 178);
    // (0.2 - 0.8 + 1) / 2 comes out just below 0.2 in single precision, and
    // that times 255 just below 51.
    assert_eq!(composite(51, 204, DARK, LIGHT).a, float_pixel(51, 204, DARK, LIGHT).a);
    assert_eq!(composite(51, 204, DARK, LIGHT).a, 50);
    assert_eq!(composite(128, 0, DARK, LIGHT).a, 191);
    assert_eq!(composite(0, 128, DARK, LIGHT).a, 63);
}

#[test]
fn channels_are_cut_down_not_rounded() {
    // Half way from 0 to 255 is 127.5, which becomes 127.
    let black = Color { r: 0, g: 0, b: 0 };
    assert_eq!(color_lerp(black, LIGHT, UNIT / 2, UNIT), Rgba { r: 127, g: 127, b: 127, a: 255 });
    // Half opacity is 127.5, which becomes 127.
    assert_eq!(color_lerp(black, LIGHT, 0, UNIT / 2).a, 127);
    // Three quarters of 255 is 191.25.
    assert_eq!(color_lerp(black, LIGHT, UNIT / 4 * 3, UNIT / 4 * 3), Rgba { r: 191, g: 191, b: 191, a: 191 });
}

#[test]
fn lerp_ends_at_the_two_colors() {
    assert_eq!(color_lerp(DARK, LIGHT, 0, 0), Rgba { r: 0x36, g: 0x39, b: 0x3f, a: 0 });
    assert_eq!(color_lerp(DARK, LIGHT, UNIT, UNIT), Rgba { r: 255, g: 255, b: 255, a: 255 });
    assert_eq!(color_lerp(LIGHT, DARK, UNIT, 0), Rgba { r: 0x36, g: 0x39, b: 0x3f, a: 0 });
}

#[test]
fn lerp_holds_its_arguments_to_the_unit_range() {
    assert_eq!(color_lerp(DARK, LIGHT, 5 * UNIT, 7 * UNIT), color_lerp(DARK, LIGHT, UNIT, UNIT));
    assert_eq!(color_lerp(DARK, LIGHT, i64::MAX, i64::MAX), color_lerp(DARK, LIGHT, UNIT, UNIT));
    assert_eq!(color_lerp(DARK, LIGHT, UNIT + 1, 0), color_lerp(DARK, LIGHT, UNIT, 0));
    assert_eq!(color_lerp(DARK, LIGHT, -1, -1), color_lerp(DARK, LIGHT, 0, 0));
    assert_eq!(color_lerp(DARK, LIGHT, -3 * UNIT, UNIT / 2), color_lerp(DARK, LIGHT, 0, UNIT / 2));
    assert_eq!(color_lerp(DARK, LIGHT, UNIT / 2, -3 * UNIT), color_lerp(DARK, LIGHT, UNIT / 2, 0));
    assert_eq!(color_lerp(DARK, LIGHT, i64::MIN, i64::MIN), color_lerp(DARK, LIGHT, 0, 0));
}

#[test]
fn lerp_above_one_with_opacity_below_zero_is_the_clear_second_color() {
    // A mix of two is held to one, an opacity of minus one to zero.
    let zero = Color { r: 10, g: 20, b: 30 };
    let one = Color { r: 200, g: 100, b: 50 };
    assert_eq!(
        color_lerp(zero, one, 2 * UNIT, -UNIT),
        Rgba { r: 200, g: 100, b: 50, a: 0 }
    );
    assert_eq!(color_lerp(zero, one, 2 * UNIT, -UNIT), float_lerp(zero, one, 2.0, -1.0));
    assert_eq!(
        color_lerp(zero, one, -UNIT, 2 * UNIT),
        Rgba { r: 10, g: 20, b: 30, a: 255 }
    );
    assert_eq!(color_lerp(zero, one, -UNIT, 2 * UNIT), float_lerp(zero, one, -1.0, 2.0));
}

#[test]
fn lerp_agrees_with_the_hardware_outside_the_unit_range() {
    let mut state = 13;
    for _ in 0..50000 {
        let zero = Color {
            r: next(&mut state) as u8,
            g: next(&mut state) as u8,
            b: next(&mut state) as u8,
        };
        let one = Color {
            r: next(&mut state) as u8,
            g: next(&mut state) as u8,
            b: next(&mut state) as u8,
        };
        // A significand of 24 bits at any scale up to sixteen, of either sign.
        let mut mix_ticks = ((next(&mut state) % (1 << 24)) << (next(&mut state) % 13)) as i64;
        let mut alpha_ticks = ((next(&mut state) % (1 << 24)) << (next(&mut state) % 13)) as i64;
        if next(&mut state) % 2 == 0 {
            mix_ticks = -mix_ticks;
        }
        if next(&mut state) % 2 == 0 {
            alpha_ticks = -alpha_ticks;
        }
        let mix = mix_ticks as f32 / 4294967296.0;
        let alpha = alpha_ticks as f32 / 4294967296.0;
        assert_eq!((mix as f64 * 4294967296.0) as i64, mix_ticks);
        assert_eq!((alpha as f64 * 4294967296.0) as i64, alpha_ticks);
        assert_eq!(
            color_lerp(zero, one, mix_ticks, alpha_ticks),
            float_lerp(zero, one, mix, alpha)
        );
    }
}

#[test]
fn lerp_agrees_with_the_hardware() {
    let mut state = 3;
    for _ in 0..50000 {
        let zero = Color {
            r: next(&mut state) as u8,
            g: next(&mut state) as u8,
            b: next(&mut state) as u8,
        };
        let one = Color {
            r: next(&mut state) as u8,
            g: next(&mut state) as u8,
            b: next(&mut state) as u8,
        };
        let mix = next(&mut state) as u8 as f32 / 255.0;
        let alpha = next(&mut state) as u8 as f32 / 255.0;
        assert_eq!(
            color_lerp(zero, one, ticks(mix) as i64, ticks(alpha) as i64),
            float_lerp(zero, one, mix, alpha)
        );
    }
}

#[test]
fn lerp_agrees_with_the_hardware_on_any_single_precision_value() {
    let mut state = 9;
    for _ in 0..50000 {
        let zero = Color {
            r: next(&mut state) as u8,
            g: next(&mut state) as u8,
            b: next(&mut state) as u8,
        };
        let one = Color {
            r: next(&mut state) as u8,
            g: next(&mut state) as u8,
            b: next(&mut state) as u8,
        };
        // A significand of 24 bits at any scale up to one.
        let mix_ticks = (next(&mut state) % (1 << 24)) << (next(&mut state) % 9);
        let alpha_ticks = (next(&mut state) % (1 << 24)) << (next(&mut state) % 9);
        let mix = mix_ticks as f32 / 4294967296.0;
        let alpha = alpha_ticks as f32 / 4294967296.0;
        assert_eq!(ticks(mix), mix_ticks);
        assert_eq!(ticks(alpha), alpha_ticks);
        assert_eq!(
            color_lerp(zero, one, mix_ticks as i64, alpha_ticks as i64),
            float_lerp(zero, one, mix, alpha)
        );
    }
}

#[test]
fn default_colors_agree_with_the_hardware_for_every_pair_of_lumas() {
    for d in 0..=255u8 {
        for l in 0..=255u8 {
            assert_eq!(composite(d, l, DARK, LIGHT), float_pixel(d, l, DARK, LIGHT));
        }
    }
}

#[test]
fn swapped_colors_agree_with_the_hardware_for_every_pair_of_lumas() {
    for d in 0..=255u8 {
        for l in 0..=255u8 {
            assert_eq!(composite(d, l, LIGHT, DARK), float_pixel(d, l, LIGHT, DARK));
        }
    }
}

#[test]
fn extreme_colors_agree_with_the_hardware_for_every_pair_of_lumas() {
    let zero = Color { r: 0, g: 255, b: 1 };
    let one = Color { r: 255, g: 255, b: 254 };
    for d in 0..=255u8 {
        for l in 0..=255u8 {
            assert_eq!(composite(d, l, zero, one), float_pixel(d, l, zero, one));
        }
    }
}

#[test]
fn every_pair_of_channels_agrees_with_the_hardware() {
    for (d, l) in [(77u8, 77u8), (200, 13), (13, 200), (1, 0), (254, 255), (128, 127)] {
        for z in 0..=255u8 {
            for o in 0..=255u8 {
                let zero = Color { r: z, g: z, b: z };
                let one = Color { r: o, g: o, b: o };
                assert_eq!(composite(d, l, zero, one).r, float_pixel(d, l, zero, one).r);
            }
        }
    }
}

#[test]
fn random_inputs_agree_with_the_hardware() {
    let mut state = 5;
    for _ in 0..200000 {
        let d = next(&mut state) as u8;
        let l = next(&mut state) as u8;
        let zero = Color {
            r: next(&mut state) as u8,
            g: next(&mut state) as u8,
            b: next(&mut state) as u8,
        };
        let one = Color {
            r: next(&mut state) as u8,
            g: next(&mut state) as u8,
            b: next(&mut state) as u8,
        };
        assert_eq!(composite(d, l, zero, one), float_pixel(d, l, zero, one));
    }
}

#[test]
fn pixel_over_each_background_shows_its_image() {
    // Over black the pixel shows half the dark luminance, over white one
    // half plus half the light luminance, but for what cutting down to
    // bytes costs.
    let black = Color { r: 0, g: 0, b: 0 };
    let white = Color { r: 255, g: 255, b: 255 };
    for d in 0..=255u8 {
        for l in 0..=255u8 {
            let pixel = composite(d, l, black, white);
            let alpha = pixel.a as f64 / 255.0;
            let over_black = alpha * pixel.r as f64;
            let over_white = alpha * pixel.r as f64 + (1.0 - alpha) * 255.0;
            assert!((over_black - d as f64 / 2.0).abs() <= 2.0);
            assert!((over_white - (255.0 + l as f64) / 2.0).abs() <= 2.0);
        }
    }
}

#[test]
fn opacity_rises_with_the_dark_luma() {
    for l in 0..=255u8 {
        let mut last = 0;
        for d in 0..=255u8 {
            let alpha = composite(d, l, DARK, LIGHT).a;
            assert!(alpha >= last);
            last = alpha;
        }
    }
}

#[test]
fn opacity_falls_with_the_light_luma() {
    for d in 0..=255u8 {
        let mut last = 255;
        for l in 0..=255u8 {
            let alpha = composite(d, l, DARK, LIGHT).a;
            assert!(alpha <= last);
            last = alpha;
        }
    }
}

#[test]
fn opacity_does_not_depend_on_the_colors() {
    let red = Color { r: 200, g: 10, b: 20 };
    let blue = Color { r: 1, g: 2, b: 250 };
    for (d, l) in [(0u8, 0u8), (10, 200), (200, 10), (255, 0), (0, 255), (99, 100)] {
        assert_eq!(composite(d, l, DARK, LIGHT).a, composite(d, l, red, blue).a);
    }
}
