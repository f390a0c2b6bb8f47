//! The theme compositor: one output pixel from two luminances and two
//! theme colours.
//!
//! Laid over the dark theme's background the output pixel shows the dark
//! image, laid over the light theme's background the light image. The dark
//! background counts as luminance zero and the light one as luminance one.
//! A pixel of opacity `alpha` whose colour lies `mix` of the way from the
//! dark colour to the light colour then shows `alpha * mix` over the one
//! and `alpha * mix + (1 - alpha)` over the other. The compositor gives
//! the `alpha` and the `mix` that make the first half the dark image's
//! luminance and the second one half plus half the light image's: each
//! theme sees its image at half the contrast, on its own side of the
//! middle. `lemma_solves_compositing` says so.
//!
//! All arithmetic is binary32 arithmetic, step by step, and the channels
//! are cut down to bytes, not rounded.

use vstd::prelude::*;
use crate::binary32::ONE;
use crate::binary32::single;
use crate::binary32::single_signed;
use crate::binary32::round_ratio;
use crate::binary32::round_signed;
use crate::binary32::is_single;
use crate::binary32::tick_exact;
use crate::binary32::lemma_one_is_single;
use crate::binary32::lemma_single_bounded;
use crate::binary32::lemma_single_is_single;
use crate::binary32::lemma_single_floor;
use crate::binary32::lemma_single_monotone;
use crate::binary32::lemma_single_nonnegative;
use crate::binary32::lemma_single_signed_monotone;
use crate::binary32::lemma_single_scale;
use crate::binary32::lemma_half_is_single;
use crate::binary32::lemma_small_is_single;
use crate::binary32::lemma_shifted_is_single;
use crate::binary32::lemma_form_is_single;
use crate::binary32::lemma_single_error;
use crate::binary32::distance;
use vstd::arithmetic::power2::pow2;
use vstd::arithmetic::power2::lemma2_to64;
use crate::color::Color;
use crate::color::Rgba;

verus! {

/// The luminance byte `value` as an intensity between zero and one:
/// `value / 255`.
pub open spec fn unit_luma(value: u8) -> int {
    single(value as int * ONE as int, 255)
}

/// `x` held to the range from zero to one.
pub open spec fn clamp_unit(x: int) -> int {
    if x < 0 {
        0
    } else if x > ONE {
        ONE as int
    } else {
        x
    }
}

/// The opacity that shows `dark` over the dark and `light` over the light
/// background: `(dark - light + 1) / 2`, held to the range from zero to one.
pub open spec fn solve_alpha(dark: int, light: int) -> int {
    clamp_unit(single_signed(single_signed(single_signed(dark - light, 1) + ONE, 1), 2))
}

/// How far from the dark colour towards the light colour the output colour
/// lies: `dark / 2 / alpha`, held to the range from zero to one. Where the
/// pixel is transparent its colour does not show, and this is zero.
pub open spec fn solve_mix(dark: int, alpha: int) -> int {
    if alpha == 0 {
        0
    } else {
        clamp_unit(single(single(dark, 2) * ONE, alpha))
    }
}

/// The whole part of a value that is not negative, as a byte: what is above
/// 255 becomes 255.
pub open spec fn truncate_byte(x: int) -> u8 {
    if x / (ONE as int) > 255 {
        255
    } else {
        (x / (ONE as int)) as u8
    }
}

/// One channel of the colour that lies `mix` of the way from `zero` to
/// `one`: `zero * (1 - mix) + one * mix`, cut down to a byte.
pub open spec fn lerp_channel(zero: u8, one: u8, mix: int) -> u8 {
    truncate_byte(
        single(single(zero as int * single(ONE - mix, 1), 1) + single(one as int * mix, 1), 1),
    )
}

/// The opacity `alpha` as a byte: `alpha * 255`, cut down.
pub open spec fn alpha_byte(alpha: int) -> u8 {
    truncate_byte(single(alpha * 255, 1))
}

/// The pixel with the colour `luma` of the way from `zero` to `one` and the
/// opacity `alpha`, both held to the range from zero to one first.
pub open spec fn lerp_pixel(zero: Color, one: Color, luma: int, alpha: int) -> Rgba {
    let mix: int = clamp_unit(luma);
    Rgba {
        r: lerp_channel(zero.r, one.r, mix),
        g: lerp_channel(zero.g, one.g, mix),
        b: lerp_channel(zero.b, one.b, mix),
        a: alpha_byte(clamp_unit(alpha)),
    }
}

/// The output pixel for a dark-image luminance byte and a light-image
/// luminance byte under the two theme colours.
pub open spec fn theme_pixel(dark_luma: u8, light_luma: u8, dark_color: Color, light_color: Color) -> Rgba {
    let dark: int = unit_luma(dark_luma);
    let alpha: int = solve_alpha(dark, unit_luma(light_luma));
    lerp_pixel(dark_color, light_color, solve_mix(dark, alpha), alpha)
}

/// The intensity of a luminance byte is a binary32 value between zero and
/// one. It is zero for the byte 0 and one for the byte 255, and no other
/// byte comes closer to zero than 2^-8.
pub proof fn lemma_unit_luma_range(value: u8)
    ensures
        is_single(unit_luma(value)),
        0 <= unit_luma(value) <= ONE,
        value == 0 ==> unit_luma(value) == 0,
        value == 255 ==> unit_luma(value) == ONE,
        value > 0 ==> unit_luma(value) >= 0x100_0000,
{
    let n: int = value as int * ONE as int;
    lemma_one_is_single();
    lemma_single_is_single(n, 255);
    lemma_single_bounded(n, 255, ONE as int);
    if value > 0 {
        lemma_single_floor(n, 255);
    }
}

/// Turns a luminance byte into an intensity between zero and one, in ticks.
pub fn normalize_luma(value: u8) -> (intensity: u64)
    ensures
        intensity == unit_luma(value),
        intensity <= ONE,
{
    proof {
        lemma_unit_luma_range(value);
    }
    let rounded: u128 = round_ratio(value as u128 * ONE as u128, 255);
    rounded as u64
}

fn clamp_ticks(x: i128) -> (clamped: u64)
    ensures
        clamped == clamp_unit(x as int),
        clamped <= ONE,
{
    if x < 0 {
        0
    } else if x > ONE as i128 {
        ONE
    } else {
        x as u64
    }
}

fn cut_to_byte(x: u128) -> (byte: u8)
    ensures
        byte == truncate_byte(x as int),
{
    let whole: u128 = x / (ONE as u128);
    if whole > 255 {
        255
    } else {
        whole as u8
    }
}

fn mix_channel(zero: u8, one: u8, mix: u64) -> (channel: u8)
    requires
        mix <= ONE,
    ensures
        channel == lerp_channel(zero, one, mix as int),
{
    let rest: u128 = round_ratio((ONE - mix) as u128, 1);
    assert(zero * rest <= 255 * 0x2_0000_0001) by (nonlinear_arith)
        requires
            zero <= 255,
            rest <= 0x2_0000_0001,
    ;
    let from_zero: u128 = round_ratio(zero as u128 * rest, 1);
    assert(one * mix <= 255 * 0x1_0000_0000) by (nonlinear_arith)
        requires
            one <= 255,
            mix <= 0x1_0000_0000,
    ;
    let from_one: u128 = round_ratio(one as u128 * mix as u128, 1);
    cut_to_byte(round_ratio(from_zero + from_one, 1))
}

/// Mixes the colours `zero` and `one` and attaches the opacity: `luma` says
/// how far from `zero` towards `one` the colour lies. Both `luma` and
/// `alpha` are in ticks, of either sign, and are held to the range from
/// zero to one: what is below zero counts as zero and what is above one as
/// one.
pub fn color_lerp(zero: Color, one: Color, luma: i64, alpha: i64) -> (pixel: Rgba)
    ensures
        pixel == lerp_pixel(zero, one, luma as int, alpha as int),
{
    let mix: u64 = clamp_ticks(luma as i128);
    let opacity: u64 = clamp_ticks(alpha as i128);
    Rgba {
        r: mix_channel(zero.r, one.r, mix),
        g: mix_channel(zero.g, one.g, mix),
        b: mix_channel(zero.b, one.b, mix),
        a: cut_to_byte(round_ratio(opacity as u128 * 255, 1)),
    }
}

/// Computes the output pixel for one position: `dark_luma` is the luminance
/// of the dark image there and `light_luma` that of the light image, each as
/// a byte, 255 standing for full intensity.
pub fn composite(dark_luma: u8, light_luma: u8, dark_color: Color, light_color: Color) -> (pixel: Rgba)
    ensures
        pixel == theme_pixel(dark_luma, light_luma, dark_color, light_color),
{
    let dark: u64 = normalize_luma(dark_luma);
    let light: u64 = normalize_luma(light_luma);
    let difference: i128 = round_signed(dark as i128 - light as i128, 1);
    let doubled: i128 = round_signed(difference + ONE as i128, 1);
    let alpha: u64 = clamp_ticks(round_signed(doubled, 2));
    let mix: u64 = if alpha == 0 {
        0
    } else {
        let half: u128 = round_ratio(dark as u128, 2);
        assert(half * ONE <= 0x2_0000_0001 * 0x1_0000_0000) by (nonlinear_arith)
            requires
                half <= 0x2_0000_0001,
                ONE == 0x1_0000_0000,
        ;
        clamp_ticks(round_ratio(half * ONE as u128, alpha as u128) as i128)
    };
    color_lerp(dark_color, light_color, mix as i64, alpha as i64)
}

/// A brighter byte has no smaller an intensity.
pub proof fn lemma_unit_luma_monotone(low: u8, high: u8)
    requires
        low <= high,
    ensures
        unit_luma(low) <= unit_luma(high),
{
    assert(low as int * ONE as int <= high as int * ONE as int) by (nonlinear_arith)
        requires
            low <= high,
    ;
    lemma_single_monotone(low as int * ONE as int, high as int * ONE as int, 255);
}

/// The opacity does not fall when the dark luminance rises or the light
/// luminance falls.
pub proof fn lemma_solve_alpha_monotone(dark1: int, light1: int, dark2: int, light2: int)
    requires
        dark1 <= dark2,
        light1 >= light2,
    ensures
        solve_alpha(dark1, light1) <= solve_alpha(dark2, light2),
{
    let difference1: int = single_signed(dark1 - light1, 1);
    let difference2: int = single_signed(dark2 - light2, 1);
    lemma_single_signed_monotone(dark1 - light1, dark2 - light2, 1);
    let doubled1: int = single_signed(difference1 + ONE, 1);
    let doubled2: int = single_signed(difference2 + ONE, 1);
    lemma_single_signed_monotone(difference1 + ONE, difference2 + ONE, 1);
    lemma_single_signed_monotone(doubled1, doubled2, 2);
}

/// A larger opacity has no smaller a byte.
pub proof fn lemma_alpha_byte_monotone(alpha1: int, alpha2: int)
    requires
        0 <= alpha1 <= alpha2,
    ensures
        alpha_byte(alpha1) <= alpha_byte(alpha2),
{
    lemma_single_monotone(alpha1 * 255, alpha2 * 255, 1);
    lemma_single_nonnegative(alpha1 * 255, 1);
    lemma_single_nonnegative(alpha2 * 255, 1);
}

/// The output's opacity does not fall when the dark image gets brighter and
/// does not rise when the light image gets brighter, whatever the colours.
pub proof fn lemma_opacity_monotone(
    dark1: u8,
    light1: u8,
    dark2: u8,
    light2: u8,
    dark_color: Color,
    light_color: Color,
)
    requires
        dark1 <= dark2,
        light1 >= light2,
    ensures
        theme_pixel(dark1, light1, dark_color, light_color).a <= theme_pixel(
            dark2,
            light2,
            dark_color,
            light_color,
        ).a,
{
    lemma_unit_luma_monotone(dark1, dark2);
    lemma_unit_luma_monotone(light2, light1);
    lemma_solve_alpha_monotone(
        unit_luma(dark1),
        unit_luma(light1),
        unit_luma(dark2),
        unit_luma(light2),
    );
    let alpha1: int = solve_alpha(unit_luma(dark1), unit_luma(light1));
    let alpha2: int = solve_alpha(unit_luma(dark2), unit_luma(light2));
    lemma_alpha_byte_monotone(clamp_unit(alpha1), clamp_unit(alpha2));
}

/// The ticks are fine enough for every quotient that the compositor rounds:
/// what `theme_pixel` gives is what binary32 arithmetic gives. Sums,
/// differences and products of whole numbers of ticks are whole numbers of
/// ticks; this is about the four divisions.
pub proof fn lemma_ticks_suffice(dark_luma: u8, light_luma: u8)
    ensures
        ({
            let dark: int = unit_luma(dark_luma);
            let light: int = unit_luma(light_luma);
            let doubled: int = single_signed(single_signed(dark - light, 1) + ONE, 1);
            let alpha: int = solve_alpha(dark, light);
            &&& tick_exact(dark_luma as int * ONE as int, 255)
            &&& tick_exact(light_luma as int * ONE as int, 255)
            &&& doubled >= 0
            &&& tick_exact(doubled, 2)
            &&& tick_exact(dark, 2)
            &&& alpha != 0 ==> alpha > 0 && tick_exact(single(dark, 2) * ONE, alpha)
        }),
{
    let one: int = ONE as int;
    let dark: int = unit_luma(dark_luma);
    let light: int = unit_luma(light_luma);
    let difference: int = single_signed(dark - light, 1);
    let doubled: int = single_signed(difference + one, 1);
    let alpha: int = solve_alpha(dark, light);
    lemma_unit_luma_range(dark_luma);
    lemma_unit_luma_range(light_luma);
    lemma_small_is_single(0);
    lemma_small_is_single(0x100_0000);
    // The largest intensity below one, 254 / 255, is at most 1 - 2^-8.
    let below_one: int = 0xff00_0000;
    assert(is_single(below_one)) by {
        lemma2_to64();
        lemma_small_is_single(255);
        lemma_shifted_is_single(255, 24);
    }
    if dark_luma > 0 {
        // The difference is at least 2^-8 - 1.
        lemma_single_signed_monotone(-below_one, dark - light, 1);
        lemma_single_signed_monotone(0x100_0000, difference + one, 1);
    } else if light_luma == 255 {
        lemma_one_is_single();
    } else {
        lemma_unit_luma_monotone(light_luma, 254);
        lemma_single_bounded(254 * one, 255, below_one);
        lemma_single_signed_monotone(0x100_0000, difference + one, 1);
    }
    assert(doubled == 0 || doubled >= 0x100_0000);
    if dark_luma > 0 {
        lemma_half_is_single(dark);
        assert(single(dark, 2) * one >= 0x80_0000 * alpha) by (nonlinear_arith)
            requires
                single(dark, 2) >= 0x80_0000,
                0 <= alpha <= one,
        ;
    } else {
        lemma_single_scale(0, 1, 2);
        if alpha != 0 {
            assert(0int % alpha == 0);
        }
    }
}

/// The opacity is half of `dark - light + 1`, to within 192 ticks, and needs
/// no holding to the range from zero to one. It is zero only where the dark
/// intensity is zero.
pub proof fn lemma_alpha_error(dark_luma: u8, light_luma: u8)
    ensures
        ({
            let dark: int = unit_luma(dark_luma);
            let light: int = unit_luma(light_luma);
            let doubled: int = single_signed(single_signed(dark - light, 1) + ONE, 1);
            let alpha: int = solve_alpha(dark, light);
            &&& 2 * alpha == doubled
            &&& 0 <= alpha <= ONE
            &&& -384 <= doubled - (dark - light + ONE) <= 384
            &&& alpha == 0 ==> dark == 0
        }),
{
    let one: int = ONE as int;
    let dark: int = unit_luma(dark_luma);
    let light: int = unit_luma(light_luma);
    let difference: int = single_signed(dark - light, 1);
    let doubled: int = single_signed(difference + one, 1);
    lemma_unit_luma_range(dark_luma);
    lemma_unit_luma_range(light_luma);
    lemma_one_is_single();
    lemma2_to64();
    // The difference lies between minus one and one and is off by 2^-25 at most.
    lemma_single_signed_monotone(-one, dark - light, 1);
    lemma_single_signed_monotone(dark - light, one, 1);
    if dark >= light {
        lemma_single_error(dark - light, 1, 8);
    } else {
        lemma_single_error(light - dark, 1, 8);
    }
    assert(-128 <= difference - (dark - light) <= 128);
    // The sum lies between zero and two and is off by 2^-24 at most.
    lemma_small_is_single(0);
    lemma_single_signed_monotone(0, difference + one, 1);
    lemma_single_signed_monotone(difference + one, 2 * one, 1);
    lemma_single_error(difference + one, 1, 9);
    assert(-256 <= doubled - (difference + one) <= 256);
    // Halving it is exact.
    lemma_single_is_single(difference + one, 1);
    lemma_ticks_suffice(dark_luma, light_luma);
    if doubled >= 0x100_0000 {
        lemma_half_is_single(doubled);
    }
    assert(single_signed(doubled, 2) == doubled / 2 && doubled % 2 == 0);
}

/// The pixel solves the two compositing equations. With the dark background
/// taken as luminance zero, the pixel laid over it shows `alpha * mix`, and
/// that is half the dark luminance. With the light background taken as
/// luminance one, the pixel laid over it shows `alpha * mix + (1 - alpha)`,
/// and that is one half plus half the light luminance. Both hold to within
/// 2^-23, which is what rounding costs, before the pixel is cut down to
/// bytes.
pub proof fn lemma_solves_compositing(dark_luma: u8, light_luma: u8)
    ensures
        ({
            let one: int = ONE as int;
            let dark: int = unit_luma(dark_luma);
            let light: int = unit_luma(light_luma);
            let alpha: int = solve_alpha(dark, light);
            let mix: int = solve_mix(dark, alpha);
            let over_dark: int = alpha * mix;
            let over_light: int = alpha * mix + (one - alpha) * one;
            &&& 0 <= mix <= one
            &&& -0x200 * one <= over_dark - (dark / 2) * one <= 0x200 * one
            &&& -0x200 * one <= over_light - ((one + light) / 2) * one <= 0x200 * one
        }),
{
    let one: int = ONE as int;
    let dark: int = unit_luma(dark_luma);
    let light: int = unit_luma(light_luma);
    let doubled: int = single_signed(single_signed(dark - light, 1) + ONE, 1);
    let alpha: int = solve_alpha(dark, light);
    let mix: int = solve_mix(dark, alpha);
    lemma_unit_luma_range(dark_luma);
    lemma_unit_luma_range(light_luma);
    lemma_alpha_error(dark_luma, light_luma);
    lemma_one_is_single();
    lemma2_to64();
    // Intensities are even: halving them is exact.
    if dark > 0 {
        lemma_half_is_single(dark);
    } else {
        lemma_single_scale(0, 1, 2);
    }
    if light > 0 {
        lemma_half_is_single(light);
    }
    let half: int = dark / 2;
    assert(single(dark, 2) == half && dark == 2 * half);
    if alpha == 0 {
        assert(mix == 0);
        assert(alpha * mix == 0) by (nonlinear_arith)
            requires
                alpha == 0,
        ;
        assert((one - alpha) * one == one * one) by (nonlinear_arith)
            requires
                alpha == 0,
        ;
        assert(((one + light) / 2) * one >= (one - 192) * one) by (nonlinear_arith)
            requires
                (one + light) / 2 >= one - 192,
                one > 0,
        ;
        assert(((one + light) / 2) * one <= one * one) by (nonlinear_arith)
            requires
                (one + light) / 2 <= one,
                one > 0,
        ;
        assert((one - 192) * one == one * one - 192 * one) by (nonlinear_arith);
    } else {
        let raw: int = single(half * one, alpha);
        assert(half * one >= 0) by (nonlinear_arith)
            requires
                half >= 0,
                one > 0,
        ;
        lemma_single_nonnegative(half * one, alpha);
        // The quotient is at most two, so rounding moves it by 2^-24 at most.
        assert(half * one <= 0x100_0000 * pow2(9) * alpha) by (nonlinear_arith)
            requires
                half <= 2 * alpha,
                one == 0x1_0000_0000,
                pow2(9) == 0x200,
                alpha > 0,
        ;
        lemma_single_error(half * one, alpha, 9);
        assert(2 * distance(half * one, alpha, raw) <= 0x200 * alpha);
        assert(0x200 * alpha <= 0x200 * one);
        if raw <= one {
            assert(mix == raw);
            assert(raw * alpha == alpha * mix) by (nonlinear_arith)
                requires
                    mix == raw,
            ;
        } else {
            // More than one comes out only where the dark luminance is
            // above twice the opacity, which is where the light one is one.
            assert(mix == one);
            lemma_single_bounded(half * one, alpha, one);
            assert(half * one > one * alpha);
            assert(half > alpha) by (nonlinear_arith)
                requires
                    half * one > one * alpha,
                    one > 0,
            ;
            assert(0 < half - alpha <= 192);
            assert(alpha * one - half * one == -(half - alpha) * one) by (nonlinear_arith);
            assert(-(half - alpha) * one >= -192 * one) by (nonlinear_arith)
                requires
                    0 < half - alpha <= 192,
                    one > 0,
            ;
            assert(-(half - alpha) * one <= 0) by (nonlinear_arith)
                requires
                    0 < half - alpha <= 192,
                    one > 0,
            ;
        }
        let over_dark: int = alpha * mix;
        assert(-0x100 * one <= over_dark - half * one <= 0x100 * one);
        // What the light background adds is off by what the opacity is off.
        let target: int = (one + light) / 2;
        assert(-192 <= (half + one - alpha) - target <= 192);
        assert((one - alpha) * one + half * one - target * one == ((half + one - alpha) - target) * one)
            by (nonlinear_arith);
        assert(-192 * one <= ((half + one - alpha) - target) * one <= 192 * one) by (nonlinear_arith)
            requires
                -192 <= (half + one - alpha) - target <= 192,
                one > 0,
        ;
    }
}

/// Where both images are equally bright the pixel is half opaque, and its
/// colour lies as far from the dark colour towards the light colour as the
/// images are bright.
pub proof fn lemma_equal_lumas(luma: u8, dark_color: Color, light_color: Color)
    ensures
        solve_alpha(unit_luma(luma), unit_luma(luma)) == ONE / 2,
        solve_mix(unit_luma(luma), ONE as int / 2) == unit_luma(luma),
        theme_pixel(luma, luma, dark_color, light_color) == lerp_pixel(
            dark_color,
            light_color,
            unit_luma(luma),
            ONE as int / 2,
        ),
        theme_pixel(luma, luma, dark_color, light_color).a == 127,
{
    let x: int = unit_luma(luma);
    let half: int = ONE as int / 2;
    lemma_unit_luma_range(luma);
    lemma_one_is_single();
    assert(single_signed(x - x, 1) == 0) by {
        lemma_small_is_single(0);
    }
    lemma_half_is_single(ONE as int);
    assert(solve_alpha(x, x) == half);
    if luma == 0 {
        lemma_small_is_single(0);
        lemma_single_scale(0, 1, 2);
        lemma_single_scale(0, 1, half);
    } else {
        lemma_half_is_single(x);
        assert((x / 2) * ONE == half * x) by (nonlinear_arith)
            requires
                x % 2 == 0,
                half == 0x8000_0000,
                ONE == 0x1_0000_0000,
        ;
        lemma_single_scale(x, 1, half);
    }
    assert(solve_mix(x, half) == x);
    assert(alpha_byte(half) == 127) by {
        lemma2_to64();
        lemma_form_is_single(255, 31);
    }
}

/// Where the dark image is black and the light image white the pixel is
/// fully transparent, whatever the colours.
pub proof fn lemma_black_and_white_is_transparent(dark_color: Color, light_color: Color)
    ensures
        solve_alpha(unit_luma(0), unit_luma(255)) == 0,
        solve_mix(unit_luma(0), 0) == 0,
        theme_pixel(0, 255, dark_color, light_color) == (Rgba {
            r: dark_color.r,
            g: dark_color.g,
            b: dark_color.b,
            a: 0,
        }),
{
    lemma_unit_luma_range(0);
    lemma_unit_luma_range(255);
    lemma_one_is_single();
    lemma_small_is_single(0);
    lemma_single_scale(0, 1, 2);
    assert(solve_alpha(0, ONE as int) == 0);
    lemma_channel_at_zero(dark_color.r, light_color.r);
    lemma_channel_at_zero(dark_color.g, light_color.g);
    lemma_channel_at_zero(dark_color.b, light_color.b);
}

/// Where the dark image is white and the light image black the pixel is
/// fully opaque and its colour is half way between the two colours.
pub proof fn lemma_white_and_black_is_opaque_midpoint(dark_color: Color, light_color: Color)
    ensures
        solve_alpha(unit_luma(255), unit_luma(0)) == ONE,
        solve_mix(unit_luma(255), ONE as int) == ONE / 2,
        theme_pixel(255, 0, dark_color, light_color) == (Rgba {
            r: ((dark_color.r + light_color.r) / 2) as u8,
            g: ((dark_color.g + light_color.g) / 2) as u8,
            b: ((dark_color.b + light_color.b) / 2) as u8,
            a: 255,
        }),
{
    let one: int = ONE as int;
    lemma_unit_luma_range(0);
    lemma_unit_luma_range(255);
    lemma_one_is_single();
    lemma_single_scale(one, 1, 2);
    assert(solve_alpha(one, 0) == one);
    lemma_half_is_single(one);
    assert((one / 2) * one == one * (one / 2)) by (nonlinear_arith);
    lemma_single_scale(one / 2, 1, one);
    assert(solve_mix(one, one) == one / 2);
    lemma_channel_at_half(dark_color.r, light_color.r);
    lemma_channel_at_half(dark_color.g, light_color.g);
    lemma_channel_at_half(dark_color.b, light_color.b);
    assert(alpha_byte(one) == 255) by {
        lemma2_to64();
        lemma_form_is_single(255, 32);
    }
}

/// With nothing of the second colour mixed in, a channel is that of the
/// first colour.
pub proof fn lemma_channel_at_zero(zero: u8, one: u8)
    ensures
        lerp_channel(zero, one, 0) == zero,
{
    lemma_one_is_single();
    lemma_small_is_single(0);
    lemma2_to64();
    lemma_form_is_single(zero as int, 32);
}

/// With all of the second colour mixed in, a channel is that of the second
/// colour.
pub proof fn lemma_channel_at_one(zero: u8, one: u8)
    ensures
        lerp_channel(zero, one, ONE as int) == one,
{
    lemma_small_is_single(0);
    lemma2_to64();
    lemma_form_is_single(one as int, 32);
    let rest: int = single(ONE - ONE, 1);
    assert(rest == 0);
    assert(zero as int * rest == 0) by (nonlinear_arith)
        requires
            rest == 0,
    ;
    assert(one as int * pow2(32) == one as int * ONE as int);
}

/// No opacity is the byte 0 and full opacity the byte 255.
pub proof fn lemma_alpha_byte_ends()
    ensures
        alpha_byte(0) == 0,
        alpha_byte(ONE as int) == 255,
{
    lemma_small_is_single(0);
    lemma2_to64();
    lemma_form_is_single(255, 32);
}

/// An argument outside the range from zero to one acts as the nearest end
/// of the range: below zero as zero, above one as one. So a mix of one or
/// more gives the second colour and a mix of zero or less the first, and an
/// opacity of zero or less gives the byte 0 and one of one or more the byte
/// 255.
pub proof fn lemma_lerp_holds_to_unit_range(zero: Color, one: Color, luma: int, alpha: int)
    ensures
        lerp_pixel(zero, one, luma, alpha) == lerp_pixel(
            zero,
            one,
            clamp_unit(luma),
            clamp_unit(alpha),
        ),
        luma <= 0 ==> lerp_pixel(zero, one, luma, alpha).r == zero.r && lerp_pixel(
            zero,
            one,
            luma,
            alpha,
        ).g == zero.g && lerp_pixel(zero, one, luma, alpha).b == zero.b,
        luma >= ONE ==> lerp_pixel(zero, one, luma, alpha).r == one.r && lerp_pixel(
            zero,
            one,
            luma,
            alpha,
        ).g == one.g && lerp_pixel(zero, one, luma, alpha).b == one.b,
        alpha <= 0 ==> lerp_pixel(zero, one, luma, alpha).a == 0,
        alpha >= ONE ==> lerp_pixel(zero, one, luma, alpha).a == 255,
{
    lemma_channel_at_zero(zero.r, one.r);
    lemma_channel_at_zero(zero.g, one.g);
    lemma_channel_at_zero(zero.b, one.b);
    lemma_channel_at_one(zero.r, one.r);
    lemma_channel_at_one(zero.g, one.g);
    lemma_channel_at_one(zero.b, one.b);
    lemma_alpha_byte_ends();
}

/// Half way between two colours a channel is the mean of their channels,
/// rounded down.
pub proof fn lemma_channel_at_half(zero: u8, one: u8)
    ensures
        lerp_channel(zero, one, ONE as int / 2) == (zero + one) / 2,
{
    lemma_one_is_single();
    lemma2_to64();
    lemma_form_is_single(zero as int, 31);
    lemma_form_is_single(one as int, 31);
    lemma_form_is_single(zero + one, 31);
    assert(zero * pow2(31) + one * pow2(31) == (zero + one) * pow2(31)) by (nonlinear_arith);
}

} // verus!
