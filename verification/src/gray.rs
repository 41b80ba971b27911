//! Conversion of a colour image to gray.
//!
//! The gray value of a pixel is the weighted sum of its red, green and
//! blue samples, rounded to the nearest integer, halves upward. The
//! weights are the double-precision numbers nearest to 0.299, 0.587 and
//! 0.114, and every product and every sum is rounded as double-precision
//! arithmetic rounds it: to 53 significant bits, halves to the even
//! neighbour. The model below states this in integers, all quantities
//! being counted in units of 2^-56, in which the three weights are whole
//! numbers.

use crate::error::ImageError;
use crate::image::{lemma_valid_shape_bounds, outcome, ImageView, IVC, MAX_SAMPLES};
use vstd::prelude::*;

verus! {

/// The weight of red: the double nearest to 0.299, in units of 2^-56.
pub const RED_WEIGHT: u64 = 21545220617340452;

/// The weight of green: the double nearest to 0.587, in units of 2^-56.
pub const GREEN_WEIGHT: u64 = 42297807700263696;

/// The weight of blue: the double nearest to 0.114, in units of 2^-56.
pub const BLUE_WEIGHT: u64 = 8214565720323785;

/// The number one, in units of 2^-56.
pub const ONE: u64 = 0x100_0000_0000_0000;

/// One half, in units of 2^-56.
pub const HALF: u64 = 0x80_0000_0000_0000;

/// The least number that takes more than 53 bits: 2^53.
pub const SIGNIFICAND_LIMIT: u64 = 0x20_0000_0000_0000;

/// The spacing of the 53-bit numbers around `v`: the least power of two
/// that, taken as unit, counts `v` in fewer than 2^53 steps.
pub open spec fn spacing(v: nat) -> nat
    decreases v,
{
    if v < SIGNIFICAND_LIMIT {
        1
    } else {
        2 * spacing(v / 2)
    }
}

/// The multiple of `unit` nearest to `v`; of two equally near, the even
/// multiple.
pub open spec fn round_to_multiple(v: nat, unit: nat) -> nat {
    let q = v / unit;
    let r = v % unit;
    if 2 * r > unit || (2 * r == unit && q % 2 == 1) {
        (q + 1) * unit
    } else {
        q * unit
    }
}

/// `v` rounded to 53 significant bits.
pub open spec fn round53(v: nat) -> nat {
    round_to_multiple(v, spacing(v))
}

/// The weighted sum of the three samples, in units of 2^-56.
pub open spec fn weighted_sum(r: u8, g: u8, b: u8) -> nat {
    round53(
        round53(round53(r as nat * RED_WEIGHT as nat) + round53(g as nat * GREEN_WEIGHT as nat))
            + round53(b as nat * BLUE_WEIGHT as nat),
    )
}

/// The gray value of a pixel.
pub open spec fn luma(r: u8, g: u8, b: u8) -> int {
    (weighted_sum(r, g, b) + HALF) / (ONE as int)
}

/// The gray samples of the first `pixels` pixels of the colour samples
/// `data`.
pub open spec fn gray_samples(data: Seq<u8>, pixels: int) -> Seq<u8> {
    Seq::new(pixels as nat, |i: int| luma(data[3 * i], data[3 * i + 1], data[3 * i + 2]) as u8)
}

/// What the conversion of `src` to gray gives.
///
/// An image that is not a colour image of consistent shape is refused, and
/// so is one with fewer samples than its dimensions call for. The gray
/// image has the width, height and levels of `src`, and one channel.
pub open spec fn grayscale(src: ImageView) -> Result<ImageView, ImageError> {
    if !src.shaped() || src.channels != 3 {
        Err(ImageError::Precondition)
    } else if src.data.len() < src.width * src.height * 3 {
        Err(ImageError::BufferUnderrun)
    } else {
        Ok(
            ImageView {
                data: gray_samples(src.data, src.width * src.height),
                width: src.width,
                height: src.height,
                channels: 1,
                levels: src.levels,
                bytesperline: src.width,
            },
        )
    }
}

/// The spacing around a 64-bit number is at most 2^11.
pub proof fn lemma_spacing_bounds(v: nat)
    requires
        v <= u64::MAX,
    ensures
        1 <= spacing(v) <= 2048,
{
    reveal_with_fuel(spacing, 13);
}

/// Rounding to a multiple moves a number by at most half the unit.
pub proof fn lemma_round_to_multiple_near(v: nat, unit: nat)
    requires
        unit > 0,
    ensures
        2 * round_to_multiple(v, unit) <= 2 * v + unit,
        2 * v <= 2 * round_to_multiple(v, unit) + unit,
{
    let q = v / unit;
    vstd::arithmetic::div_mod::lemma_fundamental_div_mod(v as int, unit as int);
    vstd::arithmetic::div_mod::lemma_mod_bound(v as int, unit as int);
    assert((q + 1) * unit == q * unit + unit) by (nonlinear_arith);
    assert(unit * q == q * unit) by (nonlinear_arith);
}

/// Rounding a 64-bit number to 53 bits moves it by at most 1024.
pub proof fn lemma_round53_near(v: nat)
    requires
        v <= u64::MAX,
    ensures
        round53(v) <= v + 1024,
        v <= round53(v) + 1024,
{
    lemma_spacing_bounds(v);
    lemma_round_to_multiple_near(v, spacing(v));
}

/// The weighted sum of three samples is off the exact sum by less than a
/// millionth.
///
/// In units of 2^-56, a thousand times the weighted sum differs from
/// `(299 r + 587 g + 114 b) * 2^56` by less than 2^33.
pub proof fn lemma_weighted_sum_near(r: u8, g: u8, b: u8)
    ensures
        1000 * weighted_sum(r, g, b) - (299 * r + 587 * g + 114 * b) * ONE < 0x2_0000_0000,
        (299 * r + 587 * g + 114 * b) * ONE - 1000 * weighted_sum(r, g, b) < 0x2_0000_0000,
{
    let red = r as nat * RED_WEIGHT as nat;
    let green = g as nat * GREEN_WEIGHT as nat;
    let blue = b as nat * BLUE_WEIGHT as nat;
    lemma_round53_near(red);
    lemma_round53_near(green);
    lemma_round53_near(blue);
    let warm = round53(red) + round53(green);
    lemma_round53_near(warm);
    let all = round53(warm) + round53(blue);
    lemma_round53_near(all);
}

/// The gray value is the exact weighted mean `(299 r + 587 g + 114 b) /
/// 1000` rounded to the nearest integer. Where the mean lies exactly
/// halfway between two integers, it is one of the two.
pub proof fn lemma_luma_rounds_mean(r: u8, g: u8, b: u8)
    ensures
        0 <= luma(r, g, b) <= 255,
        (299 * r + 587 * g + 114 * b) % 1000 != 500 ==> luma(r, g, b) == (299 * r + 587 * g + 114
            * b + 500) / 1000,
        (299 * r + 587 * g + 114 * b) % 1000 == 500 ==> luma(r, g, b) == (299 * r + 587 * g + 114
            * b + 500) / 1000 || luma(r, g, b) == (299 * r + 587 * g + 114 * b - 500) / 1000,
{
    lemma_weighted_sum_near(r, g, b);
    let s: int = 299 * r + 587 * g + 114 * b;
    let w: int = weighted_sum(r, g, b) as int;
    let y: int = luma(r, g, b);
    let one: int = ONE as int;
    // y is the integer with y * one <= w + one / 2 < (y + 1) * one.
    vstd::arithmetic::div_mod::lemma_fundamental_div_mod(w + HALF as int, one);
    vstd::arithmetic::div_mod::lemma_mod_bound(w + HALF as int, one);
    assert(one * y == y * one) by (nonlinear_arith);
    // k is the integer with 1000 k <= s + 500 < 1000 (k + 1).
    let k: int = (s + 500) / 1000;
    assert(1000 * k <= s + 500 < 1000 * k + 1000);
    // Between the two stands w, within 2^33 / 1000 of s * one / 1000.
    assert(s * one == one * s) by (nonlinear_arith);
    if s % 1000 != 500 {
        // s + 500 is at least 1 away from the next multiple of 1000.
        assert(1000 * k + 1 <= s + 500 <= 1000 * k + 999);
        assert(y == k) by (nonlinear_arith)
            requires
                y * one <= w + 0x80_0000_0000_0000,
                w + 0x80_0000_0000_0000 < y * one + one,
                1000 * w - s * one < 0x2_0000_0000,
                s * one - 1000 * w < 0x2_0000_0000,
                1000 * k + 1 <= s + 500 <= 1000 * k + 999,
                one == 0x100_0000_0000_0000,
        ;
    } else {
        assert(s + 500 == 1000 * k + 1000 || s + 500 == 1000 * k) by {
            assert(s % 1000 == 500);
        }
        assert(s + 500 == 1000 * k);
        let j: int = (s - 500) / 1000;
        assert(j == k - 1);
        assert(y == k || y == k - 1) by (nonlinear_arith)
            requires
                y * one <= w + 0x80_0000_0000_0000,
                w + 0x80_0000_0000_0000 < y * one + one,
                1000 * w - s * one < 0x2_0000_0000,
                s * one - 1000 * w < 0x2_0000_0000,
                s + 500 == 1000 * k,
                one == 0x100_0000_0000_0000,
        ;
    }
    assert(0 <= y <= 255) by (nonlinear_arith)
        requires
            y * one <= w + 0x80_0000_0000_0000,
            w + 0x80_0000_0000_0000 < y * one + one,
            1000 * w - s * one < 0x2_0000_0000,
            0 <= w,
            0 <= s <= 255000,
            one == 0x100_0000_0000_0000,
    ;
}

/// `v` rounded to 53 significant bits.
fn round_to_53_bits(v: u64) -> (rounded: u64)
    requires
        v <= u64::MAX - 4096,
    ensures
        rounded == round53(v as nat),
{
    let mut unit: u64 = 1;
    let mut rest: u64 = v;
    while rest >= SIGNIFICAND_LIMIT
        invariant
            1 <= unit <= 4096,
            rest == v / unit,
            spacing(v as nat) == unit * spacing(rest as nat),
            unit * rest <= v,
        decreases rest,
    {
        proof {
            vstd::arithmetic::div_mod::lemma_div_denominator(v as int, unit as int, 2);
            assert(unit * (2 * spacing(rest as nat / 2)) == (unit * 2) * spacing(rest as nat / 2))
                by (nonlinear_arith);
            assert((unit * 2) * (rest / 2) <= unit * rest) by (nonlinear_arith)
                requires
                    unit >= 1,
                    2 * (rest / 2) <= rest,
            ;
            assert(unit * 2 <= 4096) by (nonlinear_arith)
                requires
                    unit * rest <= v,
                    rest >= 0x20_0000_0000_0000,
                    v <= 0xffff_ffff_ffff_ffff,
                    unit >= 1,
            ;
        }
        rest = rest / 2;
        unit = unit * 2;
    }
    let q: u64 = v / unit;
    let r: u64 = v % unit;
    proof {
        assert(spacing(rest as nat) == 1);
        assert(spacing(v as nat) == unit) by (nonlinear_arith)
            requires
                spacing(v as nat) == unit * spacing(rest as nat),
                spacing(rest as nat) == 1,
        ;
        vstd::arithmetic::div_mod::lemma_fundamental_div_mod(v as int, unit as int);
        assert((q + 1) * unit == q * unit + unit) by (nonlinear_arith);
        assert(unit * q == q * unit) by (nonlinear_arith);
    }
    if 2 * r > unit || (2 * r == unit && q % 2 == 1) {
        (q + 1) * unit
    } else {
        q * unit
    }
}

/// The gray value of a pixel.
pub fn pixel_luma(r: u8, g: u8, b: u8) -> (gray: u8)
    ensures
        gray == luma(r, g, b),
{
    proof {
        lemma_luma_rounds_mean(r, g, b);
        lemma_round53_near(r as nat * RED_WEIGHT as nat);
        lemma_round53_near(g as nat * GREEN_WEIGHT as nat);
        lemma_round53_near(b as nat * BLUE_WEIGHT as nat);
    }
    let red: u64 = round_to_53_bits(r as u64 * RED_WEIGHT);
    let green: u64 = round_to_53_bits(g as u64 * GREEN_WEIGHT);
    let blue: u64 = round_to_53_bits(b as u64 * BLUE_WEIGHT);
    proof {
        lemma_round53_near((red + green) as nat);
    }
    let warm: u64 = round_to_53_bits(red + green);
    let sum: u64 = round_to_53_bits(warm + blue);
    proof {
        lemma_round53_near((warm + blue) as nat);
    }
    ((sum + HALF) / ONE) as u8
}

/// Converts the colour image `src` to gray.
pub fn vc_convert_to_grayscale(src: &IVC) -> (result: Result<IVC, ImageError>)
    ensures
        outcome(result) == grayscale(src@),
        result matches Ok(dst) ==> dst.wf(),
{
    if src.width <= 0 || src.height <= 0 || src.channels != 3 || (src.levels != 2 && src.levels
        != 256) {
        return Err(ImageError::Precondition);
    }
    let width: u64 = src.width as u64;
    let height: u64 = src.height as u64;
    assert(width * height * 3 <= 0x7fff_ffff * 0x7fff_ffff * 3) by (nonlinear_arith)
        requires
            0 < width <= 0x7fff_ffff,
            0 < height <= 0x7fff_ffff,
    ;
    let needed: u64 = width * height * 3;
    if needed > MAX_SAMPLES as u64 {
        return Err(ImageError::Precondition);
    }
    proof {
        lemma_valid_shape_bounds(width as int, height as int, 3, src.levels as int);
    }
    if src.bytesperline != src.width * 3 {
        return Err(ImageError::Precondition);
    }
    if (src.data.len() as u64) < needed {
        return Err(ImageError::BufferUnderrun);
    }
    let pixels: usize = (width * height) as usize;
    let mut data: Vec<u8> = Vec::new();
    let mut i: usize = 0;
    while i < pixels
        invariant
            i <= pixels,
            pixels * 3 <= src.data.len(),
            data@ == gray_samples(src.data@, i as int),
        decreases pixels - i,
    {
        let gray: u8 = pixel_luma(src.data[3 * i], src.data[3 * i + 1], src.data[3 * i + 2]);
        data.push(gray);
        i += 1;
        assert(data@ =~= gray_samples(src.data@, i as int));
    }
    Ok(
        IVC {
            data,
            width: src.width,
            height: src.height,
            channels: 1,
            levels: src.levels,
            bytesperline: src.width,
        },
    )
}

} // verus!
