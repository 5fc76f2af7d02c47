//! Error-diffusion dithering to two levels per colour channel.
//!
//! Pixels are visited row by row, left to right. Each colour channel is
//! set to 0 or 255, and the error made is handed to the four neighbours not
//! yet visited: 7/16 to the right, 3/16 below left, 5/16 below, 1/16 below
//! right. A neighbour's new value is cut to the range 0..=255 and rounded
//! towards zero. Alpha is set to 255.

use vstd::prelude::*;
use crate::frame::copy_range;
use crate::raster::{Image, is_alpha, lemma_pixel_offset, offset_of, pixel_offset};

verus! {

/// The level that a channel value is set to: 255 above the midpoint 128,
/// else 0.
pub open spec fn quantize(v: u8) -> u8 {
    if v > 128 {
        255
    } else {
        0
    }
}

/// The error made by setting `v` to its level.
pub open spec fn quant_error(v: u8) -> int {
    v - quantize(v)
}

/// A neighbour's value after it took `weight` sixteenths of `error`.
pub open spec fn diffuse(v: u8, error: int, weight: int) -> u8 {
    let sixteenths = 16 * v + error * weight;
    if sixteenths <= 0 {
        0
    } else if sixteenths >= 16 * 255 {
        255
    } else {
        (sixteenths / 16) as u8
    }
}

/// The buffer after the three colour channels of the pixel at offset `at`
/// took their shares of the errors.
#[verifier::opaque]
pub open spec fn spread(s: Seq<u8>, at: int, er: int, eg: int, eb: int, weight: int) -> Seq<u8> {
    s.update(at, diffuse(s[at], er, weight)).update(
        at + 1,
        diffuse(s[at + 1], eg, weight),
    ).update(at + 2, diffuse(s[at + 2], eb, weight))
}

/// The buffer after the pixel at offset `at` was set to its levels.
#[verifier::opaque]
pub open spec fn settle(s: Seq<u8>, at: int) -> Seq<u8> {
    s.update(at, quantize(s[at])).update(at + 1, quantize(s[at + 1])).update(
        at + 2,
        quantize(s[at + 2]),
    ).update(at + 3, 255u8)
}

/// One step: the pixel in column `x` of row `y` is set to its levels and its
/// errors are handed to the neighbours that exist.
pub open spec fn dither_pixel(s: Seq<u8>, width: nat, height: nat, x: int, y: int) -> Seq<u8> {
    let at = pixel_offset(width, x, y);
    let er = quant_error(s[at]);
    let eg = quant_error(s[at + 1]);
    let eb = quant_error(s[at + 2]);
    let s0 = settle(s, at);
    let s1 = if x + 1 < width {
        spread(s0, pixel_offset(width, x + 1, y), er, eg, eb, 7)
    } else {
        s0
    };
    let s2 = if y + 1 < height && x > 0 {
        spread(s1, pixel_offset(width, x - 1, y + 1), er, eg, eb, 3)
    } else {
        s1
    };
    let s3 = if y + 1 < height {
        spread(s2, pixel_offset(width, x, y + 1), er, eg, eb, 5)
    } else {
        s2
    };
    if y + 1 < height && x + 1 < width {
        spread(s3, pixel_offset(width, x + 1, y + 1), er, eg, eb, 1)
    } else {
        s3
    }
}

/// The buffer after every pixel of the rows above `y`, and the first `x`
/// pixels of row `y`, were visited.
pub open spec fn dither_upto(s: Seq<u8>, width: nat, height: nat, y: nat, x: nat) -> Seq<u8>
    decreases y, x,
{
    if x > 0 {
        dither_pixel(dither_upto(s, width, height, y, (x - 1) as nat), width, height, x - 1, y as int)
    } else if y > 0 {
        dither_upto(s, width, height, (y - 1) as nat, width)
    } else {
        s
    }
}

/// The dithered form of a whole buffer.
pub open spec fn dither_spec(s: Seq<u8>, width: nat, height: nat) -> Seq<u8> {
    dither_upto(s, width, height, height, 0)
}

/// Whether byte `i` of `s` holds a final value: 255 for alpha, 0 or 255 for
/// a colour channel.
pub open spec fn is_level(s: Seq<u8>, i: int) -> bool {
    if is_alpha(i) {
        s[i] == 255
    } else {
        s[i] == 0 || s[i] == 255
    }
}

/// Computes `diffuse` in machine integers.
fn diffuse_channel(v: u8, error: i32, weight: i32) -> (out: u8)
    requires
        -255 <= error <= 255,
        0 <= weight <= 16,
    ensures
        out == diffuse(v, error as int, weight as int),
{
    proof {
        assert(-255 * 16 <= error * weight <= 255 * 16) by (nonlinear_arith)
            requires
                -255 <= error <= 255,
                0 <= weight <= 16,
        {}
    }
    let sixteenths: i32 = 16 * (v as i32) + error * weight;
    if sixteenths <= 0 {
        0
    } else if sixteenths >= 16 * 255 {
        255
    } else {
        (sixteenths / 16) as u8
    }
}

/// Hands the errors to the pixel at offset `at`.
fn spread_at(pixels: &mut Vec<u8>, at: usize, er: i32, eg: i32, eb: i32, weight: i32)
    requires
        at + 2 < old(pixels)@.len(),
        -255 <= er <= 255,
        -255 <= eg <= 255,
        -255 <= eb <= 255,
        0 <= weight <= 16,
    ensures
        final(pixels)@ == spread(
            old(pixels)@,
            at as int,
            er as int,
            eg as int,
            eb as int,
            weight as int,
        ),
        final(pixels)@.len() == old(pixels)@.len(),
{
    let len: usize = pixels.len();
    proof {
        reveal(spread);
    }
    let r: u8 = diffuse_channel(pixels[at], er, weight);
    pixels.set(at, r);
    let g: u8 = diffuse_channel(pixels[at + 1], eg, weight);
    pixels.set(at + 1, g);
    let b: u8 = diffuse_channel(pixels[at + 2], eb, weight);
    pixels.set(at + 2, b);
}

/// Computes `quantize`.
fn level_of(v: u8) -> (out: u8)
    ensures
        out == quantize(v),
{
    if v > 128 {
        255
    } else {
        0
    }
}

/// Visits one pixel.
fn dither_at(pixels: &mut Vec<u8>, width: usize, height: usize, x: usize, y: usize)
    requires
        x < width,
        y < height,
        old(pixels)@.len() == 4 * width * height,
    ensures
        final(pixels)@ == dither_pixel(
            old(pixels)@,
            width as nat,
            height as nat,
            x as int,
            y as int,
        ),
        final(pixels)@.len() == old(pixels)@.len(),
{
    let len: usize = pixels.len();
    let at: usize = offset_of(width, height, x, y);
    let r: u8 = level_of(pixels[at]);
    let g: u8 = level_of(pixels[at + 1]);
    let b: u8 = level_of(pixels[at + 2]);
    let er: i32 = pixels[at] as i32 - r as i32;
    let eg: i32 = pixels[at + 1] as i32 - g as i32;
    let eb: i32 = pixels[at + 2] as i32 - b as i32;
    pixels.set(at, r);
    pixels.set(at + 1, g);
    pixels.set(at + 2, b);
    pixels.set(at + 3, 255);
    proof {
        reveal(settle);
        assert(pixels@ == settle(old(pixels)@, at as int));
    }
    if x + 1 < width {
        let to: usize = offset_of(width, height, x + 1, y);
        spread_at(pixels, to, er, eg, eb, 7);
    }
    if y + 1 < height && x > 0 {
        let to: usize = offset_of(width, height, x - 1, y + 1);
        spread_at(pixels, to, er, eg, eb, 3);
    }
    if y + 1 < height {
        let to: usize = offset_of(width, height, x, y + 1);
        spread_at(pixels, to, er, eg, eb, 5);
    }
    if y + 1 < height && x + 1 < width {
        let to: usize = offset_of(width, height, x + 1, y + 1);
        spread_at(pixels, to, er, eg, eb, 1);
    }
}

/// Dithers an image: every colour channel of the result is 0 or 255, every
/// alpha is 255, and the dimensions are those of the input.
pub fn dither(image: &Image) -> (out: Image)
    requires
        image.wf(),
    ensures
        out.wf(),
        out.width == image.width,
        out.height == image.height,
        out.pixels@ == dither_spec(image.pixels@, image.width as nat, image.height as nat),
        forall|i: int|
            #![trigger out.pixels@[i]]
            0 <= i < out.pixels@.len() ==> is_level(out.pixels@, i),
{
    let width: usize = image.width as usize;
    let height: usize = image.height as usize;
    let len: usize = image.pixels.len();
    let mut pixels: Vec<u8> = copy_range(image.pixels.as_slice(), 0, len);
    proof {
        assert(pixels@ =~= image.pixels@);
    }
    let mut y: usize = 0;
    while y < height
        invariant
            y <= height,
            len == 4 * width * height,
            pixels@.len() == len,
            pixels@ == dither_upto(image.pixels@, width as nat, height as nat, y as nat, 0),
        decreases height - y,
    {
        let mut x: usize = 0;
        while x < width
            invariant
                x <= width,
                y < height,
                len == 4 * width * height,
                pixels@.len() == len,
                pixels@ == dither_upto(
                    image.pixels@,
                    width as nat,
                    height as nat,
                    y as nat,
                    x as nat,
                ),
            decreases width - x,
        {
            dither_at(&mut pixels, width, height, x, y);
            x = x + 1;
        }
        y = y + 1;
    }
    proof {
        lemma_dither_levels(image.pixels@, width as nat, height as nat, height as nat, 0);
        lemma_pixel_offset_row(width as nat, height as nat);
        assert forall|i: int| 0 <= i < pixels@.len() implies is_level(pixels@, i) by {}
    }
    Image { width: image.width, height: image.height, pixels }
}

/// The offset of the row below the last one is the length of the buffer.
pub proof fn lemma_pixel_offset_row(width: nat, height: nat)
    ensures
        pixel_offset(width, 0, height as int) == 4 * width * height,
{
    assert(4 * (height * width + 0) == 4 * width * height) by (nonlinear_arith);
}

/// Setting a pixel to its levels changes its four bytes only, and leaves
/// final values in them.
pub proof fn lemma_settle_frame(s: Seq<u8>, at: int)
    requires
        0 <= at,
        at + 4 <= s.len(),
        at % 4 == 0,
    ensures
        settle(s, at).len() == s.len(),
        forall|i: int| 0 <= i < s.len() && !(at <= i < at + 4) ==> settle(s, at)[i] == s[i],
        is_level(settle(s, at), at),
        is_level(settle(s, at), at + 1),
        is_level(settle(s, at), at + 2),
        is_level(settle(s, at), at + 3),
{
    reveal(settle);
}

/// Handing errors to a pixel changes its three colour bytes only.
pub proof fn lemma_spread_frame(s: Seq<u8>, at: int, er: int, eg: int, eb: int, weight: int)
    requires
        0 <= at,
        at + 4 <= s.len(),
    ensures
        spread(s, at, er, eg, eb, weight).len() == s.len(),
        forall|i: int|
            0 <= i < s.len() && !(at <= i < at + 3) ==> spread(s, at, er, eg, eb, weight)[i]
                == s[i],
{
    reveal(spread);
}

/// One step keeps the length, leaves the bytes before the visited pixel as
/// they were and leaves final values in the visited pixel.
pub proof fn lemma_dither_pixel_frame(s: Seq<u8>, width: nat, height: nat, x: int, y: int)
    requires
        0 <= x < width,
        0 <= y < height,
        s.len() == 4 * width * height,
    ensures
        dither_pixel(s, width, height, x, y).len() == s.len(),
        forall|i: int|
            0 <= i < pixel_offset(width, x, y) ==> dither_pixel(s, width, height, x, y)[i] == s[i],
        forall|i: int|
            pixel_offset(width, x, y) <= i < pixel_offset(width, x, y) + 4 ==> is_level(
                dither_pixel(s, width, height, x, y),
                i,
            ),
{
    lemma_pixel_offset(width, height, x, y);
    let at = pixel_offset(width, x, y);
    let er = quant_error(s[at]);
    let eg = quant_error(s[at + 1]);
    let eb = quant_error(s[at + 2]);
    let s0 = settle(s, at);
    lemma_settle_frame(s, at);
    let s1 = if x + 1 < width {
        spread(s0, pixel_offset(width, x + 1, y), er, eg, eb, 7)
    } else {
        s0
    };
    if x + 1 < width {
        lemma_pixel_offset(width, height, x + 1, y);
        lemma_spread_frame(s0, pixel_offset(width, x + 1, y), er, eg, eb, 7);
    }
    let s2 = if y + 1 < height && x > 0 {
        spread(s1, pixel_offset(width, x - 1, y + 1), er, eg, eb, 3)
    } else {
        s1
    };
    if y + 1 < height && x > 0 {
        lemma_pixel_offset(width, height, x, y + 1);
        lemma_pixel_offset(width, height, x - 1, y + 1);
        lemma_spread_frame(s1, pixel_offset(width, x - 1, y + 1), er, eg, eb, 3);
    }
    let s3 = if y + 1 < height {
        spread(s2, pixel_offset(width, x, y + 1), er, eg, eb, 5)
    } else {
        s2
    };
    if y + 1 < height {
        lemma_pixel_offset(width, height, x, y + 1);
        lemma_spread_frame(s2, pixel_offset(width, x, y + 1), er, eg, eb, 5);
    }
    let s4 = if y + 1 < height && x + 1 < width {
        spread(s3, pixel_offset(width, x + 1, y + 1), er, eg, eb, 1)
    } else {
        s3
    };
    if y + 1 < height && x + 1 < width {
        lemma_pixel_offset(width, height, x + 1, y + 1);
        lemma_spread_frame(s3, pixel_offset(width, x + 1, y + 1), er, eg, eb, 1);
    }
    assert(dither_pixel(s, width, height, x, y) == s4);
    assert(s4.len() == s.len());
    assert forall|i: int| 0 <= i < at + 4 implies s4[i] == s0[i] by {
        assert(s1[i] == s0[i]);
        assert(s2[i] == s1[i]);
        assert(s3[i] == s2[i]);
    }
    assert forall|i: int| at <= i < at + 4 implies is_level(s4, i) by {
        assert(s4[i] == s0[i]);
        assert(is_level(s0, i));
    }
}

/// Diffusion only reaches pixels not yet visited: every byte of a visited
/// pixel holds a final value, and the length never changes.
pub proof fn lemma_dither_levels(s: Seq<u8>, width: nat, height: nat, y: nat, x: nat)
    requires
        s.len() == 4 * width * height,
        y < height && x <= width || y == height && x == 0,
    ensures
        dither_upto(s, width, height, y, x).len() == s.len(),
        forall|i: int|
            0 <= i < pixel_offset(width, x as int, y as int) ==> is_level(
                dither_upto(s, width, height, y, x),
                i,
            ),
    decreases y, x,
{
    if x > 0 {
        let before = dither_upto(s, width, height, y, (x - 1) as nat);
        lemma_dither_levels(s, width, height, y, (x - 1) as nat);
        lemma_dither_pixel_frame(before, width, height, x - 1, y as int);
        lemma_pixel_offset(width, height, x - 1, y as int);
        let after = dither_pixel(before, width, height, x - 1, y as int);
        assert(dither_upto(s, width, height, y, x) == after);
        assert forall|i: int| 0 <= i < pixel_offset(width, x as int, y as int) implies is_level(
            after,
            i,
        ) by {
            if i < pixel_offset(width, x - 1, y as int) {
                assert(after[i] == before[i]);
                assert(is_level(before, i));
            }
        }
    } else if y > 0 {
        lemma_dither_levels(s, width, height, (y - 1) as nat, width);
        if width > 0 {
            lemma_pixel_offset(width, height, 0, y - 1);
        } else {
            assert(pixel_offset(width, 0, y as int) == 0) by (nonlinear_arith)
                requires
                    width == 0,
            {}
        }
    } else {
        assert(pixel_offset(width, 0, 0) == 0) by (nonlinear_arith);
    }
}

/// A buffer whose colour channels are all 0 or 255 and whose alphas are all
/// 255 is left as it is by every step.
pub proof fn lemma_dither_pixel_fixed(s: Seq<u8>, width: nat, height: nat, x: int, y: int)
    requires
        0 <= x < width,
        0 <= y < height,
        s.len() == 4 * width * height,
        forall|i: int| 0 <= i < s.len() ==> is_level(s, i),
    ensures
        dither_pixel(s, width, height, x, y) == s,
{
    lemma_pixel_offset(width, height, x, y);
    let at = pixel_offset(width, x, y);
    reveal(settle);
    reveal(spread);
    assert(is_level(s, at) && is_level(s, at + 1) && is_level(s, at + 2) && is_level(s, at + 3));
    assert(settle(s, at) =~= s);
    assert forall|v: u8, weight: int| diffuse(v, 0, weight) == v by {
        assert(0 * weight == 0) by (nonlinear_arith);
    }
    if x + 1 < width {
        lemma_pixel_offset(width, height, x + 1, y);
        assert(spread(s, pixel_offset(width, x + 1, y), 0, 0, 0, 7) =~= s);
    }
    if y + 1 < height {
        lemma_pixel_offset(width, height, x, y + 1);
        assert(spread(s, pixel_offset(width, x, y + 1), 0, 0, 0, 5) =~= s);
        if x > 0 {
            lemma_pixel_offset(width, height, x - 1, y + 1);
            assert(spread(s, pixel_offset(width, x - 1, y + 1), 0, 0, 0, 3) =~= s);
        }
        if x + 1 < width {
            lemma_pixel_offset(width, height, x + 1, y + 1);
            assert(spread(s, pixel_offset(width, x + 1, y + 1), 0, 0, 0, 1) =~= s);
        }
    }
}

/// The same, after any number of steps.
pub proof fn lemma_dither_upto_fixed(s: Seq<u8>, width: nat, height: nat, y: nat, x: nat)
    requires
        s.len() == 4 * width * height,
        y < height && x <= width || y == height && x == 0,
        forall|i: int| 0 <= i < s.len() ==> is_level(s, i),
    ensures
        dither_upto(s, width, height, y, x) == s,
    decreases y, x,
{
    if x > 0 {
        lemma_dither_upto_fixed(s, width, height, y, (x - 1) as nat);
        lemma_dither_pixel_fixed(s, width, height, x - 1, y as int);
    } else if y > 0 {
        lemma_dither_upto_fixed(s, width, height, (y - 1) as nat, width);
    }
}

/// Dithering an image that is already at its levels (every colour channel 0
/// or 255, every alpha 255) gives the same image.
pub proof fn lemma_dither_idempotent_on_levels(s: Seq<u8>, width: nat, height: nat)
    requires
        s.len() == 4 * width * height,
        forall|i: int| 0 <= i < s.len() ==> is_level(s, i),
    ensures
        dither_spec(s, width, height) == s,
{
    lemma_dither_upto_fixed(s, width, height, height, 0);
}

/// Dithering twice is dithering once.
pub proof fn lemma_dither_twice(s: Seq<u8>, width: nat, height: nat)
    requires
        s.len() == 4 * width * height,
    ensures
        dither_spec(dither_spec(s, width, height), width, height) == dither_spec(s, width, height),
{
    lemma_dither_levels(s, width, height, height, 0);
    lemma_pixel_offset_row(width, height);
    lemma_dither_idempotent_on_levels(dither_spec(s, width, height), width, height);
}

} // verus!
