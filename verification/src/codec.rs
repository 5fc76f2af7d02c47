//! Hiding a dithered image in the low nibbles of a cover image, and lifting
//! it back out.

use vstd::prelude::*;
use crate::raster::{Image, is_alpha};
use crate::dither::{dither, dither_spec, is_level, lemma_dither_levels, lemma_pixel_offset_row};

verus! {

/// The pixels of an image of `width` by `height` pixels after it was
/// resampled to `new_width` by `new_height` pixels with the Lanczos filter
/// of window 3.
pub uninterp spec fn resampled(
    pixels: Seq<u8>,
    width: u32,
    height: u32,
    new_width: u32,
    new_height: u32,
) -> Seq<u8>;

/// Whether an image of `width` by `height` pixels can be resampled to
/// `new_width` by `new_height`: either nothing changes, or the image is not
/// empty and both the buffer of the result and the buffer of floats in
/// between can be allocated.
pub open spec fn can_resample(width: u32, height: u32, new_width: u32, new_height: u32) -> bool {
    ||| new_width == width && new_height == height
    ||| {
        &&& width > 0
        &&& height > 0
        &&& 16 * width * new_height <= isize::MAX
        &&& 4 * new_width * new_height <= isize::MAX
    }
}

/// One output channel: the cover's high nibble above the secret's high
/// nibble.
pub open spec fn embed_byte(cover: u8, secret: u8) -> u8 {
    (cover & 0xF0) | ((secret & 0xF0) >> 4)
}

/// One recovered channel: the low nibble, moved up.
pub open spec fn extract_byte(embedded: u8) -> u8 {
    (embedded & 0x0F) << 4
}

/// The cover with the secret's high nibbles in its low nibbles, channel by
/// channel; alpha is 255.
pub open spec fn merge_spec(secret: Seq<u8>, cover: Seq<u8>) -> Seq<u8> {
    Seq::new(
        secret.len(),
        |i: int|
            if is_alpha(i) {
                255u8
            } else {
                embed_byte(cover[i], secret[i])
            },
    )
}

/// The hidden nibbles of every channel, moved up; alpha is 255.
pub open spec fn extract_spec(embedded: Seq<u8>) -> Seq<u8> {
    Seq::new(
        embedded.len(),
        |i: int|
            if is_alpha(i) {
                255u8
            } else {
                extract_byte(embedded[i])
            },
    )
}

/// The pixels of a secret hidden in a cover: the secret dithered, the cover
/// resampled to the secret's dimensions, the two merged.
pub open spec fn embed_spec(
    secret: Seq<u8>,
    width: u32,
    height: u32,
    cover: Seq<u8>,
    cover_width: u32,
    cover_height: u32,
) -> Seq<u8> {
    merge_spec(
        dither_spec(secret, width as nat, height as nat),
        resampled(cover, cover_width, cover_height, width, height),
    )
}

/// Whether `out` is what hiding `secret` in `cover` gives: an image of the
/// secret's dimensions whose pixels are fixed by the two images.
pub open spec fn embedded_in(out: Image, secret: Image, cover: Image) -> bool {
    &&& out.wf()
    &&& out.width == secret.width
    &&& out.height == secret.height
    &&& out.pixels@ == embed_spec(
        secret.pixels@,
        secret.width,
        secret.height,
        cover.pixels@,
        cover.width,
        cover.height,
    )
}

/// Calls `image::DynamicImage::resize_exact` with `FilterType::Lanczos3` on
/// the cover as an RGBA image. Trusted, not proved: the call returns on every
/// input that `can_resample` admits; the result has the dimensions asked for;
/// its pixels are fixed by the arguments alone (the filter computes in
/// single-precision floats, taken here to give the same bytes each time); and
/// an image asked for in its own dimensions comes back as a copy.
#[verifier::external_body]
fn resample(cover: &Image, width: u32, height: u32) -> (out: Image)
    requires
        cover.wf(),
        can_resample(cover.width, cover.height, width, height),
    ensures
        out.wf(),
        out.width == width,
        out.height == height,
        out.pixels@ == resampled(cover.pixels@, cover.width, cover.height, width, height),
        width == cover.width && height == cover.height ==> out.pixels@ == cover.pixels@,
{
    let buffer = image::RgbaImage::from_raw(cover.width, cover.height, cover.pixels.clone()).unwrap();
    let resized = image::DynamicImage::ImageRgba8(buffer).resize_exact(
        width,
        height,
        image::imageops::FilterType::Lanczos3,
    );
    Image { width, height, pixels: resized.into_rgba8().into_raw() }
}

/// Tests whether the cover can be resampled to the given dimensions.
pub fn fits(cover: &Image, width: u32, height: u32) -> (ok: bool)
    ensures
        ok == can_resample(cover.width, cover.height, width, height),
{
    if width == cover.width && height == cover.height {
        return true;
    }
    if cover.width == 0 || cover.height == 0 {
        return false;
    }
    proof {
        assert(0 <= cover.width * height <= 0xFFFF_FFFF * 0xFFFF_FFFF) by (nonlinear_arith)
            requires
                0 <= cover.width <= 0xFFFF_FFFF,
                0 <= height <= 0xFFFF_FFFF,
        {}
        assert(0 <= width * height <= 0xFFFF_FFFF * 0xFFFF_FFFF) by (nonlinear_arith)
            requires
                0 <= width <= 0xFFFF_FFFF,
                0 <= height <= 0xFFFF_FFFF,
        {}
        assert(16 * cover.width * height == 16 * (cover.width * height)) by (nonlinear_arith);
        assert(4 * width * height == 4 * (width * height)) by (nonlinear_arith);
    }
    let between: u64 = (cover.width as u64) * (height as u64);
    let result: u64 = (width as u64) * (height as u64);
    let limit: u128 = isize::MAX as u128;
    16 * (between as u128) <= limit && 4 * (result as u128) <= limit
}

/// Merges a secret and a cover of the same dimensions, pixel by pixel.
pub fn merge(secret: &Image, cover: &Image) -> (out: Image)
    requires
        secret.wf(),
        cover.wf(),
        secret.width == cover.width,
        secret.height == cover.height,
    ensures
        out.wf(),
        out.width == secret.width,
        out.height == secret.height,
        out.pixels@ == merge_spec(secret.pixels@, cover.pixels@),
{
    let len: usize = secret.pixels.len();
    let mut pixels: Vec<u8> = Vec::new();
    let mut at: usize = 0;
    while at < len
        invariant
            at <= len,
            len == secret.pixels@.len(),
            len == cover.pixels@.len(),
            pixels@ == merge_spec(secret.pixels@, cover.pixels@).subrange(0, at as int),
        decreases len - at,
    {
        let value: u8 = if at % 4 == 3 {
            255
        } else {
            (cover.pixels[at] & 0xF0) | ((secret.pixels[at] & 0xF0) >> 4)
        };
        pixels.push(value);
        at = at + 1;
        proof {
            assert(pixels@ =~= merge_spec(secret.pixels@, cover.pixels@).subrange(0, at as int));
        }
    }
    proof {
        assert(pixels@ =~= merge_spec(secret.pixels@, cover.pixels@));
    }
    Image { width: secret.width, height: secret.height, pixels }
}

/// Hides a secret in a cover that already has the secret's dimensions: the
/// secret is dithered, then merged into the cover.
pub fn embed_fitted(secret: &Image, fitted: &Image) -> (out: Image)
    requires
        secret.wf(),
        fitted.wf(),
        secret.width == fitted.width,
        secret.height == fitted.height,
    ensures
        out.wf(),
        out.width == secret.width,
        out.height == secret.height,
        out.pixels@ == merge_spec(
            dither_spec(secret.pixels@, secret.width as nat, secret.height as nat),
            fitted.pixels@,
        ),
{
    let dithered = dither(secret);
    merge(&dithered, fitted)
}

/// Hides a secret in a cover: the cover is resampled to the secret's
/// dimensions, the secret is dithered, and the two are merged. The result
/// depends on the two images alone.
pub fn embed(secret: &Image, cover: &Image) -> (out: Image)
    requires
        secret.wf(),
        cover.wf(),
        can_resample(cover.width, cover.height, secret.width, secret.height),
    ensures
        embedded_in(out, *secret, *cover),
        cover.width == secret.width && cover.height == secret.height ==> out.pixels@ == merge_spec(
            dither_spec(secret.pixels@, secret.width as nat, secret.height as nat),
            cover.pixels@,
        ),
{
    let fitted = resample(cover, secret.width, secret.height);
    embed_fitted(secret, &fitted)
}

/// Hides a secret in a cover where the cover can be resampled to the
/// secret's dimensions, and says so where it cannot.
pub fn try_embed(secret: &Image, cover: &Image) -> (out: Option<Image>)
    requires
        secret.wf(),
        cover.wf(),
    ensures
        out.is_some() <==> can_resample(cover.width, cover.height, secret.width, secret.height),
        match out {
            Some(image) => embedded_in(image, *secret, *cover),
            None => true,
        },
{
    if fits(cover, secret.width, secret.height) {
        Some(embed(secret, cover))
    } else {
        None
    }
}

/// Lifts the hidden image out of an embedded one, whatever its dimensions.
pub fn extract(embedded: &Image) -> (out: Image)
    requires
        embedded.wf(),
    ensures
        out.wf(),
        out.width == embedded.width,
        out.height == embedded.height,
        out.pixels@ == extract_spec(embedded.pixels@),
{
    let len: usize = embedded.pixels.len();
    let mut pixels: Vec<u8> = Vec::new();
    let mut at: usize = 0;
    while at < len
        invariant
            at <= len,
            len == embedded.pixels@.len(),
            pixels@ == extract_spec(embedded.pixels@).subrange(0, at as int),
        decreases len - at,
    {
        let value: u8 = if at % 4 == 3 {
            255
        } else {
            (embedded.pixels[at] & 0x0F) << 4
        };
        pixels.push(value);
        at = at + 1;
        proof {
            assert(pixels@ =~= extract_spec(embedded.pixels@).subrange(0, at as int));
        }
    }
    proof {
        assert(pixels@ =~= extract_spec(embedded.pixels@));
    }
    Image { width: embedded.width, height: embedded.height, pixels }
}

/// Determinism: two results of hiding the same secret in the same cover have
/// the same dimensions and the same bytes.
pub proof fn lemma_embed_deterministic(secret: Image, cover: Image, first: Image, second: Image)
    requires
        embedded_in(first, secret, cover),
        embedded_in(second, secret, cover),
    ensures
        first.width == second.width,
        first.height == second.height,
        first.pixels@ == second.pixels@,
{
}

/// What comes back of one channel: the secret's high nibble, whatever the
/// cover held.
pub proof fn lemma_extract_embed_byte(cover: u8, secret: u8)
    ensures
        extract_byte(embed_byte(cover, secret)) == secret & 0xF0,
        embed_byte(cover, secret) & 0xF0 == cover & 0xF0,
        secret == 255 ==> extract_byte(embed_byte(cover, secret)) == 240,
        secret == 0 ==> extract_byte(embed_byte(cover, secret)) == 0,
{
    assert(((((cover & 0xF0) | ((secret & 0xF0) >> 4)) & 0x0F) << 4) == secret & 0xF0)
        by (bit_vector);
    assert(((cover & 0xF0) | ((secret & 0xF0) >> 4)) & 0xF0 == cover & 0xF0) by (bit_vector);
    assert(255u8 & 0xF0 == 240) by (bit_vector);
    assert(0u8 & 0xF0 == 0) by (bit_vector);
}

/// Coarseness: after a secret is hidden in any cover and lifted out again,
/// every colour channel is 240 where the dithered secret is 255 and 0 where
/// it is 0, and every alpha is 255; no other value comes back.
pub proof fn lemma_extract_after_embed(
    secret: Seq<u8>,
    width: u32,
    height: u32,
    cover: Seq<u8>,
    cover_width: u32,
    cover_height: u32,
    i: int,
)
    requires
        secret.len() == 4 * width * height,
        0 <= i < secret.len(),
    ensures
        ({
            let embedded = embed_spec(secret, width, height, cover, cover_width, cover_height);
            let dithered = dither_spec(secret, width as nat, height as nat);
            let back = extract_spec(embedded);
            &&& back.len() == secret.len()
            &&& is_alpha(i) ==> back[i] == 255
            &&& !is_alpha(i) ==> (dithered[i] == 255 && back[i] == 240) || (dithered[i] == 0
                && back[i] == 0)
        }),
{
    let dithered = dither_spec(secret, width as nat, height as nat);
    lemma_dither_levels(secret, width as nat, height as nat, height as nat, 0);
    lemma_pixel_offset_row(width as nat, height as nat);
    assert(is_level(dithered, i));
    let fitted = resampled(cover, cover_width, cover_height, width, height);
    lemma_extract_embed_byte(fitted[i], dithered[i]);
}

} // verus!
