use stegolink::codec::{embed, embed_fitted, extract, fits, merge, try_embed};
use stegolink::dither::dither;
use stegolink::raster::Image;

fn image_of(width: u32, height: u32, pixels: Vec<u8>) -> Image {
    Image::new(width, height, pixels).unwrap()
}

fn gradient(width: u32, height: u32) -> Image {
    let mut pixels = Vec::new();
    for y in 0..height {
        for x in 0..width {
            pixels.push(((x * 37 + y * 11) % 256) as u8);
            pixels.push(((x * 5 + y * 91 + 40) % 256) as u8);
            pixels.push(((x * x + y * 3 + 200) % 256) as u8);
            pixels.push(((x + y) % 256) as u8);
        }
    }
    image_of(width, height, pixels)
}

#[test]
fn image_new_checks_the_buffer_length() {
    assert!(Image::new(2, 1, vec![0; 8]).is_some());
    assert!(Image::new(2, 1, vec![0; 7]).is_none());
    assert!(Image::new(2, 1, vec![0; 9]).is_none());
    assert!(Image::new(0, 5, vec![]).is_some());
    assert!(Image::new(0, 5, vec![0; 4]).is_none());
    assert!(Image::new(u32::MAX, u32::MAX, vec![0; 4]).is_none());
}

#[test]
fn image_pixel_reads_row_major() {
    let img = image_of(2, 2, vec![1, 2, 3, 4, 5, 6, 7, 8, 9, 10, 11, 12, 13, 14, 15, 16]);
    assert_eq!(img.pixel(0, 0), [1, 2, 3, 4]);
    assert_eq!(img.pixel(1, 0), [5, 6, 7, 8]);
    assert_eq!(img.pixel(0, 1), [9, 10, 11, 12]);
    assert_eq!(img.pixel(1, 1), [13, 14, 15, 16]);
}

#[test]
fn dither_threshold_is_the_midpoint() {
    let out = dither(&image_of(1, 1, vec![128, 129, 127, 0]));
    assert_eq!(out.pixels, vec![0, 255, 0, 255]);
    let ends = dither(&image_of(1, 1, vec![0, 255, 200, 9]));
    assert_eq!(ends.pixels, vec![0, 255, 255, 255]);
}

#[test]
fn dither_keeps_dimensions_and_forces_alpha() {
    let out = dither(&gradient(7, 5));
    assert_eq!(out.width, 7);
    assert_eq!(out.height, 5);
    assert_eq!(out.pixels.len(), 140);
    for (i, v) in out.pixels.iter().enumerate() {
        if i % 4 == 3 {
            assert_eq!(*v, 255);
        } else {
            assert!(*v == 0 || *v == 255);
        }
    }
}

#[test]
fn dither_diffuses_error_to_four_neighbours() {
    let input = image_of(
        2,
        2,
        vec![100, 200, 0, 0, 100, 100, 100, 255, 100, 100, 100, 255, 100, 100, 100, 255],
    );
    let out = dither(&input);
    assert_eq!(
        out.pixels,
        vec![0, 255, 0, 255, 255, 0, 0, 255, 0, 0, 0, 255, 0, 255, 255, 255]
    );
}

#[test]
fn dither_hands_seven_sixteenths_to_the_right() {
    let out = dither(&image_of(2, 1, vec![100, 0, 0, 255, 85, 86, 129, 255]));
    // 85 + 700/16 = 128 (rounded down) stays low; 129 stays high.
    assert_eq!(out.pixels, vec![0, 0, 0, 255, 0, 0, 255, 255]);
    let up = dither(&image_of(2, 1, vec![100, 0, 0, 255, 86, 0, 0, 255]));
    // 86 + 700/16 = 129 (rounded down) goes high.
    assert_eq!(up.pixels, vec![0, 0, 0, 255, 255, 0, 0, 255]);
}

#[test]
fn dither_clamps_neighbours_to_the_channel_range() {
    // 250 + 128*7/16 is cut to 255, so no error is left for the third pixel.
    let out = dither(&image_of(3, 1, vec![128, 0, 0, 255, 250, 0, 0, 255, 128, 0, 0, 255]));
    assert_eq!(out.pixels, vec![0, 0, 0, 255, 255, 0, 0, 255, 0, 0, 0, 255]);
    // 10 - 126*7/16 is cut to 0, so no error is left for the third pixel.
    let low = dither(&image_of(3, 1, vec![129, 0, 0, 255, 10, 0, 0, 255, 128, 0, 0, 255]));
    assert_eq!(low.pixels, vec![255, 0, 0, 255, 0, 0, 0, 255, 0, 0, 0, 255]);
}

#[test]
fn dither_of_empty_image_is_empty() {
    let out = dither(&image_of(0, 3, vec![]));
    assert_eq!(out.width, 0);
    assert_eq!(out.height, 3);
    assert_eq!(out.pixels.len(), 0);
}

#[test]
fn dither_leaves_binary_images_alone() {
    let mut pixels = Vec::new();
    for i in 0..(6 * 4) {
        pixels.push(if i % 3 == 0 { 255 } else { 0 });
        pixels.push(if i % 2 == 0 { 255 } else { 0 });
        pixels.push(if i % 5 == 0 { 0 } else { 255 });
        pixels.push(255);
    }
    let input = image_of(6, 4, pixels.clone());
    let out = dither(&input);
    assert_eq!(out.pixels, pixels);
}

#[test]
fn dither_twice_is_dither_once() {
    let once = dither(&gradient(9, 6));
    let twice = dither(&once);
    assert_eq!(once.pixels, twice.pixels);
}

#[test]
fn merge_puts_secret_nibble_under_cover_nibble() {
    let secret = image_of(1, 1, vec![0xAB, 0xFF, 0x0F, 3]);
    let cover = image_of(1, 1, vec![0x12, 0x34, 0xF6, 7]);
    let out = merge(&secret, &cover);
    assert_eq!(out.pixels, vec![0x1A, 0x3F, 0xF0, 255]);
    let high = image_of(1, 1, vec![255, 255, 0, 255]);
    let dark = image_of(1, 1, vec![0, 15, 15, 255]);
    assert_eq!(merge(&high, &dark).pixels, vec![15, 15, 0, 255]);
}

#[test]
fn extract_moves_low_nibble_up() {
    let out = extract(&image_of(2, 1, vec![0x1F, 0xA3, 0xFF, 7, 0x00, 0x10, 0x01, 0]));
    assert_eq!(out.width, 2);
    assert_eq!(out.height, 1);
    assert_eq!(out.pixels, vec![0xF0, 0x30, 0xF0, 255, 0x00, 0x00, 0x10, 255]);
}

#[test]
fn end_to_end_scenario() {
    let secret = image_of(2, 1, vec![200, 10, 0, 255, 50, 255, 128, 255]);
    let cover = image_of(2, 1, vec![16, 16, 16, 255, 240, 240, 240, 255]);
    let dithered = dither(&secret);
    assert_eq!(dithered.pixels[0], 255);
    assert_eq!(dithered.pixels[1], 0);
    assert_eq!(dithered.pixels, vec![255, 0, 0, 255, 0, 255, 0, 255]);
    let embedded = embed(&secret, &cover);
    assert_eq!(embedded.width, 2);
    assert_eq!(embedded.height, 1);
    assert_eq!(embedded.pixels[0], (16 & 0xF0) | ((255 & 0xF0) >> 4));
    assert_eq!(embedded.pixels[0], 31);
    assert_eq!(embedded.pixels, vec![0x1F, 0x10, 0x10, 255, 0xF0, 0xFF, 0xF0, 255]);
    let back = extract(&embedded);
    assert_eq!(back.pixels[0], 240);
    assert_eq!(back.pixels, vec![240, 0, 0, 255, 0, 240, 0, 255]);
}

#[test]
fn embed_fitted_dithers_then_merges() {
    let secret = image_of(2, 1, vec![200, 10, 0, 255, 50, 255, 128, 255]);
    let cover = image_of(2, 1, vec![16, 16, 16, 255, 240, 240, 240, 255]);
    let out = embed_fitted(&secret, &cover);
    assert_eq!(out.pixels, vec![0x1F, 0x10, 0x10, 255, 0xF0, 0xFF, 0xF0, 255]);
}

#[test]
fn embed_twice_gives_the_same_bytes() {
    let secret = gradient(5, 4);
    let cover = gradient(13, 9);
    let a = embed(&secret, &cover);
    let b = embed(&secret, &cover);
    assert_eq!(a.width, b.width);
    assert_eq!(a.height, b.height);
    assert_eq!(a.pixels, b.pixels);
}

#[test]
fn embed_resamples_the_cover_to_the_secret() {
    let secret = gradient(3, 2);
    let cover = gradient(8, 6);
    let out = embed(&secret, &cover);
    assert_eq!(out.width, 3);
    assert_eq!(out.height, 2);
    assert_eq!(out.pixels.len(), 24);
    let buffer = image::RgbaImage::from_raw(8, 6, cover.pixels.clone()).unwrap();
    let fitted = image::imageops::resize(&buffer, 3, 2, image::imageops::FilterType::Lanczos3);
    let fitted = fitted.into_raw();
    let dithered = dither(&secret);
    for i in 0..24 {
        if i % 4 == 3 {
            assert_eq!(out.pixels[i], 255);
        } else {
            assert_eq!(out.pixels[i], (fitted[i] & 0xF0) | ((dithered.pixels[i] & 0xF0) >> 4));
        }
    }
}

#[test]
fn embed_keeps_the_high_nibbles_of_a_flat_cover() {
    let secret = gradient(4, 4);
    let cover = image_of(2, 2, vec![0x90; 16]);
    let out = embed(&secret, &cover);
    for (i, v) in out.pixels.iter().enumerate() {
        if i % 4 == 3 {
            assert_eq!(*v, 255);
        } else {
            assert_eq!(*v & 0xF0, 0x90);
            assert!(*v & 0x0F == 0x0F || *v & 0x0F == 0);
        }
    }
}

#[test]
fn extract_after_embed_is_coarse() {
    let mut pixels = Vec::new();
    for _ in 0..12 {
        pixels.extend_from_slice(&[200, 200, 200, 255]);
    }
    let secret = image_of(4, 3, pixels);
    let cover = gradient(6, 6);
    let back = extract(&embed(&secret, &cover));
    let dithered = dither(&secret);
    assert_eq!(back.width, 4);
    assert_eq!(back.height, 3);
    for (i, v) in back.pixels.iter().enumerate() {
        if i % 4 == 3 {
            assert_eq!(*v, 255);
        } else {
            assert!(*v == 0 || *v == 240);
            assert_ne!(*v, 200);
            assert_eq!(*v, dithered.pixels[i] & 0xF0);
        }
    }
    assert_eq!(back.pixels[0], 240);
}

#[test]
fn fits_tells_when_a_cover_can_be_resampled() {
    let cover = gradient(4, 4);
    assert!(fits(&cover, 4, 4));
    assert!(fits(&cover, 2, 9));
    assert!(fits(&cover, 0, 0));
    let empty = image_of(0, 0, vec![]);
    assert!(fits(&empty, 0, 0));
    assert!(!fits(&empty, 1, 1));
    let flat = image_of(0, 3, vec![]);
    assert!(!fits(&flat, 2, 3));
    assert!(!fits(&cover, u32::MAX, u32::MAX));
}

#[test]
fn try_embed_says_when_the_cover_cannot_be_resampled() {
    let secret = gradient(2, 2);
    let empty = image_of(0, 0, vec![]);
    assert!(try_embed(&secret, &empty).is_none());
    let cover = gradient(3, 5);
    let got = try_embed(&secret, &cover).unwrap();
    let direct = embed(&secret, &cover);
    assert_eq!(got.pixels, direct.pixels);
    let nothing = try_embed(&empty, &empty).unwrap();
    assert_eq!(nothing.pixels.len(), 0);
}

#[test]
fn embed_of_empty_secret_is_empty() {
    let secret = image_of(0, 0, vec![]);
    let cover = gradient(3, 3);
    let out = embed(&secret, &cover);
    assert_eq!(out.width, 0);
    assert_eq!(out.height, 0);
    assert_eq!(out.pixels.len(), 0);
}
