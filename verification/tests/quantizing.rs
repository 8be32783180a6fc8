use epaper_dither::color::Rgb;
use epaper_dither::pack::{pack_indices, unpack_indices};
use epaper_dither::quantize::{dither_image, quantize, DitherError};
use epaper_dither::{IMAGE_HEIGHT, IMAGE_WIDTH};

fn solid(r: u8, g: u8, b: u8, count: usize) -> Vec<Rgb> {
    (0..count).map(|_| Rgb { r, g, b }).collect()
}

#[test]
fn quantize_emits_one_index_per_pixel_in_range() {
    let pixels: Vec<Rgb> = (0..64u32)
        .map(|i| Rgb { r: (i * 4) as u8, g: (255 - i * 3) as u8, b: (i * 7 % 256) as u8 })
        .collect();
    let indices = quantize(&pixels, 8);
    assert_eq!(indices.len(), 64);
    assert!(indices.iter().all(|&v| v < 7));
}

#[test]
fn quantize_is_deterministic() {
    let pixels: Vec<Rgb> = (0..48u32)
        .map(|i| Rgb { r: (i * 11) as u8, g: (i * 5) as u8, b: (200 - i * 2) as u8 })
        .collect();
    let first = quantize(&pixels, 8);
    let second = quantize(&pixels, 8);
    assert_eq!(first, second);
}

#[test]
fn quantize_keeps_exact_palette_colors() {
    // Pure black and pure white are palette entries 0 and 1; with zero
    // quantization error there is nothing to diffuse.
    let black = quantize(&solid(0, 0, 0, 16), 4);
    assert!(black.iter().all(|&v| v == 0));
    let white = quantize(&solid(255, 255, 255, 16), 4);
    assert!(white.iter().all(|&v| v == 1));
}

#[test]
fn full_frame_packs_to_half_the_pixel_count() {
    let pixels = solid(127, 127, 127, IMAGE_WIDTH * IMAGE_HEIGHT);
    let bytes = dither_image(&pixels, IMAGE_WIDTH, IMAGE_HEIGHT).unwrap();
    assert_eq!(bytes.len(), IMAGE_WIDTH * IMAGE_HEIGHT / 2);
    assert!(bytes.iter().all(|&b| (b >> 4) < 7 && (b & 0x0f) < 7));
}

#[test]
fn wrong_dimensions_are_rejected() {
    let pixels = solid(10, 20, 30, 300 * 200);
    let result = dither_image(&pixels, 300, 200);
    assert_eq!(result, Err(DitherError::WrongDimensions { width: 300, height: 200 }));
}

#[test]
fn quantized_output_survives_the_packing_round_trip() {
    let pixels: Vec<Rgb> = (0..32u32)
        .map(|i| Rgb { r: (i * 23) as u8, g: (i * 13) as u8, b: (i * 3) as u8 })
        .collect();
    let indices = quantize(&pixels, 8);
    let unpacked = unpack_indices(&pack_indices(&indices));
    assert_eq!(unpacked, indices);
}
