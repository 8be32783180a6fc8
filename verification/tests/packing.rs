use epaper_dither::pack::{pack_indices, unpack_indices, preview_rgb};

#[test]
fn pack_two_indices_per_byte() {
    let indices: Vec<u8> = vec![1, 2];
    let bytes = pack_indices(&indices);
    assert_eq!(bytes, vec![0x12]);
}

#[test]
fn pack_exact_bytes() {
    let indices: Vec<u8> = vec![0, 1, 2, 3, 4, 5, 6, 0];
    let bytes = pack_indices(&indices);
    assert_eq!(bytes, vec![0x01, 0x23, 0x45, 0x60]);
}

#[test]
fn unpack_splits_nibbles() {
    let bytes: Vec<u8> = vec![0xab, 0x06];
    let nibbles = unpack_indices(&bytes);
    assert_eq!(nibbles, vec![10, 11, 0, 6]);
}

#[test]
fn pack_round_trip() {
    let indices: Vec<u8> = vec![0, 6, 3, 3, 1, 0, 5, 2, 4, 6];
    let unpacked = unpack_indices(&pack_indices(&indices));
    assert_eq!(unpacked, indices);
}

#[test]
fn pack_empty() {
    let indices: Vec<u8> = vec![];
    assert_eq!(pack_indices(&indices), vec![] as Vec<u8>);
}

#[test]
fn preview_maps_indices_to_palette_colors() {
    let indices: Vec<u8> = vec![0, 1, 6];
    let rgb = preview_rgb(&indices);
    assert_eq!(rgb, vec![0, 0, 0, 255, 255, 255, 232, 126, 0]);
}
