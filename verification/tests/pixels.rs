use lut_core::pixels::{channel_sums, recolour};

#[test]
fn channel_sums_of_two_pixels() {
    let rgba = [1u8, 2, 3, 4, 10, 20, 30, 40];
    assert_eq!(channel_sums(&rgba), [11, 22, 33]);
}

#[test]
fn channel_sums_skip_alpha_and_trailing_bytes() {
    let rgba = [255u8, 255, 255, 255, 9, 9, 9];
    assert_eq!(channel_sums(&rgba), [255, 255, 255]);
    assert_eq!(channel_sums(&[]), [0, 0, 0]);
    assert_eq!(channel_sums(&[7, 7, 7]), [0, 0, 0]);
}

#[test]
fn channel_sums_of_a_large_white_image() {
    let rgba = vec![255u8; 4 * 1000];
    assert_eq!(channel_sums(&rgba), [255_000, 255_000, 255_000]);
}

#[test]
fn recolour_replaces_colour_and_keeps_alpha() {
    let rgba = [1u8, 2, 3, 100, 4, 5, 6, 200];
    let rgb = [10u8, 20, 30, 40, 50, 60];
    assert_eq!(recolour(&rgba, &rgb), vec![10, 20, 30, 100, 40, 50, 60, 200]);
}

#[test]
fn recolour_keeps_trailing_bytes() {
    let rgba = [1u8, 2, 3, 4, 5, 6];
    let rgb = [9u8, 9, 9];
    assert_eq!(recolour(&rgba, &rgb), vec![9, 9, 9, 4, 5, 6]);
    assert_eq!(recolour(&[], &[]), Vec::<u8>::new());
}

#[test]
fn recolour_with_the_image_own_colours_is_the_identity() {
    let rgba: Vec<u8> = (0..40u8).collect();
    let rgb: Vec<u8> = rgba.chunks(4).flat_map(|p| p[..3].to_vec()).collect();
    assert_eq!(recolour(&rgba, &rgb), rgba);
}
