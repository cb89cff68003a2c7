use oics::transfer::{
    get_horizontal_projection, get_mat_projection_data, get_projection_standard_deviations,
    get_vertical_projection, projection_resize_scale, scaled_side,
    transfer_gray_image_to_thresh_binary, transfer_thresh_binary_to_horizontal_projection,
    transfer_thresh_binary_to_vertical_projection, GrayImage,
};

fn image(width: usize, height: usize, pixels: Vec<u8>) -> GrayImage {
    GrayImage::new(width, height, pixels).unwrap()
}

#[test]
fn new_image_checks_sample_count() {
    assert!(GrayImage::new(2, 2, vec![0, 0, 0]).is_none());
    assert!(GrayImage::new(2, 2, vec![0, 0, 0, 0]).is_some());
    assert!(GrayImage::new(0, 5, vec![]).is_some());
    assert!(GrayImage::new(2_000_000, 0, vec![]).is_none());
}

#[test]
fn threshold_splits_at_127() {
    let img = image(4, 1, vec![0, 127, 128, 255]);
    let bin = transfer_gray_image_to_thresh_binary(&img);
    assert_eq!(bin.pixels, vec![0, 0, 255, 255]);
    assert_eq!((bin.width, bin.height), (4, 1));
}

#[test]
fn projections_count_ink_per_row_and_column() {
    // rows: [ink, bg, ink], [ink, ink, ink]
    let img = image(3, 2, vec![0, 255, 0, 0, 0, 0]);
    assert_eq!(get_horizontal_projection(&img), vec![2, 3]);
    assert_eq!(get_vertical_projection(&img), vec![2, 1, 2]);
    let (h, v) = get_mat_projection_data(&img);
    assert_eq!(h, vec![2, 3]);
    assert_eq!(v, vec![2, 1, 2]);
}

#[test]
fn projection_deviations_are_column_then_row() {
    let img = image(3, 2, vec![0, 255, 0, 0, 0, 0]);
    let (v, h) = get_projection_standard_deviations(&img);
    // columns [2, 1, 2]: 3 * 9 - 25 = 2 over 9
    assert_eq!((v.num, v.den), (2, 9));
    // rows [2, 3]: 2 * 13 - 25 = 1 over 4
    assert_eq!((h.num, h.den), (1, 4));
}

#[test]
fn resize_scale_takes_smaller_factor() {
    assert_eq!(projection_resize_scale(1000, 500, 248, 230, false), (248, 1000));
    assert_eq!(projection_resize_scale(1000, 1000, 500, 250, false), (250, 1000));
    assert_eq!(projection_resize_scale(100, 100, 0, 0, false), (1, 1));
    assert_eq!(projection_resize_scale(100, 100, 50, -1, false), (50, 100));
}

#[test]
fn resize_scale_does_not_upscale_unless_asked() {
    assert_eq!(projection_resize_scale(100, 100, 400, 300, false), (1, 1));
    assert_eq!(projection_resize_scale(100, 100, 400, 300, true), (300, 100));
}

#[test]
fn scaled_side_rounds_down() {
    assert_eq!(scaled_side(1000, (248, 1000)), 248);
    assert_eq!(scaled_side(999, (1, 2)), 499);
    assert_eq!(scaled_side(7, (1, 1)), 7);
}

#[test]
fn horizontal_profile_image_packs_ink_left() {
    let img = image(4, 2, vec![255, 0, 255, 0, 0, 255, 0, 0]);
    let out = transfer_thresh_binary_to_horizontal_projection(&img);
    assert_eq!((out.width, out.height), (4, 2));
    assert_eq!(out.pixels, vec![0, 0, 255, 255, 0, 0, 0, 255]);
}

#[test]
fn vertical_profile_image_stacks_ink_at_bottom() {
    // columns hold 2, 0, 1 dark samples
    let img = image(3, 3, vec![0, 255, 255, 100, 200, 255, 255, 255, 127]);
    let out = transfer_thresh_binary_to_vertical_projection(&img);
    assert_eq!((out.width, out.height), (3, 3));
    assert_eq!(out.pixels, vec![255, 255, 255, 0, 255, 255, 0, 255, 0]);
}
