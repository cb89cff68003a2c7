use oics::omr::{needs_second_opinion, reconcile, OmrResult, ResultStatus};
use oics::projection::{
    angle_score, get_result_from_projection, projection_sweep_half_width, sweep_angle,
    ProjectionScan,
};
use oics::transfer::{
    projection_resize_scale, scaled_side, transfer_gray_image_to_thresh_binary, GrayImage,
};

/// White page with `bars` horizontal black bars in its central region.
fn page_with_bars(side: usize, bars: usize) -> GrayImage {
    let mut pixels = vec![255u8; side * side];
    let top = side / 8;
    let pitch = (side - 2 * top) / bars;
    let thickness = pitch / 3;
    for b in 0..bars {
        for y in top + b * pitch..top + b * pitch + thickness {
            for x in side * 9 / 40..side * 31 / 40 {
                pixels[y * side + x] = 0;
            }
        }
    }
    GrayImage::new(side, side, pixels).unwrap()
}

/// Nearest-neighbour rotation about the centre by `micro_degrees`,
/// counter-clockwise, on a canvas of the same size filled with background.
fn rotate(img: &GrayImage, micro_degrees: i64) -> GrayImage {
    let a = (micro_degrees as f64 / 1_000_000.0).to_radians();
    let (s, c) = a.sin_cos();
    let (w, h) = (img.width, img.height);
    let (cx, cy) = (w as f64 / 2.0, h as f64 / 2.0);
    let mut pixels = vec![255u8; w * h];
    for y in 0..h {
        for x in 0..w {
            let dx = x as f64 + 0.5 - cx;
            let dy = y as f64 + 0.5 - cy;
            let sx = (cx + c * dx - s * dy).floor();
            let sy = (cy + s * dx + c * dy).floor();
            if sx >= 0.0 && sy >= 0.0 && (sx as usize) < w && (sy as usize) < h {
                pixels[y * w + x] = img.pixels[sy as usize * w + sx as usize];
            }
        }
    }
    GrayImage::new(w, h, pixels).unwrap()
}

/// Nearest-neighbour resampling to `width` by `height`.
fn resample(img: &GrayImage, width: usize, height: usize) -> GrayImage {
    let mut pixels = Vec::with_capacity(width * height);
    for y in 0..height {
        for x in 0..width {
            pixels.push(img.pixels[(y * img.height / height) * img.width + x * img.width / width]);
        }
    }
    GrayImage::new(width, height, pixels).unwrap()
}

/// The projection estimator, sweeping one angle at a time.
fn sweep(binary: &GrayImage, max_angle: u16, step: u32) -> OmrResult {
    let n = projection_sweep_half_width(max_angle, step).unwrap() as i32;
    let mut scan = ProjectionScan::new();
    let mut scores = Vec::new();
    for index in -n..n {
        let score = angle_score(&rotate(binary, sweep_angle(index, step)));
        scan.observe(index, score);
        scores.push(score);
    }
    let online = scan.result(step);
    let collected = get_result_from_projection(n as u16, step, &scores);
    assert_eq!(online.status, collected.status);
    assert_eq!(online.angle, collected.angle);
    assert_eq!(online.candidates, collected.candidates);
    online
}

#[test]
fn projection_undoes_known_rotation() {
    let step: u32 = 500_000;
    let k: i64 = 10;
    let page = page_with_bars(120, 6);
    let skewed = transfer_gray_image_to_thresh_binary(&rotate(&page, k * step as i64));
    let r = sweep(&skewed, 15, step);
    assert_eq!(r.status, ResultStatus::Believed);
    assert!((r.angle + k * step as i64).abs() <= step as i64, "angle {}", r.angle);
}

#[test]
fn cascade_recovers_seven_degrees() {
    let page = page_with_bars(400, 10);
    let skewed = rotate(&page, 7_000_000);
    let scale = projection_resize_scale(400, 400, 200, 200, false);
    let width = scaled_side(400, scale) as usize;
    let height = scaled_side(400, scale) as usize;
    assert_eq!((width, height), (200, 200));
    let binary = transfer_gray_image_to_thresh_binary(&resample(&skewed, width, height));
    let projection = sweep(&binary, 45, 200_000);
    assert!(!needs_second_opinion(&projection));
    let (angle, needs_check) = reconcile(&projection, &projection);
    assert!(!needs_check);
    assert!((angle + 7_000_000).abs() < 500_000, "angle {}", angle);
}
