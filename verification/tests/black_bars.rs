use capture_viewer::bars::{
    detect_black_bars_bgra, horizontal_band_is_dark, pixel_is_dark,
    vertical_band_is_dark,
};
use capture_viewer::crop::CropAnalysisState;

/// A black frame with a grey rectangle over columns `x0..x1` and rows `y0..y1`.
fn frame(width: usize, height: usize, x0: usize, x1: usize, y0: usize, y1: usize) -> Vec<u8> {
    let bytes_per_row = width * 4;
    let mut pixels = vec![0u8; bytes_per_row * height];
    for y in y0..y1 {
        for x in x0..x1 {
            let offset = y * bytes_per_row + x * 4;
            pixels[offset..offset + 4].copy_from_slice(&[180, 180, 180, 255]);
        }
    }
    pixels
}

#[test]
fn detects_four_by_three_picture_padded_inside_sixteen_by_nine() {
    let width = 1920usize;
    let height = 1080usize;
    let bytes_per_row = width * 4;
    let mut pixels = vec![0u8; bytes_per_row * height];
    for y in 0..height {
        for x in 240..1680 {
            let offset = y * bytes_per_row + x * 4;
            pixels[offset..offset + 4].copy_from_slice(&[180, 180, 180, 255]);
        }
    }

    let crop = detect_black_bars_bgra(&pixels, width, height, bytes_per_row);

    assert!((crop.left as f64 / crop.width as f64 - 0.125).abs() < 0.001);
    assert!((crop.right as f64 / crop.width as f64 - 0.125).abs() < 0.001);
    assert_eq!(crop.top as f64 / crop.height as f64, 0.0);
    assert_eq!(crop.bottom as f64 / crop.height as f64, 0.0);
}

#[test]
fn does_not_treat_a_temporarily_black_frame_as_extreme_padding() {
    let width = 320usize;
    let height = 180usize;
    let bytes_per_row = width * 4;
    let pixels = vec![0u8; bytes_per_row * height];

    let crop = detect_black_bars_bgra(&pixels, width, height, bytes_per_row);

    assert_eq!(crop.left as f64 / crop.width as f64, 0.0);
    assert_eq!(crop.right as f64 / crop.width as f64, 0.0);
    assert_eq!(crop.top as f64 / crop.height as f64, 0.0);
    assert_eq!(crop.bottom as f64 / crop.height as f64, 0.0);
}

#[test]
fn detects_letterbox_bars_in_pixels() {
    // 640x480 with the picture on rows 60..420: 60 rows of bars above and below.
    let pixels = frame(640, 480, 0, 640, 60, 420);
    let crop = detect_black_bars_bgra(&pixels, 640, 480, 640 * 4);
    assert_eq!((crop.left, crop.right, crop.top, crop.bottom), (0, 0, 60, 60));
    assert_eq!((crop.width, crop.height), (640, 480));
}

#[test]
fn bars_are_measured_in_whole_bands() {
    // A 10-column bar on the left is found as 8 columns (two bands of four).
    let pixels = frame(640, 480, 10, 640, 0, 480);
    let crop = detect_black_bars_bgra(&pixels, 640, 480, 640 * 4);
    assert_eq!(crop.left, 8);
    assert_eq!(crop.right, 0);
}

#[test]
fn bars_thinner_than_one_percent_are_ignored() {
    // 1000 columns wide: a 4-column bar is below 1% (10 columns).
    let pixels = frame(1000, 200, 4, 1000, 0, 200);
    let crop = detect_black_bars_bgra(&pixels, 1000, 200, 1000 * 4);
    assert_eq!(crop.left, 0);
    // A 12-column bar is kept.
    let pixels = frame(1000, 200, 12, 1000, 0, 200);
    let crop = detect_black_bars_bgra(&pixels, 1000, 200, 1000 * 4);
    assert_eq!(crop.left, 12);
}

#[test]
fn bars_stop_at_a_third_of_the_frame() {
    // Only the rightmost 10 columns of 300 hold picture.
    let pixels = frame(300, 100, 290, 300, 0, 100);
    let crop = detect_black_bars_bgra(&pixels, 300, 100, 300 * 4);
    assert_eq!(crop.left, 100);
    assert!(crop.left <= crop.width / 3);
}

#[test]
fn rejects_frames_it_cannot_examine() {
    let pixels = vec![0u8; 63 * 4 * 100];
    let none = detect_black_bars_bgra(&pixels, 63, 100, 63 * 4);
    assert_eq!((none.left, none.right, none.top, none.bottom, none.width, none.height), (0, 0, 0, 0, 1, 1));
    // Rows shorter than their pixels.
    let pixels = frame(100, 100, 10, 90, 10, 90);
    let none = detect_black_bars_bgra(&pixels, 100, 100, 399);
    assert_eq!((none.width, none.height), (1, 1));
    // A buffer shorter than its rows.
    let none = detect_black_bars_bgra(&pixels[..pixels.len() - 1], 100, 100, 400);
    assert_eq!((none.width, none.height), (1, 1));
    // A row length whose product with the height does not fit.
    let none = detect_black_bars_bgra(&pixels, 100, 100, usize::MAX);
    assert_eq!((none.width, none.height), (1, 1));
}

#[test]
fn rows_may_be_padded() {
    // Rows of 700 bytes for 160 pixels (640 bytes): the padding is never read.
    let width = 160usize;
    let height = 100usize;
    let bytes_per_row = 700usize;
    let mut pixels = vec![255u8; bytes_per_row * height];
    for y in 0..height {
        for x in 0..20 {
            let offset = y * bytes_per_row + x * 4;
            pixels[offset..offset + 4].copy_from_slice(&[0, 0, 0, 255]);
        }
    }
    let crop = detect_black_bars_bgra(&pixels, width, height, bytes_per_row);
    assert_eq!((crop.left, crop.right, crop.top, crop.bottom), (20, 0, 0, 0));
}

#[test]
fn a_pixel_is_dark_when_blue_green_and_red_are_at_most_24() {
    assert!(pixel_is_dark(&[24, 24, 24, 255]));
    assert!(pixel_is_dark(&[0, 0, 0, 0]));
    assert!(!pixel_is_dark(&[25, 0, 0, 255]));
    assert!(!pixel_is_dark(&[0, 25, 0, 255]));
    assert!(!pixel_is_dark(&[0, 0, 25, 255]));
}

#[test]
fn a_band_is_dark_when_98_percent_of_its_samples_are() {
    // 100 rows, one column: dark except for `light` rows.
    for (light, expected) in [(0usize, true), (2, true), (3, false)] {
        let mut pixels = vec![0u8; 64 * 4 * 100];
        for y in 0..light {
            pixels[y * 64 * 4] = 200;
        }
        assert_eq!(vertical_band_is_dark(&pixels, 64, 100, 64 * 4, 0, 1), expected);
    }
    // An empty band is not dark.
    let pixels = vec![0u8; 64 * 4 * 100];
    assert!(!vertical_band_is_dark(&pixels, 64, 100, 64 * 4, 64, 4));
    assert!(!horizontal_band_is_dark(&pixels, 64, 100, 64 * 4, 100, 4));
    assert!(horizontal_band_is_dark(&pixels, 64, 100, 64 * 4, 96, 4));
}

#[test]
fn bands_are_sampled_on_a_grid() {
    // 192 rows: one row in two is sampled, so light odd rows go unnoticed.
    let width = 64usize;
    let height = 192usize;
    let mut pixels = vec![0u8; width * 4 * height];
    for y in (1..height).step_by(2) {
        pixels[y * width * 4] = 200;
    }
    assert!(vertical_band_is_dark(&pixels, width, height, width * 4, 0, 4));
    pixels[0] = 200;
    pixels[2 * width * 4] = 200;
    pixels[4 * width * 4] = 200;
    // 3 light samples out of 96 rows x 4 columns are still under 2%.
    assert!(vertical_band_is_dark(&pixels, width, height, width * 4, 0, 4));
}

/// Detect the bars of a frame and count them for `generation`.
fn analyze_frame(
    analysis: &mut CropAnalysisState,
    pixels: &[u8],
    width: usize,
    height: usize,
    bytes_per_row: usize,
    generation: u64,
) -> bool {
    let detected = detect_black_bars_bgra(pixels, width, height, bytes_per_row);
    analysis.record(detected, generation)
}

#[test]
fn a_frame_counts_toward_its_generation_only() {
    let pixels = frame(640, 480, 80, 560, 0, 480);
    let mut analysis = CropAnalysisState::default();
    analysis.set_enabled(true);
    let generation = analysis.frame_generation().unwrap();
    assert!(!analyze_frame(&mut analysis, &pixels, 640, 480, 640 * 4, generation));
    assert!(!analyze_frame(&mut analysis, &pixels, 640, 480, 640 * 4, generation));
    analysis.reset();
    assert!(!analyze_frame(&mut analysis, &pixels, 640, 480, 640 * 4, generation));
    let generation = analysis.frame_generation().unwrap();
    assert!(!analyze_frame(&mut analysis, &pixels, 640, 480, 640 * 4, generation));
    assert!(!analyze_frame(&mut analysis, &pixels, 640, 480, 640 * 4, generation));
    assert!(analyze_frame(&mut analysis, &pixels, 640, 480, 640 * 4, generation));
    let applied = analysis.applied_crop().unwrap();
    assert_eq!((applied.left, applied.right, applied.width), (80, 80, 640));
}

/// The frame mirrored left to right.
fn mirror(pixels: &[u8], width: usize, height: usize, bytes_per_row: usize) -> Vec<u8> {
    let mut out = pixels.to_vec();
    for y in 0..height {
        for x in 0..width {
            let from = y * bytes_per_row + x * 4;
            let to = y * bytes_per_row + (width - 1 - x) * 4;
            out[to..to + 4].copy_from_slice(&pixels[from..from + 4]);
        }
    }
    out
}

/// The frame flipped top to bottom.
fn flip(pixels: &[u8], width: usize, height: usize, bytes_per_row: usize) -> Vec<u8> {
    let mut out = pixels.to_vec();
    for y in 0..height {
        for x in 0..width {
            let from = y * bytes_per_row + x * 4;
            let to = (height - 1 - y) * bytes_per_row + x * 4;
            out[to..to + 4].copy_from_slice(&pixels[from..from + 4]);
        }
    }
    out
}

#[test]
fn mirroring_swaps_left_and_right_bars() {
    let pixels = frame(640, 480, 20, 600, 0, 480);
    let a = detect_black_bars_bgra(&pixels, 640, 480, 640 * 4);
    assert_eq!((a.left, a.right), (20, 40));
    let m = detect_black_bars_bgra(&mirror(&pixels, 640, 480, 640 * 4), 640, 480, 640 * 4);
    assert_eq!((m.left, m.right), (40, 20));
}

#[test]
fn flipping_swaps_top_and_bottom_bars() {
    let pixels = frame(640, 480, 0, 640, 60, 400);
    let a = detect_black_bars_bgra(&pixels, 640, 480, 640 * 4);
    assert_eq!((a.top, a.bottom), (60, 80));
    let f = detect_black_bars_bgra(&flip(&pixels, 640, 480, 640 * 4), 640, 480, 640 * 4);
    assert_eq!((f.top, f.bottom), (80, 60));
}

#[test]
fn alpha_padding_and_trailing_bytes_do_not_matter() {
    let width = 320usize;
    let height = 200usize;
    let bytes_per_row = 1300usize;
    let mut plain = vec![0u8; bytes_per_row * height + 16];
    for y in 0..height {
        for x in 40..280 {
            let offset = y * bytes_per_row + x * 4;
            plain[offset..offset + 3].copy_from_slice(&[200, 200, 200]);
        }
    }
    let mut noisy = plain.clone();
    for y in 0..height {
        for x in 0..width {
            noisy[y * bytes_per_row + x * 4 + 3] = (x * 7 + y) as u8;
        }
        for b in width * 4..bytes_per_row {
            noisy[y * bytes_per_row + b] = 255;
        }
    }
    for b in bytes_per_row * height..noisy.len() {
        noisy[b] = 255;
    }
    let a = detect_black_bars_bgra(&plain, width, height, bytes_per_row);
    let b = detect_black_bars_bgra(&noisy, width, height, bytes_per_row);
    assert_eq!((a.left, a.right, a.top, a.bottom), (40, 40, 0, 0));
    assert_eq!((b.left, b.right, b.top, b.bottom), (a.left, a.right, a.top, a.bottom));
}

#[test]
fn darkening_keeps_a_dark_band_dark() {
    let width = 64usize;
    let height = 100usize;
    let mut pixels = vec![10u8; width * 4 * height];
    pixels[0] = 200;
    pixels[width * 4] = 200;
    assert!(vertical_band_is_dark(&pixels, width, height, width * 4, 0, 1));
    for byte in pixels.iter_mut() {
        *byte = byte.saturating_sub(5);
    }
    assert!(vertical_band_is_dark(&pixels, width, height, width * 4, 0, 1));
    pixels[0] = 0;
    pixels[width * 4] = 0;
    assert!(vertical_band_is_dark(&pixels, width, height, width * 4, 0, 1));
}

#[test]
fn a_transposed_frame_has_the_same_bands_the_other_way() {
    let width = 200usize;
    let height = 120usize;
    let bytes_per_row = width * 4;
    let pixels = frame(width, height, 30, 170, 10, 110);
    let transposed_row = height * 4 + 8;
    let mut t = vec![0u8; transposed_row * width];
    for y in 0..height {
        for x in 0..width {
            let from = y * bytes_per_row + x * 4;
            let to = x * transposed_row + y * 4;
            t[to..to + 4].copy_from_slice(&pixels[from..from + 4]);
        }
    }
    for start in [0usize, 4, 26, 28, 30, 100, 196] {
        assert_eq!(
            horizontal_band_is_dark(&t, height, width, transposed_row, start, 4),
            vertical_band_is_dark(&pixels, width, height, bytes_per_row, start, 4)
        );
    }
    let a = detect_black_bars_bgra(&pixels, width, height, bytes_per_row);
    let b = detect_black_bars_bgra(&t, height, width, transposed_row);
    assert_eq!((a.left, a.right, a.top, a.bottom), (b.top, b.bottom, b.left, b.right));
}
