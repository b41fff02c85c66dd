use blinkview::render::{fit_dimensions, fit_into};

#[test]
fn keeps_aspect_ratio_inside_box() {
    assert_eq!(fit_dimensions(1920, 1080, 1000, 1000), (1000, 562));
    assert_eq!(fit_dimensions(1080, 1920, 1000, 1000), (562, 1000));
}

#[test]
fn fit_dimensions_edges() {
    assert_eq!(fit_dimensions(100, 100, 50, 80), (50, 50));
    assert_eq!(fit_dimensions(10000, 1, 100, 100), (100, 1));
    assert_eq!(fit_dimensions(1, 10000, 100, 100), (1, 100));
    assert_eq!(fit_dimensions(100, 50, 0, 0), (1, 0));
    assert_eq!(fit_dimensions(3, 2, 7, 7), (7, 4));
}

#[test]
fn fit_dimensions_keeps_aspect_on_many_boxes() {
    for (sw, sh) in [(1usize, 1usize), (3, 2), (1920, 1080), (7, 13), (640, 480)] {
        for (dw, dh) in [(1usize, 1usize), (100, 100), (333, 77), (1280, 800)] {
            let (w, h) = fit_dimensions(sw, sh, dw, dh);
            assert!(1 <= w && w <= dw && 1 <= h && h <= dh);
            assert!(w == dw || h == dh);
        }
    }
}

#[test]
fn fit_into_centres_and_samples() {
    let out = fit_into(&[1, 2], 2, 1, 4, 4);
    assert_eq!(out, vec![0, 0, 0, 0, 1, 1, 2, 2, 1, 1, 2, 2, 0, 0, 0, 0]);
}

#[test]
fn fit_into_empty_source_is_black() {
    assert_eq!(fit_into(&[], 0, 0, 2, 2), vec![0, 0, 0, 0]);
    assert_eq!(fit_into(&[7], 0, 1, 2, 1), vec![0, 0]);
}

#[test]
fn fit_into_zero_box_is_one_pixel() {
    assert_eq!(fit_into(&[5], 1, 1, 0, 0), vec![5]);
}

#[test]
fn fit_into_short_source_leaves_black() {
    // A 2x2 picture with only three pixels: the missing one stays black.
    assert_eq!(fit_into(&[1, 2, 3], 2, 2, 2, 2), vec![1, 2, 3, 0]);
}

#[test]
fn fitting_into_the_own_size_is_the_identity() {
    let src: Vec<u32> = (0..12).collect();
    assert_eq!(fit_into(&src, 4, 3, 4, 3), src);
    assert_eq!(fit_into(&src, 3, 4, 3, 4), src);
}

#[test]
fn fit_dimensions_is_symmetric_in_the_axes() {
    for (sw, sh) in [(1usize, 1usize), (3, 2), (1920, 1080), (7, 13)] {
        for (dw, dh) in [(1usize, 1usize), (100, 100), (333, 77), (6, 4)] {
            let (w, h) = fit_dimensions(sw, sh, dw, dh);
            assert_eq!(fit_dimensions(sh, sw, dh, dw), (h, w));
            if w == dw {
                assert_eq!(h, (sh * dw / sw).max(1).min(dh));
            }
        }
    }
}

#[test]
fn fit_into_accepts_sizes_whose_products_saturate() {
    // 8 * 2^62 overflows, yet the indices stay in range; the short source
    // only fills the first pixel.
    assert_eq!(fit_into(&[9], 1 << 62, 1, 8, 1), vec![9, 0, 0, 0, 0, 0, 0, 0]);
}
