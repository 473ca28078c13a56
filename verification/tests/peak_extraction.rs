use spack::fixed::{Fixed, SCALE};
use spack::image::Image;
use spack::kernel::laplacian_of_gaussian;
use spack::peaks::{compute_adaptive_threshold, peak_local_max};
use spack::process::dilate;
use spack::scalar::Scalar;

fn fx(v: f64) -> Fixed {
    Fixed { raw: (v * SCALE as f64).round() as i64 }
}

fn row(values: &[i64]) -> Image<Fixed> {
    Image { pixels: values.iter().map(|v| Fixed { raw: *v }).collect(), width: values.len(), height: 1 }
}

fn bell(sigma: f64) -> impl Fn(usize) -> Fixed {
    move |d2: usize| {
        let mult = 1.0 / (std::f64::consts::TAU * sigma * sigma);
        fx(mult * (-(d2 as f64) / (2.0 * sigma * sigma)).exp())
    }
}

#[test]
fn threshold_is_zero_where_nothing_is_positive() {
    assert_eq!(compute_adaptive_threshold(&row(&[0, -3, 0, -1]), 9999, 10000), Fixed { raw: 0 });
    assert_eq!(compute_adaptive_threshold(&row(&[]), 9999, 10000), Fixed { raw: 0 });
}

#[test]
fn threshold_is_the_value_at_the_share_of_the_way_up() {
    let image = row(&[5, 1, 3, 0, -2, 4, 2]);
    assert_eq!(compute_adaptive_threshold(&image, 9999, 10000), Fixed { raw: 4 });
    assert_eq!(compute_adaptive_threshold(&image, 1, 1), Fixed { raw: 5 });
    assert_eq!(compute_adaptive_threshold(&image, 1, 2), Fixed { raw: 3 });
    assert_eq!(compute_adaptive_threshold(&image, 3, 4), Fixed { raw: 4 });
    assert_eq!(compute_adaptive_threshold(&image, 74, 100), Fixed { raw: 3 });
    assert_eq!(compute_adaptive_threshold(&image, 0, 1), Fixed { raw: 1 });
}

#[test]
fn threshold_of_a_single_positive_value_is_that_value() {
    let image = row(&[-4, 0, 17, 0]);
    assert_eq!(compute_adaptive_threshold(&image, 9999, 10000), Fixed { raw: 17 });
    assert_eq!(compute_adaptive_threshold(&image, 0, 1), Fixed { raw: 17 });
}

#[test]
fn threshold_counts_equal_values_each() {
    let image = row(&[2, 2, 2, 9]);
    assert_eq!(compute_adaptive_threshold(&image, 2, 3), Fixed { raw: 2 });
    assert_eq!(compute_adaptive_threshold(&image, 1, 1), Fixed { raw: 9 });
}

#[test]
fn peaks_are_the_samples_that_dilation_leaves_as_they_are() {
    let image = Image {
        pixels: [1i64, 2, 1, 0, 0, 1, 7, 1, 0, 0, 0, 1, 2, 9, 1]
            .iter()
            .map(|v| Fixed { raw: *v })
            .collect(),
        width: 5,
        height: 3,
    };
    let max: Image<Fixed> = dilate(&image, 3);
    let points = peak_local_max(&image, &max, 1, 2);
    assert_eq!(points, vec![(3, 2, Fixed { raw: 9 }), (1, 1, Fixed { raw: 7 })]);
}

#[test]
fn peaks_below_the_threshold_are_left_out() {
    let image = row(&[0, 3, 0, 0, 0, 8, 0, 0, 0, 5, 0]);
    let max: Image<Fixed> = dilate(&image, 3);
    assert_eq!(
        peak_local_max(&image, &max, 0, 1),
        vec![(5, 0, Fixed { raw: 8 }), (9, 0, Fixed { raw: 5 }), (1, 0, Fixed { raw: 3 })]
    );
    assert_eq!(
        peak_local_max(&image, &max, 1, 2),
        vec![(5, 0, Fixed { raw: 8 }), (9, 0, Fixed { raw: 5 })]
    );
    assert_eq!(peak_local_max(&image, &max, 1, 1), vec![(5, 0, Fixed { raw: 8 })]);
}

#[test]
fn peaks_of_like_brightness_come_in_the_order_of_the_image() {
    let image = Image {
        pixels: [4i64, 0, 0, 4, 0, 0, 0, 0, 0, 9, 0, 0, 4, 0, 0, 4]
            .iter()
            .map(|v| Fixed { raw: *v })
            .collect(),
        width: 4,
        height: 4,
    };
    let max: Image<Fixed> = dilate(&image, 1);
    let points = peak_local_max(&image, &max, 0, 1);
    assert_eq!(
        points,
        vec![
            (1, 2, Fixed { raw: 9 }),
            (0, 0, Fixed { raw: 4 }),
            (3, 0, Fixed { raw: 4 }),
            (0, 3, Fixed { raw: 4 }),
            (3, 3, Fixed { raw: 4 }),
        ]
    );
}

#[test]
fn every_sample_of_a_plateau_is_a_peak() {
    let image = row(&[6, 6, 6]);
    let max: Image<Fixed> = dilate(&image, 3);
    let points = peak_local_max(&image, &max, 9999, 10000);
    assert_eq!(
        points,
        vec![(0, 0, Fixed { raw: 6 }), (1, 0, Fixed { raw: 6 }), (2, 0, Fixed { raw: 6 })]
    );
}

#[test]
fn a_flat_zero_image_has_a_peak_at_every_sample() {
    let image = row(&[0, 0]);
    let max: Image<Fixed> = dilate(&image, 3);
    let points = peak_local_max(&image, &max, 9999, 10000);
    assert_eq!(points, vec![(0, 0, Fixed { raw: 0 }), (1, 0, Fixed { raw: 0 })]);
}

#[test]
fn an_empty_image_has_no_peaks() {
    let image = row(&[]);
    let max: Image<Fixed> = dilate(&image, 3);
    assert!(peak_local_max(&image, &max, 9999, 10000).is_empty());
}

#[test]
fn peaks_hold_the_dilated_value_and_pass_the_threshold() {
    let values: Vec<i64> = (0..48).map(|i| ((i * 37 + 11) % 23) as i64 - 4).collect();
    let image = Image { pixels: values.iter().map(|v| Fixed { raw: *v }).collect(), width: 8, height: 6 };
    let max: Image<Fixed> = dilate(&image, 3);
    let threshold = compute_adaptive_threshold(&image, 3, 4);
    let points = peak_local_max(&image, &max, 3, 4);
    assert!(!points.is_empty());
    for (x, y, l) in points.iter() {
        assert_eq!(*l, max.pixels[y * 8 + x]);
        assert_eq!(*l, image.pixels[y * 8 + x]);
        assert!(threshold.le(*l));
    }
    for pair in points.windows(2) {
        assert!(pair[1].2.le(pair[0].2));
    }
    for y in 0..6 {
        for x in 0..8 {
            let i = y * 8 + x;
            let is_peak = image.pixels[i] == max.pixels[i] && threshold.le(max.pixels[i]);
            assert_eq!(points.iter().filter(|p| p.0 == x && p.1 == y).count(), is_peak as usize);
        }
    }
}

#[test]
fn a_single_bright_square_gives_a_single_point() {
    let mut pixels = vec![fx(0.0); 20 * 20];
    for y in 8..11 {
        for x in 8..11 {
            pixels[y * 20 + x] = fx(1.0);
        }
    }
    let image = Image { pixels, width: 20, height: 20 };
    let sigma = 2.0f64;
    let span = (6.0 * sigma).ceil() as usize;
    let size = (3.0 * sigma).ceil() as usize;
    let log: Image<Fixed> = laplacian_of_gaussian(&image, span, bell(sigma));
    assert_eq!(log.width, 6);
    assert_eq!(log.height, 6);
    let max: Image<Fixed> = dilate(&log, size);
    let points = peak_local_max(&log, &max, 9999, 10000);
    assert_eq!(points.len(), 1);
    let (x, y, l) = points[0];
    assert_eq!((x, y), (2, 2));
    assert_eq!((x + 7, y + 7), (9, 9));
    assert!(l.raw > 0);
}
