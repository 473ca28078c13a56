use spack::fixed::{Fixed, SCALE};
use spack::image::Image;
use spack::pipeline::{
    dilation_size, from_luminances, is_processable, kernel_span, mark_points, process_image,
    ProcessedImage, MARKER_SIDE, PERCENTILE_DENOMINATOR, PERCENTILE_NUMERATOR,
};

fn fx(v: f64) -> Fixed {
    Fixed { raw: (v * SCALE as f64).round() as i64 }
}

fn bell(sigma: f64) -> impl Fn(usize) -> Fixed {
    move |d2: usize| {
        let mult = 1.0 / (std::f64::consts::TAU * sigma * sigma);
        fx(mult * (-(d2 as f64) / (2.0 * sigma * sigma)).exp())
    }
}

fn raws(image: &Image<Fixed>) -> Vec<i64> {
    image.pixels.iter().map(|p| p.raw).collect()
}

#[test]
fn the_kernel_covers_six_times_the_blur_scale() {
    assert_eq!(kernel_span(2, 1), 12);
    assert_eq!(kernel_span(5, 4), 8);
    assert_eq!(kernel_span(1, 3), 2);
    assert_eq!(kernel_span(1, 4), 2);
    assert_eq!(kernel_span(1, 7), 1);
    assert_eq!(kernel_span(0, 1), 0);
}

#[test]
fn the_dilation_window_is_three_times_the_blur_scale() {
    assert_eq!(dilation_size(2, 1), 6);
    assert_eq!(dilation_size(5, 4), 4);
    assert_eq!(dilation_size(1, 3), 1);
    assert_eq!(dilation_size(7, 2), 11);
    assert_eq!(dilation_size(0, 5), 0);
}

#[test]
fn the_constants_are_those_of_the_pipeline() {
    assert_eq!(PERCENTILE_NUMERATOR, 9999);
    assert_eq!(PERCENTILE_DENOMINATOR, 10000);
    assert_eq!(MARKER_SIDE, 5);
}

#[test]
fn a_marker_is_a_square_that_starts_on_the_point() {
    let image: Image<Fixed> = mark_points(8, 7, &[(1, 1, Fixed { raw: 3 })]);
    assert_eq!(image.width, 8);
    assert_eq!(image.height, 7);
    let expected = vec![
        0, 0, 0, 0, 0, 0, 0, 0, //
        0, 3, 3, 3, 3, 3, 0, 0, //
        0, 3, 3, 3, 3, 3, 0, 0, //
        0, 3, 3, 3, 3, 3, 0, 0, //
        0, 3, 3, 3, 3, 3, 0, 0, //
        0, 3, 3, 3, 3, 3, 0, 0, //
        0, 0, 0, 0, 0, 0, 0, 0, //
    ];
    assert_eq!(raws(&image), expected);
}

#[test]
fn a_marker_is_pushed_back_onto_the_image_at_the_edges() {
    let image: Image<Fixed> = mark_points(6, 4, &[(4, 2, Fixed { raw: 3 })]);
    let expected = vec![
        0, 0, 0, 0, 0, 0, //
        0, 0, 0, 0, 0, 0, //
        0, 0, 0, 0, 3, 3, //
        0, 0, 0, 0, 3, 3, //
    ];
    assert_eq!(raws(&image), expected);
    let outside: Image<Fixed> = mark_points(3, 2, &[(9, 9, Fixed { raw: 4 })]);
    assert_eq!(raws(&outside), vec![0, 0, 0, 0, 0, 4]);
}

#[test]
fn where_markers_overlap_the_later_point_shows() {
    let points = [(0, 0, Fixed { raw: 1 }), (3, 0, Fixed { raw: 2 }), (1, 0, Fixed { raw: 7 })];
    let image: Image<Fixed> = mark_points(9, 1, &points);
    assert_eq!(raws(&image), vec![1, 7, 7, 7, 7, 7, 2, 2, 0]);
}

#[test]
fn a_raster_without_points_is_dark() {
    let image: Image<Fixed> = mark_points(3, 2, &[]);
    assert_eq!(raws(&image), vec![0; 6]);
    let empty: Image<Fixed> = mark_points(0, 0, &[]);
    assert!(empty.pixels.is_empty());
}

#[test]
fn samples_are_made_from_the_brightness_of_each_sample() {
    let image = Image { pixels: vec![fx(0.25), fx(-1.0), fx(3.0)], width: 3, height: 1 };
    let copy: Image<Fixed> = from_luminances(&image);
    assert_eq!(copy.width, 3);
    assert_eq!(copy.height, 1);
    assert_eq!(copy.pixels, image.pixels);
}

#[test]
fn an_image_can_be_processed_where_both_kernels_fit() {
    let image = |w: usize, h: usize| Image { pixels: vec![fx(0.0); w * h], width: w, height: h };
    assert!(is_processable(&image(15, 15), 2, 1));
    assert!(is_processable(&image(20, 15), 2, 1));
    assert!(!is_processable(&image(14, 15), 2, 1));
    assert!(!is_processable(&image(15, 14), 2, 1));
    assert!(!is_processable(&image(15, 15), 2, 0));
    assert!(is_processable(&image(3, 3), 0, 1));
    assert!(!is_processable(&image(2, 3), 0, 1));
    let torn = Image { pixels: vec![fx(0.0); 224], width: 15, height: 15 };
    assert!(!is_processable(&torn, 2, 1));
    assert!(!is_processable(&image(15, 15), u64::MAX, 1));
}

#[test]
fn processing_finds_the_bright_square_and_marks_it() {
    let mut pixels = vec![fx(0.0); 20 * 20];
    for y in 8..11 {
        for x in 8..11 {
            pixels[y * 20 + x] = fx(1.0);
        }
    }
    let image = Image { pixels, width: 20, height: 20 };
    assert!(is_processable(&image, 2, 1));
    let processed: ProcessedImage<Fixed, Fixed, Fixed> = process_image(&image, 2, 1, bell(2.0));
    assert_eq!(processed.raw.pixels, image.pixels);
    assert_eq!((processed.raw.width, processed.raw.height), (20, 20));
    assert_eq!((processed.log.width, processed.log.height), (6, 6));
    assert_eq!((processed.dilate.width, processed.dilate.height), (6, 6));
    assert_eq!((processed.local_max.width, processed.local_max.height), (6, 6));
    assert_eq!(processed.local_max_points.len(), 1);
    let (x, y, l) = processed.local_max_points[0];
    assert_eq!((x, y), (2, 2));
    assert!(l.raw > 0);
    assert_eq!(l, processed.log.pixels[2 * 6 + 2]);
    for p in processed.dilate.pixels.iter() {
        assert_eq!(*p, l);
    }
    for cy in 0..6 {
        for cx in 0..6 {
            let marked = cx >= 2 && cy >= 2;
            let expected = if marked { l } else { fx(0.0) };
            assert_eq!(processed.local_max.pixels[cy * 6 + cx], expected);
        }
    }
}
