use spack::align::align;
use spack::image::Image;
use spack::kernel::{generate_gaussian_kernel, laplacian_of_gaussian};
use spack::peaks::peak_local_max;
use spack::process::{conv, dilate};
use spack::scalar::Scalar;

/// A 32-bit float as a brightness, ordered as `total_cmp` orders it.
#[derive(Clone, Copy, Debug, PartialEq)]
struct Real(f32);

fn key(v: f32) -> i64 {
    let bits = v.to_bits() as i32;
    (bits ^ (((bits >> 31) as u32) >> 1) as i32) as i64
}

impl Scalar for Real {
    fn rank(self) -> i64 {
        key(self.0)
    }

    fn spec_from_usize(n: usize) -> Self {
        Real(n as f32)
    }

    fn spec_plus(self, rhs: Self) -> Self {
        Real(self.0 + rhs.0)
    }

    fn spec_minus(self, rhs: Self) -> Self {
        Real(self.0 - rhs.0)
    }

    fn spec_times(self, rhs: Self) -> Self {
        Real(self.0 * rhs.0)
    }

    fn spec_over(self, rhs: Self) -> Self {
        Real(self.0 / rhs.0)
    }

    fn spec_sqrt(self) -> Self {
        Real(self.0.sqrt())
    }

    fn spec_abs(self) -> Self {
        Real(self.0.abs())
    }

    fn lemma_gap_symmetric(_a: Self, _b: Self) {}

    fn from_usize(n: usize) -> Self {
        Real(n as f32)
    }

    fn plus(self, rhs: Self) -> Self {
        Real(self.0 + rhs.0)
    }

    fn minus(self, rhs: Self) -> Self {
        Real(self.0 - rhs.0)
    }

    fn times(self, rhs: Self) -> Self {
        Real(self.0 * rhs.0)
    }

    fn over(self, rhs: Self) -> Self {
        Real(self.0 / rhs.0)
    }

    fn sqrt(self) -> Self {
        Real(self.0.sqrt())
    }

    fn abs(self) -> Self {
        Real(self.0.abs())
    }

    fn le(self, rhs: Self) -> bool {
        key(self.0) <= key(rhs.0)
    }
}

#[test]
fn floats_go_through_the_same_filters() {
    let image = Image { pixels: vec![Real(0.5), Real(1.5), Real(-2.0), Real(4.0)], width: 2, height: 2 };
    let kernel = Image { pixels: vec![Real(2.0)], width: 1, height: 1 };
    let out: Image<Real> = conv(&image, &kernel);
    assert_eq!(out.pixels, vec![Real(1.0), Real(3.0), Real(-4.0), Real(8.0)]);
    let wide: Image<Real> = dilate(&image, 3);
    assert_eq!(wide.pixels, vec![Real(4.0); 4]);
}

#[test]
fn float_kernel_sums_to_one() {
    let sigma = 2.0f32;
    let span = (6.0 * sigma).ceil() as usize;
    let (weights, side) = generate_gaussian_kernel(span, |d2: usize| {
        Real((1.0 / (std::f32::consts::TAU * sigma * sigma)) * (-(d2 as f32) / (2.0 * sigma * sigma)).exp())
    });
    assert_eq!(side, 13);
    let sum: f32 = weights.iter().map(|w| w.0).sum();
    assert!((sum - 1.0).abs() < 1e-5);
}

fn bell(sigma: f32) -> impl Fn(usize) -> Real {
    move |d2: usize| {
        let mult = 1.0 / (std::f32::consts::TAU * sigma * sigma);
        Real(mult * (-(d2 as f32) / (2.0 * sigma * sigma)).exp())
    }
}

#[test]
fn float_kernels_sum_to_one_and_have_an_odd_side() {
    for sigma in [0.3f32, 0.5, 1.0, 1.7, 2.0, 3.5] {
        let span = (6.0 * sigma).ceil() as usize;
        let (weights, side) = generate_gaussian_kernel(span, bell(sigma));
        assert_eq!(side % 2, 1);
        assert_eq!(side, span | 1);
        let sum: f32 = weights.iter().map(|w| w.0).sum();
        assert!((sum - 1.0).abs() < 1e-5, "sigma {} sum {}", sigma, sum);
    }
}

#[test]
fn a_single_bright_square_gives_a_single_point_in_floats() {
    let mut pixels = vec![Real(0.0); 20 * 20];
    for y in 8..11 {
        for x in 8..11 {
            pixels[y * 20 + x] = Real(1.0);
        }
    }
    let image = Image { pixels, width: 20, height: 20 };
    let sigma = 2.0f32;
    let log: Image<Real> = laplacian_of_gaussian(&image, (6.0 * sigma).ceil() as usize, bell(sigma));
    let max: Image<Real> = dilate(&log, (3.0 * sigma).ceil() as usize);
    let points = peak_local_max(&log, &max, 9999, 10000);
    assert_eq!(points.len(), 1);
    let (x, y, l) = points[0];
    assert_eq!((x, y), (2, 2));
    assert!(l.0 > 0.0);
}

#[test]
fn the_same_shape_at_another_scale_in_floats() {
    let first = vec![(100, 100, Real(0.5)), (200, 100, Real(0.5)), (150, 187, Real(0.5))];
    let second = vec![(102, 102, Real(0.5)), (204, 102, Real(0.5)), (153, 191, Real(0.5))];
    assert_eq!(align(1000, 1000, &first, &second, Real(0.05)).len(), 1);
    assert_eq!(align(1000, 1000, &first, &second, Real(0.001)).len(), 0);
}
