use spack::fixed::Fixed;
use spack::image::Image;

fn raster(len: usize, width: usize, height: usize) -> Image<Fixed> {
    Image { pixels: vec![Fixed { raw: 0 }; len], width, height }
}

#[test]
fn a_raster_is_well_formed_with_one_sample_for_every_place() {
    assert!(raster(12, 4, 3).is_well_formed());
    assert!(raster(12, 3, 4).is_well_formed());
    assert!(raster(12, 12, 1).is_well_formed());
    assert!(raster(0, 0, 0).is_well_formed());
    assert!(raster(0, 0, 7).is_well_formed());
    assert!(raster(0, 7, 0).is_well_formed());
}

#[test]
fn a_raster_with_too_few_or_too_many_samples_is_not_well_formed() {
    assert!(!raster(11, 4, 3).is_well_formed());
    assert!(!raster(13, 4, 3).is_well_formed());
    assert!(!raster(1, 0, 0).is_well_formed());
    assert!(!raster(0, 1, 1).is_well_formed());
    assert!(!raster(12, 5, 2).is_well_formed());
    assert!(!raster(12, 5, 3).is_well_formed());
}

#[test]
fn a_raster_whose_size_does_not_fit_is_not_well_formed() {
    assert!(!raster(4, usize::MAX, usize::MAX).is_well_formed());
    assert!(!raster(0, usize::MAX, 2).is_well_formed());
    assert!(!raster(2, usize::MAX / 2 + 2, 2).is_well_formed());
}

#[test]
fn a_raster_can_be_copied() {
    let image = Image { pixels: vec![Fixed { raw: 1 }, Fixed { raw: 2 }], width: 2, height: 1 };
    let copy = image.clone();
    assert_eq!(copy.pixels, image.pixels);
    assert_eq!((copy.width, copy.height), (2, 1));
}
