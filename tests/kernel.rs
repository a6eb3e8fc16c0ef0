use coldiron::image::{Error, Format, Image};
use coldiron::kernel::{check_apply, check_weight_count, window_sample};

#[test]
fn weight_count_must_be_square_of_size() {
    assert_eq!(check_weight_count(3, 9), Ok(()));
    assert_eq!(check_weight_count(3, 8), Err(Error::WeightCountMismatch));
    assert_eq!(check_weight_count(1, 1), Ok(()));
    assert_eq!(check_weight_count(5, 24), Err(Error::WeightCountMismatch));
    assert_eq!(check_weight_count(0, 0), Ok(()));
    assert_eq!(check_weight_count(usize::MAX, 1), Err(Error::WeightCountMismatch));
}

#[test]
fn apply_checks() {
    let a = Image::new(Format::Graymap, 4, 4);
    let b = Image::new(Format::Graymap, 4, 5);
    let c = Image::new(Format::Pixmap, 4, 4);
    assert_eq!(check_apply(&a, &b), Err(Error::DimensionMismatch));
    assert_eq!(check_apply(&c, &a), Err(Error::UnsupportedForFormat));
    assert_eq!(check_apply(&a, &c), Ok(()));
}

#[test]
fn window_samples() {
    let mut img = Image::new(Format::Graymap, 3, 3);
    for i in 0..9usize {
        img.set_pixel(i % 3, i / 3, i as u8 * 10).unwrap();
    }
    assert_eq!(window_sample(&img, 1, 1, 0, 0, 3), Ok(0));
    assert_eq!(window_sample(&img, 1, 1, 1, 1, 3), Ok(40));
    assert_eq!(window_sample(&img, 1, 1, 2, 2, 3), Ok(80));
    assert_eq!(window_sample(&img, 0, 1, 0, 1, 3), Err(Error::OutOfBounds));
    assert_eq!(window_sample(&img, 2, 2, 2, 0, 3), Err(Error::OutOfBounds));
    let color = Image::new(Format::Pixmap, 3, 3);
    assert_eq!(window_sample(&color, 1, 1, 1, 1, 3), Err(Error::UnsupportedForFormat));
}
