use texsyn::errors::{Error, InvalidArgument};
use texsyn::grid::Grid;
use texsyn::pixel::{Image, Rgb};
use texsyn::pyramid::{downsample, halvings, GaussianPyramid};
use texsyn::random::new_rng;
use texsyn::wei_levoy::{WeiLevoy, WeiLevoyParams};

fn ramp(width: u32, height: u32) -> Image {
    let mut img = Grid::filled(width, height, Rgb::new(0, 0, 0)).unwrap();
    for y in 0..height {
        for x in 0..width {
            img.put_pixel(x, y, Rgb::new(x as u8, y as u8, 1));
        }
    }
    img
}

fn refusal<T>(r: Result<T, Error>) -> Error {
    match r {
        Ok(_) => panic!("accepted"),
        Err(e) => e,
    }
}

#[test]
fn halvings_is_the_rounded_down_logarithm() {
    for (n, k) in [(0u32, 0u32), (1, 0), (2, 1), (3, 1), (4, 2), (7, 2), (8, 3), (1024, 10), (u32::MAX, 31)] {
        assert_eq!(halvings(n), k);
    }
}

#[test]
fn downsample_keeps_every_second_pixel() {
    let img = ramp(6, 5);
    let half = downsample(&img);
    assert_eq!((half.width(), half.height()), (3, 2));
    for y in 0..2 {
        for x in 0..3 {
            assert_eq!(half.get_pixel(x, y), img.get_pixel(2 * x, 2 * y));
        }
    }
    let none = downsample(&ramp(1, 9));
    assert_eq!((none.width(), none.height()), (0, 4));
}

#[test]
fn pyramid_refuses_sides_that_are_no_powers_of_two() {
    let e = refusal(GaussianPyramid::new(ramp(12, 8), 1));
    assert_eq!(e, Error::InvalidArguments(InvalidArgument::DimensionsNotPowerOfTwo));
    assert_eq!(e.message(), "Image dimensions must be a power of 2");
    let e = refusal(GaussianPyramid::new(ramp(8, 6), 1));
    assert_eq!(e, Error::InvalidArguments(InvalidArgument::DimensionsNotPowerOfTwo));
}

#[test]
fn pyramid_refuses_too_many_levels() {
    let e = refusal(GaussianPyramid::new(ramp(16, 8), 4));
    assert_eq!(e, Error::InvalidArguments(InvalidArgument::TooManyLevels));
    assert_eq!(e.message(), "Too many levels for image size");
    assert!(GaussianPyramid::new(ramp(16, 8), 3).is_ok());
    assert!(GaussianPyramid::new(ramp(16, 8), 0).unwrap().is_complete());
}

#[test]
fn pyramid_grows_level_by_level() {
    let mut pyramid = GaussianPyramid::new(ramp(16, 8), 3).unwrap();
    let mut sizes = Vec::new();
    while !pyramid.is_complete() {
        let source = pyramid.next_source();
        sizes.push((source.width(), source.height()));
        let copy = source.sub_image(&texsyn::grid::Rect::new(0, 0, source.width(), source.height()));
        pyramid.push_blurred(&copy);
    }
    assert_eq!(sizes, vec![(16, 8), (8, 4), (4, 2)]);
    assert_eq!(pyramid.len(), 3);
    assert_eq!((pyramid.level(2).width(), pyramid.level(2).height()), (2, 1));
    assert_eq!(pyramid.level(0).get_pixel(3, 2), pyramid.base().get_pixel(6, 4));
    assert_eq!(pyramid.level(1).get_pixel(3, 1), pyramid.base().get_pixel(12, 4));
}

#[test]
fn wei_levoy_returns_noise_that_follows_the_seed() {
    let run = |seed| {
        let pyramid = GaussianPyramid::new(ramp(16, 16), 0).unwrap();
        let params = WeiLevoyParams::new((5, 4), Vec::new(), seed);
        WeiLevoy::new(pyramid, params).synthesize()
    };
    let a = run(Some([1, 2, 3, 4]));
    let b = run(Some([1, 2, 3, 4]));
    let mut want = Grid::filled(5, 4, Rgb::new(0, 0, 0)).unwrap();
    texsyn::random::random_image_rgb_with_rng(&mut want, &mut new_rng([1, 2, 3, 4]));
    assert_eq!((a.width(), a.height()), (5, 4));
    for y in 0..4 {
        for x in 0..5 {
            assert_eq!(a.get_pixel(x, y), b.get_pixel(x, y));
            assert_eq!(a.get_pixel(x, y), want.get_pixel(x, y));
        }
    }
    let c = run(None);
    assert_eq!((c.width(), c.height()), (5, 4));
}
