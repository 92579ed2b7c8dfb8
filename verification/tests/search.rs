use texsyn::errors::{Error, InvalidArgument, SynthesisFault};
use texsyn::grid::{Grid, Rect};
use texsyn::mean::MeanError;
use texsyn::pixel::{Image, Mask, Rgb};
use texsyn::random::new_rng;
use texsyn::search::{
    count_unfilled, is_edge_pixel, mask_on, neighbourhood_error, next_pixel, pixel_num_neigbours,
    synthesize_pixel, PixelSearch, PixelSearchParams,
};

fn source_image(width: u32, height: u32) -> Image {
    let mut img = Grid::filled(width, height, Rgb::new(0, 0, 0)).unwrap();
    for y in 0..height {
        for x in 0..width {
            let r = ((x * 41 + y * 3) % 256) as u8;
            let g = ((x * 7 + y * 29) % 256) as u8;
            let b = ((x + y) % 2 * 200) as u8;
            img.put_pixel(x, y, Rgb::new(r, g, b));
        }
    }
    img
}

fn appears(source: &Image, p: Rgb) -> bool {
    for y in 0..source.height() {
        for x in 0..source.width() {
            if source.get_pixel(x, y) == p {
                return true;
            }
        }
    }
    false
}

fn seeded_mask(width: u32, height: u32, x: u32, y: u32) -> Mask {
    let mut mask = Grid::filled(width, height, false).unwrap();
    mask.fill_rect(&Rect::new(x, y, 3, 3), true);
    mask
}

fn refusal<T>(r: Result<T, Error>) -> Error {
    match r {
        Ok(_) => panic!("accepted"),
        Err(e) => e,
    }
}

#[test]
fn params_accept_odd_windows_only() {
    for window_size in 0u32..40 {
        let r = PixelSearchParams::new((10, 10), window_size, None);
        if window_size % 2 == 1 {
            assert!(r.is_ok());
        } else {
            assert_eq!(refusal(r), Error::InvalidArguments(InvalidArgument::EvenWindowSize));
        }
    }
    assert!(PixelSearchParams::new((10, 10), u32::MAX, None).is_ok());
    assert_eq!(
        Error::InvalidArguments(InvalidArgument::EvenWindowSize).message(),
        "window_size must be odd"
    );
}

#[test]
fn search_refuses_what_cannot_hold_a_seed() {
    let params = PixelSearchParams::new((10, 10), 5, None).unwrap();
    let e = refusal(PixelSearch::new(source_image(2, 8), params));
    assert_eq!(e, Error::InvalidArguments(InvalidArgument::SourceTooSmall));

    let params = PixelSearchParams::new((10, 10), 5, Some((6, 0))).unwrap();
    let e = refusal(PixelSearch::new(source_image(8, 8), params));
    assert_eq!(e, Error::InvalidArguments(InvalidArgument::SeedOutsideSource));
    let params = PixelSearchParams::new((10, 10), 5, Some((0, 6))).unwrap();
    let e = refusal(PixelSearch::new(source_image(8, 8), params));
    assert_eq!(e, Error::InvalidArguments(InvalidArgument::SeedOutsideSource));
    let params = PixelSearchParams::new((10, 10), 5, Some((5, 5))).unwrap();
    assert!(PixelSearch::new(source_image(8, 8), params).is_ok());

    let params = PixelSearchParams::new((2, 10), 5, None).unwrap();
    let e = refusal(PixelSearch::new(source_image(8, 8), params));
    assert_eq!(e, Error::InvalidArguments(InvalidArgument::OutputTooSmall));

    let params = PixelSearchParams::new((70000, 70000), 5, None).unwrap();
    let e = refusal(PixelSearch::new(source_image(8, 8), params));
    assert_eq!(e, Error::InvalidArguments(InvalidArgument::OutputTooLarge));
}

#[test]
fn mask_tells_filled_cells_and_their_edge() {
    let mask = seeded_mask(7, 6, 2, 1);
    assert!(mask_on(&mask, 2, 1));
    assert!(mask_on(&mask, 4, 3));
    assert!(!mask_on(&mask, 5, 3));
    assert!(!mask_on(&mask, 1, 1));
    assert!(is_edge_pixel(&mask, 1, 1));
    assert!(is_edge_pixel(&mask, 5, 3));
    assert!(is_edge_pixel(&mask, 3, 0));
    assert!(is_edge_pixel(&mask, 3, 4));
    assert!(!is_edge_pixel(&mask, 1, 0));
    assert!(!is_edge_pixel(&mask, 5, 4));
    assert!(!is_edge_pixel(&mask, 0, 0));
    assert!(!is_edge_pixel(&mask, 6, 5));
    assert!(is_edge_pixel(&mask, 3, 2));
    assert_eq!(count_unfilled(&mask), 42 - 9);
}

#[test]
fn neighbours_are_counted_in_the_clipped_window() {
    let mask = seeded_mask(7, 6, 2, 1);
    assert_eq!(pixel_num_neigbours(&mask, 1, (1, 1)), 2);
    assert_eq!(pixel_num_neigbours(&mask, 1, (1, 2)), 3);
    assert_eq!(pixel_num_neigbours(&mask, 1, (3, 2)), 8);
    assert_eq!(pixel_num_neigbours(&mask, 2, (3, 2)), 8);
    assert_eq!(pixel_num_neigbours(&mask, 0, (3, 2)), 0);
    assert_eq!(pixel_num_neigbours(&mask, 2, (0, 0)), 2);
    assert_eq!(pixel_num_neigbours(&mask, 3, (0, 0)), 6);
    assert_eq!(pixel_num_neigbours(&mask, 7, (6, 5)), 9);
    assert_eq!(pixel_num_neigbours(&mask, 1, (6, 5)), 0);
    // The window is clipped by the height, not the width, in the vertical.
    let tall = seeded_mask(3, 9, 0, 6);
    assert_eq!(pixel_num_neigbours(&tall, 2, (1, 5)), 6);
}

#[test]
fn next_pixel_is_the_frontier_cell_with_most_neighbours() {
    let mask = seeded_mask(7, 6, 2, 1);
    let next = next_pixel(&mask, 1).unwrap();
    assert_eq!(next, (3, 0));
    let mut grown = seeded_mask(7, 6, 2, 1);
    grown.put_pixel(3, 0, true);
    grown.put_pixel(1, 1, true);
    // (2, 0) now has five filled neighbours, more than any other.
    assert_eq!(next_pixel(&grown, 1).unwrap(), (2, 0));
    let empty: Mask = Grid::filled(4, 4, false).unwrap();
    assert_eq!(next_pixel(&empty, 1), None);
    let full: Mask = Grid::filled(4, 4, true).unwrap();
    assert_eq!(next_pixel(&full, 1), None);
}

#[test]
fn neighbourhood_error_is_the_mean_over_filled_cells() {
    let source = Grid::filled(5, 5, Rgb::new(3, 4, 0)).unwrap();
    let buffer = Grid::filled(7, 6, Rgb::new(0, 0, 0)).unwrap();
    let mask = seeded_mask(7, 6, 2, 1);
    let e: MeanError = neighbourhood_error(&source, 1, &mask, (1, 1), (2, 2), &buffer).unwrap();
    assert_eq!((e.sum(), e.samples()), (10, 2));
    let e = neighbourhood_error(&source, 2, &mask, (3, 2), (2, 2), &buffer).unwrap();
    assert_eq!((e.sum(), e.samples()), (45, 9));
    // The window is cut where the source ends.
    let e = neighbourhood_error(&source, 2, &mask, (3, 2), (0, 0), &buffer).unwrap();
    assert_eq!((e.sum(), e.samples()), (20, 4));
    let e = neighbourhood_error(&source, 2, &mask, (3, 2), (4, 4), &buffer).unwrap();
    assert_eq!((e.sum(), e.samples()), (20, 4));
    // No filled cell in the window: no error.
    assert!(neighbourhood_error(&source, 1, &mask, (6, 5), (2, 2), &buffer).is_none());
    assert!(neighbourhood_error(&source, 0, &mask, (1, 1), (2, 2), &buffer).is_none());
}

#[test]
fn synthesized_pixel_comes_from_the_best_place() {
    let source = source_image(6, 6);
    let mut buffer = Grid::filled(8, 8, Rgb::new(0, 0, 0)).unwrap();
    buffer.blit_rect(&Rect::new(1, 2, 3, 3), (3, 3), &source);
    let mask = seeded_mask(8, 8, 3, 3);
    let mut rng = new_rng([3, 1, 4, 1]);
    // The cell right of the seed's first row: in the source that is (4, 2).
    for _ in 0..5 {
        let p = synthesize_pixel(&source, 1, &mask, (6, 3), &buffer, &mut rng).unwrap();
        assert_eq!(p, source.get_pixel(4, 2));
    }
    let e = refusal(synthesize_pixel(&source, 0, &mask, (6, 3), &buffer, &mut rng));
    assert_eq!(e, Error::SynthesisError(SynthesisFault::EmptyCandidatePool));
}

#[test]
fn synthesize_fills_every_pixel_from_the_source() {
    let source = source_image(8, 7);
    for (size, window_size) in [((9u32, 8u32), 3u32), ((6, 11), 5), ((3, 3), 7), ((4, 3), 15)] {
        let params = PixelSearchParams::new(size, window_size, None).unwrap();
        let mut search =
            PixelSearch::with_rng(source_image(8, 7), params, new_rng([2, 7, 1, 8])).unwrap();
        let img = search.synthesize().unwrap();
        assert_eq!((img.width(), img.height()), size);
        for y in 0..size.1 {
            for x in 0..size.0 {
                assert!(appears(&source, img.get_pixel(x, y)));
            }
        }
    }
}

#[test]
fn synthesize_puts_the_seed_in_the_centre() {
    let source = source_image(8, 7);
    let params = PixelSearchParams::new((10, 7), 5, Some((5, 4))).unwrap();
    let mut search = PixelSearch::new(source_image(8, 7), params).unwrap();
    let img = search.synthesize().unwrap();
    for dy in 0..3 {
        for dx in 0..3 {
            assert_eq!(img.get_pixel(4 + dx, 2 + dy), source.get_pixel(5 + dx, 4 + dy));
        }
    }
}

#[test]
fn synthesize_repeats_itself_with_the_same_seed() {
    let run = || {
        let params = PixelSearchParams::new((8, 8), 3, Some((1, 1))).unwrap();
        let mut search =
            PixelSearch::with_rng(source_image(6, 6), params, new_rng([5, 5, 5, 5])).unwrap();
        search.synthesize().unwrap()
    };
    let first = run();
    let second = run();
    for y in 0..8 {
        for x in 0..8 {
            assert_eq!(first.get_pixel(x, y), second.get_pixel(x, y));
        }
    }
}

#[test]
fn synthesize_with_a_window_of_one_pixel() {
    let params = PixelSearchParams::new((5, 5), 1, None).unwrap();
    let mut search = PixelSearch::new(source_image(6, 6), params).unwrap();
    let e = refusal(search.synthesize());
    assert_eq!(e, Error::SynthesisError(SynthesisFault::EmptyCandidatePool));
    assert_eq!(
        SynthesisFault::EmptyCandidatePool.message(),
        "No candidate overlaps the synthesised region"
    );

    let source = source_image(6, 6);
    let params = PixelSearchParams::new((3, 3), 1, Some((2, 3))).unwrap();
    let mut search = PixelSearch::new(source_image(6, 6), params).unwrap();
    let img = search.synthesize().unwrap();
    for dy in 0..3 {
        for dx in 0..3 {
            assert_eq!(img.get_pixel(dx, dy), source.get_pixel(2 + dx, 3 + dy));
        }
    }
}
