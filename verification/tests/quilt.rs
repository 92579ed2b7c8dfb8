use texsyn::distance::{L1, L2};
use texsyn::errors::{Error, InvalidArgument, SynthesisFault};
use texsyn::grid::Grid;
use texsyn::pixel::{Image, Rgb};
use texsyn::quilt::{
    blit_patch, overlap_area, patch_error, patch_error_surface, patch_rect_error, patches_along,
    place_patch, select_candidate, Chance, OverlapArea, Placement, Quilter, QuilterParams,
};
use texsyn::random::new_rng;

fn black() -> Rgb {
    Rgb::new(0, 0, 0)
}

fn flat(width: u32, height: u32) -> Image {
    Grid::filled(width, height, black()).unwrap()
}

fn textured(width: u32, height: u32) -> Image {
    let mut img = flat(width, height);
    for y in 0..height {
        for x in 0..width {
            let r = ((x * 37 + y * 11) % 256) as u8;
            let g = ((x * 5 + y * 53) % 256) as u8;
            let b = ((x * y + 7) % 256) as u8;
            img.put_pixel(x, y, Rgb::new(r, g, b));
        }
    }
    img
}

fn appears(source: &Image, p: Rgb) -> bool {
    for y in 0..source.height() {
        for x in 0..source.width() {
            if source.get_pixel(x, y) == p {
                return true;
            }
        }
    }
    false
}

fn refusal<T>(r: Result<T, Error>) -> Error {
    match r {
        Ok(_) => panic!("accepted"),
        Err(e) => e,
    }
}

#[test]
fn params_accept_patch_of_at_least_twice_the_overlap() {
    for overlap in 1u32..6 {
        for patch_size in (2 * overlap)..(2 * overlap + 4) {
            assert!(QuilterParams::new((8, 9), patch_size, overlap, None, None, L1).is_ok());
        }
    }
}

#[test]
fn params_refuse_small_patch() {
    for overlap in 1u32..6 {
        for patch_size in 0..(2 * overlap) {
            let e = refusal(QuilterParams::new((8, 9), patch_size, overlap, None, None, L1));
            assert_eq!(e, Error::InvalidArguments(InvalidArgument::PatchSmallerThanTwiceOverlap));
        }
    }
}

#[test]
fn params_refuse_zero_overlap() {
    let e = refusal(QuilterParams::new((8, 9), 6, 0, None, None, L1));
    assert_eq!(e, Error::InvalidArguments(InvalidArgument::ZeroOverlap));
}

#[test]
fn params_refuse_empty_output() {
    let e = refusal(QuilterParams::new((0, 9), 6, 2, None, None, L1));
    assert_eq!(e, Error::InvalidArguments(InvalidArgument::EmptyOutput));
    let e = refusal(QuilterParams::new((8, 0), 6, 2, None, None, L1));
    assert_eq!(e, Error::InvalidArguments(InvalidArgument::EmptyOutput));
}

#[test]
fn params_refuse_selection_chance_outside_unit_interval() {
    let e = refusal(QuilterParams::new((8, 9), 6, 2, None, Some(Chance::new(0, 10)), L1));
    assert_eq!(e, Error::InvalidArguments(InvalidArgument::SelectionChanceOutOfRange));
    let e = refusal(QuilterParams::new((8, 9), 6, 2, None, Some(Chance::new(3, 2)), L1));
    assert_eq!(e, Error::InvalidArguments(InvalidArgument::SelectionChanceOutOfRange));
    assert!(QuilterParams::new((8, 9), 6, 2, None, Some(Chance::new(1, 1)), L1).is_ok());
    assert!(QuilterParams::new((8, 9), 6, 2, None, Some(Chance::new(1, 10)), L1).is_ok());
}

#[test]
fn invalid_argument_messages_differ() {
    let a = Error::InvalidArguments(InvalidArgument::ZeroOverlap).message();
    let b = Error::InvalidArguments(InvalidArgument::EmptyOutput).message();
    assert_eq!(a, "overlap must be non-zero");
    assert_ne!(a, b);
    assert_eq!(
        Error::SynthesisError(SynthesisFault::SearchExhausted).message(),
        "Random sampling kept no candidate"
    );
}

#[test]
fn patch_rect_error_l1_of_five_edits() {
    let a = flat(5, 5);
    let mut b = flat(6, 6);
    b.put_pixel(2, 1, Rgb::new(10, 0, 0));
    b.put_pixel(3, 1, Rgb::new(0, 20, 0));
    b.put_pixel(4, 2, Rgb::new(0, 0, 30));
    b.put_pixel(2, 3, Rgb::new(5, 5, 5));
    b.put_pixel(4, 3, Rgb::new(15, 15, 15));
    // An edit outside the region does not count.
    b.put_pixel(1, 1, Rgb::new(255, 255, 255));
    assert_eq!(patch_rect_error(&L1, &a, &b, (1, 1), (2, 1), (3, 3)), 120);
}

#[test]
fn patch_rect_error_is_symmetric_for_both_metrics() {
    let a = textured(7, 6);
    let b = textured(9, 8);
    for (p, q, s) in [((0, 0), (1, 2), (3, 3)), ((2, 1), (4, 3), (5, 4)), ((6, 5), (8, 7), (1, 1))] {
        assert_eq!(
            patch_rect_error(&L1, &a, &b, p, q, s),
            patch_rect_error(&L1, &b, &a, q, p, s)
        );
        assert_eq!(
            patch_rect_error(&L2, &a, &b, p, q, s),
            patch_rect_error(&L2, &b, &a, q, p, s)
        );
    }
}

#[test]
fn patch_rect_error_l2_rounds_each_distance_down() {
    let a = flat(2, 1);
    let mut b = flat(2, 1);
    b.put_pixel(0, 0, Rgb::new(1, 1, 0));
    b.put_pixel(1, 0, Rgb::new(3, 4, 0));
    // sqrt(2) rounds down to 1; sqrt(25) is 5.
    assert_eq!(patch_rect_error(&L2, &a, &b, (0, 0), (0, 0), (2, 1)), 6);
    assert_eq!(patch_rect_error(&L2, &a, &b, (0, 0), (0, 0), (0, 1)), 0);
}

#[test]
fn error_surface_of_left_overlap_reports_marker() {
    let mut source = flat(11, 11);
    for y in 0..5 {
        source.put_pixel(0, y, Rgb::new(255, 0, 0));
    }
    let buffer = flat(11, 11);
    let place = Placement { pos: (0, 0), patch_size: 5, overlap: 1, area: OverlapArea::Left };
    for (surface, expected) in [
        (patch_error_surface(&L1, &source, &buffer, place, (0, 0)), 255),
        (patch_error_surface(&L2, &source, &buffer, place, (0, 0)), 255),
    ] {
        assert_eq!(surface.width(), 5);
        assert_eq!(surface.height(), 5);
        for y in 0..5 {
            for x in 0..5 {
                let want = if x == 0 { expected } else { 0 };
                assert_eq!(surface.get_pixel(x, y), want);
            }
        }
    }
}

#[test]
fn error_surface_covers_the_bands_of_each_area() {
    let source = Grid::filled(8, 8, Rgb::new(1, 2, 3)).unwrap();
    let buffer = flat(10, 10);
    for area in [OverlapArea::Top, OverlapArea::Left, OverlapArea::TopLeft] {
        let place = Placement { pos: (2, 1), patch_size: 6, overlap: 2, area };
        let surface = patch_error_surface(&L1, &source, &buffer, place, (1, 2));
        let mut total: u64 = 0;
        for y in 0..6u32 {
            for x in 0..6u32 {
                let inside = match area {
                    OverlapArea::Top => y < 2,
                    OverlapArea::Left => x < 2,
                    OverlapArea::TopLeft => x < 2 || y < 2,
                };
                assert_eq!(surface.get_pixel(x, y), if inside { 6 } else { 0 });
                total += surface.get_pixel(x, y) as u64;
            }
        }
        // The corner that both bands share counts once.
        assert_eq!(patch_error(&L1, &source, &buffer, place, (1, 2)), total);
    }
    let place = Placement { pos: (0, 0), patch_size: 6, overlap: 2, area: OverlapArea::TopLeft };
    assert_eq!(patch_error(&L1, &source, &buffer, place, (0, 0)), 6 * (12 + 8));
}

#[test]
fn overlap_area_follows_grid_position() {
    assert_eq!(overlap_area(1, 0), OverlapArea::Left);
    assert_eq!(overlap_area(5, 0), OverlapArea::Left);
    assert_eq!(overlap_area(0, 1), OverlapArea::Top);
    assert_eq!(overlap_area(0, 7), OverlapArea::Top);
    assert_eq!(overlap_area(1, 1), OverlapArea::TopLeft);
    assert_eq!(overlap_area(3, 2), OverlapArea::TopLeft);
}

#[test]
fn patches_along_rounds_up() {
    assert_eq!(patches_along(1, 4), 1);
    assert_eq!(patches_along(4, 4), 1);
    assert_eq!(patches_along(5, 4), 2);
    assert_eq!(patches_along(8, 4), 2);
    assert_eq!(patches_along(9, 4), 3);
    assert_eq!(patches_along(7, 1), 7);
}

#[test]
fn exhaustive_selection_finds_the_matching_patch() {
    let source = textured(12, 10);
    let mut buffer = flat(20, 20);
    // What lies to the left of the patch at (5, 3) is put where the overlap will be.
    for y in 0..6 {
        for x in 0..6 {
            buffer.put_pixel(4 + x, 2 + y, source.get_pixel(5 + x, 3 + y));
        }
    }
    let place = Placement { pos: (4, 2), patch_size: 6, overlap: 2, area: OverlapArea::Left };
    let mut rng = new_rng([1, 2, 3, 4]);
    let patch = select_candidate(&L1, &source, &buffer, place, None, &mut rng).unwrap();
    assert_eq!(patch.size, 6);
    assert_eq!(patch_error(&L1, &source, &buffer, place, patch.coords), 0);
    assert_eq!(patch.coords, (5, 3));
}

#[test]
fn exhaustive_selection_stays_within_a_tenth_of_the_best() {
    let source = textured(12, 10);
    let buffer = textured(20, 20);
    let mut rng = new_rng([9, 8, 7, 6]);
    for area in [OverlapArea::Top, OverlapArea::Left, OverlapArea::TopLeft] {
        let place = Placement { pos: (3, 5), patch_size: 4, overlap: 2, area };
        let mut best = u64::MAX;
        for y in 0..=6 {
            for x in 0..=8 {
                best = best.min(patch_error(&L2, &source, &buffer, place, (x, y)));
            }
        }
        for _ in 0..5 {
            let patch = select_candidate(&L2, &source, &buffer, place, None, &mut rng).unwrap();
            assert!(patch.coords.0 <= 8 && patch.coords.1 <= 6);
            let e = patch_error(&L2, &source, &buffer, place, patch.coords);
            assert!(10 * e <= 11 * best);
        }
    }
}

#[test]
fn sampled_selection_returns_a_patch_of_the_source() {
    let source = textured(12, 10);
    let buffer = textured(20, 20);
    let mut rng = new_rng([4, 4, 4, 4]);
    let place = Placement { pos: (3, 5), patch_size: 4, overlap: 2, area: OverlapArea::TopLeft };
    for _ in 0..20 {
        let r = select_candidate(&L1, &source, &buffer, place, Some(Chance::new(1, 50)), &mut rng);
        let patch = r.unwrap();
        assert_eq!(patch.size, 4);
        assert!(patch.coords.0 + 4 <= 12 && patch.coords.1 + 4 <= 10);
    }
}

#[test]
fn blit_keeps_the_buffer_on_the_near_side_of_the_seams() {
    let source = Grid::filled(4, 4, Rgb::new(9, 9, 9)).unwrap();
    let place = Placement { pos: (1, 1), patch_size: 4, overlap: 2, area: OverlapArea::TopLeft };
    let vertical: Vec<u32> = vec![1, 0, 1, 1];
    let horizontal: Vec<u32> = vec![0, 1, 1, 0];
    let mut buffer = flat(6, 6);
    blit_patch(&mut buffer, &source, place, (0, 0), &vertical, &horizontal);
    for y in 0..6u32 {
        for x in 0..6u32 {
            let under = (1..5).contains(&x) && (1..5).contains(&y);
            let taken = under
                && x - 1 >= vertical[(y - 1) as usize]
                && y - 1 >= horizontal[(x - 1) as usize];
            let want = if taken { Rgb::new(9, 9, 9) } else { black() };
            assert_eq!(buffer.get_pixel(x, y), want);
        }
    }
    // Seam pixels belong to the new patch.
    assert_eq!(buffer.get_pixel(1, 2), Rgb::new(9, 9, 9));
    assert_eq!(buffer.get_pixel(1, 1), black());
    assert_eq!(buffer.get_pixel(2, 1), black());

    let mut left = flat(6, 6);
    let place = Placement { pos: (2, 0), patch_size: 4, overlap: 2, area: OverlapArea::Left };
    blit_patch(&mut left, &source, place, (0, 0), &vertical, &Vec::new());
    assert_eq!(left.get_pixel(2, 0), black());
    assert_eq!(left.get_pixel(3, 0), Rgb::new(9, 9, 9));
    assert_eq!(left.get_pixel(2, 1), Rgb::new(9, 9, 9));
    assert_eq!(left.get_pixel(1, 1), black());

    let mut top = flat(6, 6);
    let place = Placement { pos: (0, 2), patch_size: 4, overlap: 2, area: OverlapArea::Top };
    blit_patch(&mut top, &source, place, (0, 0), &Vec::new(), &horizontal);
    assert_eq!(top.get_pixel(0, 2), Rgb::new(9, 9, 9));
    assert_eq!(top.get_pixel(1, 2), black());
    assert_eq!(top.get_pixel(1, 3), Rgb::new(9, 9, 9));
}

#[test]
fn placing_a_patch_changes_nothing_outside_it() {
    let source = textured(10, 10);
    let mut buffer = textured(16, 16);
    let before = textured(16, 16);
    let place = Placement { pos: (4, 6), patch_size: 6, overlap: 2, area: OverlapArea::TopLeft };
    let mut rng = new_rng([5, 6, 7, 8]);
    let patch = place_patch(&L1, &source, &mut buffer, place, None, &mut rng).unwrap();
    for y in 0..16u32 {
        for x in 0..16u32 {
            let under = (4..10).contains(&x) && (6..12).contains(&y);
            let got = buffer.get_pixel(x, y);
            if !under {
                assert_eq!(got, before.get_pixel(x, y));
            } else {
                let from_patch = source.get_pixel(patch.coords.0 + x - 4, patch.coords.1 + y - 6);
                if x - 4 >= 2 && y - 6 >= 2 {
                    assert_eq!(got, from_patch);
                } else {
                    assert!(got == from_patch || got == before.get_pixel(x, y));
                }
            }
        }
    }
}

#[test]
fn quilt_image_has_requested_size_and_no_holes() {
    let source = textured(16, 14);
    for (size, patch_size, overlap) in [((20u32, 17u32), 6u32, 2u32), ((5, 5), 8, 4), ((9, 1), 4, 1)] {
        let params = QuilterParams::new(size, patch_size, overlap, None, None, L1).unwrap();
        let mut quilter = Quilter::with_rng(textured(16, 14), params, new_rng([1, 2, 3, 4]));
        let img = quilter.quilt_image().unwrap();
        assert_eq!((img.width(), img.height()), size);
        for y in 0..size.1 {
            for x in 0..size.0 {
                assert!(appears(&source, img.get_pixel(x, y)));
            }
        }
    }
}

#[test]
fn quilt_image_keeps_the_seed_patch_in_the_corner() {
    let source = textured(16, 14);
    let params = QuilterParams::new((20, 20), 6, 2, Some((3, 5)), None, L2).unwrap();
    let mut quilter = Quilter::with_rng(textured(16, 14), params, new_rng([1, 2, 3, 4]));
    let img = quilter.quilt_image().unwrap();
    for y in 0..4 {
        for x in 0..4 {
            assert_eq!(img.get_pixel(x, y), source.get_pixel(3 + x, 5 + y));
        }
    }
}

#[test]
fn quilt_image_repeats_itself_with_the_same_seed() {
    let run = |seed: [u32; 4]| {
        let params = QuilterParams::new((18, 15), 6, 2, Some((2, 2)), None, L1).unwrap();
        let mut quilter = Quilter::with_rng(textured(12, 12), params, new_rng(seed));
        quilter.quilt_image().unwrap()
    };
    let first = run([11, 22, 33, 44]);
    let second = run([11, 22, 33, 44]);
    for y in 0..15 {
        for x in 0..18 {
            assert_eq!(first.get_pixel(x, y), second.get_pixel(x, y));
        }
    }
}

#[test]
fn quilt_image_with_random_seed_and_sampling() {
    let source = textured(16, 14);
    let params = QuilterParams::new((13, 11), 6, 3, None, Some(Chance::new(1, 4)), L2).unwrap();
    let mut quilter = Quilter::new(textured(16, 14), params);
    let img = quilter.quilt_image().unwrap();
    assert_eq!((img.width(), img.height()), (13, 11));
    for y in 0..11 {
        for x in 0..13 {
            assert!(appears(&source, img.get_pixel(x, y)));
        }
    }
}

#[test]
fn quilt_image_refuses_what_does_not_fit_the_source() {
    let params = QuilterParams::new((20, 20), 8, 2, None, None, L1).unwrap();
    let e = refusal(Quilter::new(textured(7, 20), params).quilt_image());
    assert_eq!(e, Error::InvalidArguments(InvalidArgument::PatchLargerThanSource));

    let params = QuilterParams::new((20, 20), 8, 2, None, None, L1).unwrap();
    let e = refusal(Quilter::new(textured(20, 7), params).quilt_image());
    assert_eq!(e, Error::InvalidArguments(InvalidArgument::PatchLargerThanSource));

    let params = QuilterParams::new((20, 20), 8, 2, Some((5, 0)), None, L1).unwrap();
    let e = refusal(Quilter::new(textured(12, 12), params).quilt_image());
    assert_eq!(e, Error::InvalidArguments(InvalidArgument::SeedOutsideSource));

    let params = QuilterParams::new((20, 20), 8, 2, Some((4, 4)), None, L1).unwrap();
    assert!(Quilter::new(textured(12, 12), params).quilt_image().is_ok());

    let params = QuilterParams::new((70000, 70000), 8, 2, None, None, L1).unwrap();
    let e = refusal(Quilter::new(textured(12, 12), params).quilt_image());
    assert_eq!(e, Error::InvalidArguments(InvalidArgument::OutputTooLarge));

    let params = QuilterParams::new((u32::MAX, 1), 8, 2, None, None, L1).unwrap();
    let e = refusal(Quilter::new(textured(12, 12), params).quilt_image());
    assert_eq!(e, Error::InvalidArguments(InvalidArgument::OutputTooLarge));
}

#[test]
fn sampling_that_looks_at_nothing_is_reported() {
    let source = textured(8, 8);
    let buffer = textured(12, 12);
    let place = Placement { pos: (2, 2), patch_size: 6, overlap: 2, area: OverlapArea::TopLeft };
    let mut rng = new_rng([7, 7, 7, 7]);
    let never = Some(Chance::new(1, u32::MAX));
    let e = refusal(select_candidate(&L1, &source, &buffer, place, never, &mut rng));
    assert_eq!(e, Error::SynthesisError(SynthesisFault::SearchExhausted));

    let mut untouched = textured(12, 12);
    let e = refusal(place_patch(&L1, &source, &mut untouched, place, never, &mut rng));
    assert_eq!(e, Error::SynthesisError(SynthesisFault::SearchExhausted));
    for y in 0..12 {
        for x in 0..12 {
            assert_eq!(untouched.get_pixel(x, y), buffer.get_pixel(x, y));
        }
    }

    let params = QuilterParams::new((10, 10), 6, 2, None, never, L1).unwrap();
    let e = refusal(Quilter::with_rng(textured(8, 8), params, new_rng([7, 7, 7, 7])).quilt_image());
    assert_eq!(e, Error::SynthesisError(SynthesisFault::SearchExhausted));
}

#[test]
fn quilt_image_of_a_single_patch_is_the_seed() {
    let source = textured(9, 9);
    let params = QuilterParams::new((4, 3), 6, 2, Some((2, 1)), None, L1).unwrap();
    let img = Quilter::new(textured(9, 9), params).quilt_image().unwrap();
    for y in 0..3 {
        for x in 0..4 {
            assert_eq!(img.get_pixel(x, y), source.get_pixel(2 + x, 1 + y));
        }
    }
}
