use texsyn::distance::{isqrt, l1, l2, pixel_distance, Metric, L1, L2};
use texsyn::grid::{area_of, Grid, Patch, Rect, MAX_CELLS};
use texsyn::mean::{near_best, within_tolerance, Candidate, MeanError};
use texsyn::pixel::{abs_diff, squared_diff, Luma, Pixel, Rgb};
use texsyn::pyramid::is_power_of_2;
use texsyn::random::{
    all_zero, new_deterministic_rng, new_rng, new_rng_random_seed, pick_random, random_image_rgb,
    random_image_rgb_with_rng,
};

#[test]
fn l1_adds_the_channel_differences() {
    assert_eq!(l1(&Rgb::new(0, 0, 0), &Rgb::new(255, 0, 0)), 255);
    assert_eq!(l1(&Rgb::new(10, 200, 30), &Rgb::new(20, 100, 25)), 10 + 100 + 5);
    assert_eq!(l1(&Rgb::new(255, 255, 255), &Rgb::new(0, 0, 0)), 765);
    assert_eq!(l1(&Rgb::new(7, 8, 9), &Rgb::new(7, 8, 9)), 0);
    assert_eq!(L1.distance(&Rgb::new(1, 2, 3), &Rgb::new(3, 2, 1)), 4);
}

#[test]
fn l2_is_the_rounded_down_euclidean_distance() {
    assert_eq!(l2(&Rgb::new(0, 0, 0), &Rgb::new(255, 0, 0)), 255);
    assert_eq!(l2(&Rgb::new(0, 0, 0), &Rgb::new(3, 4, 0)), 5);
    assert_eq!(l2(&Rgb::new(0, 0, 0), &Rgb::new(1, 1, 0)), 1);
    assert_eq!(l2(&Rgb::new(0, 0, 0), &Rgb::new(1, 1, 1)), 1);
    assert_eq!(l2(&Rgb::new(0, 0, 0), &Rgb::new(2, 2, 1)), 3);
    assert_eq!(l2(&Rgb::new(255, 255, 255), &Rgb::new(0, 0, 0)), 441);
    assert_eq!(L2.distance(&Rgb::new(10, 10, 10), &Rgb::new(7, 14, 10)), 5);
    assert_eq!(pixel_distance(&Luma::new(3), &Luma::new(200)), 197);
}

#[test]
fn distances_are_symmetric() {
    let colours = [Rgb::new(0, 0, 0), Rgb::new(13, 250, 7), Rgb::new(255, 1, 128), Rgb::new(90, 90, 91)];
    for p in colours {
        for q in colours {
            assert_eq!(l1(&p, &q), l1(&q, &p));
            assert_eq!(l2(&p, &q), l2(&q, &p));
            assert_eq!(p.squared_distance(&q), q.squared_distance(&p));
        }
    }
}

#[test]
fn isqrt_rounds_down() {
    for (n, r) in [(0u32, 0u32), (1, 1), (2, 1), (3, 1), (4, 2), (8, 2), (9, 3), (195075, 441), (u32::MAX, 65535)] {
        assert_eq!(isqrt(n), r);
    }
    for n in 0..2000u32 {
        let r = isqrt(n);
        assert!(r * r <= n && n < (r + 1) * (r + 1));
    }
}

#[test]
fn channel_differences() {
    assert_eq!(abs_diff(3, 10), 7);
    assert_eq!(abs_diff(10, 3), 7);
    assert_eq!(squared_diff(0, 255), 65025);
    assert_eq!(Rgb::new(1, 2, 3).squared_distance(&Rgb::new(4, 6, 3)), 25);
}

#[test]
fn test_mean_error_try_from() {
    let m = MeanError::try_from(72, 3).unwrap();
    assert_eq!(m.sum(), 72);
    assert_eq!(m.samples(), 3);
    assert!(MeanError::try_from(72, 0).is_none());
}

#[test]
fn mean_errors_are_ordered_as_fractions() {
    let third = MeanError::try_from(1, 3).unwrap();
    let half = MeanError::try_from(2, 4).unwrap();
    let also_half = MeanError::try_from(1, 2).unwrap();
    assert!(third.is_le(&half));
    assert!(!half.is_le(&third));
    assert!(half.is_le(&also_half) && also_half.is_le(&half));
    let big = MeanError::try_from(u64::MAX, 1).unwrap();
    let small = MeanError::try_from(u64::MAX, u32::MAX).unwrap();
    assert!(small.is_le(&big) && !big.is_le(&small));
}

#[test]
fn tolerance_is_ten_percent() {
    assert!(within_tolerance(110, 100));
    assert!(!within_tolerance(111, 100));
    assert!(within_tolerance(0, 0));
    assert!(!within_tolerance(1, 0));
    assert!(within_tolerance(u64::MAX, u64::MAX));
    let best = MeanError::try_from(100, 10).unwrap();
    assert!(MeanError::try_from(11, 1).unwrap().is_within_tolerance(&best));
    assert!(MeanError::try_from(33, 3).unwrap().is_within_tolerance(&best));
    assert!(!MeanError::try_from(12, 1).unwrap().is_within_tolerance(&best));
    assert!(!MeanError::try_from(111, 10).unwrap().is_within_tolerance(&best));
}

#[test]
fn near_best_keeps_what_is_within_a_tenth_of_the_smallest() {
    let errors = [(50u64, 1u32), (21, 2), (100, 10), (11, 1), (23, 2), (10, 1)];
    let candidates: Vec<Candidate> = errors
        .iter()
        .enumerate()
        .map(|(i, (t, c))| Candidate { coords: (i as u32, 0), error: MeanError::try_from(*t, *c).unwrap() })
        .collect();
    let kept: Vec<u32> = near_best(&candidates).iter().map(|c| c.coords.0).collect();
    assert_eq!(kept, vec![1, 2, 3, 5]);
}

#[test]
fn grid_holds_what_is_put() {
    let mut g = Grid::filled(4, 3, 0u8).unwrap();
    assert_eq!((g.width(), g.height()), (4, 3));
    g.put_pixel(3, 2, 7);
    g.put_pixel(0, 1, 9);
    for y in 0..3 {
        for x in 0..4 {
            let want = if (x, y) == (3, 2) { 7 } else if (x, y) == (0, 1) { 9 } else { 0 };
            assert_eq!(g.get_pixel(x, y), want);
        }
    }
    let h = Grid::from_vec(2, 3, vec![1, 2, 3, 4, 5, 6]).unwrap();
    assert_eq!(h.get_pixel(1, 0), 2);
    assert_eq!(h.get_pixel(0, 2), 5);
    assert!(Grid::from_vec(2, 3, vec![1, 2, 3, 4, 5]).is_none());
    assert!(Grid::filled(65536, 65536, 0u8).is_none());
    assert!(Grid::filled(0, 65536, 0u8).is_some());
    assert_eq!(area_of(u32::MAX, u32::MAX), 18446744065119617025);
    assert_eq!(MAX_CELLS, u32::MAX);
}

#[test]
fn grid_fill_blit_and_crop() {
    let mut g = Grid::filled(5, 4, 0u8).unwrap();
    g.fill_rect(&Rect::new(1, 1, 3, 2), 8);
    for y in 0..4u32 {
        for x in 0..5u32 {
            let inside = (1..4).contains(&x) && (1..3).contains(&y);
            assert_eq!(g.get_pixel(x, y), if inside { 8 } else { 0 });
        }
    }
    let src = Grid::from_vec(3, 3, vec![1u8, 2, 3, 4, 5, 6, 7, 8, 9]).unwrap();
    g.blit_rect(&Rect::new(1, 0, 2, 3), (3, 1), &src);
    assert_eq!(g.get_pixel(3, 1), 2);
    assert_eq!(g.get_pixel(4, 1), 3);
    assert_eq!(g.get_pixel(3, 3), 8);
    assert_eq!(g.get_pixel(4, 3), 9);
    assert_eq!(g.get_pixel(2, 1), 8);
    assert_eq!(g.get_pixel(4, 0), 0);
    let sub = src.sub_image(&Rect::new(1, 1, 2, 2));
    assert_eq!((sub.width(), sub.height()), (2, 2));
    assert_eq!(sub.get_pixel(0, 0), 5);
    assert_eq!(sub.get_pixel(1, 1), 9);
    let none = src.sub_image(&Rect::new(3, 0, 0, 2));
    assert_eq!((none.width(), none.height()), (0, 2));
}

#[test]
fn rect_and_patch_geometry() {
    let r = Rect::new(2, 3, 4, 5);
    assert!(r.fits_in(6, 8));
    assert!(!r.fits_in(5, 8));
    assert!(!r.fits_in(6, 7));
    assert!(!Rect::new(u32::MAX, 0, 1, 1).fits_in(u32::MAX, 10));
    let p = Patch::new(1, 2, 7);
    assert_eq!(p.rect().coords, (1, 2));
    assert_eq!(p.rect().size, (7, 7));
}

#[test]
fn powers_of_two() {
    for n in [1u32, 2, 4, 8, 1024, 1 << 31] {
        assert!(is_power_of_2(n));
    }
    for n in [0u32, 3, 5, 6, 7, 12, 1000, u32::MAX] {
        assert!(!is_power_of_2(n));
    }
}

#[test]
fn seeded_generators_repeat_themselves() {
    let noise = |seed: [u32; 4]| {
        let mut img = Grid::filled(6, 5, Rgb::new(0, 0, 0)).unwrap();
        random_image_rgb_with_rng(&mut img, &mut new_rng(seed));
        img
    };
    let a = noise([1, 2, 3, 4]);
    let b = noise([1, 2, 3, 4]);
    let c = noise([4, 3, 2, 1]);
    let mut differs = false;
    let mut not_black = false;
    for y in 0..5 {
        for x in 0..6 {
            assert_eq!(a.get_pixel(x, y), b.get_pixel(x, y));
            differs |= a.get_pixel(x, y) != c.get_pixel(x, y);
            not_black |= a.get_pixel(x, y) != Rgb::new(0, 0, 0);
        }
    }
    assert!(differs && not_black);
    let mut d = Grid::filled(6, 5, Rgb::new(0, 0, 0)).unwrap();
    let mut e = Grid::filled(6, 5, Rgb::new(0, 0, 0)).unwrap();
    random_image_rgb_with_rng(&mut d, &mut new_deterministic_rng());
    random_image_rgb_with_rng(&mut e, &mut new_deterministic_rng());
    for y in 0..5 {
        for x in 0..6 {
            assert_eq!(d.get_pixel(x, y), e.get_pixel(x, y));
        }
    }
    assert!(all_zero(&[0, 0, 0, 0]));
    assert!(!all_zero(&[0, 0, 1, 0]));
}

#[test]
fn random_image_keeps_its_size() {
    let mut img = Grid::filled(7, 9, Rgb::new(0, 0, 0)).unwrap();
    random_image_rgb(&mut img);
    assert_eq!((img.width(), img.height()), (7, 9));
    let mut rng = new_rng_random_seed();
    random_image_rgb_with_rng(&mut img, &mut rng);
    assert_eq!((img.width(), img.height()), (7, 9));
}

#[test]
fn pick_random_takes_one_of_the_candidates_and_not_always_the_last() {
    let mut rng = new_rng([8, 6, 7, 5]);
    let mut seen = [false; 10];
    for _ in 0..200 {
        let v: Vec<u32> = (0..10).collect();
        let chosen = pick_random(&mut rng, v);
        assert!(chosen < 10);
        seen[chosen as usize] = true;
    }
    assert!(seen.iter().filter(|s| **s).count() > 5);
    assert_eq!(pick_random(&mut rng, vec![42u32]), 42);
}

#[test]
fn choose_among_stays_within_a_tenth_of_the_smallest() {
    let errors = [(50u64, 1u32), (21, 2), (100, 10), (11, 1), (23, 2), (10, 1)];
    let candidates: Vec<Candidate> = errors
        .iter()
        .enumerate()
        .map(|(i, (t, c))| Candidate { coords: (i as u32, 0), error: MeanError::try_from(*t, *c).unwrap() })
        .collect();
    let mut rng = new_rng([2, 4, 6, 8]);
    let mut seen = [0u32; 6];
    for _ in 0..100 {
        let chosen = texsyn::mean::choose_among(&candidates, &mut rng);
        seen[chosen.coords.0 as usize] += 1;
    }
    assert_eq!(seen[0], 0);
    assert_eq!(seen[4], 0);
    assert!(seen[1] > 0 && seen[2] > 0 && seen[3] > 0 && seen[5] > 0);
}

#[test]
fn noise_is_drawn_column_by_column_from_the_seed() {
    let mut img = Grid::filled(2, 3, Rgb::new(0, 0, 0)).unwrap();
    random_image_rgb_with_rng(&mut img, &mut new_rng([1, 2, 3, 4]));
    // Three bytes for each pixel, the pixels of the first column first.
    assert_eq!(img.get_pixel(0, 0), Rgb::new(13, 31, 4));
    assert_eq!(img.get_pixel(0, 1), Rgb::new(32, 77, 186));
    assert_eq!(img.get_pixel(0, 2), Rgb::new(142, 158, 139));
    assert_eq!(img.get_pixel(1, 0), Rgb::new(249, 15, 88));
    assert_eq!(img.get_pixel(1, 1), Rgb::new(137, 254, 75));
    assert_eq!(img.get_pixel(1, 2), Rgb::new(220, 15, 55));
}

#[test]
fn noise_leaves_the_generator_where_the_draws_leave_it() {
    // Two pixels drawn into one image are the two pixels drawn into two.
    let mut both = Grid::filled(1, 2, Rgb::new(0, 0, 0)).unwrap();
    random_image_rgb_with_rng(&mut both, &mut new_rng([9, 9, 9, 9]));
    let mut rng = new_rng([9, 9, 9, 9]);
    let mut first = Grid::filled(1, 1, Rgb::new(0, 0, 0)).unwrap();
    let mut second = Grid::filled(1, 1, Rgb::new(0, 0, 0)).unwrap();
    random_image_rgb_with_rng(&mut first, &mut rng);
    random_image_rgb_with_rng(&mut second, &mut rng);
    assert_eq!(first.get_pixel(0, 0), both.get_pixel(0, 0));
    assert_eq!(second.get_pixel(0, 0), both.get_pixel(0, 1));
    // An image without pixels draws nothing.
    let mut rng = new_rng([9, 9, 9, 9]);
    let mut none = Grid::filled(0, 5, Rgb::new(0, 0, 0)).unwrap();
    random_image_rgb_with_rng(&mut none, &mut rng);
    random_image_rgb_with_rng(&mut first, &mut rng);
    assert_eq!(first.get_pixel(0, 0), both.get_pixel(0, 0));
}

#[test]
fn unseeded_generator_holds_its_own_words() {
    let mut img = Grid::filled(1, 2, Rgb::new(0, 0, 0)).unwrap();
    random_image_rgb_with_rng(&mut img, &mut new_deterministic_rng());
    assert_eq!(img.get_pixel(0, 0), Rgb::new(15, 132, 11));
    assert_eq!(img.get_pixel(0, 1), Rgb::new(140, 67, 202));
    let mut same = Grid::filled(1, 2, Rgb::new(0, 0, 0)).unwrap();
    let words = [0x193a6754, 0xa8a7d469, 0x97830e05, 0x113ba7bb];
    random_image_rgb_with_rng(&mut same, &mut new_rng(words));
    assert_eq!(same.get_pixel(0, 0), img.get_pixel(0, 0));
    assert_eq!(same.get_pixel(0, 1), img.get_pixel(0, 1));
}
