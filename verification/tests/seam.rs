use texsyn::grid::Grid;
use texsyn::seam::{cost_map, min_cost_seam, min_horizontal_seam, min_vertical_seam};

fn surface(rows: &[&[u32]]) -> Grid<u32> {
    let height = rows.len() as u32;
    let width = rows[0].len() as u32;
    let mut cells = Vec::new();
    for row in rows {
        cells.extend_from_slice(row);
    }
    Grid::from_vec(width, height, cells).unwrap()
}

fn wavy(width: u32, height: u32) -> Grid<u32> {
    let mut cells = Vec::new();
    for y in 0..height {
        for x in 0..width {
            cells.push((x * 7 + y * 13 + x * y) % 10);
        }
    }
    Grid::from_vec(width, height, cells).unwrap()
}

#[test]
fn cost_map_accumulates_the_cheapest_way_down() {
    let s = surface(&[&[1, 5, 9, 0], &[4, 1, 1, 0], &[9, 9, 1, 0], &[1, 2, 3, 0]]);
    let costs = cost_map(&s, true, 3, 4);
    assert_eq!((costs.width(), costs.height()), (3, 4));
    let want: [[u64; 3]; 4] = [[1, 5, 9], [5, 2, 6], [11, 11, 3], [12, 5, 6]];
    for y in 0..4 {
        for x in 0..3 {
            assert_eq!(costs.get_pixel(x, y), want[y as usize][x as usize]);
        }
    }
}

#[test]
fn vertical_seam_follows_the_cheapest_cells() {
    let s = surface(&[&[1, 5, 9, 0], &[4, 1, 1, 0], &[9, 9, 1, 0], &[1, 2, 3, 0]]);
    assert_eq!(min_vertical_seam(&s, 3), vec![0, 1, 2, 1]);
}

#[test]
fn horizontal_seam_is_the_transpose() {
    let s = surface(&[&[1, 4, 9, 1], &[5, 1, 9, 2], &[9, 1, 1, 3], &[0, 0, 0, 0]]);
    assert_eq!(min_horizontal_seam(&s, 3), vec![0, 1, 2, 1]);
}

#[test]
fn seam_prefers_its_own_lane_then_the_lower_one() {
    let flat = surface(&[&[2, 2, 2], &[2, 2, 2], &[2, 2, 2]]);
    assert_eq!(min_vertical_seam(&flat, 3), vec![0, 0, 0]);
    // Both neighbours are cheaper than the lane itself, and cost the same.
    let s = surface(&[&[1, 5, 1], &[9, 0, 9]]);
    assert_eq!(min_vertical_seam(&s, 3), vec![0, 1]);
    let s = surface(&[&[3, 5, 1], &[9, 0, 9]]);
    assert_eq!(min_vertical_seam(&s, 3), vec![2, 1]);
}

#[test]
fn seam_of_one_lane_or_one_step() {
    let s = surface(&[&[4, 1], &[0, 7], &[3, 3]]);
    assert_eq!(min_vertical_seam(&s, 1), vec![0, 0, 0]);
    assert_eq!(min_cost_seam(&s, true, 2, 1), vec![1]);
    assert_eq!(min_cost_seam(&s, true, 2, 0), Vec::<u32>::new());
}

#[test]
fn seams_have_one_lane_for_each_step_inside_the_band() {
    let s = wavy(12, 12);
    for overlap in 1..=6u32 {
        let v = min_vertical_seam(&s, overlap);
        let h = min_horizontal_seam(&s, overlap);
        for path in [&v, &h] {
            assert_eq!(path.len(), 12);
            for k in 0..12 {
                assert!(path[k] < overlap);
                if k > 0 {
                    assert!(path[k].abs_diff(path[k - 1]) <= 1);
                }
            }
        }
    }
}

#[test]
fn seam_is_no_dearer_than_any_straight_seam() {
    let s = wavy(9, 9);
    let path = min_vertical_seam(&s, 4);
    let cost: u32 = (0..9).map(|y| s.get_pixel(path[y as usize], y)).sum();
    for lane in 0..4 {
        let straight: u32 = (0..9).map(|y| s.get_pixel(lane, y)).sum();
        assert!(cost <= straight);
    }
}

#[test]
fn seam_does_not_depend_on_cells_outside_the_band() {
    let a = wavy(8, 8);
    let mut b = wavy(8, 8);
    for y in 0..8 {
        for x in 3..8 {
            b.put_pixel(x, y, 1000);
        }
    }
    assert_eq!(min_vertical_seam(&a, 3), min_vertical_seam(&b, 3));
    assert_eq!(min_vertical_seam(&a, 3), min_vertical_seam(&a, 3));
}
