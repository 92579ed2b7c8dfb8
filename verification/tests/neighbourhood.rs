use texsyn::grid::Grid;
use texsyn::neighbourhood::{Neighbourhood, NeighbourhoodElem};
use texsyn::pixel::Luma;

fn ramp(factor: u8) -> Grid<Luma> {
    let v: Vec<Luma> = (0u8..25u8).map(|n| Luma::new(factor * n)).collect();
    Grid::from_vec(5, 5, v).unwrap()
}

fn corner_cut() -> Neighbourhood {
    let mut elems = Grid::filled(3, 3, NeighbourhoodElem::On).unwrap();
    elems.put_pixel(2, 1, NeighbourhoodElem::Off);
    elems.put_pixel(1, 2, NeighbourhoodElem::Off);
    elems.put_pixel(2, 2, NeighbourhoodElem::Off);
    Neighbourhood::new(elems, (1, 1))
}

#[test]
fn test_neighbourhood_iterator() {
    let neighbourhood = corner_cut();
    let img = ramp(1);
    let iter_pixels = neighbourhood.image_iter(&img, (2, 2));
    let iter_pixels_ref: Vec<Luma> = [6u8, 7, 8, 11, 12, 16].iter().map(|n| Luma::new(*n)).collect();
    assert_eq!(iter_pixels, iter_pixels_ref);
}

#[test]
fn test_neighbourhood_difference() {
    let img1 = ramp(1);
    let img2 = ramp(2);
    let neighbourhood = corner_cut();
    let d = neighbourhood.difference((2, 2), &img1, (2, 2), &img2);
    assert_eq!(d, 60);
}

#[test]
fn neighbourhood_is_cropped_at_the_edges() {
    let all_on = Neighbourhood::new(Grid::filled(3, 3, NeighbourhoodElem::On).unwrap(), (1, 1));
    let img = ramp(1);
    let values = |pixels: Vec<Luma>| -> Vec<u8> { pixels.iter().map(|p| p.value).collect() };
    // Inside the image nothing is cut.
    assert_eq!(values(all_on.image_iter(&img, (1, 1))), vec![0, 1, 2, 5, 6, 7, 10, 11, 12]);
    // At the top-left corner the first column and the first row are cut.
    assert_eq!(values(all_on.image_iter(&img, (0, 0))), vec![0, 1, 5, 6]);
    // Towards the right and the bottom, what reaches past the image when the
    // neighbourhood starts at the reference pixel is cut.
    assert_eq!(values(all_on.image_iter(&img, (3, 2))), vec![7, 8, 12, 13, 17, 18]);
    assert_eq!(values(all_on.image_iter(&img, (4, 4))), vec![18]);
    assert_eq!(values(all_on.image_iter(&img, (7, 2))), Vec::<u8>::new());
    assert_eq!(values(all_on.image_iter(&img, (usize::MAX, usize::MAX))), Vec::<u8>::new());
}

#[test]
fn difference_pairs_pixels_in_order() {
    let img1 = ramp(1);
    let img2 = ramp(2);
    let all_on = Neighbourhood::new(Grid::filled(3, 3, NeighbourhoodElem::On).unwrap(), (1, 1));
    // Four pixels around (0, 0) against the first four of nine around (1, 1).
    // |0 - 0| + |1 - 2| + |5 - 4| + |6 - 10|
    assert_eq!(all_on.difference((0, 0), &img1, (1, 1), &img2), 6);
    assert_eq!(all_on.difference((2, 2), &img1, (2, 2), &img1), 0);
    assert_eq!(all_on.difference((9, 9), &img1, (2, 2), &img2), 0);
}
