use converter::canny::{PixelIndex, SPixelIndex};
use converter::clockwise::{sort_clockwise, MAX_COORDINATE, MAX_POINTS};

fn points(raw: &[(usize, usize)]) -> Vec<PixelIndex> {
    raw.iter().map(|&(x, y)| SPixelIndex { x, y }).collect()
}

#[test]
fn a_square_is_walked_around_its_centre() {
    assert_eq!(
        sort_clockwise(&points(&[(0, 0), (2, 0), (2, 2), (0, 2)])),
        Some(points(&[(2, 0), (0, 0), (0, 2), (2, 2)]))
    );
    assert_eq!(
        sort_clockwise(&points(&[(2, 2), (0, 2), (2, 0), (0, 0)])),
        Some(points(&[(0, 2), (2, 2), (2, 0), (0, 0)]))
    );
}

#[test]
fn points_on_the_vertical_line_are_split_by_their_side() {
    assert_eq!(
        sort_clockwise(&points(&[(1, 0), (1, 2), (1, 1), (1, 4), (1, 3)])),
        Some(points(&[(1, 4), (1, 3), (1, 2), (1, 0), (1, 1)]))
    );
}

#[test]
fn on_one_ray_the_farther_point_comes_first() {
    assert_eq!(
        sort_clockwise(&points(&[(0, 0), (4, 0), (2, 0), (2, 3), (2, 1)])),
        Some(points(&[(4, 0), (2, 0), (0, 0), (2, 3), (2, 1)]))
    );
}

#[test]
fn few_points_stay_as_they_are() {
    assert_eq!(sort_clockwise(&Vec::new()), Some(Vec::new()));
    assert_eq!(sort_clockwise(&points(&[(5, 5)])), Some(points(&[(5, 5)])));
}

#[test]
fn points_that_occur_twice_are_kept_twice() {
    assert_eq!(
        sort_clockwise(&points(&[(3, 1), (3, 1), (0, 0), (6, 2)])),
        Some(points(&[(0, 0), (6, 2), (3, 1), (3, 1)]))
    );
}

#[test]
fn the_result_holds_the_same_points() {
    let edge = points(&[(7, 1), (3, 9), (3, 3), (0, 4), (8, 8), (5, 0), (1, 1), (9, 5)]);
    let mut sorted = sort_clockwise(&edge).unwrap();
    let mut expected = edge.clone();
    sorted.sort_by_key(|p| (p.x, p.y));
    expected.sort_by_key(|p| (p.x, p.y));
    assert_eq!(sorted, expected);
}

#[test]
fn the_largest_coordinates_are_ordered_too() {
    let edge = points(&[(MAX_COORDINATE, 0), (0, MAX_COORDINATE), (MAX_COORDINATE, MAX_COORDINATE), (0, 0)]);
    let sorted = sort_clockwise(&edge).unwrap();
    assert_eq!(sorted.len(), 4);
    assert_eq!(
        sorted,
        points(&[(MAX_COORDINATE, 0), (0, MAX_COORDINATE), (MAX_COORDINATE, MAX_COORDINATE), (0, 0)])
    );
}

#[test]
fn a_coordinate_above_the_limit_is_refused() {
    assert_eq!(sort_clockwise(&points(&[(0, 0), (MAX_COORDINATE + 1, 0)])), None);
    assert_eq!(sort_clockwise(&points(&[(0, MAX_COORDINATE + 1)])), None);
    assert_eq!(MAX_POINTS, 0x7fff_ffff);
}
