use converter::canny::{
    get_edge_neighbors, get_neighbors, to_points, to_points_with, to_serializable_points,
    trace_strokes, vectorize, PixelIndex, Precision, SPixelIndex, VectorizationError,
};
use converter::raster::Raster;
use converter::trace::Traversal;

fn at(x: usize, y: usize) -> PixelIndex {
    SPixelIndex { x, y }
}

fn manhattan(a: &PixelIndex, b: &PixelIndex) -> usize {
    a.x.abs_diff(b.x) + a.y.abs_diff(b.y)
}

fn full(width: u32, height: u32) -> Raster {
    Raster::new(width, height, vec![255; (width * height) as usize]).unwrap()
}

#[test]
fn raster_needs_one_byte_per_pixel() {
    assert!(Raster::new(2, 3, vec![0; 6]).is_some());
    assert!(Raster::new(2, 3, vec![0; 5]).is_none());
    assert!(Raster::new(2, 3, vec![0; 7]).is_none());
    assert!(Raster::new(0, 0, Vec::new()).is_some());
}

#[test]
fn raster_reads_back_what_it_was_given() {
    let raster = Raster::new(3, 2, vec![0, 1, 2, 10, 129, 128]).unwrap();
    assert_eq!(raster.width(), 3);
    assert_eq!(raster.height(), 2);
    assert_eq!(raster.area(), 6);
    assert_eq!(raster.intensity(2, 0), 2);
    assert_eq!(raster.intensity(0, 1), 10);
    assert_eq!(raster.cell_index(1, 1), 4);
    assert!(raster.is_lit(1, 1));
    assert!(!raster.is_lit(2, 1));
    assert!(!raster.is_lit(3, 0));
    assert!(!raster.is_lit(0, 2));
}

#[test]
fn neighbors_of_an_inner_pixel_come_in_the_fixed_order() {
    let found = get_neighbors(at(1, 1), 3, 3);
    assert_eq!(
        found,
        vec![at(0, 0), at(0, 1), at(0, 2), at(1, 0), at(1, 2), at(2, 0), at(2, 1), at(2, 2)]
    );
}

#[test]
fn neighbors_of_a_corner_stay_on_the_grid() {
    assert_eq!(get_neighbors(at(0, 0), 3, 3), vec![at(0, 1), at(1, 0), at(1, 1)]);
    assert_eq!(get_neighbors(at(2, 2), 3, 3), vec![at(1, 1), at(1, 2), at(2, 1)]);
    assert_eq!(get_neighbors(at(0, 0), 1, 1), Vec::new());
}

#[test]
fn neighbors_of_a_pixel_next_to_the_grid() {
    assert_eq!(get_neighbors(at(3, 1), 3, 3), vec![at(2, 0), at(2, 1), at(2, 2)]);
    assert_eq!(get_neighbors(at(usize::MAX, usize::MAX), 3, 3), Vec::new());
    assert_eq!(get_neighbors(at(1, 1), 0, 0), Vec::new());
}

#[test]
fn edge_neighbors_are_the_foreground_ones() {
    let raster = Raster::new(3, 3, vec![255, 0, 129, 0, 255, 128, 200, 0, 0]).unwrap();
    assert_eq!(get_edge_neighbors(at(1, 1), &raster), vec![at(0, 0), at(0, 2), at(2, 0)]);
}

#[test]
fn full_three_by_three_raster_gives_one_spaced_edge() {
    let record = to_serializable_points(&full(3, 3), 3, 3).unwrap();
    assert_eq!(record.dx_skip, 1);
    assert_eq!(record.dy_skip, 1);
    assert_eq!(record.px_skip, 2);
    assert_eq!(record.width, 3);
    assert_eq!(record.height, 3);
    assert_eq!(record.edges.len(), 1);
    assert_eq!(record.edges[0], vec![at(1, 1), at(0, 2)]);
    let edge = &record.edges[0];
    for i in 0..edge.len() {
        for j in 0..edge.len() {
            if i != j {
                assert!(manhattan(&edge[i], &edge[j]) >= 2);
            }
        }
    }
}

#[test]
fn breadth_first_explores_in_order_of_discovery() {
    let edges = to_points_with(&full(3, 3), 3, 3, Traversal::BreadthFirst).unwrap();
    assert_eq!(edges, vec![vec![at(1, 1), at(0, 2), at(2, 0), at(2, 2)]]);
    let depth = to_points_with(&full(3, 3), 3, 3, Traversal::DepthFirst).unwrap();
    assert_eq!(depth, to_points(&full(3, 3), 3, 3).unwrap());
}

#[test]
fn all_background_raster_has_no_edges() {
    for (width, height) in [(1u32, 1u32), (3, 3), (7, 2), (0, 0), (0, 5)] {
        let raster = Raster::new(width, height, vec![0; (width * height) as usize]).unwrap();
        assert_eq!(to_points(&raster, 1, 1), Ok(Vec::new()));
        let record = to_serializable_points(&raster, 1, 1).unwrap();
        assert!(record.edges.is_empty());
    }
    let at_threshold = Raster::new(2, 2, vec![128; 4]).unwrap();
    assert_eq!(to_points(&at_threshold, 2, 2), Ok(Vec::new()));
}

#[test]
fn zero_target_is_an_invalid_precision() {
    let raster = full(3, 3);
    assert_eq!(to_points(&raster, 0, 3), Err(VectorizationError::InvalidPrecision));
    assert_eq!(to_points(&raster, 3, 0), Err(VectorizationError::InvalidPrecision));
    assert_eq!(to_points(&raster, 0, 0), Err(VectorizationError::InvalidPrecision));
    assert_eq!(
        to_serializable_points(&raster, 0, 1).unwrap_err(),
        VectorizationError::InvalidPrecision
    );
    assert_eq!(
        to_points_with(&raster, 1, 0, Traversal::BreadthFirst),
        Err(VectorizationError::InvalidPrecision)
    );
}

#[test]
fn skips_are_the_extent_divided_by_the_target() {
    let raster = Raster::new(10, 7, vec![0; 70]).unwrap();
    let record = to_serializable_points(&raster, 3, 2).unwrap();
    assert_eq!(record.dx_skip, 3);
    assert_eq!(record.dy_skip, 3);
    assert_eq!(record.px_skip, 6);
    let coarse = to_serializable_points(&raster, 20, 8).unwrap();
    assert_eq!(coarse.dx_skip, 0);
    assert_eq!(coarse.dy_skip, 0);
    assert_eq!(coarse.px_skip, 0);
}

#[test]
fn a_lone_foreground_pixel_seeds_a_trace_without_points() {
    let raster = Raster::new(3, 3, vec![0, 0, 0, 0, 255, 0, 0, 0, 0]).unwrap();
    assert_eq!(to_points(&raster, 3, 3), Ok(Vec::new()));
}

#[test]
fn two_separate_strokes_give_two_edges() {
    // Two horizontal bars, three rows apart.
    let mut pixels = vec![0u8; 5 * 5];
    for x in 0..5 {
        pixels[x] = 255;
        pixels[4 * 5 + x] = 255;
    }
    let raster = Raster::new(5, 5, pixels).unwrap();
    let edges = to_points(&raster, 5, 5).unwrap();
    assert_eq!(edges, vec![vec![at(1, 0), at(3, 0)], vec![at(1, 4), at(3, 4)]]);
}

#[test]
fn no_pixel_is_accepted_twice_and_points_are_foreground() {
    let width = 6u32;
    let height = 5u32;
    let mut pixels = Vec::new();
    for k in 0..(width * height) {
        pixels.push(if (k * 7 + k / 3) % 4 != 0 { 200u8 } else { 17u8 });
    }
    let lit = pixels.iter().filter(|v| **v > 128).count();
    let raster = Raster::new(width, height, pixels).unwrap();
    for order in [Traversal::DepthFirst, Traversal::BreadthFirst] {
        for target in [1u32, 2, 3, 6] {
            let edges = to_points_with(&raster, target, target, order).unwrap();
            let skip = (width / target + height / target) as usize;
            let mut seen: Vec<PixelIndex> = Vec::new();
            for edge in &edges {
                assert!(!edge.is_empty());
                for (i, p) in edge.iter().enumerate() {
                    assert!(raster.is_lit(p.x, p.y));
                    assert!(!seen.contains(p));
                    seen.push(*p);
                    for q in &edge[..i] {
                        assert!(manhattan(p, q) >= skip);
                    }
                }
            }
            assert!(seen.len() <= lit);
        }
    }
}

#[test]
fn the_same_input_gives_the_same_result() {
    let pixels: Vec<u8> = (0..48u32).map(|k| if k % 5 < 3 { 255 } else { 0 }).collect();
    let one = Raster::new(8, 6, pixels.clone()).unwrap();
    let two = Raster::new(8, 6, pixels).unwrap();
    assert_eq!(to_serializable_points(&one, 4, 3), to_serializable_points(&two, 4, 3));
    assert_eq!(to_serializable_points(&one, 4, 3), to_serializable_points(&one, 4, 3));
}

#[test]
fn strokes_for_a_given_spacing() {
    let raster = full(3, 3);
    assert_eq!(trace_strokes(&raster, 2, Traversal::DepthFirst), vec![vec![at(1, 1), at(0, 2)]]);
    // With no spacing asked for, every step accepts the last fresh neighbour
    // while the stroke is empty and the first of the nearest ones afterwards.
    assert_eq!(
        trace_strokes(&raster, 0, Traversal::DepthFirst),
        vec![vec![at(1, 1), at(1, 2)]]
    );
    assert_eq!(trace_strokes(&raster, 5, Traversal::DepthFirst), vec![vec![at(1, 1)]]);
    assert_eq!(trace_strokes(&full(0, 0), 1, Traversal::BreadthFirst), Vec::<Vec<PixelIndex>>::new());
}

#[test]
fn a_precision_of_one_keeps_every_pixel_in_reach() {
    let record = vectorize(&full(3, 3), Precision { numerator: 1, denominator: 1 }).unwrap();
    assert_eq!(record.dx_skip, 1);
    assert_eq!(record.dy_skip, 1);
    assert_eq!(record.px_skip, 2);
    assert_eq!(record.edges, vec![vec![at(1, 1), at(0, 2)]]);
    assert_eq!(Ok(record), to_serializable_points(&full(3, 3), 3, 3));
}

#[test]
fn the_target_is_the_extent_scaled_and_rounded_down() {
    let nine_tenths = Precision { numerator: 9, denominator: 10 };
    assert_eq!(nine_tenths.target_extent(10), 9);
    assert_eq!(nine_tenths.target_extent(11), 9);
    assert_eq!(nine_tenths.target_extent(1), 0);
    assert_eq!(nine_tenths.target_extent(0), 0);
    assert_eq!(Precision { numerator: 3, denominator: 1 }.target_extent(u32::MAX), 3 * u32::MAX as u64);
    assert_eq!(Precision { numerator: u32::MAX, denominator: 1 }.target_extent(u32::MAX), 18446744065119617025);
    assert_eq!(Precision { numerator: 5, denominator: 0 }.target_extent(100), 0);
    let raster = Raster::new(10, 7, vec![0; 70]).unwrap();
    let record = vectorize(&raster, Precision { numerator: 1, denominator: 3 }).unwrap();
    assert_eq!((record.dx_skip, record.dy_skip, record.px_skip), (3, 3, 6));
    let fine = vectorize(&raster, Precision { numerator: 5, denominator: 2 }).unwrap();
    assert_eq!((fine.dx_skip, fine.dy_skip, fine.px_skip), (0, 0, 0));
}

#[test]
fn a_precision_that_leaves_no_target_is_invalid() {
    let raster = full(3, 3);
    for (numerator, denominator) in [(0u32, 1u32), (1, 4), (1, 0), (0, 0), (3, 10)] {
        assert_eq!(
            vectorize(&raster, Precision { numerator, denominator }),
            Err(VectorizationError::InvalidPrecision)
        );
    }
    assert!(vectorize(&raster, Precision { numerator: 1, denominator: 3 }).is_ok());
    assert_eq!(
        vectorize(&full(0, 0), Precision { numerator: 1, denominator: 1 }),
        Err(VectorizationError::InvalidPrecision)
    );
    let flat = Raster::new(4, 1, vec![255; 4]).unwrap();
    assert_eq!(
        vectorize(&flat, Precision { numerator: 1, denominator: 2 }),
        Err(VectorizationError::InvalidPrecision)
    );
}
