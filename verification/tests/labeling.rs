use cellcast::error::InputError;
use cellcast::geometry::polygon::{DIRECTION_ONE, SUBPIXEL};
use cellcast::labeling::polygon_label::{
    label_polygons_2d, radial_dist_to_coords_2d, radial_polygon_to_label_2d,
};
use cellcast::labeling::raster::{clip_range, inside_polygon, render_polygon_2d};

const UNIT: u32 = SUBPIXEL as u32;

fn score(p: f32) -> u32 {
    p.to_bits()
}

fn four_rays() -> Vec<(i32, i32)> {
    vec![
        (0, DIRECTION_ONE),
        (DIRECTION_ONE, 0),
        (0, -DIRECTION_ONE),
        (-DIRECTION_ONE, 0),
    ]
}

fn square(r0: i32, c0: i32, r1: i32, c1: i32) -> Vec<(i32, i32)> {
    let s = SUBPIXEL;
    vec![(r0 * s, c0 * s), (r0 * s, c1 * s), (r1 * s, c1 * s), (r1 * s, c0 * s)]
}

fn diamond_pixels() -> Vec<(usize, usize)> {
    vec![
        (3, 4), (3, 5),
        (4, 3), (4, 4), (4, 5), (4, 6),
        (5, 2), (5, 3), (5, 4), (5, 5), (5, 6), (5, 7),
        (6, 3), (6, 4), (6, 5), (6, 6),
        (7, 4), (7, 5),
    ]
}

fn pixels(raster: (Vec<usize>, Vec<usize>)) -> Vec<(usize, usize)> {
    assert_eq!(raster.0.len(), raster.1.len());
    raster.0.into_iter().zip(raster.1).collect()
}

#[test]
fn inside_a_square_is_half_open() {
    let v = square(1, 1, 5, 5);
    assert!(inside_polygon(1, 1, &v));
    assert!(inside_polygon(4, 4, &v));
    assert!(inside_polygon(1, 4, &v));
    assert!(inside_polygon(4, 1, &v));
    // the far row and the far column are outside
    assert!(!inside_polygon(5, 1, &v));
    assert!(!inside_polygon(1, 5, &v));
    assert!(!inside_polygon(5, 5, &v));
    assert!(!inside_polygon(0, 0, &v));
    assert!(!inside_polygon(0, 3, &v));
    assert!(!inside_polygon(3, 0, &v));
    assert!(!inside_polygon(3, 6, &v));
}

#[test]
fn inside_does_not_depend_on_orientation_or_start() {
    let v = square(1, 1, 5, 5);
    let mut reversed = v.clone();
    reversed.reverse();
    let mut rotated = v.clone();
    rotated.rotate_left(2);
    for r in 0..7 {
        for c in 0..7 {
            assert_eq!(inside_polygon(r, c, &v), inside_polygon(r, c, &reversed));
            assert_eq!(inside_polygon(r, c, &v), inside_polygon(r, c, &rotated));
        }
    }
}

#[test]
fn inside_with_subpixel_vertices() {
    // a triangle whose slanted edge passes between pixel centers
    let v = vec![(0, 0), (0, 4 * 1024 + 512), (4 * 1024 + 512, 0)];
    assert!(inside_polygon(0, 4, &v));
    assert!(!inside_polygon(0, 5, &v));
    assert!(inside_polygon(2, 2, &v));
    // (2, 3) lies beyond the slanted edge: 2 + 3 > 4.5
    assert!(!inside_polygon(2, 3, &v));
    assert!(inside_polygon(1, 3, &v));
    assert!(inside_polygon(4, 0, &v));
    assert!(!inside_polygon(4, 1, &v));
}

#[test]
fn degenerate_polygons_cover_nothing() {
    assert!(!inside_polygon(0, 0, &vec![]));
    assert!(!inside_polygon(3, 3, &vec![(3 * 1024, 3 * 1024)]));
    assert!(!inside_polygon(3, 3, &vec![(0, 0), (6 * 1024, 6 * 1024)]));
    assert!(!inside_polygon(3, 3, &vec![(3 * 1024, 3 * 1024); 4]));
}

#[test]
fn inside_far_from_the_polygon() {
    let v = square(1, 1, 5, 5);
    assert!(!inside_polygon(usize::MAX, usize::MAX, &v));
    assert!(!inside_polygon(3, usize::MAX, &v));
    assert!(!inside_polygon(usize::MAX, 3, &v));
    let wide = vec![
        (i32::MIN, i32::MIN),
        (i32::MIN, i32::MAX),
        (i32::MAX, i32::MAX),
        (i32::MAX, i32::MIN),
    ];
    assert!(inside_polygon(0, 0, &wide));
    assert!(inside_polygon(2_097_151, 2_097_151, &wide));
    assert!(!inside_polygon(2_097_152, 0, &wide));
    assert!(!inside_polygon(usize::MAX, 0, &wide));
}

#[test]
fn clipped_ranges() {
    assert_eq!(clip_range(2048, 8192, 10), (2, 9));
    assert_eq!(clip_range(2048, 8192, 5), (2, 5));
    assert_eq!(clip_range(-3000, 2500, 10), (0, 3));
    assert_eq!(clip_range(100, 900, 10), (0, 1));
    assert_eq!(clip_range(1025, 2047, 10), (1, 2));
    assert_eq!(clip_range(0, 0, 10), (0, 1));
    let (start, end) = clip_range(-3000, -1, 10);
    assert_eq!(start, end);
    let (start, end) = clip_range(20 * 1024, 30 * 1024, 10);
    assert_eq!(start, end);
    let (start, end) = clip_range(0, 5000, 0);
    assert_eq!(start, end);
    let (start, end) = clip_range(i32::MAX, i32::MIN, 10);
    assert_eq!(start, end);
    assert_eq!(clip_range(i32::MIN, i32::MAX, 10), (0, 10));
}

#[test]
fn rendering_lists_pixels_in_row_major_order() {
    assert_eq!(
        pixels(render_polygon_2d(&square(1, 1, 3, 4), (10, 10))),
        vec![(1, 1), (1, 2), (1, 3), (2, 1), (2, 2), (2, 3)]
    );
}

#[test]
fn rendering_the_diamond() {
    let v = vec![(5120, 8192), (8192, 5120), (5120, 2048), (2048, 5120)];
    assert_eq!(pixels(render_polygon_2d(&v, (10, 10))), diamond_pixels());
}

#[test]
fn rendering_is_clipped_to_the_image() {
    assert_eq!(
        pixels(render_polygon_2d(&square(-2, -2, 2, 2), (10, 10))),
        vec![(0, 0), (0, 1), (1, 0), (1, 1)]
    );
    assert_eq!(
        pixels(render_polygon_2d(&square(8, 8, 20, 20), (10, 10))),
        vec![(8, 8), (8, 9), (9, 8), (9, 9)]
    );
    assert_eq!(
        pixels(render_polygon_2d(&square(1, 1, 5, 5), (3, 2))),
        vec![(1, 1), (2, 1)]
    );
}

#[test]
fn a_polygon_outside_the_image_covers_nothing() {
    let nothing: Vec<(usize, usize)> = vec![];
    assert_eq!(pixels(render_polygon_2d(&square(20, 20, 30, 30), (10, 10))), nothing);
    assert_eq!(pixels(render_polygon_2d(&square(-9, -9, -1, -1), (10, 10))), nothing);
    assert_eq!(pixels(render_polygon_2d(&square(2, -9, 5, -1), (10, 10))), nothing);
    assert_eq!(pixels(render_polygon_2d(&square(1, 1, 5, 5), (0, 10))), nothing);
    assert_eq!(pixels(render_polygon_2d(&square(1, 1, 5, 5), (10, 0))), nothing);
    assert_eq!(pixels(render_polygon_2d(&vec![], (10, 10))), nothing);
}

#[test]
fn rendering_agrees_with_the_inside_test_everywhere() {
    let v = vec![
        (1000, 9000), (4000, 6000), (9500, 9700), (7000, 5000),
        (9000, 1200), (5000, 3000), (800, 700), (3000, 4500),
    ];
    let listed = pixels(render_polygon_2d(&v, (12, 12)));
    let mut expected = vec![];
    for r in 0..12 {
        for c in 0..12 {
            if inside_polygon(r, c, &v) {
                expected.push((r, c));
            }
        }
    }
    assert!(!expected.is_empty());
    assert_eq!(listed, expected);
}

#[test]
fn coordinates_of_all_detections() {
    let coords = radial_dist_to_coords_2d(
        &vec![vec![UNIT; 4], vec![3 * UNIT; 4]],
        &vec![(1, 1), (5, 5)],
        2,
        4,
        &four_rays(),
    )
    .unwrap();
    assert_eq!(
        coords,
        vec![
            vec![(1024, 2048), (2048, 1024), (1024, 0), (0, 1024)],
            vec![(5120, 8192), (8192, 5120), (5120, 2048), (2048, 5120)],
        ]
    );
}

#[test]
fn coordinates_errors() {
    let dist = vec![vec![UNIT; 4]];
    assert_eq!(
        radial_dist_to_coords_2d(&dist, &vec![(1, 1)], 1, 0, &four_rays()).unwrap_err(),
        InputError::NoRays
    );
    assert_eq!(
        radial_dist_to_coords_2d(&dist, &vec![(1, 1)], 2, 4, &four_rays()).unwrap_err(),
        InputError::ShapeMismatch
    );
    assert_eq!(
        radial_dist_to_coords_2d(&dist, &vec![(1, 4_000_000)], 1, 4, &four_rays()).unwrap_err(),
        InputError::OutOfRange
    );
}

#[test]
fn one_diamond_in_a_ten_by_ten_image() {
    let image = radial_polygon_to_label_2d(
        &vec![vec![3 * UNIT; 4]],
        &vec![score(1.0)],
        &vec![(5, 5)],
        &vec![0],
        (10, 10),
        &four_rays(),
    )
    .unwrap();
    assert_eq!(image.shape(), (10, 10));
    let rows = image.to_rows();
    let inside = diamond_pixels();
    let mut count = 0;
    for r in 0..10 {
        for c in 0..10 {
            if inside.contains(&(r, c)) {
                assert_eq!(rows[r][c], 1);
                count += 1;
            } else {
                assert_eq!(rows[r][c], 0);
            }
        }
    }
    // as many pixels as the shoelace area of the diamond
    assert_eq!(count, 18);
    // the region hangs together: every pixel but (5, 5) has a labeled neighbor nearer the center
    for &(r, c) in &inside {
        if (r, c) != (5, 5) {
            let nr = if r < 5 { r + 1 } else if r > 5 { r - 1 } else { r };
            let nc = if r != 5 { c } else if c < 5 { c + 1 } else { c - 1 };
            assert_eq!(rows[nr][nc], 1);
        }
    }
    let (sum_r, sum_c) = inside.iter().fold((0, 0), |acc, p| (acc.0 + p.0, acc.1 + p.1));
    // the centroid lies within half a pixel of the center
    assert_eq!((sum_r, sum_c), (90, 81));
    assert!((sum_r as f64 / 18.0 - 5.0).abs() <= 0.5);
    assert!((sum_c as f64 / 18.0 - 5.0).abs() <= 0.5);
}

#[test]
fn the_more_probable_polygon_owns_shared_pixels() {
    let a = square(1, 1, 5, 5);
    let b = square(3, 3, 8, 8);
    for (prob, ids) in [
        (vec![score(0.8), score(0.95)], vec![0usize, 1]),
        (vec![score(0.95), score(0.8)], vec![0usize, 1]),
    ] {
        let winner = if prob[0] > prob[1] { 0 } else { 1 };
        let polygons = vec![a.clone(), b.clone()];
        let image = label_polygons_2d(&polygons, &prob, &ids, (10, 10)).unwrap();
        let rows = image.to_rows();
        let mut shared = 0;
        for r in 0..10 {
            for c in 0..10 {
                let in_a = inside_polygon(r, c, &a);
                let in_b = inside_polygon(r, c, &b);
                let expected = if in_a && in_b {
                    shared += 1;
                    ids[winner] as u16 + 1
                } else if in_a {
                    1
                } else if in_b {
                    2
                } else {
                    0
                };
                assert_eq!(rows[r][c], expected);
            }
        }
        assert_eq!(shared, 4);
    }
}

#[test]
fn among_equal_probabilities_the_later_polygon_wins() {
    let polygons = vec![square(1, 1, 5, 5), square(3, 3, 8, 8)];
    let image = label_polygons_2d(&polygons, &vec![7, 7], &vec![10, 20], (10, 10)).unwrap();
    assert_eq!(image.label_at(3, 3), Some(21));
    assert_eq!(image.label_at(4, 4), Some(21));
    assert_eq!(image.label_at(1, 1), Some(11));
    assert_eq!(image.label_at(7, 7), Some(21));
}

#[test]
fn labels_are_identities_plus_one_and_need_not_be_dense() {
    let image = radial_polygon_to_label_2d(
        &vec![vec![UNIT; 4], vec![2 * UNIT; 4]],
        &vec![score(0.6), score(0.7)],
        &vec![(2, 2), (7, 7)],
        &vec![3, 7],
        (10, 10),
        &four_rays(),
    )
    .unwrap();
    let mut seen = std::collections::BTreeSet::new();
    for row in image.to_rows() {
        for label in row {
            seen.insert(label);
        }
    }
    assert_eq!(seen.into_iter().collect::<Vec<u16>>(), vec![0, 4, 8]);
}

#[test]
fn no_detections_give_a_background_image() {
    let image =
        radial_polygon_to_label_2d(&vec![], &vec![], &vec![], &vec![], (4, 3), &four_rays()).unwrap();
    assert_eq!(image.to_rows(), vec![vec![0u16; 3]; 4]);
}

#[test]
fn the_largest_identity_that_fits() {
    let image = radial_polygon_to_label_2d(
        &vec![vec![UNIT; 4]],
        &vec![1],
        &vec![(2, 2)],
        &vec![65534],
        (5, 5),
        &four_rays(),
    )
    .unwrap();
    assert_eq!(image.label_at(2, 2), Some(65535));
}

#[test]
fn labeling_errors() {
    let dist = vec![vec![UNIT; 4]];
    let prob = vec![1];
    let pos = vec![(2, 2)];
    let ids = vec![0];
    let label = |dist: &Vec<Vec<u32>>,
                 prob: &Vec<u32>,
                 pos: &Vec<(usize, usize)>,
                 ids: &Vec<usize>,
                 shape: (usize, usize),
                 rays: &Vec<(i32, i32)>| {
        radial_polygon_to_label_2d(dist, prob, pos, ids, shape, rays).err()
    };
    let rays4 = four_rays();
    assert_eq!(label(&dist, &prob, &pos, &ids, (5, 5), &rays4), None);
    assert_eq!(label(&dist, &prob, &pos, &ids, (5, 5), &vec![]), Some(InputError::NoRays));
    assert_eq!(
        label(&vec![vec![]], &prob, &pos, &ids, (5, 5), &vec![]),
        Some(InputError::NoRays)
    );
    assert_eq!(
        label(&dist, &vec![], &pos, &ids, (5, 5), &rays4),
        Some(InputError::ShapeMismatch)
    );
    assert_eq!(
        label(&dist, &prob, &vec![], &ids, (5, 5), &rays4),
        Some(InputError::ShapeMismatch)
    );
    assert_eq!(
        label(&dist, &prob, &pos, &vec![0, 1], (5, 5), &rays4),
        Some(InputError::ShapeMismatch)
    );
    assert_eq!(
        label(&vec![vec![UNIT; 3]], &prob, &pos, &ids, (5, 5), &rays4),
        Some(InputError::ShapeMismatch)
    );
    assert_eq!(
        label(&dist, &prob, &pos, &vec![65535], (5, 5), &rays4),
        Some(InputError::OutOfRange)
    );
    assert_eq!(
        label(&dist, &prob, &vec![(9_000_000, 2)], &ids, (5, 5), &rays4),
        Some(InputError::OutOfRange)
    );
    assert_eq!(
        label(&dist, &prob, &pos, &ids, (usize::MAX, usize::MAX), &rays4),
        Some(InputError::OutOfRange)
    );
}

#[test]
fn painting_polygons_errors() {
    let polygons = vec![square(1, 1, 3, 3)];
    assert_eq!(
        label_polygons_2d(&polygons, &vec![], &vec![0], (5, 5)).err(),
        Some(InputError::ShapeMismatch)
    );
    assert_eq!(
        label_polygons_2d(&polygons, &vec![1], &vec![], (5, 5)).err(),
        Some(InputError::ShapeMismatch)
    );
    assert_eq!(
        label_polygons_2d(&polygons, &vec![1], &vec![usize::MAX], (5, 5)).err(),
        Some(InputError::OutOfRange)
    );
    assert_eq!(
        label_polygons_2d(&polygons, &vec![1], &vec![0], (usize::MAX, 1)).err(),
        Some(InputError::OutOfRange)
    );
}
