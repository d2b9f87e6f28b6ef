use cellcast::error::InputError;
use cellcast::geometry::polygon::{
    bounding_box_2d, build_polygon_2d, build_polygons_2d, check_shapes, decode_vertices,
    max_distance, polygon_area_2d, vertex_coord, DIRECTION_ONE, EMPTY_BBOX, SUBPIXEL,
};

const UNIT: u32 = SUBPIXEL as u32;

fn four_rays() -> Vec<(i32, i32)> {
    vec![
        (0, DIRECTION_ONE),
        (DIRECTION_ONE, 0),
        (0, -DIRECTION_ONE),
        (-DIRECTION_ONE, 0),
    ]
}

fn rays(n: usize) -> Vec<(i32, i32)> {
    (0..n)
        .map(|i| {
            let angle = std::f64::consts::TAU * (i as f64) / (n as f64);
            (
                (angle.sin() * DIRECTION_ONE as f64).round() as i32,
                (angle.cos() * DIRECTION_ONE as f64).round() as i32,
            )
        })
        .collect()
}

#[test]
fn diamond_is_decoded_ray_by_ray() {
    let polygon = build_polygon_2d((5, 5), &vec![3 * UNIT; 4], &four_rays()).unwrap();
    assert_eq!(
        polygon.vertices,
        vec![(5120, 8192), (8192, 5120), (5120, 2048), (2048, 5120)]
    );
    assert_eq!(polygon.bbox, (2048, 8192, 2048, 8192));
    assert_eq!(polygon.dist, 3072);
    // 18 square pixels, doubled, in coordinate units
    assert_eq!(polygon.area, 2 * 18 * 1024 * 1024);
}

#[test]
fn row_uses_sine_and_col_uses_cosine() {
    // one ray at angle zero: sine 0, cosine 1, so the vertex moves along the columns
    let polygon = build_polygon_2d((2, 3), &vec![UNIT], &vec![(0, DIRECTION_ONE)]).unwrap();
    assert_eq!(polygon.vertices, vec![(2 * 1024, 4 * 1024)]);
}

#[test]
fn octagon_from_computed_rays() {
    let polygon = build_polygon_2d((10, 10), &vec![4 * UNIT; 8], &rays(8)).unwrap();
    assert_eq!(
        polygon.vertices,
        vec![
            (10240, 14336),
            (13136, 13136),
            (14336, 10240),
            (13136, 7344),
            (10240, 6144),
            (7344, 7344),
            (6144, 10240),
            (7344, 13136)
        ]
    );
    assert_eq!(polygon.area, 94896128);
    assert_eq!(polygon.bbox, (6144, 14336, 6144, 14336));
}

#[test]
fn scale_is_part_of_the_direction() {
    let doubled_rows: Vec<(i32, i32)> = four_rays().iter().map(|&(s, c)| (2 * s, c)).collect();
    let polygon = build_polygon_2d((5, 5), &vec![UNIT; 4], &doubled_rows).unwrap();
    assert_eq!(
        polygon.vertices,
        vec![(5120, 6144), (7168, 5120), (5120, 4096), (3072, 5120)]
    );
}

#[test]
fn offsets_round_to_nearest_and_halves_up() {
    let half = DIRECTION_ONE / 2;
    assert_eq!(vertex_coord(0, 1000, half), Some(500));
    assert_eq!(vertex_coord(0, 1001, half), Some(501));
    assert_eq!(vertex_coord(0, 1001, -half), Some(-500));
    assert_eq!(vertex_coord(0, 3, -(DIRECTION_ONE / 3)), Some(-1));
    assert_eq!(vertex_coord(0, 1, -half), Some(0));
    assert_eq!(vertex_coord(0, 1, half - 1), Some(0));
    assert_eq!(vertex_coord(7, 0, DIRECTION_ONE), Some(7 * 1024));
}

#[test]
fn coordinate_out_of_range_is_none() {
    assert_eq!(vertex_coord(2_097_151, 1023, DIRECTION_ONE), Some(i32::MAX));
    assert_eq!(vertex_coord(2_097_151, 1024, DIRECTION_ONE), None);
    assert_eq!(vertex_coord(2_097_152, 0, DIRECTION_ONE), None);
    assert_eq!(vertex_coord(0, u32::MAX, -DIRECTION_ONE), None);
    assert_eq!(vertex_coord(0, 0x8000_0000, -DIRECTION_ONE), Some(i32::MIN));
    assert_eq!(vertex_coord(usize::MAX, u32::MAX, i32::MIN), None);
}

#[test]
fn shoelace_area_of_known_shapes() {
    // unit square, both orientations
    assert_eq!(polygon_area_2d(&vec![(0, 0), (0, 1), (1, 1), (1, 0)]), 2);
    assert_eq!(polygon_area_2d(&vec![(1, 0), (1, 1), (0, 1), (0, 0)]), 2);
    // right triangle with legs 3 and 4
    assert_eq!(polygon_area_2d(&vec![(0, 0), (0, 4), (3, 0)]), 12);
    // degenerate polygons have no area
    assert_eq!(polygon_area_2d(&vec![]), 0);
    assert_eq!(polygon_area_2d(&vec![(7, 9)]), 0);
    assert_eq!(polygon_area_2d(&vec![(0, 0), (5, 5)]), 0);
    assert_eq!(polygon_area_2d(&vec![(0, 0), (1, 1), (2, 2)]), 0);
}

#[test]
fn shoelace_area_at_the_coordinate_limits() {
    let lo = i32::MIN;
    let hi = i32::MAX;
    let side = (hi as i128) - (lo as i128);
    assert_eq!(
        polygon_area_2d(&vec![(lo, lo), (lo, hi), (hi, hi), (hi, lo)]),
        (2 * side * side) as u128
    );
}

#[test]
fn bounding_box_is_tight() {
    let vertices = vec![(3, -4), (10, 2), (-7, 5), (0, 0)];
    let bbox = bounding_box_2d(&vertices);
    assert_eq!(bbox, (-7, 10, -4, 5));
    for &(y, x) in &vertices {
        assert!(bbox.0 <= y && y <= bbox.1 && bbox.2 <= x && x <= bbox.3);
    }
    assert_eq!(bounding_box_2d(&vec![]), EMPTY_BBOX);
    assert_eq!(bounding_box_2d(&vec![(4, 9)]), (4, 4, 9, 9));
}

#[test]
fn every_vertex_lies_within_the_bounding_box() {
    let distances: Vec<u32> = (0..32).map(|r| (r * 97 % 13 + 1) * UNIT).collect();
    let polygon = build_polygon_2d((40, 60), &distances, &rays(32)).unwrap();
    assert_eq!(polygon.vertices.len(), 32);
    for &(y, x) in &polygon.vertices {
        assert!(polygon.bbox.0 <= y && y <= polygon.bbox.1);
        assert!(polygon.bbox.2 <= x && x <= polygon.bbox.3);
    }
    assert!(polygon.vertices.iter().any(|v| v.0 == polygon.bbox.0));
    assert!(polygon.vertices.iter().any(|v| v.0 == polygon.bbox.1));
    assert!(polygon.vertices.iter().any(|v| v.1 == polygon.bbox.2));
    assert!(polygon.vertices.iter().any(|v| v.1 == polygon.bbox.3));
    assert_eq!(polygon.dist, 13 * UNIT);
    assert_eq!(polygon.area, polygon_area_2d(&polygon.vertices));
}

#[test]
fn max_distance_of_rows() {
    assert_eq!(max_distance(&vec![]), 0);
    assert_eq!(max_distance(&vec![0]), 0);
    assert_eq!(max_distance(&vec![4, 9, 2]), 9);
    assert_eq!(max_distance(&vec![u32::MAX, 1]), u32::MAX);
}

#[test]
fn zero_radius_polygon_is_legal() {
    let polygon = build_polygon_2d((5, 5), &vec![0; 4], &four_rays()).unwrap();
    assert_eq!(polygon.vertices, vec![(5120, 5120); 4]);
    assert_eq!(polygon.area, 0);
    assert_eq!(polygon.bbox, (5120, 5120, 5120, 5120));
    assert_eq!(polygon.dist, 0);
}

#[test]
fn one_polygon_errors() {
    assert_eq!(
        build_polygon_2d((5, 5), &vec![], &vec![]).unwrap_err(),
        InputError::NoRays
    );
    assert_eq!(
        build_polygon_2d((5, 5), &vec![UNIT; 3], &vec![]).unwrap_err(),
        InputError::NoRays
    );
    assert_eq!(
        build_polygon_2d((5, 5), &vec![UNIT; 3], &four_rays()).unwrap_err(),
        InputError::ShapeMismatch
    );
    assert_eq!(
        build_polygon_2d((3_000_000, 5), &vec![UNIT; 4], &four_rays()).unwrap_err(),
        InputError::OutOfRange
    );
    // a ray that reaches below coordinate zero is fine, one below i32::MIN is not
    assert!(build_polygon_2d((0, 0), &vec![UNIT; 4], &four_rays()).is_ok());
    assert_eq!(
        build_polygon_2d((0, 0), &vec![u32::MAX; 4], &four_rays()).unwrap_err(),
        InputError::OutOfRange
    );
}

#[test]
fn decode_vertices_alone() {
    assert_eq!(
        decode_vertices((1, 1), &vec![UNIT, 2 * UNIT], &vec![(0, DIRECTION_ONE), (DIRECTION_ONE, 0)]),
        Ok(vec![(1024, 2048), (3072, 1024)])
    );
    assert_eq!(decode_vertices((1, 1), &vec![], &vec![]), Ok(vec![]));
    assert_eq!(
        decode_vertices((3_000_000, 1), &vec![UNIT], &vec![(0, DIRECTION_ONE)]),
        Err(InputError::OutOfRange)
    );
    assert_eq!(
        decode_vertices((1, 1), &vec![UNIT], &vec![]),
        Err(InputError::ShapeMismatch)
    );
    assert_eq!(
        decode_vertices((3_000_000, 1), &vec![UNIT, UNIT], &vec![(0, DIRECTION_ONE)]),
        Err(InputError::ShapeMismatch)
    );
}

#[test]
fn shapes_are_checked_before_anything_is_built() {
    let rays4 = four_rays();
    let dist = vec![vec![UNIT; 4], vec![2 * UNIT; 4]];
    let pos = vec![(5, 5), (20, 20)];
    assert_eq!(check_shapes(&dist, &pos, 2, 4, &rays4), Ok(()));
    assert_eq!(check_shapes(&dist, &pos, 2, 0, &rays4), Err(InputError::NoRays));
    assert_eq!(check_shapes(&dist, &pos, 0, 0, &vec![]), Err(InputError::NoRays));
    assert_eq!(check_shapes(&dist, &pos, 3, 4, &rays4), Err(InputError::ShapeMismatch));
    assert_eq!(check_shapes(&dist, &pos, 2, 3, &rays4), Err(InputError::ShapeMismatch));
    assert_eq!(
        check_shapes(&dist, &vec![(5, 5)], 2, 4, &rays4),
        Err(InputError::ShapeMismatch)
    );
    assert_eq!(
        check_shapes(&vec![vec![UNIT; 4], vec![UNIT; 3]], &pos, 2, 4, &rays4),
        Err(InputError::ShapeMismatch)
    );
    assert_eq!(check_shapes(&vec![], &vec![], 0, 4, &rays4), Ok(()));
}

#[test]
fn many_polygons_in_the_order_given() {
    let rays4 = four_rays();
    let dist = vec![vec![UNIT; 4], vec![2 * UNIT, UNIT, 2 * UNIT, UNIT]];
    let pos = vec![(5, 5), (20, 30)];
    let polygons = build_polygons_2d(&dist, &pos, 2, 4, &rays4).unwrap();
    assert_eq!(polygons.len(), 2);
    assert_eq!(polygons[0].vertices, vec![(5120, 6144), (6144, 5120), (5120, 4096), (4096, 5120)]);
    assert_eq!(polygons[0].area, 2 * 2 * 1024 * 1024);
    assert_eq!(
        polygons[1].vertices,
        vec![(20480, 32768), (21504, 30720), (20480, 28672), (19456, 30720)]
    );
    assert_eq!(polygons[1].bbox, (19456, 21504, 28672, 32768));
    assert_eq!(polygons[1].dist, 2048);
    assert_eq!(polygons[1].area, 2 * 4 * 1024 * 1024);
    assert_eq!(build_polygons_2d(&vec![], &vec![], 0, 4, &rays4).unwrap().len(), 0);
}

#[test]
fn many_polygons_errors() {
    let rays4 = four_rays();
    let dist = vec![vec![UNIT; 4], vec![UNIT; 4]];
    assert_eq!(
        build_polygons_2d(&dist, &vec![(5, 5), (6, 6)], 2, 0, &rays4).unwrap_err(),
        InputError::NoRays
    );
    assert_eq!(
        build_polygons_2d(&dist, &vec![(5, 5)], 2, 4, &rays4).unwrap_err(),
        InputError::ShapeMismatch
    );
    assert_eq!(
        build_polygons_2d(&dist, &vec![(5, 5), (6, 6)], 2, 4, &rays(5)).unwrap_err(),
        InputError::ShapeMismatch
    );
    assert_eq!(
        build_polygons_2d(&dist, &vec![(5, 5), (5_000_000, 6)], 2, 4, &rays4).unwrap_err(),
        InputError::OutOfRange
    );
}

#[test]
fn polygon_clone_keeps_everything() {
    let polygon = build_polygon_2d((5, 5), &vec![3 * UNIT; 4], &four_rays()).unwrap();
    let copy = polygon.clone();
    assert_eq!(copy.vertices, polygon.vertices);
    assert_eq!(copy.bbox, polygon.bbox);
    assert_eq!(copy.area, polygon.area);
    assert_eq!(copy.dist, polygon.dist);
}

#[test]
fn error_messages_name_the_fault() {
    assert!(InputError::ShapeMismatch.message().contains("disagree"));
    assert!(InputError::NoRays.message().contains("no rays"));
    assert!(InputError::OutOfRange.message().contains("range"));
}
