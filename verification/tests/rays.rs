use cellcast::error::InputError;
use cellcast::geometry::polygon::{build_polygon_2d, DIRECTION_ONE, SUBPIXEL};
use cellcast::geometry::rays::{ray_directions, scale_rays, SCALE_ONE};
use cellcast::models::stardist_2d_versatile_fluo::N_RAYS;

#[test]
fn the_fan_has_a_ray_for_each_distance_of_the_model() {
    assert_eq!(ray_directions().len(), N_RAYS);
}

#[test]
fn ray_zero_points_along_the_columns_and_the_fan_turns_toward_the_rows() {
    let fan = ray_directions();
    assert_eq!(fan[0], (0, DIRECTION_ONE));
    assert_eq!(fan[8], (DIRECTION_ONE, 0));
    assert_eq!(fan[16], (0, -DIRECTION_ONE));
    assert_eq!(fan[24], (-DIRECTION_ONE, 0));
    assert_eq!(fan[4], (11863283, 11863283));
    assert_eq!(fan[1], (3273072, 16454846));
    assert_eq!(fan[31], (-3273072, 16454846));
}

#[test]
fn every_ray_is_the_sine_and_cosine_of_its_angle() {
    let fan = ray_directions();
    for (i, &(sine, cosine)) in fan.iter().enumerate() {
        let angle = std::f64::consts::TAU * (i as f64) / (fan.len() as f64);
        assert_eq!(sine, (angle.sin() * DIRECTION_ONE as f64).round() as i32);
        assert_eq!(cosine, (angle.cos() * DIRECTION_ONE as f64).round() as i32);
    }
}

#[test]
fn every_ray_is_of_unit_length_and_the_steps_are_equal() {
    let fan = ray_directions();
    let one = DIRECTION_ONE as i64;
    let step = |i: usize| {
        let (a, b) = (fan[i], fan[(i + 1) % fan.len()]);
        (
            a.0 as i64 * b.0 as i64 + a.1 as i64 * b.1 as i64,
            a.1 as i64 * b.0 as i64 - a.0 as i64 * b.1 as i64,
        )
    };
    for i in 0..fan.len() {
        let (s, c) = (fan[i].0 as i64, fan[i].1 as i64);
        assert!((s * s + c * c - one * one).abs() <= 2 * one);
        assert!((step(i).0 - step(0).0).abs() <= 2 * one);
        assert!((step(i).1 - step(0).1).abs() <= 2 * one);
        assert!(step(i).1 > 0);
    }
}

#[test]
fn a_circle_of_thirty_two_rays() {
    let unit = SUBPIXEL as u32;
    let polygon = build_polygon_2d((50, 50), &vec![10 * unit; 32], &ray_directions()).unwrap();
    assert_eq!(polygon.bbox, (40 * 1024, 60 * 1024, 40 * 1024, 60 * 1024));
    assert_eq!(polygon.vertices[0], (50 * 1024, 60 * 1024));
    assert_eq!(polygon.vertices[8], (60 * 1024, 50 * 1024));
    // a regular 32-gon of radius 10 has the area 16 * 100 * sin(2 pi / 32)
    let expected = 16.0 * 100.0 * (std::f64::consts::TAU / 32.0).sin();
    let area = polygon.area as f64 / 2.0 / (1024.0 * 1024.0);
    assert!((area - expected).abs() < 0.01);
}

#[test]
fn scaling_by_one_changes_nothing() {
    let fan = ray_directions();
    assert_eq!(scale_rays(&fan, (SCALE_ONE, SCALE_ONE)), Ok(fan));
}

#[test]
fn scaling_stretches_each_axis_by_its_own_factor() {
    let rays = vec![(1000, -1000), (3, 3), (-3, 5), (0, DIRECTION_ONE)];
    assert_eq!(
        scale_rays(&rays, (2 * SCALE_ONE, SCALE_ONE / 2)),
        Ok(vec![(2000, -500), (6, 2), (-6, 3), (0, DIRECTION_ONE / 2)])
    );
    // halves round up
    assert_eq!(
        scale_rays(&vec![(1, -1), (3, -3)], (SCALE_ONE / 2, SCALE_ONE / 2)),
        Ok(vec![(1, 0), (2, -1)])
    );
    assert_eq!(scale_rays(&rays, (0, 0)), Ok(vec![(0, 0); 4]));
    assert_eq!(scale_rays(&vec![], (7, 9)), Ok(vec![]));
}

#[test]
fn a_scale_that_overflows_is_refused() {
    assert_eq!(
        scale_rays(&vec![(1, 1), (i32::MAX, 0)], (SCALE_ONE + 1, SCALE_ONE)),
        Err(InputError::OutOfRange)
    );
    assert_eq!(
        scale_rays(&vec![(0, i32::MIN)], (SCALE_ONE, u32::MAX)),
        Err(InputError::OutOfRange)
    );
    assert_eq!(
        scale_rays(&vec![(i32::MAX, i32::MIN)], (SCALE_ONE, SCALE_ONE)),
        Ok(vec![(i32::MAX, i32::MIN)])
    );
}

#[test]
fn a_scaled_polygon_is_stretched_about_its_center() {
    let unit = SUBPIXEL as u32;
    let fan = scale_rays(&ray_directions(), (2 * SCALE_ONE, SCALE_ONE)).unwrap();
    let polygon = build_polygon_2d((50, 50), &vec![10 * unit; 32], &fan).unwrap();
    assert_eq!(polygon.bbox, (30 * 1024, 70 * 1024, 40 * 1024, 60 * 1024));
}
