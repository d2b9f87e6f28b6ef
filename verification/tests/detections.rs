use cellcast::error::InputError;
use cellcast::geometry::polygon::{DIRECTION_ONE, SUBPIXEL};
use cellcast::process::detections::{label_survivors, rank_detections, Ranked};

const UNIT: u32 = SUBPIXEL as u32;

fn four_rays() -> Vec<(i32, i32)> {
    vec![
        (0, DIRECTION_ONE),
        (DIRECTION_ONE, 0),
        (0, -DIRECTION_ONE),
        (-DIRECTION_ONE, 0),
    ]
}

fn three() -> Ranked {
    rank_detections(
        &vec![vec![UNIT; 4], vec![2 * UNIT; 4], vec![3 * UNIT; 4]],
        &vec![500, 900, 700],
        &vec![(2, 2), (10, 10), (20, 20)],
    )
    .unwrap()
}

#[test]
fn ranking_carries_everything_along() {
    let ranked = three();
    assert_eq!(ranked.ids, vec![1, 2, 0]);
    assert_eq!(ranked.prob, vec![900, 700, 500]);
    assert_eq!(ranked.pos, vec![(10, 10), (20, 20), (2, 2)]);
    assert_eq!(
        ranked.dist,
        vec![vec![2 * UNIT; 4], vec![3 * UNIT; 4], vec![UNIT; 4]]
    );
}

#[test]
fn ranking_of_equal_probabilities_keeps_the_given_order() {
    let ranked = rank_detections(
        &vec![vec![1], vec![2], vec![3]],
        &vec![7, 7, 7],
        &vec![(0, 0), (1, 1), (2, 2)],
    )
    .unwrap();
    assert_eq!(ranked.ids, vec![0, 1, 2]);
}

#[test]
fn ranking_of_nothing_and_of_mismatched_arrays() {
    let ranked = rank_detections(&vec![], &vec![], &vec![]).unwrap();
    assert!(ranked.ids.is_empty() && ranked.dist.is_empty());
    assert_eq!(
        rank_detections(&vec![vec![1]], &vec![], &vec![(0, 0)]).err(),
        Some(InputError::ShapeMismatch)
    );
    assert_eq!(
        rank_detections(&vec![vec![1]], &vec![5], &vec![]).err(),
        Some(InputError::ShapeMismatch)
    );
    assert_eq!(
        rank_detections(&vec![], &vec![5], &vec![(0, 0)]).err(),
        Some(InputError::ShapeMismatch)
    );
}

#[test]
fn survivors_show_with_their_identity() {
    let ranked = three();
    // rank 1, the detection given last, was suppressed
    let image = label_survivors(&ranked, &vec![true, false, true], 0, (30, 30), &four_rays()).unwrap();
    assert_eq!(image.shape(), (30, 30));
    assert_eq!(image.label_at(10, 10), Some(2));
    assert_eq!(image.label_at(20, 20), Some(0));
    assert_eq!(image.label_at(2, 2), Some(1));
    let count = |label: u16| image.to_rows().iter().flatten().filter(|&&l| l == label).count();
    // diamonds of radius two and one cover eight and two pixels
    assert_eq!(count(2), 8);
    assert_eq!(count(1), 2);
    assert_eq!(count(3), 0);
    assert_eq!(count(0), 900 - 10);
}

#[test]
fn a_survivor_is_above_the_probability_threshold() {
    let ranked = three();
    let kept = vec![true, true, true];
    let labels = |threshold: u32| -> Vec<u16> {
        let image = label_survivors(&ranked, &kept, threshold, (30, 30), &four_rays()).unwrap();
        let set: std::collections::BTreeSet<u16> = image.to_rows().into_iter().flatten().collect();
        set.into_iter().collect()
    };
    assert_eq!(labels(0), vec![0, 1, 2, 3]);
    assert_eq!(labels(500), vec![0, 2, 3]);
    assert_eq!(labels(699), vec![0, 2, 3]);
    assert_eq!(labels(700), vec![0, 2]);
    assert_eq!(labels(900), vec![0]);
}

#[test]
fn painting_survivors_errors() {
    let ranked = three();
    let kept = vec![true, true, true];
    let rays4 = four_rays();
    assert_eq!(
        label_survivors(&ranked, &kept, 0, (30, 30), &vec![]).err(),
        Some(InputError::NoRays)
    );
    assert_eq!(
        label_survivors(&ranked, &vec![true, true], 0, (30, 30), &rays4).err(),
        Some(InputError::ShapeMismatch)
    );
    assert_eq!(
        label_survivors(&ranked, &kept, 0, (30, 30), &rays4[..3].to_vec()).err(),
        Some(InputError::ShapeMismatch)
    );
    assert_eq!(
        label_survivors(&ranked, &kept, 0, (usize::MAX, 30), &rays4).err(),
        Some(InputError::OutOfRange)
    );
    let lopsided = Ranked { ids: vec![0, 1], dist: vec![vec![UNIT; 4]], prob: vec![1, 2], pos: vec![(1, 1), (2, 2)] };
    assert_eq!(
        label_survivors(&lopsided, &vec![true, true], 0, (5, 5), &rays4).err(),
        Some(InputError::ShapeMismatch)
    );
    let beyond = Ranked { ids: vec![70000], dist: vec![vec![UNIT; 4]], prob: vec![1], pos: vec![(1, 1)] };
    assert_eq!(
        label_survivors(&beyond, &vec![true], 0, (5, 5), &rays4).err(),
        Some(InputError::OutOfRange)
    );
    // what does not survive is not looked at
    assert!(label_survivors(&beyond, &vec![false], 0, (5, 5), &rays4).is_ok());
    let short = Ranked { ids: vec![0, 1], dist: vec![vec![UNIT; 4], vec![UNIT; 2]], prob: vec![9, 1], pos: vec![(1, 1), (2, 2)] };
    assert_eq!(
        label_survivors(&short, &vec![true, true], 0, (5, 5), &rays4).err(),
        Some(InputError::ShapeMismatch)
    );
    assert!(label_survivors(&short, &vec![true, true], 5, (5, 5), &rays4).is_ok());
}
