use cellcast::error::InputError;
use cellcast::process::order::{painting_order, rank_by_probability};
use cellcast::process::select::{pick, pick_rows, survivors};

fn score(p: f32) -> u32 {
    p.to_bits()
}

#[test]
fn scores_keep_the_order_of_probabilities() {
    let probabilities = [0.0f32, 1e-6, 0.3, 0.479, 0.5, 0.8, 0.95, 1.0];
    for pair in probabilities.windows(2) {
        assert!(score(pair[0]) < score(pair[1]));
    }
}

#[test]
fn ranking_puts_the_most_probable_first() {
    let prob = vec![score(0.5), score(0.9), score(0.1), score(0.7)];
    assert_eq!(rank_by_probability(&prob), vec![1, 3, 0, 2]);
}

#[test]
fn ranking_breaks_ties_by_place() {
    let prob = vec![score(0.5), score(0.9), score(0.5), score(0.9), score(0.5)];
    assert_eq!(rank_by_probability(&prob), vec![1, 3, 0, 2, 4]);
}

#[test]
fn painting_order_puts_the_least_probable_first() {
    let prob = vec![score(0.5), score(0.9), score(0.1), score(0.7)];
    assert_eq!(painting_order(&prob), vec![2, 0, 3, 1]);
}

#[test]
fn painting_order_breaks_ties_by_place() {
    let prob = vec![score(0.5), score(0.9), score(0.5), score(0.9), score(0.5)];
    assert_eq!(painting_order(&prob), vec![0, 2, 4, 1, 3]);
}

#[test]
fn orders_of_nothing_and_of_one() {
    assert_eq!(rank_by_probability(&vec![]), Vec::<usize>::new());
    assert_eq!(painting_order(&vec![]), Vec::<usize>::new());
    assert_eq!(rank_by_probability(&vec![7]), vec![0]);
    assert_eq!(painting_order(&vec![7]), vec![0]);
}

#[test]
fn orders_at_the_score_limits() {
    let prob = vec![0, u32::MAX, 1, u32::MAX - 1];
    assert_eq!(rank_by_probability(&prob), vec![1, 3, 2, 0]);
    assert_eq!(painting_order(&prob), vec![0, 2, 3, 1]);
}

#[test]
fn an_order_lists_every_place_once() {
    let prob: Vec<u32> = (0..500u32).map(|i| i * 7919 % 101).collect();
    for order in [rank_by_probability(&prob), painting_order(&prob)] {
        let mut seen = vec![false; prob.len()];
        for &place in &order {
            assert!(!seen[place]);
            seen[place] = true;
        }
        assert!(seen.iter().all(|&s| s));
    }
    let ranked = rank_by_probability(&prob);
    for pair in ranked.windows(2) {
        let (a, b) = (pair[0], pair[1]);
        assert!(prob[a] > prob[b] || (prob[a] == prob[b] && a < b));
    }
    let painted = painting_order(&prob);
    for pair in painted.windows(2) {
        let (a, b) = (pair[0], pair[1]);
        assert!(prob[a] < prob[b] || (prob[a] == prob[b] && a < b));
    }
}

#[test]
fn picking_follows_the_picks() {
    assert_eq!(pick(&vec![10u32, 20, 30], &vec![2, 0, 2]), vec![30, 10, 30]);
    assert_eq!(pick(&vec![(1usize, 2usize), (3, 4)], &vec![1]), vec![(3, 4)]);
    assert_eq!(pick(&vec![10u32, 20, 30], &vec![]), Vec::<u32>::new());
    assert_eq!(
        pick_rows(&vec![vec![1, 2], vec![3, 4], vec![5, 6]], &vec![2, 1]),
        vec![vec![5, 6], vec![3, 4]]
    );
}

#[test]
fn identity_travels_with_the_rank() {
    let prob = vec![score(0.2), score(0.9), score(0.6)];
    let order = rank_by_probability(&prob);
    let ranked = pick(&prob, &order);
    assert_eq!(ranked, vec![score(0.9), score(0.6), score(0.2)]);
    // the identity of the detection of rank 0 is its place in the input
    assert_eq!(order[0], 1);
}

#[test]
fn survivors_are_kept_and_above_the_threshold() {
    let kept = vec![true, false, true, true, true];
    let prob = vec![900, 800, 500, 400, 501];
    assert_eq!(survivors(&kept, &prob, 500), Ok(vec![0, 4]));
    assert_eq!(survivors(&kept, &prob, 0), Ok(vec![0, 2, 3, 4]));
    assert_eq!(survivors(&kept, &prob, u32::MAX), Ok(vec![]));
    assert_eq!(survivors(&vec![], &vec![], 5), Ok(vec![]));
}

#[test]
fn a_detection_at_the_threshold_is_dropped() {
    assert_eq!(survivors(&vec![true], &vec![score(0.479)], score(0.479)), Ok(vec![]));
    assert_eq!(survivors(&vec![true], &vec![score(0.48)], score(0.479)), Ok(vec![0]));
}

#[test]
fn survivors_of_mismatched_lists() {
    assert_eq!(
        survivors(&vec![true, true], &vec![1], 0),
        Err(InputError::ShapeMismatch)
    );
}
