use cellcast::error::InputError;
use cellcast::utils::axes::divisible_pad;
use cellcast::utils::border::clip_mask_border;

#[test]
fn pad_to_the_next_multiple() {
    assert_eq!(divisible_pad(100, 16), 12);
    assert_eq!(divisible_pad(96, 16), 0);
    assert_eq!(divisible_pad(0, 16), 0);
    assert_eq!(divisible_pad(1, 16), 15);
    assert_eq!(divisible_pad(15, 16), 1);
    assert_eq!(divisible_pad(17, 16), 15);
    assert_eq!(divisible_pad(5, 1), 0);
    assert_eq!(divisible_pad(3, 7), 4);
}

#[test]
fn padded_axis_is_divisible_and_pad_is_least() {
    for len in 0..200usize {
        for div in 1..20usize {
            let pad = divisible_pad(len, div);
            assert!(pad < div);
            assert_eq!((len + pad) % div, 0);
        }
    }
}

#[test]
fn pad_at_the_limits() {
    assert_eq!(divisible_pad(usize::MAX, usize::MAX), 0);
    assert_eq!(divisible_pad(usize::MAX - 1, usize::MAX), 1);
    assert_eq!(divisible_pad(usize::MAX, 2), 1);
}

#[test]
fn border_of_a_two_axis_mask() {
    let mut data = vec![true; 5 * 4];
    assert_eq!(clip_mask_border(&mut data, &vec![5, 4], 1), Ok(()));
    let expected: Vec<bool> = (0..20)
        .map(|i| {
            let (r, c) = (i / 4, i % 4);
            (1..4).contains(&r) && (1..3).contains(&c)
        })
        .collect();
    assert_eq!(data, expected);
    assert_eq!(data.iter().filter(|&&v| v).count(), 6);
}

#[test]
fn border_of_two_cells_as_the_model_clips_it() {
    let mut data = vec![true; 8 * 7];
    assert_eq!(clip_mask_border(&mut data, &vec![8, 7], 2), Ok(()));
    for r in 0..8 {
        for c in 0..7 {
            assert_eq!(data[r * 7 + c], (2..6).contains(&r) && (2..5).contains(&c));
        }
    }
}

#[test]
fn border_keeps_what_was_clear() {
    let mut data: Vec<bool> = (0..36).map(|i| i % 3 != 0).collect();
    let before = data.clone();
    assert_eq!(clip_mask_border(&mut data, &vec![6, 6], 1), Ok(()));
    for r in 0..6 {
        for c in 0..6 {
            let inner = (1..5).contains(&r) && (1..5).contains(&c);
            assert_eq!(data[r * 6 + c], inner && before[r * 6 + c]);
        }
    }
}

#[test]
fn border_of_three_axes_and_of_one() {
    let mut data = vec![true; 3 * 4 * 5];
    assert_eq!(clip_mask_border(&mut data, &vec![3, 4, 5], 1), Ok(()));
    for i in 0..3 {
        for j in 0..4 {
            for k in 0..5 {
                let inner = i == 1 && (1..3).contains(&j) && (1..4).contains(&k);
                assert_eq!(data[(i * 4 + j) * 5 + k], inner);
            }
        }
    }
    let mut line = vec![true; 6];
    assert_eq!(clip_mask_border(&mut line, &vec![6], 2), Ok(()));
    assert_eq!(line, vec![false, false, true, true, false, false]);
}

#[test]
fn border_of_size_zero_changes_nothing() {
    let mut data: Vec<bool> = (0..12).map(|i| i % 2 == 0).collect();
    let before = data.clone();
    assert_eq!(clip_mask_border(&mut data, &vec![3, 4], 0), Ok(()));
    assert_eq!(data, before);
}

#[test]
fn border_that_meets_in_the_middle_clears_everything() {
    let mut data = vec![true; 16];
    assert_eq!(clip_mask_border(&mut data, &vec![4, 4], 2), Ok(()));
    assert_eq!(data, vec![false; 16]);
    let mut data = vec![true; 9];
    assert_eq!(clip_mask_border(&mut data, &vec![3, 3], 3), Ok(()));
    assert_eq!(data, vec![false; 9]);
}

#[test]
fn border_of_masks_without_cells() {
    let mut data = vec![];
    assert_eq!(clip_mask_border(&mut data, &vec![0, 7], 0), Ok(()));
    assert_eq!(clip_mask_border(&mut data, &vec![usize::MAX, 0, usize::MAX], 0), Ok(()));
    // no axes at all: one cell, and no axis on whose border it could lie
    let mut one = vec![true];
    assert_eq!(clip_mask_border(&mut one, &vec![], 3), Ok(()));
    assert_eq!(one, vec![true]);
}

#[test]
fn border_of_a_mask_of_the_wrong_size() {
    let mut data = vec![true; 19];
    assert_eq!(clip_mask_border(&mut data, &vec![5, 4], 1), Err(InputError::ShapeMismatch));
    assert_eq!(data, vec![true; 19]);
    assert_eq!(
        clip_mask_border(&mut data, &vec![usize::MAX, usize::MAX], 1),
        Err(InputError::ShapeMismatch)
    );
    assert_eq!(clip_mask_border(&mut data, &vec![], 1), Err(InputError::ShapeMismatch));
    assert_eq!(clip_mask_border(&mut data, &vec![19, 0], 0), Err(InputError::ShapeMismatch));
}
