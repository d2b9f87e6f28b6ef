//! Carrying detections through ranking and suppression.
//!
//! A detection keeps the place it was given in as its identity. Ranking and
//! suppression work on lists of places; the functions here fetch what
//! belongs to the places on such a list.
use crate::error::InputError;
use vstd::prelude::*;

verus! {

/// Every pick is a place in a vector of length `n`.
pub open spec fn picks_in_range(picks: Seq<usize>, n: int) -> bool {
    forall|k: int| 0 <= k < picks.len() ==> (#[trigger] picks[k]) < n
}

/// The values at the picked places, in the order of the picks.
pub open spec fn picked<T>(values: Seq<T>, picks: Seq<usize>) -> Seq<T> {
    Seq::new(picks.len(), |k: int| values[picks[k] as int])
}

/// The values at the picked places, in the order of the picks.
pub fn pick<T: Copy>(values: &Vec<T>, picks: &Vec<usize>) -> (result: Vec<T>)
    requires
        picks_in_range(picks@, values@.len() as int),
    ensures
        result@ == picked(values@, picks@),
{
    let n = picks.len();
    let mut result: Vec<T> = Vec::with_capacity(n);
    let mut k: usize = 0;
    while k < n
        invariant
            k <= n,
            n == picks@.len(),
            picks_in_range(picks@, values@.len() as int),
            result@.len() == k,
            forall|t: int| 0 <= t < k ==> #[trigger] result@[t] == values@[picks@[t] as int],
        decreases n - k,
    {
        result.push(values[picks[k]]);
        k += 1;
    }
    assert(result@ =~= picked(values@, picks@));
    result
}

/// A copy of a row of distances.
fn copy_row(row: &Vec<u32>) -> (copy: Vec<u32>)
    ensures
        copy@ == row@,
{
    let n = row.len();
    let mut copy: Vec<u32> = Vec::with_capacity(n);
    let mut i: usize = 0;
    while i < n
        invariant
            i <= n,
            n == row@.len(),
            copy@.len() == i,
            forall|t: int| 0 <= t < i ==> #[trigger] copy@[t] == row@[t],
        decreases n - i,
    {
        copy.push(row[i]);
        i += 1;
    }
    assert(copy@ =~= row@);
    copy
}

/// The rows at the picked places, in the order of the picks.
pub fn pick_rows(rows: &Vec<Vec<u32>>, picks: &Vec<usize>) -> (result: Vec<Vec<u32>>)
    requires
        picks_in_range(picks@, rows@.len() as int),
    ensures
        result@.len() == picks@.len(),
        forall|k: int| 0 <= k < picks@.len() ==> (#[trigger] result@[k])@ == rows@[picks@[k] as int]@,
{
    let n = picks.len();
    let mut result: Vec<Vec<u32>> = Vec::with_capacity(n);
    let mut k: usize = 0;
    while k < n
        invariant
            k <= n,
            n == picks@.len(),
            picks_in_range(picks@, rows@.len() as int),
            result@.len() == k,
            forall|t: int| 0 <= t < k ==> (#[trigger] result@[t])@ == rows@[picks@[t] as int]@,
        decreases n - k,
    {
        result.push(copy_row(&rows[picks[k]]));
        k += 1;
    }
    result
}

/// The detection of rank `r` survives: suppression kept it and its
/// probability is above the threshold.
pub open spec fn survives(kept: Seq<bool>, prob: Seq<u32>, threshold: u32, r: int) -> bool {
    kept[r] && prob[r] > threshold
}

/// The surviving ranks below `n`, in ascending order.
pub open spec fn surviving_ranks(kept: Seq<bool>, prob: Seq<u32>, threshold: u32, n: nat) -> Seq<usize>
    decreases n,
{
    if n == 0 {
        Seq::empty()
    } else {
        let before = surviving_ranks(kept, prob, threshold, (n - 1) as nat);
        if survives(kept, prob, threshold, n - 1) {
            before.push((n - 1) as usize)
        } else {
            before
        }
    }
}

/// `ranks` lists the surviving ranks, in ascending order.
pub open spec fn is_survivor_list(ranks: Seq<usize>, kept: Seq<bool>, prob: Seq<u32>, threshold: u32) -> bool {
    &&& forall|k: int|
        0 <= k < ranks.len() ==> (#[trigger] ranks[k]) < kept.len() && survives(
            kept,
            prob,
            threshold,
            ranks[k] as int,
        )
    &&& forall|k: int, l: int| 0 <= k < l < ranks.len() ==> #[trigger] ranks[k] < #[trigger] ranks[l]
    &&& forall|r: int|
        0 <= r < kept.len() && #[trigger] survives(kept, prob, threshold, r) ==> exists|k: int|
            0 <= k < ranks.len() && #[trigger] ranks[k] == r
}

/// The ranks that survive: those that suppression kept and whose probability
/// is above `prob_threshold`; a detection at the threshold is dropped.
///
/// `kept` and `prob` are both by rank. Fails with `ShapeMismatch` where they
/// differ in length.
pub fn survivors(kept: &Vec<bool>, prob: &Vec<u32>, prob_threshold: u32) -> (result: Result<
    Vec<usize>,
    InputError,
>)
    ensures
        match result {
            Ok(ranks) => {
                &&& kept@.len() == prob@.len()
                &&& ranks@ == surviving_ranks(kept@, prob@, prob_threshold, kept@.len())
                &&& is_survivor_list(ranks@, kept@, prob@, prob_threshold)
            },
            Err(InputError::ShapeMismatch) => kept@.len() != prob@.len(),
            Err(_) => false,
        },
{
    let n = kept.len();
    if prob.len() != n {
        return Err(InputError::ShapeMismatch);
    }
    let mut ranks: Vec<usize> = Vec::new();
    let mut r: usize = 0;
    while r < n
        invariant
            r <= n,
            n == kept@.len(),
            n == prob@.len(),
            ranks@ == surviving_ranks(kept@, prob@, prob_threshold, r as nat),
            forall|k: int|
                0 <= k < ranks@.len() ==> (#[trigger] ranks@[k]) < r && survives(
                    kept@,
                    prob@,
                    prob_threshold,
                    ranks@[k] as int,
                ),
            forall|k: int, l: int|
                0 <= k < l < ranks@.len() ==> #[trigger] ranks@[k] < #[trigger] ranks@[l],
            forall|j: int|
                0 <= j < r && #[trigger] survives(kept@, prob@, prob_threshold, j) ==> exists|k: int|
                    0 <= k < ranks@.len() && #[trigger] ranks@[k] == j,
        decreases n - r,
    {
        if kept[r] && prob[r] > prob_threshold {
            let ghost before = ranks@;
            ranks.push(r);
            proof {
                assert(ranks@[before.len() as int] == r);
                assert forall|j: int|
                    0 <= j < r + 1 && #[trigger] survives(
                        kept@,
                        prob@,
                        prob_threshold,
                        j,
                    ) implies exists|k: int| 0 <= k < ranks@.len() && #[trigger] ranks@[k] == j by {
                    if j < r {
                        let k = choose|k: int| 0 <= k < before.len() && #[trigger] before[k] == j;
                        assert(ranks@[k] == j);
                    }
                }
            }
        }
        r += 1;
    }
    Ok(ranks)
}

} // verus!
