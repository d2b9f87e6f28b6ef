//! The order in which detections are handled.
//!
//! A probability is an integer score: a larger score is a larger probability.
//! Suppression handles the most probable detection first, painting the least
//! probable. Among equal scores the detection given first comes first in both.
use vstd::prelude::*;

verus! {

/// `a` is at most `b`: by score, and by place among equal scores.
pub open spec fn pair_le(a: (u32, usize), b: (u32, usize)) -> bool {
    a.0 < b.0 || (a.0 == b.0 && a.1 <= b.1)
}

/// The pairs never descend.
pub open spec fn is_ascending(s: Seq<(u32, usize)>) -> bool {
    forall|i: int, j: int| 0 <= i <= j < s.len() ==> pair_le(#[trigger] s[i], #[trigger] s[j])
}

/// Detection `a` is painted before detection `b`: it is less probable, or as
/// probable and given earlier.
pub open spec fn paints_before(prob: Seq<u32>, a: int, b: int) -> bool {
    prob[a] < prob[b] || (prob[a] == prob[b] && a < b)
}

/// Detection `a` outranks detection `b`: it is more probable, or as probable
/// and given earlier.
pub open spec fn outranks(prob: Seq<u32>, a: int, b: int) -> bool {
    prob[a] > prob[b] || (prob[a] == prob[b] && a < b)
}

/// `order` lists each of `0..n` once.
pub open spec fn is_permutation(order: Seq<usize>, n: int) -> bool {
    &&& order.len() == n
    &&& forall|k: int| 0 <= k < n ==> (#[trigger] order[k]) < n
    &&& forall|k: int, l: int| 0 <= k < l < n ==> #[trigger] order[k] != #[trigger] order[l]
    &&& forall|i: usize| i < n ==> #[trigger] order.contains(i)
}

/// `order` lists the detections in painting order.
pub open spec fn is_painting_order(order: Seq<usize>, prob: Seq<u32>) -> bool {
    &&& is_permutation(order, prob.len() as int)
    &&& forall|k: int, l: int|
        0 <= k < l < order.len() ==> paints_before(
            prob,
            #[trigger] order[k] as int,
            #[trigger] order[l] as int,
        )
}

/// `order` lists the detections by rank, the highest first.
pub open spec fn is_ranking(order: Seq<usize>, prob: Seq<u32>) -> bool {
    &&& is_permutation(order, prob.len() as int)
    &&& forall|k: int, l: int|
        0 <= k < l < order.len() ==> outranks(
            prob,
            #[trigger] order[k] as int,
            #[trigger] order[l] as int,
        )
}

/// `<[T]>::sort` of the standard library on pairs of integers: afterwards the
/// vector holds the same pairs as before, each as often, in ascending order.
/// Tuples compare by their first component and then by their second.
#[verifier::external_body]
fn sort_pairs(pairs: &mut Vec<(u32, usize)>)
    ensures
        final(pairs)@.to_multiset() == old(pairs)@.to_multiset(),
        is_ascending(final(pairs)@),
{
    pairs.sort();
}

/// The places `0..keys.len()`, sorted by key and, among equal keys, by place.
fn sort_places(keys: &Vec<u32>) -> (order: Vec<usize>)
    ensures
        is_permutation(order@, keys@.len() as int),
        forall|k: int, l: int|
            0 <= k < l < order@.len() ==> pair_le(
                (keys@[#[trigger] order@[k] as int], order@[k]),
                (keys@[#[trigger] order@[l] as int], order@[l]),
            ),
{
    let n = keys.len();
    let mut pairs: Vec<(u32, usize)> = Vec::new();
    let mut i: usize = 0;
    while i < n
        invariant
            i <= n,
            n == keys@.len(),
            pairs@.len() == i,
            forall|k: int| 0 <= k < i ==> #[trigger] pairs@[k] == (keys@[k], k as usize),
        decreases n - i,
    {
        pairs.push((keys[i], i));
        i += 1;
    }
    let ghost before = pairs@;
    sort_pairs(&mut pairs);
    proof {
        before.to_multiset_ensures();
        pairs@.to_multiset_ensures();
        assert(before.no_duplicates());
        before.lemma_multiset_has_no_duplicates();
        pairs@.lemma_multiset_has_no_duplicates_conv();
        assert forall|k: int| 0 <= k < n implies (#[trigger] pairs@[k]).1 < n && pairs@[k].0
            == keys@[pairs@[k].1 as int] by {
            assert(pairs@.contains(pairs@[k]));
            assert(pairs@.to_multiset().count(pairs@[k]) > 0);
            assert(before.to_multiset().count(pairs@[k]) > 0);
            assert(before.contains(pairs@[k]));
        }
        assert forall|p: int| 0 <= p < n implies pairs@.contains(#[trigger] before[p]) by {
            assert(before.contains(before[p]));
            assert(before.to_multiset().count(before[p]) > 0);
            assert(pairs@.to_multiset().count(before[p]) > 0);
        }
    }
    let mut order: Vec<usize> = Vec::new();
    let mut k: usize = 0;
    while k < n
        invariant
            k <= n,
            pairs@.len() == n,
            order@.len() == k,
            forall|t: int| 0 <= t < k ==> #[trigger] order@[t] == pairs@[t].1,
        decreases n - k,
    {
        order.push(pairs[k].1);
        k += 1;
    }
    proof {
        assert forall|a: int, b: int| 0 <= a < b < n implies #[trigger] order@[a] != #[trigger] order@[b] by {
            assert(pairs@[a] != pairs@[b]);
        }
        assert forall|p: usize| p < n implies #[trigger] order@.contains(p) by {
            assert(pairs@.contains(before[p as int]));
            let t = choose|t: int| 0 <= t < pairs@.len() && pairs@[t] == before[p as int];
            assert(order@[t] == p);
        }
        assert forall|a: int, b: int| 0 <= a < b < order@.len() implies pair_le(
            (keys@[#[trigger] order@[a] as int], order@[a]),
            (keys@[#[trigger] order@[b] as int], order@[b]),
        ) by {
            assert(pair_le(pairs@[a], pairs@[b]));
        }
    }
    order
}

/// The detections in painting order: by ascending probability, and in the
/// order given among equal probabilities.
pub fn painting_order(prob: &Vec<u32>) -> (order: Vec<usize>)
    ensures
        is_painting_order(order@, prob@),
{
    sort_places(prob)
}

/// The detections by rank: by descending probability, and in the order given
/// among equal probabilities.
pub fn rank_by_probability(prob: &Vec<u32>) -> (order: Vec<usize>)
    ensures
        is_ranking(order@, prob@),
{
    let n = prob.len();
    let mut keys: Vec<u32> = Vec::new();
    let mut i: usize = 0;
    while i < n
        invariant
            i <= n,
            n == prob@.len(),
            keys@.len() == i,
            forall|k: int| 0 <= k < i ==> #[trigger] keys@[k] == u32::MAX - prob@[k],
        decreases n - i,
    {
        keys.push(u32::MAX - prob[i]);
        i += 1;
    }
    sort_places(&keys)
}

} // verus!
