//! Detections on their way through ranking, suppression and painting.
//!
//! Detections are given as rows of radial distances, probabilities and
//! centers. The place a detection is given in is its identity; it goes with
//! the detection through ranking and suppression and decides its label.
use crate::error::InputError;
use crate::geometry::polygon::all_vertices_fit;
use crate::labeling::image::{shape_fits, LabelImage};
use crate::labeling::polygon_label::{
    decoded_all,
    ids_fit,
    is_label_image,
    label_inputs_agree,
    radial_polygon_to_label_2d,
};
use crate::process::order::{is_ranking, rank_by_probability};
use crate::process::select::{pick, pick_rows, picked, survivors, surviving_ranks};
use vstd::prelude::*;

verus! {

/// Detections by rank, the most probable first.
pub struct Ranked {
    /// The identity of the detection of each rank.
    pub ids: Vec<usize>,
    /// The radial distances of the detection of each rank.
    pub dist: Vec<Vec<u32>>,
    /// The probability of the detection of each rank.
    pub prob: Vec<u32>,
    /// The center of the detection of each rank.
    pub pos: Vec<(usize, usize)>,
}

impl Ranked {
    /// There is an identity, a row of distances, a probability and a center
    /// for each rank.
    pub open spec fn well_formed(self) -> bool {
        &&& self.dist@.len() == self.ids@.len()
        &&& self.prob@.len() == self.ids@.len()
        &&& self.pos@.len() == self.ids@.len()
    }

    /// These are the given detections by rank: the identities list the
    /// places by descending probability, and each rank holds what was given
    /// at its place.
    pub open spec fn ranks(self, dist: Seq<Vec<u32>>, prob: Seq<u32>, pos: Seq<(usize, usize)>) -> bool {
        &&& self.well_formed()
        &&& is_ranking(self.ids@, prob)
        &&& self.prob@ == picked(prob, self.ids@)
        &&& self.pos@ == picked(pos, self.ids@)
        &&& forall|r: int| 0 <= r < self.ids@.len() ==> (#[trigger] self.dist@[r])@ == dist[self.ids@[r] as int]@
    }

    /// The radial distances, the probabilities, the centers and the
    /// identities of the detections that survive, by rank.
    pub open spec fn surviving(self, kept: Seq<bool>, threshold: u32) -> (
        Seq<Vec<u32>>,
        Seq<u32>,
        Seq<(usize, usize)>,
        Seq<usize>,
    ) {
        let ranks = surviving_ranks(kept, self.prob@, threshold, kept.len());
        (
            picked(self.dist@, ranks),
            picked(self.prob@, ranks),
            picked(self.pos@, ranks),
            picked(self.ids@, ranks),
        )
    }
}

/// Rank the detections, the most probable first and, among equally probable
/// ones, the one given first.
///
/// Fails with `ShapeMismatch` where there are not as many probabilities and
/// centers as rows of distances.
pub fn rank_detections(dist: &Vec<Vec<u32>>, prob: &Vec<u32>, pos: &Vec<(usize, usize)>) -> (result: Result<
    Ranked,
    InputError,
>)
    ensures
        match result {
            Ok(ranked) => {
                &&& prob@.len() == dist@.len()
                &&& pos@.len() == dist@.len()
                &&& ranked.ranks(dist@, prob@, pos@)
            },
            Err(InputError::ShapeMismatch) => !(prob@.len() == dist@.len() && pos@.len() == dist@.len()),
            Err(_) => false,
        },
{
    let n = dist.len();
    if prob.len() != n || pos.len() != n {
        return Err(InputError::ShapeMismatch);
    }
    let ids = rank_by_probability(prob);
    let ranked_dist = pick_rows(dist, &ids);
    let ranked_prob = pick(prob, &ids);
    let ranked_pos = pick(pos, &ids);
    Ok(Ranked { ids, dist: ranked_dist, prob: ranked_prob, pos: ranked_pos })
}

/// Paint the detections that survive into a label image of the given shape.
///
/// A detection survives where `kept` holds `true` at its rank and its
/// probability is above `prob_threshold`. Its pixels get its identity plus
/// one as their label, unless a more probable survivor covers them too.
///
/// Fails with `NoRays` where `rays` is empty; else with `ShapeMismatch` where
/// `ranked` or `kept` lacks an entry for some rank, or a survivor has not as
/// many distances as there are rays; else with `OutOfRange` where a
/// survivor's vertex cannot be stored, its identity is `u16::MAX` or more, or
/// an image of this shape cannot be allocated.
pub fn label_survivors(
    ranked: &Ranked,
    kept: &Vec<bool>,
    prob_threshold: u32,
    shape: (usize, usize),
    rays: &Vec<(i32, i32)>,
) -> (result: Result<LabelImage, InputError>)
    ensures
        ({
            let (dist, prob, pos, ids) = ranked.surviving(kept@, prob_threshold);
            let complete = ranked.well_formed() && kept@.len() == ranked.ids@.len();
            match result {
                Ok(image) => {
                    &&& rays@.len() > 0
                    &&& complete
                    &&& label_inputs_agree(dist, prob, pos, ids, rays@)
                    &&& all_vertices_fit(dist, pos, rays@)
                    &&& ids_fit(ids)
                    &&& shape_fits(shape)
                    &&& image.spec_shape() == (shape.0 as nat, shape.1 as nat)
                    &&& is_label_image(image@, shape, decoded_all(dist, pos, rays@), prob, ids)
                },
                Err(InputError::NoRays) => rays@.len() == 0,
                Err(InputError::ShapeMismatch) => rays@.len() > 0 && !(complete && label_inputs_agree(
                    dist,
                    prob,
                    pos,
                    ids,
                    rays@,
                )),
                Err(InputError::OutOfRange) => {
                    &&& rays@.len() > 0
                    &&& complete
                    &&& label_inputs_agree(dist, prob, pos, ids, rays@)
                    &&& !(all_vertices_fit(dist, pos, rays@) && ids_fit(ids) && shape_fits(shape))
                },
            }
        }),
{
    if rays.len() == 0 {
        return Err(InputError::NoRays);
    }
    let n = ranked.ids.len();
    if ranked.dist.len() != n || ranked.prob.len() != n || ranked.pos.len() != n || kept.len() != n {
        return Err(InputError::ShapeMismatch);
    }
    let ranks = match survivors(kept, &ranked.prob, prob_threshold) {
        Ok(ranks) => ranks,
        Err(e) => {
            return Err(e);
        },
    };
    let dist = pick_rows(&ranked.dist, &ranks);
    let prob = pick(&ranked.prob, &ranks);
    let pos = pick(&ranked.pos, &ranks);
    let ids = pick(&ranked.ids, &ranks);
    proof {
        let wanted = picked(ranked.dist@, ranks@);
        assert(dist@.len() == wanted.len());
        assert forall|k: int| 0 <= k < wanted.len() implies (#[trigger] dist@[k])@ == wanted[k]@ by {}
        lemma_same_rows(dist@, wanted, pos@, ids@, prob@, rays@);
    }
    radial_polygon_to_label_2d(&dist, &prob, &pos, &ids, shape, rays)
}

/// What is said of rows of distances depends on the distances alone.
proof fn lemma_same_rows(
    a: Seq<Vec<u32>>,
    b: Seq<Vec<u32>>,
    pos: Seq<(usize, usize)>,
    ids: Seq<usize>,
    prob: Seq<u32>,
    rays: Seq<(i32, i32)>,
)
    requires
        a.len() == b.len(),
        forall|k: int| 0 <= k < a.len() ==> (#[trigger] a[k])@ == b[k]@,
    ensures
        label_inputs_agree(a, prob, pos, ids, rays) == label_inputs_agree(b, prob, pos, ids, rays),
        all_vertices_fit(a, pos, rays) == all_vertices_fit(b, pos, rays),
        decoded_all(a, pos, rays) == decoded_all(b, pos, rays),
{
    assert(decoded_all(a, pos, rays) =~= decoded_all(b, pos, rays));
    if label_inputs_agree(a, prob, pos, ids, rays) {
        assert forall|p: int| 0 <= p < b.len() implies (#[trigger] b[p])@.len() == rays.len() by {
            assert(a[p]@ == b[p]@);
        }
    }
    if label_inputs_agree(b, prob, pos, ids, rays) {
        assert forall|p: int| 0 <= p < a.len() implies (#[trigger] a[p])@.len() == rays.len() by {
            assert(a[p]@ == b[p]@);
        }
    }
    if all_vertices_fit(a, pos, rays) {
        assert forall|p: int| 0 <= p < b.len() implies crate::geometry::polygon::vertices_fit(
            pos[p],
            (#[trigger] b[p])@,
            rays,
        ) by {
            assert(a[p]@ == b[p]@);
        }
    }
    if all_vertices_fit(b, pos, rays) {
        assert forall|p: int| 0 <= p < a.len() implies crate::geometry::polygon::vertices_fit(
            pos[p],
            (#[trigger] a[p])@,
            rays,
        ) by {
            assert(a[p]@ == b[p]@);
        }
    }
}

} // verus!
