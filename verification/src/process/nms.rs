//! Suppression of overlapping detections.
//!
//! The detections come ranked, the most probable first. Going down the
//! ranks, every detection that is still kept suppresses the lower-ranked
//! ones that it overlaps by more than a threshold. The overlap of two
//! polygons is the area they share over the smaller of their areas; the
//! shared area is measured outside this crate and handed in.
use crate::geometry::polygon::{
    is_bounded_ray,
    lemma_polygon_within_reach,
    vertices_fit,
    Polygon2D,
    SUBPIXEL,
};
use vstd::prelude::*;

verus! {

/// The threshold that stands for an overlap of exactly one.
pub const THRESHOLD_ONE: u32 = 1_000_000;

/// What is added to the smaller area before the shared area is set against
/// it, in doubled area units.
pub const AREA_EPSILON: u128 = 1;

/// A shared area measured for a polygon: the rank of the other polygon, and
/// twice the area that the two share.
pub type Measured = (usize, u128);

/// The two boxes share a point.
pub open spec fn boxes_intersect(a: (i32, i32, i32, i32), b: (i32, i32, i32, i32)) -> bool {
    b.0 <= a.1 && a.0 <= b.1 && b.2 <= a.3 && a.2 <= b.3
}

/// The smaller of two areas.
pub open spec fn smaller(a: u128, b: u128) -> u128 {
    if a <= b {
        a
    } else {
        b
    }
}

/// The overlap is above the threshold: the shared area `inter`, over the
/// smaller of the two areas plus [`AREA_EPSILON`], is more than `threshold`
/// over [`THRESHOLD_ONE`].
pub open spec fn overlap_exceeds(inter: u128, area_a: u128, area_b: u128, threshold: u32) -> bool {
    inter * THRESHOLD_ONE > threshold * (smaller(area_a, area_b) + AREA_EPSILON)
}

/// Polygon `a` suppresses polygon `b` of lower rank, given the area they
/// share: their bounding boxes intersect and their overlap is above the
/// threshold.
pub open spec fn pair_overlaps(a: Polygon2D, b: Polygon2D, inter: u128, threshold: u32) -> bool {
    boxes_intersect(a.bbox, b.bbox) && overlap_exceeds(inter, a.area, b.area, threshold)
}

/// By the areas `measured` for the polygon of rank `p`, that polygon
/// suppresses the polygon of rank `q`.
pub open spec fn hits(polys: Seq<Polygon2D>, measured: Seq<Measured>, threshold: u32, p: int, q: int) -> bool {
    &&& 0 <= p < q < polys.len()
    &&& exists|k: int|
        0 <= k < measured.len() && (#[trigger] measured[k]).0 == q && pair_overlaps(
            polys[p],
            polys[q],
            measured[k].1,
            threshold,
        )
}

/// The polygon of rank `q` is suppressed: a polygon of higher rank that is
/// itself kept suppresses it. `overlaps[p]` holds the areas measured for the
/// polygon of rank `p`.
pub open spec fn is_suppressed(polys: Seq<Polygon2D>, overlaps: Seq<Vec<Measured>>, threshold: u32, q: int) -> bool
    decreases q,
{
    exists|p: int|
        0 <= p < q && !is_suppressed(polys, overlaps, threshold, p) && #[trigger] hits(
            polys,
            overlaps[p]@,
            threshold,
            p,
            q,
        )
}

/// How many of the first `n` polygons are kept.
pub open spec fn kept_count(polys: Seq<Polygon2D>, overlaps: Seq<Vec<Measured>>, threshold: u32, n: nat) -> nat
    decreases n,
{
    if n == 0 {
        0
    } else {
        kept_count(polys, overlaps, threshold, (n - 1) as nat) + if is_suppressed(
            polys,
            overlaps,
            threshold,
            n - 1,
        ) {
            0nat
        } else {
            1nat
        }
    }
}

/// Every area was measured against a polygon that exists.
pub open spec fn measured_in_range(measured: Seq<Measured>, n: int) -> bool {
    forall|k: int| 0 <= k < measured.len() ==> (#[trigger] measured[k]).0 < n
}

/// Whether two bounding boxes `(row_min, row_max, col_min, col_max)`
/// intersect.
pub fn bbox_intersect_2d(a: &(i32, i32, i32, i32), b: &(i32, i32, i32, i32)) -> (result: bool)
    ensures
        result == boxes_intersect(*a, *b),
{
    b.0 <= a.1 && a.0 <= b.1 && b.2 <= a.3 && a.2 <= b.3
}

/// The product of `a` and `b` in two limbs: `hi * 2^64 + lo`.
fn wide_product(a: u128, b: u32) -> (limbs: (u128, u128))
    ensures
        limbs.0 * 0x1_0000_0000_0000_0000 + limbs.1 == a * b,
        limbs.1 < 0x1_0000_0000_0000_0000,
        limbs.0 < 0x2_0000_0000_0000_0000_0000_0000,
{
    let ah: u128 = a / 0x1_0000_0000_0000_0000;
    let al: u128 = a % 0x1_0000_0000_0000_0000;
    let bw: u128 = b as u128;
    assert(ah * bw < 0x1_0000_0000_0000_0000_0000_0000 && al * bw < 0x1_0000_0000_0000_0000_0000_0000)
        by (nonlinear_arith)
        requires
            ah < 0x1_0000_0000_0000_0000,
            al < 0x1_0000_0000_0000_0000,
            bw < 0x1_0000_0000,
    ;
    let low: u128 = al * bw;
    let high: u128 = ah * bw;
    assert(a * b == high * 0x1_0000_0000_0000_0000 + low) by (nonlinear_arith)
        requires
            a == ah * 0x1_0000_0000_0000_0000 + al,
            low == al * bw,
            high == ah * bw,
            bw == b,
    ;
    (high + low / 0x1_0000_0000_0000_0000, low % 0x1_0000_0000_0000_0000)
}

/// Whether the overlap of two polygons is above the threshold, given their
/// doubled areas and twice the area they share.
pub fn exceeds_threshold(inter: u128, area_a: u128, area_b: u128, threshold: u32) -> (result: bool)
    ensures
        result == overlap_exceeds(inter, area_a, area_b, threshold),
{
    let least: u128 = if area_a <= area_b {
        area_a
    } else {
        area_b
    };
    let (left_hi, left_lo) = wide_product(inter, THRESHOLD_ONE);
    let (prod_hi, prod_lo) = wide_product(least, threshold);
    let sum_lo: u128 = prod_lo + threshold as u128;
    let (right_hi, right_lo) = if sum_lo >= 0x1_0000_0000_0000_0000 {
        (prod_hi + 1, sum_lo - 0x1_0000_0000_0000_0000)
    } else {
        (prod_hi, sum_lo)
    };
    assert(threshold * (least + AREA_EPSILON) == right_hi * 0x1_0000_0000_0000_0000 + right_lo)
        by (nonlinear_arith)
        requires
            prod_hi * 0x1_0000_0000_0000_0000 + prod_lo == least * threshold,
            right_hi * 0x1_0000_0000_0000_0000 + right_lo == prod_hi * 0x1_0000_0000_0000_0000
                + prod_lo + threshold,
            AREA_EPSILON == 1,
    ;
    left_hi > right_hi || (left_hi == right_hi && left_lo > right_lo)
}

/// The largest radial distance among the polygons, zero where there is none.
pub open spec fn is_largest_distance(m: u32, polys: Seq<Polygon2D>) -> bool {
    &&& forall|i: int| 0 <= i < polys.len() ==> (#[trigger] polys[i]).dist <= m
    &&& if polys.len() == 0 {
        m == 0
    } else {
        exists|i: int| 0 <= i < polys.len() && (#[trigger] polys[i]).dist == m
    }
}

/// The largest radial distance among the polygons.
pub fn largest_distance(polygons: &Vec<Polygon2D>) -> (m: u32)
    ensures
        is_largest_distance(m, polygons@),
{
    let n = polygons.len();
    let mut m: u32 = 0;
    let mut i: usize = 0;
    while i < n
        invariant
            i <= n,
            n == polygons@.len(),
            forall|k: int| 0 <= k < i ==> (#[trigger] polygons@[k]).dist <= m,
            i == 0 ==> m == 0,
            i > 0 ==> exists|k: int| 0 <= k < i && (#[trigger] polygons@[k]).dist == m,
        decreases n - i,
    {
        let d = polygons[i].dist;
        if i == 0 || d > m {
            m = d;
        }
        i += 1;
    }
    m
}

/// How far from the center of `polygon` the center of a polygon that
/// overlaps it can lie, where no polygon reaches farther than `largest`.
pub fn search_radius(largest: u32, polygon: &Polygon2D) -> (radius: u64)
    ensures
        radius == largest + polygon.dist,
{
    largest as u64 + polygon.dist as u64
}

/// The distance between two pixels along one axis, in coordinate units.
pub open spec fn axis_gap(a: usize, b: usize) -> int {
    (if a >= b {
        a - b
    } else {
        b - a
    }) * SUBPIXEL
}

/// The pixel `center` lies within `radius` coordinate units of the pixel
/// `query`, by Euclidean distance.
pub open spec fn is_within(center: (usize, usize), query: (usize, usize), radius: u64) -> bool {
    axis_gap(center.0, query.0) * axis_gap(center.0, query.0) + axis_gap(center.1, query.1) * axis_gap(
        center.1,
        query.1,
    ) <= radius * radius
}

/// Whether `center` lies within `radius` of `query`.
fn within(center: (usize, usize), query: (usize, usize), radius: u64) -> (result: bool)
    ensures
        result == is_within(center, query, radius),
{
    // in coordinate units: SUBPIXEL to the pixel
    let dy: u128 = (if center.0 >= query.0 {
        center.0 - query.0
    } else {
        query.0 - center.0
    }) as u128 * 1024;
    let dx: u128 = (if center.1 >= query.1 {
        center.1 - query.1
    } else {
        query.1 - center.1
    }) as u128 * 1024;
    let r: u128 = radius as u128;
    assert(r * r <= 0xffff_ffff_ffff_ffff * 0xffff_ffff_ffff_ffff) by (nonlinear_arith)
        requires
            0 <= r <= 0xffff_ffff_ffff_ffff,
    ;
    if dy > r {
        assert(dy * dy + dx * dx > r * r) by (nonlinear_arith)
            requires
                dy > r,
                r >= 0,
                dx >= 0,
        ;
        return false;
    }
    if dx > r {
        assert(dy * dy + dx * dx > r * r) by (nonlinear_arith)
            requires
                dx > r,
                r >= 0,
                dy >= 0,
        ;
        return false;
    }
    assert(dy * dy <= r * r && dx * dx <= r * r) by (nonlinear_arith)
        requires
            0 <= dy <= r,
            0 <= dx <= r,
    ;
    dy * dy <= r * r - dx * dx
}

/// `found` lists, in ascending order, the places in `centers` of the centers
/// within `radius` of `query`.
pub open spec fn is_neighborhood(
    found: Seq<usize>,
    centers: Seq<(usize, usize)>,
    query: (usize, usize),
    radius: u64,
) -> bool {
    &&& forall|k: int|
        0 <= k < found.len() ==> (#[trigger] found[k]) < centers.len() && is_within(
            centers[found[k] as int],
            query,
            radius,
        )
    &&& forall|k: int, l: int| 0 <= k < l < found.len() ==> #[trigger] found[k] < #[trigger] found[l]
    &&& forall|i: int|
        0 <= i < centers.len() && is_within(#[trigger] centers[i], query, radius) ==> exists|k: int|
            0 <= k < found.len() && #[trigger] found[k] == i
}

/// The places of all centers within `radius` coordinate units of the pixel
/// `query`, in ascending order. Every center is tried.
pub fn neighbors_within(centers: &Vec<(usize, usize)>, query: (usize, usize), radius: u64) -> (found: Vec<
    usize,
>)
    ensures
        is_neighborhood(found@, centers@, query, radius),
{
    let n = centers.len();
    let mut found: Vec<usize> = Vec::new();
    let mut i: usize = 0;
    while i < n
        invariant
            i <= n,
            n == centers@.len(),
            forall|k: int|
                0 <= k < found@.len() ==> (#[trigger] found@[k]) < i && is_within(
                    centers@[found@[k] as int],
                    query,
                    radius,
                ),
            forall|k: int, l: int|
                0 <= k < l < found@.len() ==> #[trigger] found@[k] < #[trigger] found@[l],
            forall|j: int|
                0 <= j < i && is_within(#[trigger] centers@[j], query, radius) ==> exists|k: int|
                    0 <= k < found@.len() && #[trigger] found@[k] == j,
        decreases n - i,
    {
        if within(centers[i], query, radius) {
            let ghost before = found@;
            found.push(i);
            proof {
                assert(found@[before.len() as int] == i);
                assert forall|j: int|
                    0 <= j < i + 1 && is_within(#[trigger] centers@[j], query, radius) implies exists|
                    k: int,
                | 0 <= k < found@.len() && #[trigger] found@[k] == j by {
                    if j < i {
                        let k = choose|k: int| 0 <= k < before.len() && #[trigger] before[k] == j;
                        assert(found@[k] == j);
                    }
                }
            }
        }
        i += 1;
    }
    found
}

/// Whether the area that the polygons of rank `p` and `n` share has to be
/// measured: `n` is of lower rank than `p`, not yet suppressed, and the two
/// bounding boxes intersect.
pub fn needs_overlap(polygons: &Vec<Polygon2D>, suppressed: &Vec<bool>, p: usize, n: usize) -> (result: bool)
    requires
        suppressed@.len() == polygons@.len(),
        p < polygons@.len(),
        n < polygons@.len(),
    ensures
        result == (n > p && !suppressed@[n as int] && boxes_intersect(
            polygons@[p as int].bbox,
            polygons@[n as int].bbox,
        )),
{
    n > p && !suppressed[n] && bbox_intersect_2d(&polygons[p].bbox, &polygons[n].bbox)
}

/// The polygon whose turn it is next: the one of the highest rank from
/// `from` on that is not suppressed, or `None` where every polygon from
/// `from` on is suppressed or there is none.
pub fn next_turn(suppressed: &Vec<bool>, from: usize) -> (turn: Option<usize>)
    ensures
        match turn {
            Some(p) => {
                &&& from <= p < suppressed@.len()
                &&& !suppressed@[p as int]
                &&& forall|q: int| from <= q < p ==> #[trigger] suppressed@[q]
            },
            None => forall|q: int| from <= q < suppressed@.len() ==> #[trigger] suppressed@[q],
        },
{
    let n = suppressed.len();
    let mut p: usize = from;
    while p < n
        invariant
            from <= p,
            n == suppressed@.len(),
            forall|q: int| from <= q < p && q < n ==> #[trigger] suppressed@[q],
        decreases n - p,
    {
        if !suppressed[p] {
            return Some(p);
        }
        p += 1;
    }
    None
}

/// Let the polygon of rank `p` suppress the polygons that it overlaps by
/// more than the threshold, given the areas measured for it.
///
/// An area measured against a polygon of the same or a higher rank, against
/// one that is suppressed already, or against one whose bounding box does not
/// meet that of `p`, is not looked at. Whether `p` is itself suppressed is
/// not looked at either: a suppressed polygon gets no turn.
pub fn suppress_neighbors(
    polygons: &Vec<Polygon2D>,
    suppressed: &mut Vec<bool>,
    p: usize,
    measured: &Vec<Measured>,
    threshold: u32,
)
    requires
        old(suppressed)@.len() == polygons@.len(),
        p < polygons@.len(),
        measured_in_range(measured@, polygons@.len() as int),
    ensures
        final(suppressed)@.len() == old(suppressed)@.len(),
        forall|q: int|
            0 <= q < polygons@.len() ==> #[trigger] final(suppressed)@[q] == (old(suppressed)@[q]
                || hits(polygons@, measured@, threshold, p as int, q)),
{
    let count = measured.len();
    let mut k: usize = 0;
    while k < count
        invariant
            k <= count,
            count == measured@.len(),
            suppressed@.len() == polygons@.len(),
            p < polygons@.len(),
            measured_in_range(measured@, polygons@.len() as int),
            forall|q: int|
                0 <= q < polygons@.len() ==> #[trigger] suppressed@[q] == (old(suppressed)@[q] || hits(
                    polygons@,
                    measured@.take(k as int),
                    threshold,
                    p as int,
                    q,
                )),
        decreases count - k,
    {
        let (n, inter) = measured[k];
        assert(measured@[k as int].0 < polygons@.len());
        let ghost had = measured@.take(k as int);
        let ghost now = measured@.take(k + 1);
        if needs_overlap(polygons, suppressed, p, n) {
            if exceeds_threshold(inter, polygons[p].area, polygons[n].area, threshold) {
                suppressed.set(n, true);
            }
        }
        proof {
            assert(now[k as int] == measured@[k as int]);
            assert forall|q: int| 0 <= q < polygons@.len() implies hits(
                polygons@,
                now,
                threshold,
                p as int,
                q,
            ) == (hits(polygons@, had, threshold, p as int, q) || (q == n && p < n && pair_overlaps(
                polygons@[p as int],
                polygons@[n as int],
                inter,
                threshold,
            ))) by {
                if hits(polygons@, had, threshold, p as int, q) {
                    let w = choose|w: int|
                        0 <= w < had.len() && (#[trigger] had[w]).0 == q && pair_overlaps(
                            polygons@[p as int],
                            polygons@[q],
                            had[w].1,
                            threshold,
                        );
                    assert(now[w] == had[w]);
                }
                if hits(polygons@, now, threshold, p as int, q) {
                    let w = choose|w: int|
                        0 <= w < now.len() && (#[trigger] now[w]).0 == q && pair_overlaps(
                            polygons@[p as int],
                            polygons@[q],
                            now[w].1,
                            threshold,
                        );
                    if w < k {
                        assert(had[w] == now[w]);
                    }
                }
            }
        }
        k += 1;
    }
    assert(measured@.take(count as int) == measured@);
}

/// Which of the ranked polygons are kept.
///
/// `polygons` are ranked, the most probable first, and `overlaps[p]` holds
/// the areas measured for the polygon of rank `p`: pairs of the rank of
/// another polygon and twice the area the two share. A pair that is missing
/// counts as no overlap. The result holds `true` at the ranks that are kept.
pub fn sparse_polygon_nms_2d(polygons: &Vec<Polygon2D>, overlaps: &Vec<Vec<Measured>>, threshold: u32) -> (kept:
    Vec<bool>)
    requires
        overlaps@.len() == polygons@.len(),
        forall|p: int|
            0 <= p < overlaps@.len() ==> measured_in_range(
                (#[trigger] overlaps@[p])@,
                polygons@.len() as int,
            ),
    ensures
        kept@.len() == polygons@.len(),
        forall|q: int|
            0 <= q < kept@.len() ==> #[trigger] kept@[q] == !is_suppressed(
                polygons@,
                overlaps@,
                threshold,
                q,
            ),
{
    let n = polygons.len();
    let mut suppressed: Vec<bool> = Vec::new();
    let mut i: usize = 0;
    while i < n
        invariant
            i <= n,
            suppressed@.len() == i,
            forall|q: int| 0 <= q < i ==> !(#[trigger] suppressed@[q]),
        decreases n - i,
    {
        suppressed.push(false);
        i += 1;
    }
    let mut p: usize = 0;
    while p < n
        invariant
            p <= n,
            n == polygons@.len(),
            overlaps@.len() == n,
            suppressed@.len() == n,
            forall|p: int|
                0 <= p < overlaps@.len() ==> measured_in_range((#[trigger] overlaps@[p])@, n as int),
            forall|q: int|
                0 <= q < n ==> #[trigger] suppressed@[q] == suppressed_by(
                    polygons@,
                    overlaps@,
                    threshold,
                    q,
                    p as int,
                ),
        decreases n - p,
    {
        proof {
            lemma_suppressed_by_all(polygons@, overlaps@, threshold, p as int);
        }
        if !suppressed[p] {
            suppress_neighbors(polygons, &mut suppressed, p, &overlaps[p], threshold);
        }
        proof {
            assert forall|q: int| 0 <= q < n implies #[trigger] suppressed@[q] == suppressed_by(
                polygons@,
                overlaps@,
                threshold,
                q,
                p + 1,
            ) by {
                lemma_suppressed_by_step(polygons@, overlaps@, threshold, q, p as int);
            }
        }
        p += 1;
    }
    let mut kept: Vec<bool> = Vec::new();
    let mut q: usize = 0;
    while q < n
        invariant
            q <= n,
            suppressed@.len() == n,
            kept@.len() == q,
            forall|k: int| 0 <= k < q ==> #[trigger] kept@[k] == !suppressed@[k],
        decreases n - q,
    {
        kept.push(!suppressed[q]);
        q += 1;
    }
    proof {
        assert forall|q: int| 0 <= q < n implies #[trigger] kept@[q] == !is_suppressed(
            polygons@,
            overlaps@,
            threshold,
            q,
        ) by {
            lemma_suppressed_by_all(polygons@, overlaps@, threshold, q);
            lemma_suppressed_by_beyond(polygons@, overlaps@, threshold, q, n as int);
        }
    }
    kept
}

/// A kept polygon of a rank below `bound` suppresses the polygon of rank
/// `q`.
pub open spec fn suppressed_by(
    polys: Seq<Polygon2D>,
    overlaps: Seq<Vec<Measured>>,
    threshold: u32,
    q: int,
    bound: int,
) -> bool {
    exists|p: int|
        0 <= p < q && p < bound && !is_suppressed(polys, overlaps, threshold, p) && #[trigger] hits(
            polys,
            overlaps[p]@,
            threshold,
            p,
            q,
        )
}

/// Only polygons of higher rank matter to whether a polygon is suppressed.
proof fn lemma_suppressed_by_all(polys: Seq<Polygon2D>, overlaps: Seq<Vec<Measured>>, threshold: u32, q: int)
    ensures
        is_suppressed(polys, overlaps, threshold, q) == suppressed_by(polys, overlaps, threshold, q, q),
{
}

/// Bounds above a polygon's own rank add nothing.
proof fn lemma_suppressed_by_beyond(
    polys: Seq<Polygon2D>,
    overlaps: Seq<Vec<Measured>>,
    threshold: u32,
    q: int,
    bound: int,
)
    requires
        q <= bound,
    ensures
        suppressed_by(polys, overlaps, threshold, q, bound) == suppressed_by(
            polys,
            overlaps,
            threshold,
            q,
            q,
        ),
{
}

/// Raising the bound by one adds the polygon of rank `bound`, where it is
/// kept.
proof fn lemma_suppressed_by_step(
    polys: Seq<Polygon2D>,
    overlaps: Seq<Vec<Measured>>,
    threshold: u32,
    q: int,
    bound: int,
)
    requires
        0 <= bound,
    ensures
        suppressed_by(polys, overlaps, threshold, q, bound + 1) == (suppressed_by(
            polys,
            overlaps,
            threshold,
            q,
            bound,
        ) || (!is_suppressed(polys, overlaps, threshold, bound) && hits(
            polys,
            overlaps[bound]@,
            threshold,
            bound,
            q,
        ))),
{
    if suppressed_by(polys, overlaps, threshold, q, bound + 1) {
        let p = choose|p: int|
            0 <= p < q && p < bound + 1 && !is_suppressed(polys, overlaps, threshold, p)
                && #[trigger] hits(polys, overlaps[p]@, threshold, p, q);
        if p < bound {
            assert(suppressed_by(polys, overlaps, threshold, q, bound));
        }
    }
}

/// An overlap that is above a threshold is above every lower one.
pub proof fn lemma_exceeds_lower_threshold(inter: u128, area_a: u128, area_b: u128, low: u32, high: u32)
    requires
        low <= high,
        overlap_exceeds(inter, area_a, area_b, high),
    ensures
        overlap_exceeds(inter, area_a, area_b, low),
{
    let least = smaller(area_a, area_b) + AREA_EPSILON;
    assert(low * least <= high * least) by (nonlinear_arith)
        requires
            low <= high,
            least >= 0,
    ;
}

/// A polygon that suppresses another at a threshold does so at every lower
/// one.
pub proof fn lemma_hits_lower_threshold(
    polys: Seq<Polygon2D>,
    measured: Seq<Measured>,
    low: u32,
    high: u32,
    p: int,
    q: int,
)
    requires
        low <= high,
        hits(polys, measured, high, p, q),
    ensures
        hits(polys, measured, low, p, q),
{
    let k = choose|k: int|
        0 <= k < measured.len() && (#[trigger] measured[k]).0 == q && pair_overlaps(
            polys[p],
            polys[q],
            measured[k].1,
            high,
        );
    lemma_exceeds_lower_threshold(measured[k].1, polys[p].area, polys[q].area, low, high);
}

/// The polygon of the highest rank is always kept.
pub proof fn lemma_first_is_kept(polys: Seq<Polygon2D>, overlaps: Seq<Vec<Measured>>, threshold: u32)
    ensures
        !is_suppressed(polys, overlaps, threshold, 0),
{
}

/// Two polygons whose bounding boxes do not intersect never suppress one
/// another, whatever area was measured for them and whatever the threshold.
pub proof fn lemma_disjoint_boxes_never_hit(
    polys: Seq<Polygon2D>,
    measured: Seq<Measured>,
    threshold: u32,
    p: int,
    q: int,
)
    requires
        0 <= p < polys.len(),
        0 <= q < polys.len(),
        !boxes_intersect(polys[p].bbox, polys[q].bbox),
    ensures
        !hits(polys, measured, threshold, p, q),
{
}

/// A polygon whose bounding box intersects that of no polygon of higher rank
/// is kept, whatever the threshold.
pub proof fn lemma_disjoint_is_kept(
    polys: Seq<Polygon2D>,
    overlaps: Seq<Vec<Measured>>,
    threshold: u32,
    q: int,
)
    requires
        0 <= q < polys.len(),
        forall|p: int| 0 <= p < q ==> !boxes_intersect((#[trigger] polys[p]).bbox, polys[q].bbox),
    ensures
        !is_suppressed(polys, overlaps, threshold, q),
{
    assert forall|p: int| 0 <= p < q implies !#[trigger] hits(polys, overlaps[p]@, threshold, p, q) by {
        assert(!boxes_intersect(polys[p].bbox, polys[q].bbox));
    }
}

/// Raising the threshold from `low` to `high` revives no polygon that then
/// suppresses one which `low` keeps: whenever a polygon that is suppressed at
/// `low` and kept at `high` suppresses another at `high`, that other one is
/// suppressed at `low` as well.
pub open spec fn revival_is_harmless(
    polys: Seq<Polygon2D>,
    overlaps: Seq<Vec<Measured>>,
    low: u32,
    high: u32,
) -> bool {
    forall|p: int, q: int|
        is_suppressed(polys, overlaps, low, p) && !is_suppressed(polys, overlaps, high, p)
            && #[trigger] hits(polys, overlaps[p]@, high, p, q) ==> is_suppressed(
            polys,
            overlaps,
            low,
            q,
        )
}

/// Where raising the threshold revives no polygon to harmful effect, every
/// polygon that the higher threshold suppresses is suppressed by the lower
/// one too.
pub proof fn lemma_suppression_shrinks(
    polys: Seq<Polygon2D>,
    overlaps: Seq<Vec<Measured>>,
    low: u32,
    high: u32,
    q: int,
)
    requires
        low <= high,
        revival_is_harmless(polys, overlaps, low, high),
        is_suppressed(polys, overlaps, high, q),
    ensures
        is_suppressed(polys, overlaps, low, q),
{
    let p = choose|p: int|
        0 <= p < q && !is_suppressed(polys, overlaps, high, p) && #[trigger] hits(
            polys,
            overlaps[p]@,
            high,
            p,
            q,
        );
    if !is_suppressed(polys, overlaps, low, p) {
        lemma_hits_lower_threshold(polys, overlaps[p]@, low, high, p, q);
    }
}

/// Where raising the threshold revives no polygon to harmful effect, the
/// higher threshold keeps at least as many polygons as the lower one.
pub proof fn lemma_kept_count_grows(
    polys: Seq<Polygon2D>,
    overlaps: Seq<Vec<Measured>>,
    low: u32,
    high: u32,
    n: nat,
)
    requires
        low <= high,
        revival_is_harmless(polys, overlaps, low, high),
    ensures
        kept_count(polys, overlaps, low, n) <= kept_count(polys, overlaps, high, n),
    decreases n,
{
    if n > 0 {
        lemma_kept_count_grows(polys, overlaps, low, high, (n - 1) as nat);
        if is_suppressed(polys, overlaps, high, n - 1) {
            lemma_suppression_shrinks(polys, overlaps, low, high, n - 1);
        }
    }
}

/// With no polygon of a rank below `bound`, nothing is suppressed.
proof fn lemma_suppressed_by_none(polys: Seq<Polygon2D>, overlaps: Seq<Vec<Measured>>, threshold: u32, q: int)
    ensures
        !suppressed_by(polys, overlaps, threshold, q, 0),
{
}

/// With three polygons or fewer, raising the threshold never keeps fewer:
/// the one polygon that a higher threshold can newly suppress is the third,
/// and then through the second, which that threshold has newly kept.
pub proof fn lemma_few_are_monotone(
    polys: Seq<Polygon2D>,
    overlaps: Seq<Vec<Measured>>,
    low: u32,
    high: u32,
)
    requires
        low <= high,
        polys.len() <= 3,
    ensures
        kept_count(polys, overlaps, low, polys.len()) <= kept_count(
            polys,
            overlaps,
            high,
            polys.len(),
        ),
{
    assert forall|t: u32, q: int| 0 <= q < 3 implies #[trigger] is_suppressed(polys, overlaps, t, q) == (q
        >= 1 && hits(polys, overlaps[0]@, t, 0, q) || q == 2 && !is_suppressed(polys, overlaps, t, 1)
        && hits(polys, overlaps[1]@, t, 1, q)) by {
        lemma_suppressed_by_all(polys, overlaps, t, q);
        lemma_suppressed_by_none(polys, overlaps, t, q);
        lemma_suppressed_by_step(polys, overlaps, t, q, 0);
        lemma_suppressed_by_step(polys, overlaps, t, q, 1);
        if q < 2 {
            lemma_suppressed_by_beyond(polys, overlaps, t, q, 1);
            lemma_suppressed_by_beyond(polys, overlaps, t, q, 2);
        }
        if q < 1 {
            lemma_suppressed_by_beyond(polys, overlaps, t, q, 0);
        }
    }
    assert forall|p: int, q: int| #[trigger] hits(polys, overlaps[p]@, high, p, q) implies hits(
        polys,
        overlaps[p]@,
        low,
        p,
        q,
    ) by {
        lemma_hits_lower_threshold(polys, overlaps[p]@, low, high, p, q);
    }
    let n = polys.len();
    assert(is_suppressed(polys, overlaps, low, 0) == is_suppressed(polys, overlaps, high, 0));
    assert(is_suppressed(polys, overlaps, high, 1) ==> is_suppressed(polys, overlaps, low, 1));
    assert(kept_count(polys, overlaps, low, 0) == 0 && kept_count(polys, overlaps, high, 0) == 0);
    if n >= 1 {
        assert(kept_count(polys, overlaps, low, 1) == 1 && kept_count(polys, overlaps, high, 1) == 1);
    }
    if n >= 2 {
        assert(kept_count(polys, overlaps, low, 2) <= kept_count(polys, overlaps, high, 2));
    }
    if n >= 3 {
        assert(kept_count(polys, overlaps, low, 3) <= kept_count(polys, overlaps, high, 3));
    }
}

/// Two polygons whose centers lie farther apart, along the rows or along the
/// columns, than the two reach together have bounding boxes that do not
/// intersect, so that neither suppresses the other.
pub proof fn lemma_out_of_reach(
    a: Polygon2D,
    center_a: (usize, usize),
    dist_a: Seq<u32>,
    b: Polygon2D,
    center_b: (usize, usize),
    dist_b: Seq<u32>,
    rays: Seq<(i32, i32)>,
)
    requires
        a.decodes(center_a, dist_a, rays),
        b.decodes(center_b, dist_b, rays),
        vertices_fit(center_a, dist_a, rays),
        vertices_fit(center_b, dist_b, rays),
        dist_a.len() == rays.len(),
        dist_b.len() == rays.len(),
        forall|r: int| 0 <= r < rays.len() ==> is_bounded_ray(#[trigger] rays[r]),
        axis_gap(center_a.0, center_b.0) > a.dist + b.dist || axis_gap(center_a.1, center_b.1) > a.dist
            + b.dist,
    ensures
        !boxes_intersect(a.bbox, b.bbox),
{
    lemma_polygon_within_reach(a, center_a, dist_a, rays);
    lemma_polygon_within_reach(b, center_b, dist_b, rays);
}

/// Polygons that share no area never overlap by more than a threshold, so
/// that a pair which nobody measured counts the same as one measured at
/// zero.
pub proof fn lemma_no_shared_area_never_exceeds(area_a: u128, area_b: u128, threshold: u32)
    ensures
        !overlap_exceeds(0, area_a, area_b, threshold),
{
    let least = smaller(area_a, area_b) + AREA_EPSILON;
    assert(threshold * least >= 0) by (nonlinear_arith)
        requires
            threshold >= 0,
            least >= 0,
    ;
}

/// Where the shared area is all of the smaller polygon's area, the overlap is
/// above every threshold `t` with `t / (THRESHOLD_ONE - t)` below that area,
/// however large the other polygon is.
pub proof fn lemma_full_overlap_exceeds(inter: u128, area_a: u128, area_b: u128, threshold: u32)
    requires
        inter >= smaller(area_a, area_b),
        threshold < THRESHOLD_ONE,
        smaller(area_a, area_b) * (THRESHOLD_ONE - threshold) > threshold,
    ensures
        overlap_exceeds(inter, area_a, area_b, threshold),
{
    let least = smaller(area_a, area_b);
    assert(inter * THRESHOLD_ONE >= least * THRESHOLD_ONE) by (nonlinear_arith)
        requires
            inter >= least,
    ;
    assert(least * THRESHOLD_ONE > threshold * (least + 1)) by (nonlinear_arith)
        requires
            least * (THRESHOLD_ONE - threshold) > threshold,
    ;
}

/// A polygon that lies within a kept polygon of higher rank is suppressed:
/// where the bounding boxes intersect and the area measured for the two is
/// all of the lower one's area, which is the smaller, the lower one is
/// suppressed at every threshold that [`lemma_full_overlap_exceeds`] allows.
pub proof fn lemma_contained_is_suppressed(
    polys: Seq<Polygon2D>,
    overlaps: Seq<Vec<Measured>>,
    threshold: u32,
    p: int,
    q: int,
    k: int,
)
    requires
        0 <= p < q < polys.len(),
        !is_suppressed(polys, overlaps, threshold, p),
        boxes_intersect(polys[p].bbox, polys[q].bbox),
        0 <= k < overlaps[p]@.len(),
        overlaps[p]@[k].0 == q,
        overlaps[p]@[k].1 >= polys[q].area,
        polys[q].area <= polys[p].area,
        threshold < THRESHOLD_ONE,
        polys[q].area * (THRESHOLD_ONE - threshold) > threshold,
    ensures
        is_suppressed(polys, overlaps, threshold, q),
{
    lemma_full_overlap_exceeds(overlaps[p]@[k].1, polys[p].area, polys[q].area, threshold);
    assert(hits(polys, overlaps[p]@, threshold, p, q));
}

/// Two tables of measured areas agree where it matters: for every kept
/// polygon `p` and every polygon `q` of lower rank that no kept polygon above
/// `p` suppresses, both say the same of whether `p` suppresses `q`.
///
/// A table may thus leave out the polygons that are suppressed when `p` has
/// its turn, and the pairs whose bounding boxes do not intersect.
pub open spec fn agree_where_needed(
    polys: Seq<Polygon2D>,
    full: Seq<Vec<Measured>>,
    sparse: Seq<Vec<Measured>>,
    threshold: u32,
) -> bool {
    forall|p: int, q: int|
        0 <= p < q && !is_suppressed(polys, sparse, threshold, p) && !suppressed_by(
            polys,
            sparse,
            threshold,
            q,
            p,
        ) ==> #[trigger] hits(polys, sparse[p]@, threshold, p, q) == hits(
            polys,
            full[p]@,
            threshold,
            p,
            q,
        )
}

/// Measuring only what is needed changes nothing: two tables that agree where
/// it matters suppress the same polygons.
pub proof fn lemma_measuring_on_demand(
    polys: Seq<Polygon2D>,
    full: Seq<Vec<Measured>>,
    sparse: Seq<Vec<Measured>>,
    threshold: u32,
    q: int,
)
    requires
        agree_where_needed(polys, full, sparse, threshold),
    ensures
        is_suppressed(polys, sparse, threshold, q) == is_suppressed(polys, full, threshold, q),
    decreases q, q + 2,
{
    if q > 0 {
        lemma_agree_below(polys, full, sparse, threshold, q, q);
    }
}

/// Up to any bound, two tables that agree where it matters say the same of
/// whether a polygon is suppressed.
proof fn lemma_agree_below(
    polys: Seq<Polygon2D>,
    full: Seq<Vec<Measured>>,
    sparse: Seq<Vec<Measured>>,
    threshold: u32,
    q: int,
    bound: int,
)
    requires
        agree_where_needed(polys, full, sparse, threshold),
        0 <= bound <= q,
    ensures
        suppressed_by(polys, sparse, threshold, q, bound) == suppressed_by(
            polys,
            full,
            threshold,
            q,
            bound,
        ),
    decreases q, 1 + bound,
{
    if bound > 0 {
        let b = bound - 1;
        lemma_agree_below(polys, full, sparse, threshold, q, b);
        lemma_measuring_on_demand(polys, full, sparse, threshold, b);
        lemma_suppressed_by_step(polys, sparse, threshold, q, b);
        lemma_suppressed_by_step(polys, full, threshold, q, b);
    }
}

} // verus!
