//! Painting detections into a label image.
//!
//! Detections are painted one over the other, the least probable first, so
//! that a pixel which several of them cover ends with the label of the most
//! probable one. The label of a detection is its identity plus one; zero is
//! background.
use crate::error::InputError;
use crate::geometry::polygon::{
    all_vertices_fit,
    check_shapes,
    decode_vertices,
    decoded_vertices,
    shapes_agree,
    vertices_fit,
};
use crate::labeling::image::{is_grid, shape_fits, LabelImage};
use crate::labeling::raster::{is_listed, pixel_inside, render_polygon_2d};
use crate::process::order::{is_painting_order, painting_order, paints_before};
use vstd::prelude::*;

verus! {

/// The vertex lists as sequences.
pub open spec fn vertex_lists(coords: Seq<Vec<(i32, i32)>>) -> Seq<Seq<(i32, i32)>> {
    Seq::new(coords.len(), |k: int| coords[k]@)
}

/// The vertex lists of the detections, where all their vertices fit.
pub open spec fn decoded_all(dist: Seq<Vec<u32>>, pos: Seq<(usize, usize)>, rays: Seq<(i32, i32)>) -> Seq<
    Seq<(i32, i32)>,
> {
    Seq::new(dist.len(), |k: int| decoded_vertices(pos[k], dist[k]@, rays))
}

/// Every identity leaves room for its label: it is below `u16::MAX`.
pub open spec fn ids_fit(ids: Seq<usize>) -> bool {
    forall|k: int| 0 <= k < ids.len() ==> #[trigger] ids[k] < u16::MAX
}

/// Polygon `k` covers pixel `(r, c)`.
pub open spec fn covers(polys: Seq<Seq<(i32, i32)>>, k: int, r: int, c: int) -> bool {
    pixel_inside(polys[k], r, c)
}

/// `label` is what pixel `(r, c)` shows once all polygons are painted: zero
/// where no polygon covers the pixel, else the identity plus one of the
/// covering polygon that is painted last, which is the most probable one and,
/// among equally probable ones, the one given last.
pub open spec fn is_painted(
    label: u16,
    r: int,
    c: int,
    polys: Seq<Seq<(i32, i32)>>,
    prob: Seq<u32>,
    ids: Seq<usize>,
) -> bool {
    if exists|k: int| 0 <= k < polys.len() && #[trigger] covers(polys, k, r, c) {
        exists|w: int|
            {
                &&& 0 <= w < polys.len()
                &&& #[trigger] covers(polys, w, r, c)
                &&& label == ids[w] + 1
                &&& forall|k: int|
                    0 <= k < polys.len() && #[trigger] covers(polys, k, r, c) ==> k == w
                        || paints_before(prob, k, w)
            }
    } else {
        label == 0
    }
}

/// Every pixel of the grid shows what [`is_painted`] says.
pub open spec fn is_label_image(
    cells: Seq<Seq<u16>>,
    shape: (usize, usize),
    polys: Seq<Seq<(i32, i32)>>,
    prob: Seq<u32>,
    ids: Seq<usize>,
) -> bool {
    &&& is_grid(cells, shape.0 as int, shape.1 as int)
    &&& forall|r: int, c: int|
        0 <= r < shape.0 && 0 <= c < shape.1 ==> is_painted(
            #[trigger] cells[r][c],
            r,
            c,
            polys,
            prob,
            ids,
        )
}

/// Among the first `m` polygons painted, the place in `order` of the last one
/// that covers pixel `(r, c)`; `-1` where none does.
pub open spec fn last_cover(polys: Seq<Seq<(i32, i32)>>, order: Seq<usize>, m: int, r: int, c: int) -> int
    decreases m,
{
    if m <= 0 {
        -1
    } else if covers(polys, order[m - 1] as int, r, c) {
        m - 1
    } else {
        last_cover(polys, order, m - 1, r, c)
    }
}

/// What pixel `(r, c)` shows after the first `m` polygons are painted.
pub open spec fn paint_after(
    polys: Seq<Seq<(i32, i32)>>,
    order: Seq<usize>,
    ids: Seq<usize>,
    m: int,
    r: int,
    c: int,
) -> int {
    let t = last_cover(polys, order, m, r, c);
    if t < 0 {
        0
    } else {
        ids[order[t] as int] + 1
    }
}

/// [`last_cover`] is a place below `m` whose polygon covers the pixel, and no
/// polygon painted after it among the first `m` does.
proof fn lemma_last_cover(polys: Seq<Seq<(i32, i32)>>, order: Seq<usize>, m: int, r: int, c: int)
    requires
        0 <= m,
    ensures
        -1 <= last_cover(polys, order, m, r, c) < m,
        last_cover(polys, order, m, r, c) >= 0 ==> covers(
            polys,
            order[last_cover(polys, order, m, r, c)] as int,
            r,
            c,
        ),
        forall|t: int|
            last_cover(polys, order, m, r, c) < t < m ==> !covers(polys, #[trigger] order[t] as int, r, c),
    decreases m,
{
    if m > 0 && !covers(polys, order[m - 1] as int, r, c) {
        lemma_last_cover(polys, order, m - 1, r, c);
    }
}

/// Painting in painting order leaves every pixel with the label that
/// [`is_painted`] describes.
proof fn lemma_painted_in_order(
    polys: Seq<Seq<(i32, i32)>>,
    order: Seq<usize>,
    prob: Seq<u32>,
    ids: Seq<usize>,
    r: int,
    c: int,
    label: u16,
)
    requires
        polys.len() == prob.len(),
        polys.len() <= usize::MAX,
        is_painting_order(order, prob),
        label == paint_after(polys, order, ids, polys.len() as int, r, c),
    ensures
        is_painted(label, r, c, polys, prob, ids),
{
    let n = polys.len() as int;
    let t = last_cover(polys, order, n, r, c);
    lemma_last_cover(polys, order, n, r, c);
    assert forall|k: int| 0 <= k < n && #[trigger] covers(polys, k, r, c) implies t >= 0 && (k
        == order[t] as int || paints_before(prob, k, order[t] as int)) by {
        assert(order.contains(k as usize));
        let at = choose|at: int| 0 <= at < order.len() && order[at] == k as usize;
        assert(covers(polys, order[at] as int, r, c));
        if at < t {
            assert(paints_before(prob, order[at] as int, order[t] as int));
        }
    }
    if t >= 0 {
        let w = order[t] as int;
        assert(covers(polys, w, r, c));
    }
}

/// The vertices of every detection, in the order given.
///
/// Row `p` of `polygon_dist` holds the radial distances of the detection
/// centered at `polygon_pos[p]`. Fails with `NoRays` where `n_rays` is zero,
/// else with `ShapeMismatch` where the lengths disagree, else with
/// `OutOfRange` where a vertex cannot be stored.
pub fn radial_dist_to_coords_2d(
    polygon_dist: &Vec<Vec<u32>>,
    polygon_pos: &Vec<(usize, usize)>,
    n_polys: usize,
    n_rays: usize,
    rays: &Vec<(i32, i32)>,
) -> (result: Result<Vec<Vec<(i32, i32)>>, InputError>)
    ensures
        match result {
            Ok(coords) => {
                &&& n_rays > 0
                &&& shapes_agree(polygon_dist@, polygon_pos@, n_polys, n_rays, rays@)
                &&& all_vertices_fit(polygon_dist@, polygon_pos@, rays@)
                &&& vertex_lists(coords@) == decoded_all(polygon_dist@, polygon_pos@, rays@)
            },
            Err(InputError::NoRays) => n_rays == 0,
            Err(InputError::ShapeMismatch) => n_rays > 0 && !shapes_agree(
                polygon_dist@,
                polygon_pos@,
                n_polys,
                n_rays,
                rays@,
            ),
            Err(InputError::OutOfRange) => {
                &&& n_rays > 0
                &&& shapes_agree(polygon_dist@, polygon_pos@, n_polys, n_rays, rays@)
                &&& !all_vertices_fit(polygon_dist@, polygon_pos@, rays@)
            },
        },
{
    match check_shapes(polygon_dist, polygon_pos, n_polys, n_rays, rays) {
        Err(e) => {
            return Err(e);
        },
        Ok(_) => {},
    }
    let mut coords: Vec<Vec<(i32, i32)>> = Vec::new();
    let mut p: usize = 0;
    while p < n_polys
        invariant
            p <= n_polys,
            n_rays > 0,
            shapes_agree(polygon_dist@, polygon_pos@, n_polys, n_rays, rays@),
            coords@.len() == p,
            forall|k: int|
                0 <= k < p ==> vertices_fit(polygon_pos@[k], (#[trigger] polygon_dist@[k])@, rays@),
            forall|k: int|
                0 <= k < p ==> (#[trigger] coords@[k])@ == decoded_vertices(
                    polygon_pos@[k],
                    polygon_dist@[k]@,
                    rays@,
                ),
        decreases n_polys - p,
    {
        match decode_vertices(polygon_pos[p], &polygon_dist[p], rays) {
            Ok(vertices) => {
                coords.push(vertices);
            },
            Err(_) => {
                assert(!vertices_fit(polygon_pos@[p as int], polygon_dist@[p as int]@, rays@));
                return Err(InputError::OutOfRange);
            },
        }
        p += 1;
    }
    assert(vertex_lists(coords@) =~= decoded_all(polygon_dist@, polygon_pos@, rays@));
    Ok(coords)
}

/// Whether every identity leaves room for its label.
fn check_ids(ids: &Vec<usize>) -> (ok: bool)
    ensures
        ok == ids_fit(ids@),
{
    let n = ids.len();
    let mut k: usize = 0;
    while k < n
        invariant
            k <= n,
            n == ids@.len(),
            forall|t: int| 0 <= t < k ==> #[trigger] ids@[t] < u16::MAX,
        decreases n - k,
    {
        if ids[k] >= 0xffff {
            return false;
        }
        k += 1;
    }
    true
}

/// Give the listed pixels the label `label`.
fn paint_pixels(image: &mut LabelImage, rows: &Vec<usize>, cols: &Vec<usize>, label: u16, Ghost(shape): Ghost<
    (usize, usize),
>)
    requires
        is_grid(old(image)@, shape.0 as int, shape.1 as int),
        rows@.len() == cols@.len(),
        forall|k: int| 0 <= k < rows@.len() ==> (#[trigger] rows@[k]) < shape.0 && cols@[k] < shape.1,
    ensures
        is_grid(final(image)@, shape.0 as int, shape.1 as int),
        final(image).spec_shape() == old(image).spec_shape(),
        forall|r: int, c: int|
            0 <= r < shape.0 && 0 <= c < shape.1 ==> (#[trigger] final(image)@[r][c]) == if is_listed(
                rows@,
                cols@,
                r,
                c,
            ) {
                label
            } else {
                old(image)@[r][c]
            },
{
    let n = rows.len();
    let mut j: usize = 0;
    while j < n
        invariant
            j <= n,
            n == rows@.len(),
            n == cols@.len(),
            is_grid(image@, shape.0 as int, shape.1 as int),
            image.spec_shape() == old(image).spec_shape(),
            forall|k: int| 0 <= k < rows@.len() ==> (#[trigger] rows@[k]) < shape.0 && cols@[k] < shape.1,
            forall|r: int, c: int|
                0 <= r < shape.0 && 0 <= c < shape.1 ==> (#[trigger] image@[r][c]) == if is_listed(
                    rows@.take(j as int),
                    cols@.take(j as int),
                    r,
                    c,
                ) {
                    label
                } else {
                    old(image)@[r][c]
                },
        decreases n - j,
    {
        image.set_label(rows[j], cols[j], label);
        proof {
            let y = rows@[j as int] as int;
            let x = cols@[j as int] as int;
            let had_rows = rows@.take(j as int);
            let had_cols = cols@.take(j as int);
            let now_rows = rows@.take(j + 1);
            let now_cols = cols@.take(j + 1);
            assert forall|r: int, c: int| 0 <= r < shape.0 && 0 <= c < shape.1 implies is_listed(
                now_rows,
                now_cols,
                r,
                c,
            ) == (is_listed(had_rows, had_cols, r, c) || (r == y && c == x)) by {
                if is_listed(had_rows, had_cols, r, c) {
                    let k = choose|k: int|
                        0 <= k < had_rows.len() && k < had_cols.len() && #[trigger] had_rows[k] == r
                            && had_cols[k] == c;
                    assert(now_rows[k] == r && now_cols[k] == c);
                }
                if r == y && c == x {
                    assert(now_rows[j as int] == r && now_cols[j as int] == c);
                }
                if is_listed(now_rows, now_cols, r, c) {
                    let k = choose|k: int|
                        0 <= k < now_rows.len() && k < now_cols.len() && #[trigger] now_rows[k] == r
                            && now_cols[k] == c;
                    if k < j {
                        assert(had_rows[k] == r && had_cols[k] == c);
                    }
                }
            }
        }
        j += 1;
    }
    assert(rows@.take(n as int) == rows@);
    assert(cols@.take(n as int) == cols@);
}

/// Paint polygons into a fresh label image of the given shape.
///
/// Polygon `k` is the closed polygon through `polygons[k]`; its pixels get
/// the label `polygon_ids[k] + 1`. The polygons are painted by ascending
/// `polygon_prob`, in the order given among equal probabilities, so that a
/// later one overwrites an earlier one.
///
/// Fails with `ShapeMismatch` where the three vectors differ in length, else
/// with `OutOfRange` where an image of this shape cannot be allocated or an
/// identity is `u16::MAX` or more.
pub fn label_polygons_2d(
    polygons: &Vec<Vec<(i32, i32)>>,
    polygon_prob: &Vec<u32>,
    polygon_ids: &Vec<usize>,
    shape: (usize, usize),
) -> (result: Result<LabelImage, InputError>)
    ensures
        match result {
            Ok(image) => {
                &&& polygons@.len() == polygon_prob@.len() == polygon_ids@.len()
                &&& shape_fits(shape)
                &&& ids_fit(polygon_ids@)
                &&& image.spec_shape() == (shape.0 as nat, shape.1 as nat)
                &&& is_label_image(
                    image@,
                    shape,
                    vertex_lists(polygons@),
                    polygon_prob@,
                    polygon_ids@,
                )
            },
            Err(InputError::NoRays) => false,
            Err(InputError::ShapeMismatch) => !(polygons@.len() == polygon_prob@.len()
                == polygon_ids@.len()),
            Err(InputError::OutOfRange) => {
                &&& polygons@.len() == polygon_prob@.len() == polygon_ids@.len()
                &&& !(shape_fits(shape) && ids_fit(polygon_ids@))
            },
        },
{
    let n = polygons.len();
    if polygon_prob.len() != n || polygon_ids.len() != n {
        return Err(InputError::ShapeMismatch);
    }
    if !check_ids(polygon_ids) {
        return Err(InputError::OutOfRange);
    }
    let mut image = match LabelImage::background(shape) {
        Some(image) => image,
        None => {
            return Err(InputError::OutOfRange);
        },
    };
    let order = painting_order(polygon_prob);
    let ghost polys = vertex_lists(polygons@);
    let mut m: usize = 0;
    while m < n
        invariant
            m <= n,
            n == polygons@.len(),
            n == polygon_prob@.len(),
            n == polygon_ids@.len(),
            polys == vertex_lists(polygons@),
            ids_fit(polygon_ids@),
            is_painting_order(order@, polygon_prob@),
            is_grid(image@, shape.0 as int, shape.1 as int),
            image.spec_shape() == (shape.0 as nat, shape.1 as nat),
            forall|r: int, c: int|
                0 <= r < shape.0 && 0 <= c < shape.1 ==> (#[trigger] image@[r][c]) == paint_after(
                    polys,
                    order@,
                    polygon_ids@,
                    m as int,
                    r,
                    c,
                ),
        decreases n - m,
    {
        let k = order[m];
        let (rows, cols) = render_polygon_2d(&polygons[k], shape);
        let label: u16 = (polygon_ids[k] + 1) as u16;
        let ghost before = image@;
        paint_pixels(&mut image, &rows, &cols, label, Ghost(shape));
        proof {
            assert(polys[k as int] == polygons@[k as int]@);
            assert forall|r: int, c: int| 0 <= r < shape.0 && 0 <= c < shape.1 implies (
            #[trigger] image@[r][c]) == paint_after(polys, order@, polygon_ids@, m + 1, r, c) by {
                assert(before[r][c] == paint_after(polys, order@, polygon_ids@, m as int, r, c));
                if is_listed(rows@, cols@, r, c) {
                    let t = choose|t: int|
                        0 <= t < rows@.len() && t < cols@.len() && #[trigger] rows@[t] == r && cols@[t]
                            == c;
                    assert(pixel_inside(polygons@[k as int]@, rows@[t] as int, cols@[t] as int));
                } else {
                    if pixel_inside(polygons@[k as int]@, r, c) {
                        assert(is_listed(rows@, cols@, r, c));
                    }
                }
            }
        }
        m += 1;
    }
    proof {
        assert forall|r: int, c: int| 0 <= r < shape.0 && 0 <= c < shape.1 implies is_painted(
            #[trigger] image@[r][c],
            r,
            c,
            polys,
            polygon_prob@,
            polygon_ids@,
        ) by {
            lemma_painted_in_order(polys, order@, polygon_prob@, polygon_ids@, r, c, image@[r][c]);
        }
    }
    Ok(image)
}

/// The inputs of [`radial_polygon_to_label_2d`] describe the same detections:
/// as many distance rows as probabilities, centers and identities, and in
/// every row as many distances as there are rays.
pub open spec fn label_inputs_agree(
    dist: Seq<Vec<u32>>,
    prob: Seq<u32>,
    pos: Seq<(usize, usize)>,
    ids: Seq<usize>,
    rays: Seq<(i32, i32)>,
) -> bool {
    &&& prob.len() == dist.len()
    &&& pos.len() == dist.len()
    &&& ids.len() == dist.len()
    &&& forall|p: int| 0 <= p < dist.len() ==> (#[trigger] dist[p])@.len() == rays.len()
}

/// Turn detections into a label image of the given shape.
///
/// Detection `p` is centered at `polygon_pos[p]`, reaches
/// `polygon_dist[p][r]` along `rays[r]`, has the probability
/// `polygon_prob[p]` and the identity `polygon_ids[p]`. Its pixels get the
/// label `polygon_ids[p] + 1`, unless a more probable detection, or an
/// equally probable one given later, covers them too.
///
/// Fails with `NoRays` where `rays` is empty, else with `ShapeMismatch` where
/// the inputs disagree on the number of detections or rays, else with
/// `OutOfRange` where a vertex cannot be stored, an identity is `u16::MAX` or
/// more, or an image of this shape cannot be allocated.
pub fn radial_polygon_to_label_2d(
    polygon_dist: &Vec<Vec<u32>>,
    polygon_prob: &Vec<u32>,
    polygon_pos: &Vec<(usize, usize)>,
    polygon_ids: &Vec<usize>,
    shape: (usize, usize),
    rays: &Vec<(i32, i32)>,
) -> (result: Result<LabelImage, InputError>)
    ensures
        match result {
            Ok(image) => {
                &&& rays@.len() > 0
                &&& label_inputs_agree(
                    polygon_dist@,
                    polygon_prob@,
                    polygon_pos@,
                    polygon_ids@,
                    rays@,
                )
                &&& all_vertices_fit(polygon_dist@, polygon_pos@, rays@)
                &&& ids_fit(polygon_ids@)
                &&& shape_fits(shape)
                &&& image.spec_shape() == (shape.0 as nat, shape.1 as nat)
                &&& is_label_image(
                    image@,
                    shape,
                    decoded_all(polygon_dist@, polygon_pos@, rays@),
                    polygon_prob@,
                    polygon_ids@,
                )
            },
            Err(InputError::NoRays) => rays@.len() == 0,
            Err(InputError::ShapeMismatch) => rays@.len() > 0 && !label_inputs_agree(
                polygon_dist@,
                polygon_prob@,
                polygon_pos@,
                polygon_ids@,
                rays@,
            ),
            Err(InputError::OutOfRange) => {
                &&& rays@.len() > 0
                &&& label_inputs_agree(
                    polygon_dist@,
                    polygon_prob@,
                    polygon_pos@,
                    polygon_ids@,
                    rays@,
                )
                &&& !(all_vertices_fit(polygon_dist@, polygon_pos@, rays@) && ids_fit(polygon_ids@)
                    && shape_fits(shape))
            },
        },
{
    let n_polys = polygon_dist.len();
    let n_rays = rays.len();
    if n_rays == 0 {
        return Err(InputError::NoRays);
    }
    if polygon_prob.len() != n_polys || polygon_ids.len() != n_polys {
        return Err(InputError::ShapeMismatch);
    }
    let coords = match radial_dist_to_coords_2d(polygon_dist, polygon_pos, n_polys, n_rays, rays) {
        Ok(coords) => coords,
        Err(e) => {
            return Err(e);
        },
    };
    assert(coords@.len() == vertex_lists(coords@).len());
    label_polygons_2d(&coords, polygon_prob, polygon_ids, shape)
}

/// A label in the image is zero or the identity plus one of one of the
/// polygons: painting invents no label.
pub proof fn lemma_label_is_an_identity(
    label: u16,
    r: int,
    c: int,
    polys: Seq<Seq<(i32, i32)>>,
    prob: Seq<u32>,
    ids: Seq<usize>,
)
    requires
        is_painted(label, r, c, polys, prob, ids),
    ensures
        label == 0 || exists|k: int| 0 <= k < polys.len() && label == #[trigger] ids[k] + 1,
{
    if label != 0 {
        let w = choose|w: int|
            {
                &&& 0 <= w < polys.len()
                &&& #[trigger] covers(polys, w, r, c)
                &&& label == ids[w] + 1
                &&& forall|k: int|
                    0 <= k < polys.len() && #[trigger] covers(polys, k, r, c) ==> k == w
                        || paints_before(prob, k, w)
            };
        assert(label == ids[w] + 1);
    }
}

/// A pixel that polygons cover shows the label of one of them that is at
/// least as probable as every polygon that covers it.
pub proof fn lemma_most_probable_shows(
    label: u16,
    r: int,
    c: int,
    polys: Seq<Seq<(i32, i32)>>,
    prob: Seq<u32>,
    ids: Seq<usize>,
    any: int,
)
    requires
        is_painted(label, r, c, polys, prob, ids),
        0 <= any < polys.len(),
        covers(polys, any, r, c),
    ensures
        exists|w: int|
            {
                &&& 0 <= w < polys.len()
                &&& #[trigger] covers(polys, w, r, c)
                &&& label == ids[w] + 1
                &&& forall|k: int|
                    0 <= k < polys.len() && #[trigger] covers(polys, k, r, c) ==> prob[k] <= prob[w]
            },
{
    let w = choose|w: int|
        {
            &&& 0 <= w < polys.len()
            &&& #[trigger] covers(polys, w, r, c)
            &&& label == ids[w] + 1
            &&& forall|k: int|
                0 <= k < polys.len() && #[trigger] covers(polys, k, r, c) ==> k == w || paints_before(
                    prob,
                    k,
                    w,
                )
        };
    assert(covers(polys, w, r, c));
}

/// A pixel shows the label of the polygon `w` that covers it, where every
/// other polygon that covers it is painted before `w`.
pub proof fn lemma_last_painted_shows(
    label: u16,
    r: int,
    c: int,
    polys: Seq<Seq<(i32, i32)>>,
    prob: Seq<u32>,
    ids: Seq<usize>,
    w: int,
)
    requires
        is_painted(label, r, c, polys, prob, ids),
        0 <= w < polys.len(),
        covers(polys, w, r, c),
        forall|k: int|
            0 <= k < polys.len() && #[trigger] covers(polys, k, r, c) ==> k == w || paints_before(
                prob,
                k,
                w,
            ),
    ensures
        label == ids[w] + 1,
{
    let v = choose|v: int|
        {
            &&& 0 <= v < polys.len()
            &&& #[trigger] covers(polys, v, r, c)
            &&& label == ids[v] + 1
            &&& forall|k: int|
                0 <= k < polys.len() && #[trigger] covers(polys, k, r, c) ==> k == v || paints_before(
                    prob,
                    k,
                    v,
                )
        };
    assert(covers(polys, v, r, c));
}

/// Where two polygons are painted and both cover a pixel, the pixel shows
/// the label of the more probable one, whichever was given first.
pub proof fn lemma_of_two_the_more_probable_shows(
    label: u16,
    r: int,
    c: int,
    polys: Seq<Seq<(i32, i32)>>,
    prob: Seq<u32>,
    ids: Seq<usize>,
    less: int,
    more: int,
)
    requires
        polys.len() == 2,
        0 <= less < 2,
        0 <= more < 2,
        prob[less] < prob[more],
        covers(polys, less, r, c),
        covers(polys, more, r, c),
        is_painted(label, r, c, polys, prob, ids),
    ensures
        label == ids[more] + 1,
{
    lemma_last_painted_shows(label, r, c, polys, prob, ids, more);
}

} // verus!
