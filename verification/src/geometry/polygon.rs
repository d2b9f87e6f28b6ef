//! Polygons decoded from radial distances.
//!
//! A polygon has one vertex per ray. Ray `r` points in the direction
//! `rays[r]`, a pair `(sine, cosine)` of the ray's angle in fixed point, where
//! [`DIRECTION_ONE`] stands for one: the row of a vertex goes by the sine, the
//! column by the cosine. A per-axis scale is part of the direction; see
//! [`crate::geometry::rays`] for the directions of a fan and for scaling.
use crate::error::InputError;
use vstd::prelude::*;

verus! {

/// Coordinate units per pixel. Vertices, bounding boxes and distances count
/// these; a doubled area counts half squares of them.
pub const SUBPIXEL: i32 = 1024;

/// The direction component that stands for exactly one.
pub const DIRECTION_ONE: i32 = 0x100_0000;

/// The bounding box of no vertices at all: nothing lies within it.
pub const EMPTY_BBOX: (i32, i32, i32, i32) = (i32::MAX, i32::MIN, i32::MAX, i32::MIN);

/// A polygon with its derived measures.
#[derive(Debug)]
pub struct Polygon2D {
    /// The bounding box `(row_min, row_max, col_min, col_max)`.
    pub bbox: (i32, i32, i32, i32),
    /// Twice the enclosed area.
    pub area: u128,
    /// The largest radial distance.
    pub dist: u32,
    /// The vertices as `(row, col)`, one per ray, in ray order.
    pub vertices: Vec<(i32, i32)>,
}

/// The term that the edge from `a` to `b` adds to the shoelace sum.
pub open spec fn cross_term(a: (i32, i32), b: (i32, i32)) -> int {
    a.0 * b.1 - a.1 * b.0
}

/// The shoelace sum over the first `k` edges of the closed polygon `v`; edge
/// `i` runs from vertex `i` to vertex `(i + 1) % v.len()`.
pub open spec fn shoelace_sum(v: Seq<(i32, i32)>, k: nat) -> int
    decreases k,
{
    if k == 0 {
        0
    } else {
        shoelace_sum(v, (k - 1) as nat) + cross_term(v[k - 1], v[(k as int) % (v.len() as int)])
    }
}

/// Twice the unsigned area of the closed polygon `v`.
pub open spec fn doubled_area(v: Seq<(i32, i32)>) -> nat {
    let s = shoelace_sum(v, v.len());
    if s >= 0 {
        s as nat
    } else {
        (-s) as nat
    }
}

/// `p` lies within `b`, bounds included.
pub open spec fn bbox_contains(b: (i32, i32, i32, i32), p: (i32, i32)) -> bool {
    b.0 <= p.0 <= b.1 && b.2 <= p.1 <= b.3
}

/// `b` is the axis-aligned envelope of `v`: it contains every vertex and a
/// vertex touches each of its four sides. Of no vertices it is [`EMPTY_BBOX`].
pub open spec fn is_bounding_box(b: (i32, i32, i32, i32), v: Seq<(i32, i32)>) -> bool {
    if v.len() == 0 {
        b == EMPTY_BBOX
    } else {
        &&& forall|i: int| 0 <= i < v.len() ==> bbox_contains(b, #[trigger] v[i])
        &&& exists|i: int| 0 <= i < v.len() && (#[trigger] v[i]).0 == b.0
        &&& exists|i: int| 0 <= i < v.len() && (#[trigger] v[i]).0 == b.1
        &&& exists|i: int| 0 <= i < v.len() && (#[trigger] v[i]).1 == b.2
        &&& exists|i: int| 0 <= i < v.len() && (#[trigger] v[i]).1 == b.3
    }
}

/// `m` is the largest of `d`, and zero where `d` is empty.
pub open spec fn is_max_distance(m: u32, d: Seq<u32>) -> bool {
    &&& forall|i: int| 0 <= i < d.len() ==> #[trigger] d[i] <= m
    &&& if d.len() == 0 {
        m == 0
    } else {
        exists|i: int| 0 <= i < d.len() && #[trigger] d[i] == m
    }
}

/// How far a ray of length `distance` reaches along one axis, where
/// `direction` is the ray's direction component on that axis: their product,
/// rounded to the nearest unit (a half rounds up).
pub open spec fn ray_offset(distance: u32, direction: i32) -> int {
    (distance * direction + DIRECTION_ONE / 2) / (DIRECTION_ONE as int)
}

/// One coordinate of a vertex: the center pixel in coordinate units plus the
/// ray's offset along the axis.
pub open spec fn ray_coord(center: usize, distance: u32, direction: i32) -> int {
    center * SUBPIXEL + ray_offset(distance, direction)
}

/// The coordinate can be stored.
pub open spec fn fits_coord(x: int) -> bool {
    i32::MIN <= x <= i32::MAX
}

/// Vertex `r` of a detection fits: both its coordinates can be stored.
pub open spec fn vertex_fits(center: (usize, usize), distance: u32, ray: (i32, i32)) -> bool {
    fits_coord(ray_coord(center.0, distance, ray.0)) && fits_coord(
        ray_coord(center.1, distance, ray.1),
    )
}

/// The vertices of the detection at `center` with the radial distances `d`
/// along the directions `rays`, where they all fit.
pub open spec fn decoded_vertices(center: (usize, usize), d: Seq<u32>, rays: Seq<(i32, i32)>) -> Seq<
    (i32, i32),
> {
    Seq::new(
        d.len(),
        |r: int|
            (
                ray_coord(center.0, d[r], rays[r].0) as i32,
                ray_coord(center.1, d[r], rays[r].1) as i32,
            ),
    )
}

/// Every vertex of the detection fits.
pub open spec fn vertices_fit(center: (usize, usize), d: Seq<u32>, rays: Seq<(i32, i32)>) -> bool {
    forall|r: int| 0 <= r < d.len() ==> vertex_fits(center, #[trigger] d[r], rays[r])
}

impl Clone for Polygon2D {
    fn clone(&self) -> (copy: Self)
        ensures
            copy.bbox == self.bbox,
            copy.area == self.area,
            copy.dist == self.dist,
            copy.vertices@ == self.vertices@,
    {
        let n = self.vertices.len();
        let mut vertices: Vec<(i32, i32)> = Vec::with_capacity(n);
        let mut i: usize = 0;
        while i < n
            invariant
                i <= n,
                n == self.vertices@.len(),
                vertices@ == self.vertices@.take(i as int),
            decreases n - i,
        {
            vertices.push(self.vertices[i]);
            assert(self.vertices@.take(i + 1) == self.vertices@.take(i as int).push(
                self.vertices@[i as int],
            ));
            i += 1;
        }
        assert(self.vertices@.take(n as int) == self.vertices@);
        Polygon2D { bbox: self.bbox, area: self.area, dist: self.dist, vertices }
    }
}

impl Polygon2D {
    /// The derived measures agree with the vertices, of which there is at
    /// least one.
    pub open spec fn well_formed(self) -> bool {
        &&& self.vertices@.len() > 0
        &&& is_bounding_box(self.bbox, self.vertices@)
        &&& self.area == doubled_area(self.vertices@)
    }

    /// The polygon of the detection at `center` with the radial distances `d`
    /// along the directions `rays`.
    pub open spec fn decodes(self, center: (usize, usize), d: Seq<u32>, rays: Seq<(i32, i32)>) -> bool {
        &&& self.well_formed()
        &&& self.vertices@ == decoded_vertices(center, d, rays)
        &&& is_max_distance(self.dist, d)
    }
}

/// Twice the area of the closed polygon through `vertices`, by the shoelace
/// formula.
pub fn polygon_area_2d(vertices: &Vec<(i32, i32)>) -> (area: u128)
    ensures
        area == doubled_area(vertices@),
{
    let n = vertices.len();
    let mut acc: i128 = 0;
    let mut i: usize = 0;
    while i < n
        invariant
            i <= n,
            n == vertices.len(),
            acc == shoelace_sum(vertices@, i as nat),
            -(i * 0x8000_0000_0000_0000) <= acc <= i * 0x8000_0000_0000_0000,
        decreases n - i,
    {
        let j = (i + 1) % n;
        let a = vertices[i];
        let b = vertices[j];
        let ay: i128 = a.0 as i128;
        let ax: i128 = a.1 as i128;
        let by: i128 = b.0 as i128;
        let bx: i128 = b.1 as i128;
        assert(-0x4000_0000_0000_0000 <= ay * bx <= 0x4000_0000_0000_0000) by (nonlinear_arith)
            requires
                -0x8000_0000 <= ay < 0x8000_0000,
                -0x8000_0000 <= bx < 0x8000_0000,
        ;
        assert(-0x4000_0000_0000_0000 <= ax * by <= 0x4000_0000_0000_0000) by (nonlinear_arith)
            requires
                -0x8000_0000 <= ax < 0x8000_0000,
                -0x8000_0000 <= by < 0x8000_0000,
        ;
        let term: i128 = ay * bx - ax * by;
        acc = acc + term;
        i += 1;
    }
    if acc >= 0 {
        acc as u128
    } else {
        (-acc) as u128
    }
}

/// The axis-aligned envelope of `vertices`.
pub fn bounding_box_2d(vertices: &Vec<(i32, i32)>) -> (bbox: (i32, i32, i32, i32))
    ensures
        is_bounding_box(bbox, vertices@),
{
    let n = vertices.len();
    if n == 0 {
        return EMPTY_BBOX;
    }
    let first = vertices[0];
    let mut y_min: i32 = first.0;
    let mut y_max: i32 = first.0;
    let mut x_min: i32 = first.1;
    let mut x_max: i32 = first.1;
    let mut i: usize = 1;
    while i < n
        invariant
            1 <= i <= n,
            n == vertices.len(),
            forall|k: int| 0 <= k < i ==> bbox_contains((y_min, y_max, x_min, x_max), #[trigger] vertices@[k]),
            exists|k: int| 0 <= k < i && (#[trigger] vertices@[k]).0 == y_min,
            exists|k: int| 0 <= k < i && (#[trigger] vertices@[k]).0 == y_max,
            exists|k: int| 0 <= k < i && (#[trigger] vertices@[k]).1 == x_min,
            exists|k: int| 0 <= k < i && (#[trigger] vertices@[k]).1 == x_max,
        decreases n - i,
    {
        let v = vertices[i];
        if v.0 < y_min {
            y_min = v.0;
        }
        if v.0 > y_max {
            y_max = v.0;
        }
        if v.1 < x_min {
            x_min = v.1;
        }
        if v.1 > x_max {
            x_max = v.1;
        }
        i += 1;
    }
    (y_min, y_max, x_min, x_max)
}

/// The largest of `distances`, zero where there is none.
pub fn max_distance(distances: &Vec<u32>) -> (m: u32)
    ensures
        is_max_distance(m, distances@),
{
    let n = distances.len();
    let mut m: u32 = 0;
    let mut i: usize = 0;
    while i < n
        invariant
            i <= n,
            n == distances.len(),
            forall|k: int| 0 <= k < i ==> #[trigger] distances@[k] <= m,
            i == 0 ==> m == 0,
            i > 0 ==> exists|k: int| 0 <= k < i && #[trigger] distances@[k] == m,
        decreases n - i,
    {
        let d = distances[i];
        if i == 0 || d > m {
            m = d;
        }
        i += 1;
    }
    m
}

/// One coordinate of a vertex, or `None` where it cannot be stored.
pub fn vertex_coord(center: usize, distance: u32, direction: i32) -> (coord: Option<i32>)
    ensures
        coord matches Some(c) ==> c == ray_coord(center, distance, direction),
        coord is Some <==> fits_coord(ray_coord(center, distance, direction)),
{
    let d: i128 = distance as i128;
    let u: i128 = direction as i128;
    assert(-0x8000_0000_0000_0000 <= d * u <= 0x8000_0000_0000_0000) by (nonlinear_arith)
        requires
            0 <= d < 0x1_0000_0000,
            -0x8000_0000 <= u < 0x8000_0000,
    ;
    let one: u128 = DIRECTION_ONE as u128;
    let num: i128 = d * u + (DIRECTION_ONE / 2) as i128;
    // the quotient rounded toward minus infinity
    let offset: i128 = if num >= 0 {
        ((num as u128) / one) as i128
    } else {
        -((((-num) as u128 + (one - 1)) / one) as i128)
    };
    assert(offset == ray_offset(distance, direction));
    let coord: i128 = (center as i128) * (SUBPIXEL as i128) + offset;
    if coord < i32::MIN as i128 || coord > i32::MAX as i128 {
        None
    } else {
        Some(coord as i32)
    }
}

/// The vertices of one detection, one at the end of each ray.
///
/// Fails with `ShapeMismatch` where `distances` has another length than
/// `rays`, else with `OutOfRange` where a vertex cannot be stored.
pub fn decode_vertices(center: (usize, usize), distances: &Vec<u32>, rays: &Vec<(i32, i32)>) -> (result:
    Result<Vec<(i32, i32)>, InputError>)
    ensures
        match result {
            Ok(vertices) => {
                &&& distances@.len() == rays@.len()
                &&& vertices_fit(center, distances@, rays@)
                &&& vertices@ == decoded_vertices(center, distances@, rays@)
            },
            Err(InputError::ShapeMismatch) => distances@.len() != rays@.len(),
            Err(InputError::OutOfRange) => distances@.len() == rays@.len() && !vertices_fit(
                center,
                distances@,
                rays@,
            ),
            Err(InputError::NoRays) => false,
        },
{
    let n = rays.len();
    if distances.len() != n {
        return Err(InputError::ShapeMismatch);
    }
    let mut vertices: Vec<(i32, i32)> = Vec::new();
    let mut r: usize = 0;
    while r < n
        invariant
            r <= n,
            n == rays@.len(),
            n == distances@.len(),
            vertices@.len() == r,
            forall|k: int| 0 <= k < r ==> vertex_fits(center, #[trigger] distances@[k], rays@[k]),
            forall|k: int|
                0 <= k < r ==> #[trigger] vertices@[k] == decoded_vertices(
                    center,
                    distances@,
                    rays@,
                )[k],
        decreases n - r,
    {
        let d = distances[r];
        let ray = rays[r];
        match (vertex_coord(center.0, d, ray.0), vertex_coord(center.1, d, ray.1)) {
            (Some(y), Some(x)) => {
                vertices.push((y, x));
            },
            _ => {
                assert(!vertex_fits(center, distances@[r as int], rays@[r as int]));
                return Err(InputError::OutOfRange);
            },
        }
        r += 1;
    }
    assert(vertices@ =~= decoded_vertices(center, distances@, rays@));
    Ok(vertices)
}

/// Decode one detection: the polygon with a vertex at the end of each ray,
/// with its bounding box, its doubled area and its largest distance.
///
/// Fails with `NoRays` where `rays` is empty, else with `ShapeMismatch` where
/// `distances` has another length than `rays`, else with `OutOfRange` where
/// a vertex cannot be stored.
pub fn build_polygon_2d(center: (usize, usize), distances: &Vec<u32>, rays: &Vec<(i32, i32)>) -> (result:
    Result<Polygon2D, InputError>)
    ensures
        match result {
            Ok(polygon) => {
                &&& rays@.len() > 0
                &&& distances@.len() == rays@.len()
                &&& vertices_fit(center, distances@, rays@)
                &&& polygon.decodes(center, distances@, rays@)
            },
            Err(InputError::NoRays) => rays@.len() == 0,
            Err(InputError::ShapeMismatch) => rays@.len() > 0 && distances@.len() != rays@.len(),
            Err(InputError::OutOfRange) => {
                &&& rays@.len() > 0
                &&& distances@.len() == rays@.len()
                &&& !vertices_fit(center, distances@, rays@)
            },
        },
{
    if rays.len() == 0 {
        return Err(InputError::NoRays);
    }
    match decode_vertices(center, distances, rays) {
        Err(e) => Err(e),
        Ok(vertices) => {
            let bbox = bounding_box_2d(&vertices);
            let area = polygon_area_2d(&vertices);
            let dist = max_distance(distances);
            Ok(Polygon2D { bbox, area, dist, vertices })
        },
    }
}

/// The detections form a table: as many distance rows and centers as
/// `n_polys`, and in every row as many distances as `n_rays` and as `rays`.
pub open spec fn shapes_agree(
    dist: Seq<Vec<u32>>,
    pos: Seq<(usize, usize)>,
    n_polys: usize,
    n_rays: usize,
    rays: Seq<(i32, i32)>,
) -> bool {
    &&& dist.len() == n_polys
    &&& pos.len() == n_polys
    &&& rays.len() == n_rays
    &&& forall|p: int| 0 <= p < dist.len() ==> (#[trigger] dist[p])@.len() == n_rays
}

/// Every vertex of every detection can be stored.
pub open spec fn all_vertices_fit(
    dist: Seq<Vec<u32>>,
    pos: Seq<(usize, usize)>,
    rays: Seq<(i32, i32)>,
) -> bool {
    forall|p: int| 0 <= p < dist.len() ==> vertices_fit(pos[p], (#[trigger] dist[p])@, rays)
}

/// Check that the detections form a table with at least one ray.
///
/// Fails with `NoRays` where `n_rays` is zero, else with `ShapeMismatch`
/// where the lengths disagree.
pub fn check_shapes(
    dist: &Vec<Vec<u32>>,
    pos: &Vec<(usize, usize)>,
    n_polys: usize,
    n_rays: usize,
    rays: &Vec<(i32, i32)>,
) -> (result: Result<(), InputError>)
    ensures
        match result {
            Ok(_) => n_rays > 0 && shapes_agree(dist@, pos@, n_polys, n_rays, rays@),
            Err(InputError::NoRays) => n_rays == 0,
            Err(InputError::ShapeMismatch) => n_rays > 0 && !shapes_agree(
                dist@,
                pos@,
                n_polys,
                n_rays,
                rays@,
            ),
            Err(InputError::OutOfRange) => false,
        },
{
    if n_rays == 0 {
        return Err(InputError::NoRays);
    }
    if dist.len() != n_polys || pos.len() != n_polys || rays.len() != n_rays {
        return Err(InputError::ShapeMismatch);
    }
    let mut p: usize = 0;
    while p < n_polys
        invariant
            p <= n_polys,
            n_rays > 0,
            dist@.len() == n_polys,
            pos@.len() == n_polys,
            rays@.len() == n_rays,
            forall|k: int| 0 <= k < p ==> (#[trigger] dist@[k])@.len() == n_rays,
        decreases n_polys - p,
    {
        if dist[p].len() != n_rays {
            assert(dist@[p as int]@.len() != n_rays);
            return Err(InputError::ShapeMismatch);
        }
        p += 1;
    }
    Ok(())
}

/// Decode every detection into its polygon, in the order given.
///
/// Row `p` of `dist` holds the radial distances of the detection centered at
/// `pos[p]`. Fails with `NoRays` where `n_rays` is zero, else with
/// `ShapeMismatch` where the lengths disagree, else with `OutOfRange` where a
/// vertex cannot be stored; nothing is built then.
pub fn build_polygons_2d(
    dist: &Vec<Vec<u32>>,
    pos: &Vec<(usize, usize)>,
    n_polys: usize,
    n_rays: usize,
    rays: &Vec<(i32, i32)>,
) -> (result: Result<Vec<Polygon2D>, InputError>)
    ensures
        match result {
            Ok(polygons) => {
                &&& n_rays > 0
                &&& shapes_agree(dist@, pos@, n_polys, n_rays, rays@)
                &&& all_vertices_fit(dist@, pos@, rays@)
                &&& polygons@.len() == n_polys
                &&& forall|p: int|
                    0 <= p < n_polys ==> (#[trigger] polygons@[p]).decodes(pos@[p], dist@[p]@, rays@)
            },
            Err(InputError::NoRays) => n_rays == 0,
            Err(InputError::ShapeMismatch) => n_rays > 0 && !shapes_agree(
                dist@,
                pos@,
                n_polys,
                n_rays,
                rays@,
            ),
            Err(InputError::OutOfRange) => {
                &&& n_rays > 0
                &&& shapes_agree(dist@, pos@, n_polys, n_rays, rays@)
                &&& !all_vertices_fit(dist@, pos@, rays@)
            },
        },
{
    match check_shapes(dist, pos, n_polys, n_rays, rays) {
        Err(e) => {
            return Err(e);
        },
        Ok(_) => {},
    }
    let mut polygons: Vec<Polygon2D> = Vec::new();
    let mut p: usize = 0;
    while p < n_polys
        invariant
            p <= n_polys,
            n_rays > 0,
            shapes_agree(dist@, pos@, n_polys, n_rays, rays@),
            polygons@.len() == p,
            forall|k: int| 0 <= k < p ==> vertices_fit(pos@[k], (#[trigger] dist@[k])@, rays@),
            forall|k: int| 0 <= k < p ==> (#[trigger] polygons@[k]).decodes(pos@[k], dist@[k]@, rays@),
        decreases n_polys - p,
    {
        match build_polygon_2d(pos[p], &dist[p], rays) {
            Ok(polygon) => {
                polygons.push(polygon);
            },
            Err(_) => {
                assert(!vertices_fit(pos@[p as int], dist@[p as int]@, rays@));
                return Err(InputError::OutOfRange);
            },
        }
        p += 1;
    }
    Ok(polygons)
}

/// Neither component of the direction is longer than one.
pub open spec fn is_bounded_ray(ray: (i32, i32)) -> bool {
    &&& -DIRECTION_ONE <= ray.0 <= DIRECTION_ONE
    &&& -DIRECTION_ONE <= ray.1 <= DIRECTION_ONE
}

/// Along a direction component that is not longer than one, a ray reaches
/// no farther than it is long.
pub proof fn lemma_offset_within_distance(distance: u32, direction: i32)
    requires
        -DIRECTION_ONE <= direction <= DIRECTION_ONE,
    ensures
        -distance <= ray_offset(distance, direction) <= distance,
{
    let one = DIRECTION_ONE as int;
    let product = distance * direction;
    assert(-(distance * one) <= product <= distance * one) by (nonlinear_arith)
        requires
            product == distance * direction,
            -one <= direction <= one,
            distance >= 0,
    ;
    assert(distance * one == distance * 0x100_0000) by (nonlinear_arith)
        requires
            one == 0x100_0000,
    ;
}

/// A polygon decoded along directions without a component longer than one
/// lies within its largest radial distance of its center, along the rows
/// and along the columns.
pub proof fn lemma_polygon_within_reach(
    polygon: Polygon2D,
    center: (usize, usize),
    d: Seq<u32>,
    rays: Seq<(i32, i32)>,
)
    requires
        polygon.decodes(center, d, rays),
        vertices_fit(center, d, rays),
        forall|r: int| 0 <= r < d.len() ==> is_bounded_ray(#[trigger] rays[r]),
    ensures
        center.0 * SUBPIXEL - polygon.dist <= polygon.bbox.0,
        polygon.bbox.1 <= center.0 * SUBPIXEL + polygon.dist,
        center.1 * SUBPIXEL - polygon.dist <= polygon.bbox.2,
        polygon.bbox.3 <= center.1 * SUBPIXEL + polygon.dist,
{
    let v = polygon.vertices@;
    assert forall|r: int| 0 <= r < v.len() implies {
        &&& center.0 * SUBPIXEL - polygon.dist <= (#[trigger] v[r]).0 <= center.0 * SUBPIXEL
            + polygon.dist
        &&& center.1 * SUBPIXEL - polygon.dist <= v[r].1 <= center.1 * SUBPIXEL + polygon.dist
    } by {
        assert(vertex_fits(center, d[r], rays[r]));
        assert(is_bounded_ray(rays[r]));
        assert(d[r] <= polygon.dist);
        lemma_offset_within_distance(d[r], rays[r].0);
        lemma_offset_within_distance(d[r], rays[r].1);
    }
    let b = polygon.bbox;
    let i0 = choose|i: int| 0 <= i < v.len() && (#[trigger] v[i]).0 == b.0;
    let i1 = choose|i: int| 0 <= i < v.len() && (#[trigger] v[i]).0 == b.1;
    let i2 = choose|i: int| 0 <= i < v.len() && (#[trigger] v[i]).1 == b.2;
    let i3 = choose|i: int| 0 <= i < v.len() && (#[trigger] v[i]).1 == b.3;
    assert(v[i0].0 == b.0 && v[i1].0 == b.1 && v[i2].1 == b.2 && v[i3].1 == b.3);
}

/// Every vertex of a well-formed polygon lies within the polygon's bounding
/// box, bounds included.
pub proof fn lemma_vertices_within_bbox(polygon: Polygon2D, i: int)
    requires
        polygon.well_formed(),
        0 <= i < polygon.vertices@.len(),
    ensures
        bbox_contains(polygon.bbox, polygon.vertices@[i]),
{
}

/// Two bounding boxes of the same vertices are the same box.
pub proof fn lemma_bounding_box_is_unique(
    a: (i32, i32, i32, i32),
    b: (i32, i32, i32, i32),
    v: Seq<(i32, i32)>,
)
    requires
        is_bounding_box(a, v),
        is_bounding_box(b, v),
    ensures
        a == b,
{
    if v.len() > 0 {
        let a0 = choose|i: int| 0 <= i < v.len() && (#[trigger] v[i]).0 == a.0;
        let a1 = choose|i: int| 0 <= i < v.len() && (#[trigger] v[i]).0 == a.1;
        let a2 = choose|i: int| 0 <= i < v.len() && (#[trigger] v[i]).1 == a.2;
        let a3 = choose|i: int| 0 <= i < v.len() && (#[trigger] v[i]).1 == a.3;
        let b0 = choose|i: int| 0 <= i < v.len() && (#[trigger] v[i]).0 == b.0;
        let b1 = choose|i: int| 0 <= i < v.len() && (#[trigger] v[i]).0 == b.1;
        let b2 = choose|i: int| 0 <= i < v.len() && (#[trigger] v[i]).1 == b.2;
        let b3 = choose|i: int| 0 <= i < v.len() && (#[trigger] v[i]).1 == b.3;
        assert(bbox_contains(a, v[b0]) && bbox_contains(a, v[b1]) && bbox_contains(a, v[b2])
            && bbox_contains(a, v[b3]));
        assert(bbox_contains(b, v[a0]) && bbox_contains(b, v[a1]) && bbox_contains(b, v[a2])
            && bbox_contains(b, v[a3]));
    }
}

} // verus!
