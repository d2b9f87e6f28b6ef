//! Which pixels a polygon covers.
//!
//! A pixel `(row, col)` is the point `(row * SUBPIXEL, col * SUBPIXEL)` in
//! coordinate units. It is inside a polygon by the even-odd rule: a ray cast
//! from it toward larger columns crosses the polygon's edges an odd number of
//! times.
use crate::geometry::polygon::{
    bbox_contains,
    bounding_box_2d,
    is_bounding_box,
    SUBPIXEL,
};
use vstd::prelude::*;

verus! {

/// The ray cast from `(row, col)` toward larger columns crosses the edge
/// between `vi` and `vj`.
///
/// The edge's rows straddle `row` half-openly, and the point lies strictly
/// left of the column at which the edge meets that row, which is
/// `xi + (xj - xi) * (row - yi) / (yj - yi)` in exact arithmetic. The
/// comparison is stated without the division, multiplied through by
/// `yj - yi`, whose sign turns it.
pub open spec fn edge_crosses(vi: (i32, i32), vj: (i32, i32), row: int, col: int) -> bool {
    let yi = vi.0 as int;
    let xi = vi.1 as int;
    let yj = vj.0 as int;
    let xj = vj.1 as int;
    &&& (yi > row) != (yj > row)
    &&& if yj > yi {
        (col - xi) * (yj - yi) < (xj - xi) * (row - yi)
    } else {
        (col - xi) * (yj - yi) > (xj - xi) * (row - yi)
    }
}

/// The vertex before vertex `i` on the closed polygon of `n` vertices.
pub open spec fn previous_vertex(i: int, n: int) -> int {
    if i == 0 {
        n - 1
    } else {
        i - 1
    }
}

/// How many of the first `k` edges the ray from `(row, col)` crosses; edge `i`
/// joins vertex `i` and the vertex before it.
pub open spec fn crossings(v: Seq<(i32, i32)>, row: int, col: int, k: nat) -> nat
    decreases k,
{
    if k == 0 {
        0
    } else {
        let i = k - 1;
        let j = previous_vertex(i, v.len() as int);
        crossings(v, row, col, (k - 1) as nat) + if edge_crosses(v[i], v[j], row, col) {
            1nat
        } else {
            0nat
        }
    }
}

/// The point `(row, col)`, in coordinate units, is inside the polygon `v`.
pub open spec fn point_inside(v: Seq<(i32, i32)>, row: int, col: int) -> bool {
    crossings(v, row, col, v.len()) % 2 == 1
}

/// The coordinate of pixel `p` along its axis.
pub open spec fn pixel_coord(p: int) -> int {
    p * SUBPIXEL
}

/// The pixel `(row, col)` is inside the polygon `v`.
pub open spec fn pixel_inside(v: Seq<(i32, i32)>, row: int, col: int) -> bool {
    point_inside(v, pixel_coord(row), pixel_coord(col))
}

/// Whether the ray from `(row, col)` crosses the edge between `vi` and `vj`.
fn crosses(vi: (i32, i32), vj: (i32, i32), row: i128, col: i128) -> (hit: bool)
    requires
        0 <= row <= 0x400_0000_0000_0000_0000,
        0 <= col <= 0x400_0000_0000_0000_0000,
    ensures
        hit == edge_crosses(vi, vj, row as int, col as int),
{
    let yi: i128 = vi.0 as i128;
    let xi: i128 = vi.1 as i128;
    let yj: i128 = vj.0 as i128;
    let xj: i128 = vj.1 as i128;
    if (yi > row) == (yj > row) {
        return false;
    }
    let dy: i128 = yj - yi;
    let dx: i128 = xj - xi;
    let left: i128 = col - xi;
    let down: i128 = row - yi;
    assert(-0x1000_0000_0000_0000_0000_0000_0000 <= left * dy <= 0x1000_0000_0000_0000_0000_0000_0000)
        by (nonlinear_arith)
        requires
            -0x800_0000_0000_0000_0000 <= left <= 0x800_0000_0000_0000_0000,
            -0x1_0000_0000 <= dy <= 0x1_0000_0000,
    ;
    assert(-0x1000_0000_0000_0000_0000_0000_0000 <= dx * down <= 0x1000_0000_0000_0000_0000_0000_0000)
        by (nonlinear_arith)
        requires
            -0x800_0000_0000_0000_0000 <= down <= 0x800_0000_0000_0000_0000,
            -0x1_0000_0000 <= dx <= 0x1_0000_0000,
    ;
    if dy > 0 {
        left * dy < dx * down
    } else {
        left * dy > dx * down
    }
}

/// Whether the pixel `(row, col)` is inside the polygon through `vertices`,
/// by ray casting.
pub fn inside_polygon(row: usize, col: usize, vertices: &Vec<(i32, i32)>) -> (inside: bool)
    ensures
        inside == pixel_inside(vertices@, row as int, col as int),
{
    let n = vertices.len();
    if n == 0 {
        return false;
    }
    // in coordinate units: SUBPIXEL to the pixel
    let y: i128 = (row as i128) * 1024;
    let x: i128 = (col as i128) * 1024;
    let mut inside = false;
    let mut j: usize = n - 1;
    let mut i: usize = 0;
    while i < n
        invariant
            i <= n,
            n == vertices@.len(),
            n > 0,
            j == previous_vertex(i as int, n as int),
            y == row * SUBPIXEL,
            x == col * SUBPIXEL,
            0 <= y <= 0x400_0000_0000_0000_0000,
            0 <= x <= 0x400_0000_0000_0000_0000,
            inside == (crossings(vertices@, y as int, x as int, i as nat) % 2 == 1),
        decreases n - i,
    {
        if crosses(vertices[i], vertices[j], y, x) {
            inside = !inside;
        }
        j = i;
        i += 1;
    }
    inside
}

/// The pixels of an axis of length `limit` that coordinates within `lo..=hi`
/// can belong to, as a half-open range: from the pixel that holds `lo`, or
/// from pixel zero where `lo` is negative, up to and with the pixel that
/// holds `hi`. The range is empty where `hi` is negative or below `lo`.
pub open spec fn clipped_range(lo: i32, hi: i32, limit: usize) -> (usize, usize) {
    if hi < 0 || lo > hi {
        (0, 0)
    } else {
        let first = if lo <= 0 {
            0
        } else {
            lo as int / SUBPIXEL as int
        };
        let last = hi as int / SUBPIXEL as int;
        (
            if first < limit {
                first as usize
            } else {
                limit
            },
            if last < limit {
                (last + 1) as usize
            } else {
                limit
            },
        )
    }
}

/// The pixels of an axis of length `limit` that the coordinates `lo..=hi` can
/// reach, as a half-open range. No pixel outside the range has a coordinate
/// within `lo..=hi`.
pub fn clip_range(lo: i32, hi: i32, limit: usize) -> (range: (usize, usize))
    ensures
        range == clipped_range(lo, hi, limit),
        range.0 <= range.1 <= limit,
        forall|p: int| 0 <= p < limit && lo <= #[trigger] pixel_coord(p) <= hi ==> range.0 <= p < range.1,
{
    if hi < 0 || lo > hi {
        return (0, 0);
    }
    let first: u32 = if lo <= 0 {
        0
    } else {
        (lo as u32) / (SUBPIXEL as u32)
    };
    let last: u32 = (hi as u32) / (SUBPIXEL as u32);
    let start: usize = if (first as u64) < (limit as u64) {
        first as usize
    } else {
        limit
    };
    let end: usize = if (last as u64) < (limit as u64) {
        (last as usize) + 1
    } else {
        limit
    };
    (start, end)
}

/// Pixel `(r, c)` is on the list.
pub open spec fn is_listed(rows: Seq<usize>, cols: Seq<usize>, r: int, c: int) -> bool {
    exists|k: int| 0 <= k < rows.len() && k < cols.len() && #[trigger] rows[k] == r && cols[k] == c
}

/// Pixel `a` comes before pixel `b` in row-major order.
pub open spec fn row_major_before(a: (int, int), b: (int, int)) -> bool {
    a.0 < b.0 || (a.0 == b.0 && a.1 < b.1)
}

/// The lists `rows` and `cols` hold, in row-major order and once each, the
/// pixels of an image of the given shape that are inside the polygon `v`.
pub open spec fn is_rendering(
    rows: Seq<usize>,
    cols: Seq<usize>,
    v: Seq<(i32, i32)>,
    shape: (usize, usize),
) -> bool {
    &&& rows.len() == cols.len()
    &&& forall|k: int|
        0 <= k < rows.len() ==> (#[trigger] rows[k]) < shape.0 && cols[k] < shape.1 && pixel_inside(
            v,
            rows[k] as int,
            cols[k] as int,
        )
    &&& forall|k: int, l: int|
        0 <= k < l < rows.len() ==> row_major_before(
            (#[trigger] rows[k] as int, cols[k] as int),
            (#[trigger] rows[l] as int, cols[l] as int),
        )
    &&& forall|r: int, c: int|
        0 <= r < shape.0 && 0 <= c < shape.1 && #[trigger] pixel_inside(v, r, c) ==> is_listed(
            rows,
            cols,
            r,
            c,
        )
}

/// A ray meets an edge only within the edge's rows and left of its larger
/// column.
pub proof fn lemma_crossing_within(vi: (i32, i32), vj: (i32, i32), row: int, col: int)
    requires
        edge_crosses(vi, vj, row, col),
    ensures
        vi.0 <= row || vj.0 <= row,
        vi.0 > row || vj.0 > row,
        col < vi.1 || col < vj.1,
{
    let yi = vi.0 as int;
    let xi = vi.1 as int;
    let yj = vj.0 as int;
    let xj = vj.1 as int;
    if col >= xi && col >= xj {
        if yj > yi {
            assert((col - xi) * (yj - yi) >= (xj - xi) * (row - yi)) by (nonlinear_arith)
                requires
                    col - xi >= 0,
                    col - xi >= xj - xi,
                    0 <= row - yi < yj - yi,
            ;
        } else {
            assert((col - xi) * (yj - yi) <= (xj - xi) * (row - yi)) by (nonlinear_arith)
                requires
                    col - xi >= 0,
                    col - xi >= xj - xi,
                    yj - yi <= row - yi < 0,
            ;
        }
    }
}

/// A ray that starts left of both ends of an edge crosses it exactly when the
/// edge's rows straddle the ray's row.
pub proof fn lemma_crossing_from_left(vi: (i32, i32), vj: (i32, i32), row: int, col: int)
    requires
        col < vi.1,
        col < vj.1,
    ensures
        edge_crosses(vi, vj, row, col) == ((vi.0 > row) != (vj.0 > row)),
{
    let yi = vi.0 as int;
    let xi = vi.1 as int;
    let yj = vj.0 as int;
    let xj = vj.1 as int;
    if (yi > row) != (yj > row) {
        if yj > yi {
            assert((col - xi) * (yj - yi) < (xj - xi) * (row - yi)) by (nonlinear_arith)
                requires
                    col - xi < 0,
                    col - xi < xj - xi,
                    0 <= row - yi < yj - yi,
            ;
        } else {
            assert((col - xi) * (yj - yi) > (xj - xi) * (row - yi)) by (nonlinear_arith)
                requires
                    col - xi < 0,
                    col - xi < xj - xi,
                    yj - yi <= row - yi < 0,
            ;
        }
    }
}

/// Where the ray crosses one of the first `k` edges, some such edge is
/// crossed.
proof fn lemma_some_crossing(v: Seq<(i32, i32)>, row: int, col: int, k: nat) -> (i: int)
    requires
        k <= v.len(),
        crossings(v, row, col, k) > 0,
    ensures
        0 <= i < k,
        edge_crosses(v[i], v[previous_vertex(i, v.len() as int)], row, col),
    decreases k,
{
    let last = k - 1;
    if edge_crosses(v[last], v[previous_vertex(last, v.len() as int)], row, col) {
        last
    } else {
        lemma_some_crossing(v, row, col, (k - 1) as nat)
    }
}

/// Where the ray crosses none of the edges, it crosses none of the first `k`.
proof fn lemma_no_crossing(v: Seq<(i32, i32)>, row: int, col: int, k: nat)
    requires
        k <= v.len(),
        forall|i: int|
            0 <= i < v.len() ==> !edge_crosses(
                #[trigger] v[i],
                v[previous_vertex(i, v.len() as int)],
                row,
                col,
            ),
    ensures
        crossings(v, row, col, k) == 0,
    decreases k,
{
    if k > 0 {
        lemma_no_crossing(v, row, col, (k - 1) as nat);
    }
}

/// One where the two vertices lie on different sides of `row`, else zero.
pub open spec fn sides_differ(v: Seq<(i32, i32)>, row: int, a: int, b: int) -> int {
    if (v[a].0 > row) != (v[b].0 > row) {
        1
    } else {
        0
    }
}

/// Walking the polygon's edges from a point left of all its vertices, the
/// crossings so far are even exactly when the walk is back on the side of
/// `row` on which the last vertex lies.
proof fn lemma_straddle_parity(v: Seq<(i32, i32)>, row: int, col: int, k: nat)
    requires
        1 <= k <= v.len(),
        forall|i: int| 0 <= i < v.len() ==> col < (#[trigger] v[i]).1,
    ensures
        (crossings(v, row, col, k) + sides_differ(v, row, k - 1, v.len() - 1)) % 2 == 0,
    decreases k,
{
    let n = v.len() as int;
    let i = k - 1;
    let j = previous_vertex(i, n);
    lemma_crossing_from_left(v[i], v[j], row, col);
    if k == 1 {
        assert(crossings(v, row, col, 0) == 0);
    } else {
        lemma_straddle_parity(v, row, col, (k - 1) as nat);
    }
}

/// A point inside a polygon lies within the polygon's bounding box, and
/// strictly before its last row and column.
pub proof fn lemma_inside_within_bbox(v: Seq<(i32, i32)>, b: (i32, i32, i32, i32), row: int, col: int)
    requires
        is_bounding_box(b, v),
        point_inside(v, row, col),
    ensures
        b.0 <= row < b.1,
        b.2 <= col < b.3,
{
    let n = v.len() as int;
    assert(crossings(v, row, col, v.len()) > 0);
    let i = lemma_some_crossing(v, row, col, v.len());
    let j = previous_vertex(i, n);
    lemma_crossing_within(v[i], v[j], row, col);
    assert(bbox_contains(b, v[i]));
    assert(bbox_contains(b, v[j]));
    if col >= b.3 {
        assert forall|e: int| 0 <= e < v.len() implies !edge_crosses(
            #[trigger] v[e],
            v[previous_vertex(e, n)],
            row,
            col,
        ) by {
            let f = previous_vertex(e, n);
            assert(bbox_contains(b, v[e]));
            assert(bbox_contains(b, v[f]));
            if edge_crosses(v[e], v[f], row, col) {
                lemma_crossing_within(v[e], v[f], row, col);
            }
        }
        lemma_no_crossing(v, row, col, v.len());
    }
    if col < b.2 {
        assert forall|e: int| 0 <= e < v.len() implies col < (#[trigger] v[e]).1 by {
            assert(bbox_contains(b, v[e]));
        }
        lemma_straddle_parity(v, row, col, v.len());
    }
}

/// The pixels of an image of the given shape that the polygon through
/// `vertices` covers, as a list of rows and a list of columns of equal
/// length, in row-major order.
///
/// Only the pixels that the polygon's bounding box reaches are tried. A
/// polygon that lies outside the image covers none.
pub fn render_polygon_2d(vertices: &Vec<(i32, i32)>, shape: (usize, usize)) -> (raster: (
    Vec<usize>,
    Vec<usize>,
))
    ensures
        is_rendering(raster.0@, raster.1@, vertices@, shape),
{
    let bbox = bounding_box_2d(vertices);
    let (row_start, row_end) = clip_range(bbox.0, bbox.1, shape.0);
    let (col_start, col_end) = clip_range(bbox.2, bbox.3, shape.1);
    let mut rows: Vec<usize> = Vec::new();
    let mut cols: Vec<usize> = Vec::new();
    let mut r: usize = row_start;
    while r < row_end
        invariant
            row_start <= r <= row_end <= shape.0,
            col_start <= col_end <= shape.1,
            rows@.len() == cols@.len(),
            forall|k: int|
                0 <= k < rows@.len() ==> (#[trigger] rows@[k]) < r && cols@[k] < shape.1
                    && pixel_inside(vertices@, rows@[k] as int, cols@[k] as int),
            forall|k: int, l: int|
                0 <= k < l < rows@.len() ==> row_major_before(
                    (#[trigger] rows@[k] as int, cols@[k] as int),
                    (#[trigger] rows@[l] as int, cols@[l] as int),
                ),
            forall|y: int, x: int|
                row_start <= y < r && col_start <= x < col_end && #[trigger] pixel_inside(
                    vertices@,
                    y,
                    x,
                ) ==> is_listed(rows@, cols@, y, x),
        decreases row_end - r,
    {
        let mut c: usize = col_start;
        while c < col_end
            invariant
                row_start <= r < row_end <= shape.0,
                col_start <= c <= col_end <= shape.1,
                rows@.len() == cols@.len(),
                forall|k: int|
                    0 <= k < rows@.len() ==> (#[trigger] rows@[k]) <= r && (rows@[k] == r
                        ==> cols@[k] < c) && cols@[k] < shape.1 && pixel_inside(
                        vertices@,
                        rows@[k] as int,
                        cols@[k] as int,
                    ),
                forall|k: int, l: int|
                    0 <= k < l < rows@.len() ==> row_major_before(
                        (#[trigger] rows@[k] as int, cols@[k] as int),
                        (#[trigger] rows@[l] as int, cols@[l] as int),
                    ),
                forall|y: int, x: int|
                    col_start <= x < col_end && (row_start <= y < r || (y == r && x < c))
                        && #[trigger] pixel_inside(vertices@, y, x) ==> is_listed(
                        rows@,
                        cols@,
                        y,
                        x,
                    ),
            decreases col_end - c,
        {
            if inside_polygon(r, c, vertices) {
                let ghost old_rows = rows@;
                let ghost old_cols = cols@;
                rows.push(r);
                cols.push(c);
                proof {
                    let last = old_rows.len() as int;
                    assert(rows@[last] == r && cols@[last] == c);
                    assert forall|y: int, x: int|
                        col_start <= x < col_end && (row_start <= y < r || (y == r && x < c + 1))
                            && #[trigger] pixel_inside(vertices@, y, x) implies is_listed(
                        rows@,
                        cols@,
                        y,
                        x,
                    ) by {
                        if y == r && x == c {
                            assert(rows@[last] == y && cols@[last] == x);
                        } else {
                            assert(is_listed(old_rows, old_cols, y, x));
                            let k = choose|k: int|
                                0 <= k < old_rows.len() && k < old_cols.len() && #[trigger] old_rows[k]
                                    == y && old_cols[k] == x;
                            assert(rows@[k] == y && cols@[k] == x);
                        }
                    }
                }
            }
            c += 1;
        }
        r += 1;
    }
    proof {
        assert forall|y: int, x: int|
            0 <= y < shape.0 && 0 <= x < shape.1 && #[trigger] pixel_inside(
                vertices@,
                y,
                x,
            ) implies is_listed(rows@, cols@, y, x) by {
            lemma_inside_within_bbox(vertices@, bbox, pixel_coord(y), pixel_coord(x));
        }
    }
    (rows, cols)
}

} // verus!
