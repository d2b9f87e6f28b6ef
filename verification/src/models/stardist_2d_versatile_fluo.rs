//! The steps between the network's output and suppression.
//!
//! The network sees the image padded to a multiple of [`DIV`] along each axis
//! and answers on a grid of half that size: for every grid cell a probability
//! and [`N_RAYS`] radial distances. The cells that pass the probability mask
//! become detections at twice their grid position.
use crate::error::InputError;
use crate::utils::axes::{divisible_pad, spec_divisible_pad};
use vstd::prelude::*;

verus! {

/// The number of rays of a detection.
pub const N_RAYS: usize = 32;

/// Every axis of the network's input is a multiple of this.
pub const DIV: usize = 16;

/// The grid is this much coarser than the image.
pub const GRID: usize = 2;

/// The overlap above which a detection is suppressed: three tenths.
pub const NMS_THRESHOLD: u32 = 300_000;

/// No radial distance is shorter than this: one coordinate unit, about a
/// thousandth of a pixel.
pub const MIN_DISTANCE: u32 = 1;

/// The distance, raised to [`MIN_DISTANCE`] where it is shorter.
pub open spec fn floored(distance: u32) -> u32 {
    if distance < MIN_DISTANCE {
        MIN_DISTANCE
    } else {
        distance
    }
}

/// Raise every radial distance that is shorter than [`MIN_DISTANCE`] to it,
/// so that no ray has the length zero.
pub fn floor_distances(rows: &mut Vec<Vec<u32>>)
    ensures
        final(rows)@.len() == old(rows)@.len(),
        forall|p: int|
            0 <= p < old(rows)@.len() ==> (#[trigger] final(rows)@[p])@.len() == old(rows)@[p]@.len(),
        forall|p: int, r: int|
            0 <= p < old(rows)@.len() && 0 <= r < old(rows)@[p]@.len() ==> #[trigger] final(rows)@[p]@[r]
                == floored(old(rows)@[p]@[r]),
{
    let n = rows.len();
    let mut p: usize = 0;
    while p < n
        invariant
            p <= n,
            n == rows@.len(),
            n == old(rows)@.len(),
            forall|k: int| 0 <= k < n ==> (#[trigger] rows@[k])@.len() == old(rows)@[k]@.len(),
            forall|k: int, r: int|
                0 <= k < p && 0 <= r < old(rows)@[k]@.len() ==> #[trigger] rows@[k]@[r] == floored(
                    old(rows)@[k]@[r],
                ),
            forall|k: int| p <= k < n ==> (#[trigger] rows@[k])@ == old(rows)@[k]@,
        decreases n - p,
    {
        let len = rows[p].len();
        let mut row: Vec<u32> = Vec::with_capacity(len);
        let mut r: usize = 0;
        while r < len
            invariant
                r <= len,
                p < n,
                n == rows@.len(),
                len == rows@[p as int]@.len(),
                row@.len() == r,
                forall|t: int| 0 <= t < r ==> #[trigger] row@[t] == floored(rows@[p as int]@[t]),
            decreases len - r,
        {
            let d = rows[p][r];
            row.push(if d < MIN_DISTANCE { MIN_DISTANCE } else { d });
            r += 1;
        }
        rows.set(p, row);
        p += 1;
    }
}

/// The padding of every axis that makes it a multiple of [`DIV`].
pub fn pad_config(shape: &Vec<usize>) -> (pads: Vec<usize>)
    ensures
        pads@.len() == shape@.len(),
        forall|k: int|
            0 <= k < shape@.len() ==> #[trigger] pads@[k] == spec_divisible_pad(
                shape@[k] as nat,
                DIV as nat,
            ),
{
    let n = shape.len();
    let mut pads: Vec<usize> = Vec::with_capacity(n);
    let mut k: usize = 0;
    while k < n
        invariant
            k <= n,
            n == shape@.len(),
            pads@.len() == k,
            forall|t: int|
                0 <= t < k ==> #[trigger] pads@[t] == spec_divisible_pad(shape@[t] as nat, DIV as nat),
        decreases n - k,
    {
        pads.push(divisible_pad(shape[k], DIV));
        k += 1;
    }
    pads
}

/// Cell `(r, c)` of a row-major mask with `cols` columns is set.
pub open spec fn is_set(mask: Seq<bool>, cols: int, r: int, c: int) -> bool {
    mask[r * cols + c]
}

/// `found` lists, in row-major order, the cells of the mask that are set.
pub open spec fn is_position_list(found: Seq<(usize, usize)>, mask: Seq<bool>, shape: (usize, usize)) -> bool {
    &&& forall|k: int|
        0 <= k < found.len() ==> (#[trigger] found[k]).0 < shape.0 && found[k].1 < shape.1 && is_set(
            mask,
            shape.1 as int,
            found[k].0 as int,
            found[k].1 as int,
        )
    &&& forall|k: int, l: int|
        0 <= k < l < found.len() ==> (#[trigger] found[k]).0 < (#[trigger] found[l]).0 || (found[k].0
            == found[l].0 && found[k].1 < found[l].1)
    &&& forall|r: int, c: int|
        0 <= r < shape.0 && 0 <= c < shape.1 && #[trigger] is_set(mask, shape.1 as int, r, c)
            ==> found.contains((r as usize, c as usize))
}

/// The cells of a two-axis mask that are set, as `(row, col)` in row-major
/// order. Fails with `ShapeMismatch` where the mask does not hold
/// `shape.0 * shape.1` cells.
pub fn valid_positions(mask: &Vec<bool>, shape: (usize, usize)) -> (result: Result<
    Vec<(usize, usize)>,
    InputError,
>)
    ensures
        match result {
            Ok(found) => shape.0 * shape.1 == mask@.len() && is_position_list(found@, mask@, shape),
            Err(InputError::ShapeMismatch) => shape.0 * shape.1 != mask@.len(),
            Err(_) => false,
        },
{
    let (rows, cols) = shape;
    let len = mask.len();
    match rows.checked_mul(cols) {
        Some(cells) => {
            if cells != len {
                return Err(InputError::ShapeMismatch);
            }
        },
        None => {
            assert(rows * cols > usize::MAX);
            return Err(InputError::ShapeMismatch);
        },
    }
    let mut found: Vec<(usize, usize)> = Vec::new();
    let mut r: usize = 0;
    while r < rows
        invariant
            r <= rows,
            shape == (rows, cols),
            rows * cols == mask@.len(),
            rows * cols <= usize::MAX,
            forall|k: int|
                0 <= k < found@.len() ==> (#[trigger] found@[k]).0 < r && found@[k].1 < cols && is_set(
                    mask@,
                    cols as int,
                    found@[k].0 as int,
                    found@[k].1 as int,
                ),
            forall|k: int, l: int|
                0 <= k < l < found@.len() ==> (#[trigger] found@[k]).0 < (#[trigger] found@[l]).0 || (
                found@[k].0 == found@[l].0 && found@[k].1 < found@[l].1),
            forall|y: int, x: int|
                0 <= y < r && 0 <= x < cols && #[trigger] is_set(mask@, cols as int, y, x)
                    ==> found@.contains((y as usize, x as usize)),
        decreases rows - r,
    {
        let mut c: usize = 0;
        while c < cols
            invariant
                r < rows,
                c <= cols,
                rows * cols == mask@.len(),
                rows * cols <= usize::MAX,
                forall|k: int|
                    0 <= k < found@.len() ==> (#[trigger] found@[k]).0 <= r && (found@[k].0 == r
                        ==> found@[k].1 < c) && found@[k].1 < cols && is_set(
                        mask@,
                        cols as int,
                        found@[k].0 as int,
                        found@[k].1 as int,
                    ),
                forall|k: int, l: int|
                    0 <= k < l < found@.len() ==> (#[trigger] found@[k]).0 < (#[trigger] found@[l]).0
                        || (found@[k].0 == found@[l].0 && found@[k].1 < found@[l].1),
                forall|y: int, x: int|
                    0 <= x < cols && (0 <= y < r || (y == r && x < c)) && #[trigger] is_set(
                        mask@,
                        cols as int,
                        y,
                        x,
                    ) ==> found@.contains((y as usize, x as usize)),
            decreases cols - c,
        {
            assert(0 <= r * cols && r * cols + c < rows * cols) by (nonlinear_arith)
                requires
                    0 <= r < rows,
                    0 <= c < cols,
            ;
            if mask[r * cols + c] {
                let ghost before = found@;
                found.push((r, c));
                proof {
                    assert(found@[before.len() as int] == (r, c));
                    assert forall|y: int, x: int|
                        0 <= x < cols && (0 <= y < r || (y == r && x < c + 1)) && #[trigger] is_set(
                            mask@,
                            cols as int,
                            y,
                            x,
                        ) implies found@.contains((y as usize, x as usize)) by {
                        if !(y == r && x == c) {
                            assert(before.contains((y as usize, x as usize)));
                            let k = choose|k: int|
                                0 <= k < before.len() && before[k] == (y as usize, x as usize);
                            assert(found@[k] == (y as usize, x as usize));
                        }
                    }
                }
            }
            c += 1;
        }
        r += 1;
    }
    Ok(found)
}

/// Every grid position, scaled to the image, can be stored.
pub open spec fn positions_scale(grid: Seq<(usize, usize)>) -> bool {
    forall|k: int|
        0 <= k < grid.len() ==> (#[trigger] grid[k]).0 * GRID <= usize::MAX && grid[k].1 * GRID
            <= usize::MAX
}

/// The grid positions as image positions: each coordinate times [`GRID`].
/// Fails with `OutOfRange` where a scaled coordinate cannot be stored.
pub fn scale_positions(grid: &Vec<(usize, usize)>) -> (result: Result<Vec<(usize, usize)>, InputError>)
    ensures
        match result {
            Ok(scaled) => {
                &&& positions_scale(grid@)
                &&& scaled@.len() == grid@.len()
                &&& forall|k: int|
                    0 <= k < grid@.len() ==> #[trigger] scaled@[k] == (
                        (grid@[k].0 * GRID) as usize,
                        (grid@[k].1 * GRID) as usize,
                    )
            },
            Err(InputError::OutOfRange) => !positions_scale(grid@),
            Err(_) => false,
        },
{
    let n = grid.len();
    let mut scaled: Vec<(usize, usize)> = Vec::with_capacity(n);
    let mut k: usize = 0;
    while k < n
        invariant
            k <= n,
            n == grid@.len(),
            scaled@.len() == k,
            forall|t: int|
                0 <= t < k ==> (#[trigger] grid@[t]).0 * GRID <= usize::MAX && grid@[t].1 * GRID
                    <= usize::MAX,
            forall|t: int|
                0 <= t < k ==> #[trigger] scaled@[t] == (
                    (grid@[t].0 * GRID) as usize,
                    (grid@[t].1 * GRID) as usize,
                ),
        decreases n - k,
    {
        let (r, c) = grid[k];
        match (r.checked_mul(GRID), c.checked_mul(GRID)) {
            (Some(y), Some(x)) => {
                scaled.push((y, x));
            },
            _ => {
                assert(!(grid@[k as int].0 * GRID <= usize::MAX && grid@[k as int].1 * GRID
                    <= usize::MAX));
                return Err(InputError::OutOfRange);
            },
        }
        k += 1;
    }
    Ok(scaled)
}

/// The position belongs to the source image: its row or its column lies
/// within it.
pub open spec fn in_source(position: (usize, usize), source: (usize, usize)) -> bool {
    position.0 < source.0 || position.1 < source.1
}

/// `places` lists, in ascending order, the places of the positions that
/// belong to the source image.
pub open spec fn is_source_list(places: Seq<usize>, pos: Seq<(usize, usize)>, source: (usize, usize)) -> bool {
    &&& forall|k: int|
        0 <= k < places.len() ==> (#[trigger] places[k]) < pos.len() && in_source(
            pos[places[k] as int],
            source,
        )
    &&& forall|k: int, l: int| 0 <= k < l < places.len() ==> #[trigger] places[k] < #[trigger] places[l]
    &&& forall|i: int|
        0 <= i < pos.len() && in_source(#[trigger] pos[i], source) ==> places.contains(i as usize)
}

/// The places of the positions that belong to the source image, which the
/// padding may have grown beyond.
pub fn source_positions(pos: &Vec<(usize, usize)>, source: (usize, usize)) -> (places: Vec<usize>)
    ensures
        is_source_list(places@, pos@, source),
{
    let n = pos.len();
    let mut places: Vec<usize> = Vec::new();
    let mut i: usize = 0;
    while i < n
        invariant
            i <= n,
            n == pos@.len(),
            forall|k: int|
                0 <= k < places@.len() ==> (#[trigger] places@[k]) < i && in_source(
                    pos@[places@[k] as int],
                    source,
                ),
            forall|k: int, l: int|
                0 <= k < l < places@.len() ==> #[trigger] places@[k] < #[trigger] places@[l],
            forall|j: int|
                0 <= j < i && in_source(#[trigger] pos@[j], source) ==> places@.contains(j as usize),
        decreases n - i,
    {
        let p = pos[i];
        if p.0 < source.0 || p.1 < source.1 {
            let ghost before = places@;
            places.push(i);
            proof {
                assert(places@[before.len() as int] == i);
                assert forall|j: int|
                    0 <= j < i + 1 && in_source(#[trigger] pos@[j], source) implies places@.contains(
                    j as usize,
                ) by {
                    if j < i {
                        assert(before.contains(j as usize));
                        let k = choose|k: int| 0 <= k < before.len() && before[k] == j as usize;
                        assert(places@[k] == j as usize);
                    }
                }
            }
        }
        i += 1;
    }
    places
}

} // verus!
