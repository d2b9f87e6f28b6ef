//! Clearing the border of a mask.
//!
//! A mask of any number of axes is a vector of its cells in row-major order
//! (the last axis runs fastest) and a vector of its axis lengths.
use crate::error::InputError;
use vstd::prelude::*;

verus! {

/// The number of cells that one step along axis `k - 1` passes over: the
/// product of the lengths of the axes from `k` on.
pub open spec fn span(shape: Seq<usize>, k: int) -> nat
    decreases shape.len() - k,
{
    if k >= shape.len() || k < 0 {
        1
    } else {
        span(shape, k + 1) * shape[k] as nat
    }
}

/// The number of cells of a mask of this shape.
pub open spec fn cell_count(shape: Seq<usize>) -> nat {
    span(shape, 0)
}

/// The coordinate along axis `k` of the cell at place `i`.
pub open spec fn coordinate(i: int, shape: Seq<usize>, k: int) -> int {
    (i / span(shape, k + 1) as int) % (shape[k] as int)
}

/// Along some axis, the cell at place `i` lies within `size` cells of an end.
pub open spec fn near_border(i: int, shape: Seq<usize>, size: usize) -> bool {
    exists|k: int|
        0 <= k < shape.len() && (#[trigger] coordinate(i, shape, k) < size || coordinate(i, shape, k)
            + size >= shape[k])
}

/// No axis is shorter than `size`.
pub open spec fn border_fits(shape: Seq<usize>, size: usize) -> bool {
    forall|k: int| 0 <= k < shape.len() ==> size <= #[trigger] shape[k]
}

/// An axis of length zero leaves no cells.
proof fn lemma_span_zero(shape: Seq<usize>, k: int, zero: int)
    requires
        0 <= k <= zero < shape.len(),
        shape[zero] == 0,
    ensures
        span(shape, k) == 0,
    decreases zero - k,
{
    if k < zero {
        lemma_span_zero(shape, k + 1, zero);
        assert(span(shape, k + 1) * shape[k] as nat == 0) by (nonlinear_arith)
            requires
                span(shape, k + 1) == 0,
        ;
    } else {
        assert(span(shape, k + 1) * shape[k] as nat == 0) by (nonlinear_arith)
            requires
                shape[k] == 0,
        ;
    }
}

/// Where no axis is empty, the spans do not shrink toward the first axis,
/// and none is zero.
proof fn lemma_span_grows(shape: Seq<usize>, k: int)
    requires
        0 <= k <= shape.len(),
        forall|j: int| 0 <= j < shape.len() ==> #[trigger] shape[j] > 0,
    ensures
        span(shape, k) >= 1,
        span(shape, 0) >= span(shape, k),
    decreases k,
{
    lemma_span_positive(shape, k);
    if k > 0 {
        lemma_span_grows(shape, k - 1);
        lemma_span_positive(shape, k - 1);
        assert(span(shape, k) * shape[k - 1] as nat >= span(shape, k)) by (nonlinear_arith)
            requires
                shape[k - 1] >= 1,
        ;
    }
}

/// Where no axis is empty, no span is zero.
proof fn lemma_span_positive(shape: Seq<usize>, k: int)
    requires
        0 <= k <= shape.len(),
        forall|j: int| 0 <= j < shape.len() ==> #[trigger] shape[j] > 0,
    ensures
        span(shape, k) >= 1,
    decreases shape.len() - k,
{
    if k < shape.len() {
        lemma_span_positive(shape, k + 1);
        assert(span(shape, k + 1) * shape[k] as nat >= 1) by (nonlinear_arith)
            requires
                span(shape, k + 1) >= 1,
                shape[k] >= 1,
        ;
    }
}

/// Whether a mask of this shape has exactly `len` cells.
fn has_cells(shape: &Vec<usize>, len: usize) -> (result: bool)
    ensures
        result == (cell_count(shape@) == len),
        result && len > 0 ==> forall|j: int| 0 <= j < shape@.len() ==> #[trigger] shape@[j] > 0,
{
    let n = shape.len();
    let mut j: usize = 0;
    while j < n
        invariant
            j <= n,
            n == shape@.len(),
            forall|t: int| 0 <= t < j ==> #[trigger] shape@[t] > 0,
        decreases n - j,
    {
        if shape[j] == 0 {
            proof {
                lemma_span_zero(shape@, 0, j as int);
            }
            return len == 0;
        }
        j += 1;
    }
    let mut product: usize = 1;
    let mut k: usize = n;
    while k > 0
        invariant
            k <= n,
            n == shape@.len(),
            forall|t: int| 0 <= t < n ==> #[trigger] shape@[t] > 0,
            product == span(shape@, k as int),
        decreases k,
    {
        match product.checked_mul(shape[k - 1]) {
            Some(next) => {
                product = next;
            },
            None => {
                proof {
                    lemma_span_grows(shape@, k - 1);
                }
                return false;
            },
        }
        k -= 1;
    }
    product == len
}

/// Whether the cell at place `i` lies within `size` cells of an end of some
/// axis.
fn on_border(i: usize, shape: &Vec<usize>, size: usize) -> (result: bool)
    requires
        border_fits(shape@, size),
        forall|j: int| 0 <= j < shape@.len() ==> #[trigger] shape@[j] > 0,
    ensures
        result == near_border(i as int, shape@, size),
{
    let n = shape.len();
    let mut rest: usize = i;
    let mut found = false;
    let mut k: usize = n;
    assert(span(shape@, n as int) == 1);
    while k > 0
        invariant
            k <= n,
            n == shape@.len(),
            border_fits(shape@, size),
            forall|j: int| 0 <= j < shape@.len() ==> #[trigger] shape@[j] > 0,
            rest == i as int / span(shape@, k as int) as int,
            found == exists|t: int|
                k <= t < n && (#[trigger] coordinate(i as int, shape@, t) < size || coordinate(
                    i as int,
                    shape@,
                    t,
                ) + size >= shape@[t]),
        decreases k,
    {
        let axis = k - 1;
        let length = shape[axis];
        let here = rest % length;
        assert(here == coordinate(i as int, shape@, axis as int));
        proof {
            lemma_span_positive(shape@, k as int);
            vstd::arithmetic::div_mod::lemma_div_denominator(
                i as int,
                span(shape@, k as int) as int,
                length as int,
            );
        }
        rest = rest / length;
        let edge = here < size || here >= length - size;
        proof {
            if found {
                let t = choose|t: int|
                    k <= t < n && (#[trigger] coordinate(i as int, shape@, t) < size || coordinate(
                        i as int,
                        shape@,
                        t,
                    ) + size >= shape@[t]);
                assert(axis <= t < n);
            }
        }
        found = found || edge;
        k -= 1;
    }
    found
}

/// Clear the border of a mask: every cell that lies within `size` cells of an
/// end of some axis becomes `false`, every other cell stays as it is.
///
/// Fails with `ShapeMismatch`, and changes nothing, where `data` does not
/// hold as many cells as `shape` says.
pub fn clip_mask_border(data: &mut Vec<bool>, shape: &Vec<usize>, size: usize) -> (result: Result<
    (),
    InputError,
>)
    requires
        border_fits(shape@, size),
    ensures
        final(data)@.len() == old(data)@.len(),
        match result {
            Ok(_) => {
                &&& cell_count(shape@) == old(data)@.len()
                &&& forall|i: int|
                    0 <= i < old(data)@.len() ==> #[trigger] final(data)@[i] == (old(data)@[i]
                        && !near_border(i, shape@, size))
            },
            Err(InputError::ShapeMismatch) => cell_count(shape@) != old(data)@.len() && final(data)@
                == old(data)@,
            Err(_) => false,
        },
{
    let len = data.len();
    if !has_cells(shape, len) {
        return Err(InputError::ShapeMismatch);
    }
    let mut i: usize = 0;
    while i < len
        invariant
            i <= len,
            len == data@.len(),
            len == old(data)@.len(),
            border_fits(shape@, size),
            len > 0 ==> forall|j: int| 0 <= j < shape@.len() ==> #[trigger] shape@[j] > 0,
            forall|t: int|
                0 <= t < i ==> #[trigger] data@[t] == (old(data)@[t] && !near_border(t, shape@, size)),
            forall|t: int| i <= t < len ==> #[trigger] data@[t] == old(data)@[t],
        decreases len - i,
    {
        if on_border(i, shape, size) {
            data.set(i, false);
        }
        i += 1;
    }
    Ok(())
}

} // verus!
