//! The label image: a grid of `u16` labels, zero for background.
//!
//! The grid is an `ndarray::Array2<u16>`. The verifier does not look inside
//! it; [`label_cells`] names what it holds, and the functions that touch the
//! array state their effect on that. An image starts as background, is
//! painted by [`crate::labeling::polygon_label`], and is read-only to
//! everyone else.
use vstd::prelude::*;

verus! {

/// A two-dimensional grid of labels.
#[verifier::external_body]
pub struct LabelImage {
    cells: ndarray::Array2<u16>,
}

/// The labels that the image holds, row by row.
pub uninterp spec fn label_cells(image: LabelImage) -> Seq<Seq<u16>>;

/// The number of columns of the image, which it has even without a row.
pub uninterp spec fn label_width(image: LabelImage) -> nat;

/// `cells` is a grid of `rows` rows of `cols` labels each.
pub open spec fn is_grid(cells: Seq<Seq<u16>>, rows: int, cols: int) -> bool {
    &&& cells.len() == rows
    &&& forall|r: int| 0 <= r < rows ==> (#[trigger] cells[r]).len() == cols
}

/// An array of this shape can be allocated: twice the product of its axis
/// lengths, each zero taken as one, is at most `isize::MAX`.
pub open spec fn shape_fits(shape: (usize, usize)) -> bool {
    2 * (if shape.0 == 0 {
        1
    } else {
        shape.0 as int
    }) * (if shape.1 == 0 {
        1
    } else {
        shape.1 as int
    }) <= isize::MAX
}

impl View for LabelImage {
    type V = Seq<Seq<u16>>;

    open spec fn view(&self) -> Seq<Seq<u16>> {
        label_cells(*self)
    }
}

impl LabelImage {
    /// The number of rows and of columns.
    pub open spec fn spec_shape(self) -> (nat, nat) {
        (label_cells(self).len(), label_width(self))
    }

    /// Every row is as long as the image is wide.
    pub open spec fn well_formed(self) -> bool {
        is_grid(label_cells(self), label_cells(self).len() as int, label_width(self) as int)
    }
}

/// `ndarray::Array2::zeros` with a shape of two axes: a grid of that shape
/// that holds zero everywhere. The shape is kept to what `zeros` accepts
/// without a panic, and to what a vector of `u16` can hold.
#[verifier::external_body]
fn zeros(shape: (usize, usize)) -> (image: LabelImage)
    requires
        shape_fits(shape),
    ensures
        is_grid(label_cells(image), shape.0 as int, shape.1 as int),
        label_width(image) == shape.1,
        forall|r: int, c: int|
            0 <= r < shape.0 && 0 <= c < shape.1 ==> (#[trigger] label_cells(image)[r][c]) == 0,
{
    LabelImage { cells: ndarray::Array2::zeros(shape) }
}

/// `ndarray::ArrayBase::dim` of a two-axis array: the number of rows and of
/// columns, and every row is as long as there are columns.
#[verifier::external_body]
fn dim(image: &LabelImage) -> (shape: (usize, usize))
    ensures
        is_grid(label_cells(*image), shape.0 as int, shape.1 as int),
        label_width(*image) == shape.1,
{
    image.cells.dim()
}

/// Indexing an `ndarray::Array2` by `[row, col]`, which panics out of bounds:
/// the label at that place.
#[verifier::external_body]
fn at(image: &LabelImage, row: usize, col: usize) -> (label: u16)
    requires
        row < label_cells(*image).len(),
        col < label_cells(*image)[row as int].len(),
    ensures
        label == label_cells(*image)[row as int][col as int],
{
    image.cells[[row, col]]
}

/// Assigning through the index `[row, col]` of an `ndarray::Array2`, which
/// panics out of bounds: that one place holds `label` afterwards and every
/// other place what it held.
#[verifier::external_body]
fn put(image: &mut LabelImage, row: usize, col: usize, label: u16)
    requires
        row < label_cells(*old(image)).len(),
        col < label_cells(*old(image))[row as int].len(),
    ensures
        label_cells(*final(image)) == label_cells(*old(image)).update(
            row as int,
            label_cells(*old(image))[row as int].update(col as int, label),
        ),
        label_width(*final(image)) == label_width(*old(image)),
{
    image.cells[[row, col]] = label;
}

impl LabelImage {
    /// A background image of the given shape, or `None` where the shape is
    /// too large to allocate.
    pub fn background(shape: (usize, usize)) -> (result: Option<LabelImage>)
        ensures
            result is Some <==> shape_fits(shape),
            result matches Some(image) ==> {
                &&& is_grid(image@, shape.0 as int, shape.1 as int)
                &&& image.spec_shape() == (shape.0 as nat, shape.1 as nat)
                &&& forall|r: int, c: int|
                    0 <= r < shape.0 && 0 <= c < shape.1 ==> (#[trigger] image@[r][c]) == 0
            },
    {
        let rows: usize = if shape.0 == 0 {
            1
        } else {
            shape.0
        };
        let cols: usize = if shape.1 == 0 {
            1
        } else {
            shape.1
        };
        let limit: usize = isize::MAX as usize / 2;
        let q: usize = limit / rows;
        proof {
            vstd::arithmetic::div_mod::lemma_fundamental_div_mod(limit as int, rows as int);
            if cols <= q {
                assert(rows * cols <= rows * q) by (nonlinear_arith)
                    requires
                        cols <= q,
                        rows > 0,
                ;
            } else {
                assert(rows * cols >= rows * (q + 1)) by (nonlinear_arith)
                    requires
                        cols >= q + 1,
                        rows > 0,
                ;
                assert(rows * (q + 1) == rows * q + rows) by (nonlinear_arith);
            }
            assert(2 * rows * cols == 2 * (rows * cols)) by (nonlinear_arith);
        }
        if cols <= q {
            Some(zeros(shape))
        } else {
            None
        }
    }

    /// The number of rows and of columns.
    pub fn shape(&self) -> (shape: (usize, usize))
        ensures
            self.spec_shape() == (shape.0 as nat, shape.1 as nat),
            self.well_formed(),
    {
        dim(self)
    }

    /// The label of pixel `(row, col)`, or `None` outside the image.
    pub fn label_at(&self, row: usize, col: usize) -> (label: Option<u16>)
        ensures
            label == if row < self@.len() && col < self@[row as int].len() {
                Some(self@[row as int][col as int])
            } else {
                None
            },
    {
        let (rows, cols) = dim(self);
        if row < rows && col < cols {
            Some(at(self, row, col))
        } else {
            None
        }
    }

    /// Give pixel `(row, col)` the label `label`. Only painting does so: to
    /// the crate's users an image is read-only.
    pub(crate) fn set_label(&mut self, row: usize, col: usize, label: u16)
        requires
            row < old(self)@.len(),
            col < old(self)@[row as int].len(),
        ensures
            final(self)@ == old(self)@.update(
                row as int,
                old(self)@[row as int].update(col as int, label),
            ),
            final(self).spec_shape() == old(self).spec_shape(),
    {
        put(self, row, col, label)
    }

    /// The labels as a vector of rows.
    pub fn to_rows(&self) -> (rows: Vec<Vec<u16>>)
        ensures
            rows@.len() == self@.len(),
            forall|r: int| 0 <= r < rows@.len() ==> (#[trigger] rows@[r])@ == self@[r],
    {
        let (n_rows, n_cols) = dim(self);
        let mut rows: Vec<Vec<u16>> = Vec::new();
        let mut r: usize = 0;
        while r < n_rows
            invariant
                r <= n_rows,
                is_grid(self@, n_rows as int, n_cols as int),
                rows@.len() == r,
                forall|k: int| 0 <= k < r ==> (#[trigger] rows@[k])@ == self@[k],
            decreases n_rows - r,
        {
            let mut row: Vec<u16> = Vec::new();
            let mut c: usize = 0;
            while c < n_cols
                invariant
                    r < n_rows,
                    c <= n_cols,
                    is_grid(self@, n_rows as int, n_cols as int),
                    row@.len() == c,
                    forall|k: int| 0 <= k < c ==> #[trigger] row@[k] == self@[r as int][k],
                decreases n_cols - c,
            {
                row.push(at(self, r, c));
                c += 1;
            }
            assert(row@ =~= self@[r as int]);
            rows.push(row);
            r += 1;
        }
        rows
    }
}

} // verus!
