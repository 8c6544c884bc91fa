//! Two-dimensional arrays of samples, as `ndarray` keeps them.

use vstd::prelude::*;

use crate::error::WavUtilsError;
#[allow(unused_imports)]
use crate::layout::has_frames;

verus! {

/// A two-dimensional array of 16-bit samples.
#[verifier::external_body]
pub struct SampleArray {
    inner: ndarray::Array2<i16>,
}

/// What a two-dimensional array holds.
#[verifier::ext_equal]
pub struct Grid {
    /// The rows, from the first to the last.
    pub rows: Seq<Seq<i16>>,
    /// The number of samples in a row.
    pub cols: nat,
}

impl Grid {
    /// The grid of `n` rows that `samples` fill row by row.
    pub open spec fn row_by_row(n: nat, cols: nat, samples: Seq<i16>) -> Grid {
        Grid {
            rows: Seq::new(n, |r: int| Seq::new(cols, |c: int| samples[r * cols + c])),
            cols,
        }
    }

    /// The grid with rows and columns exchanged.
    pub open spec fn transposed(self) -> Grid {
        Grid {
            rows: Seq::new(self.cols, |c: int| Seq::new(self.rows.len(), |r: int| self.rows[r][c])),
            cols: self.rows.len(),
        }
    }

    /// Column `c`, from the first row to the last.
    pub open spec fn column(self, c: int) -> Seq<i16> {
        Seq::new(self.rows.len(), |r: int| self.rows[r][c])
    }
}

/// What an array holds.
pub uninterp spec fn array_grid(array: SampleArray) -> Grid;

/// Whether `n` samples make an array of this shape. The longer side of an
/// array without samples is limited too.
pub open spec fn shape_fits(rows: usize, cols: usize, n: nat) -> bool {
    &&& rows * cols == n
    &&& rows == 0 ==> cols <= isize::MAX
    &&& cols == 0 ==> rows <= isize::MAX
}

/// Calls `ndarray::Array2::from_shape_vec`: the samples in the shape of an
/// array, row by row, or an error where their number does not fit the shape.
#[verifier::external_body]
fn shape_samples(rows: usize, cols: usize, samples: Vec<i16>) -> (r: Result<
    SampleArray,
    ndarray::ShapeError,
>)
    ensures
        r is Ok <==> shape_fits(rows, cols, samples@.len()),
        r matches Ok(array) ==> array_grid(array) == Grid::row_by_row(
            rows as nat,
            cols as nat,
            samples@,
        ),
{
    ndarray::Array2::from_shape_vec((rows, cols), samples).map(|inner| SampleArray { inner })
}

/// Calls `t` and `to_owned` of `ndarray`: a copy with rows and columns
/// exchanged.
#[verifier::external_body]
fn transpose(array: &SampleArray) -> (r: SampleArray)
    ensures
        array_grid(r) == array_grid(*array).transposed(),
{
    SampleArray { inner: array.inner.t().to_owned() }
}

/// Calls `len_of` of `ndarray`: the number of rows for axis 0, the number of
/// columns, which is the length of every row, for axis 1.
#[verifier::external_body]
fn axis_len(array: &SampleArray, axis: usize) -> (n: usize)
    requires
        axis < 2,
    ensures
        axis == 0 ==> n == array_grid(*array).rows.len(),
        axis == 1 ==> n == array_grid(*array).cols && has_frames(
            array_grid(*array).rows,
            n as nat,
        ),
{
    array.inner.len_of(ndarray::Axis(axis))
}

/// Calls `index_axis` of `ndarray` on axis 1, and copies out the column that
/// it shows.
#[verifier::external_body]
fn copy_column(array: &SampleArray, c: usize) -> (column: Vec<i16>)
    requires
        c < array_grid(*array).cols,
    ensures
        column@ == array_grid(*array).column(c as int),
{
    array.inner.index_axis(ndarray::Axis(1), c).to_vec()
}

impl SampleArray {
    /// The samples in the shape of an array, row by row.
    pub fn from_shape_vec(rows: usize, cols: usize, samples: Vec<i16>) -> (r: Result<
        SampleArray,
        WavUtilsError,
    >)
        ensures
            match r {
                Ok(array) => {
                    &&& shape_fits(rows, cols, samples@.len())
                    &&& array_grid(array) == Grid::row_by_row(rows as nat, cols as nat, samples@)
                },
                Err(e) => !shape_fits(rows, cols, samples@.len()) && e is NdarrayShapeError,
            },
    {
        match shape_samples(rows, cols, samples) {
            Ok(array) => Ok(array),
            Err(e) => Err(WavUtilsError::from(e)),
        }
    }

    /// A copy with rows and columns exchanged.
    pub fn transposed(&self) -> (r: SampleArray)
        ensures
            array_grid(r) == array_grid(*self).transposed(),
    {
        transpose(self)
    }

    /// The number of rows and of columns.
    pub fn shape(&self) -> (r: (usize, usize))
        ensures
            r.0 == array_grid(*self).rows.len(),
            r.1 == array_grid(*self).cols,
            has_frames(array_grid(*self).rows, array_grid(*self).cols),
    {
        (axis_len(self, 0), axis_len(self, 1))
    }

    /// Column `c`, from the first row to the last.
    pub fn column(&self, c: usize) -> (column: Vec<i16>)
        requires
            c < array_grid(*self).cols,
        ensures
            column@ == array_grid(*self).column(c as int),
    {
        copy_column(self, c)
    }
}

} // verus!
