//! The dense matrix of cells, and the bit patterns that stand for numbers.

use vstd::prelude::*;
use super::error::AtlasError;

verus! {

pub type AtlasResult<T> = Result<T, AtlasError>;

/// The bit pattern written where an instrument has no observation: a quiet
/// not-a-number in IEEE-754 double precision.
pub const NAN_BITS: u64 = 0x7ff8_0000_0000_0000;

/// The pattern is that of zero, positive or negative, in IEEE-754 double
/// precision.
pub open spec fn is_zero_bits(bits: u64) -> bool {
    bits == 0x0000_0000_0000_0000 || bits == 0x8000_0000_0000_0000
}

/// Tells whether the pattern is that of zero, positive or negative.
pub fn is_zero(bits: u64) -> (zero: bool)
    ensures
        zero == is_zero_bits(bits),
{
    bits == 0x0000_0000_0000_0000 || bits == 0x8000_0000_0000_0000
}

/// The pattern has all exponent bits set and a mantissa that is not zero, which
/// is how IEEE-754 double precision writes not-a-number.
pub open spec fn is_nan_bits(bits: u64) -> bool {
    (bits & 0x7ff0_0000_0000_0000) == 0x7ff0_0000_0000_0000 && (bits & 0x000f_ffff_ffff_ffff) != 0
}

/// The sentinel for a missing observation is a not-a-number.
pub proof fn lemma_sentinel_is_nan()
    ensures
        is_nan_bits(NAN_BITS),
{
    assert((0x7ff8_0000_0000_0000u64 & 0x7ff0_0000_0000_0000) == 0x7ff0_0000_0000_0000
        && (0x7ff8_0000_0000_0000u64 & 0x000f_ffff_ffff_ffff) != 0) by (bit_vector);
}

/// The cell of row `row` and column `col` in a buffer that holds its rows one
/// after another, `cols` cells each.
pub open spec fn cell_at(data: Seq<u64>, cols: int, row: int, col: int) -> u64 {
    data[row * cols + col]
}

/// Where a cell of a row-major buffer stands, and that its place gives back
/// its row and its column.
pub proof fn lemma_cell_index(row: int, col: int, rows: int, cols: int)
    requires
        0 <= row < rows,
        0 <= col < cols,
    ensures
        0 <= row * cols + col < rows * cols,
        (row * cols + col) / cols == row,
        (row * cols + col) % cols == col,
{
    assert(0 <= row * cols + col < rows * cols) by (nonlinear_arith)
        requires
            0 <= row < rows,
            0 <= col < cols,
    ;
    vstd::arithmetic::div_mod::lemma_fundamental_div_mod_converse(
        row * cols + col,
        cols,
        row,
        col,
    );
}

/// The row and the column of the cell that stands at `index`.
pub proof fn lemma_cell_place(index: int, rows: int, cols: int)
    requires
        0 <= index < rows * cols,
        0 < cols,
    ensures
        0 <= index / cols < rows,
        0 <= index % cols < cols,
        index == (index / cols) * cols + index % cols,
{
    vstd::arithmetic::div_mod::lemma_fundamental_div_mod(index, cols);
    vstd::arithmetic::div_mod::lemma_mod_bound(index, cols);
    let q = index / cols;
    assert(cols * q == q * cols) by (nonlinear_arith);
    assert(0 <= q < rows) by (nonlinear_arith)
        requires
            0 <= index < rows * cols,
            0 < cols,
            index == q * cols + index % cols,
            0 <= index % cols < cols,
    ;
}

/// A dense matrix of 64-bit cells, kept by `nalgebra`.
#[verifier::external_body]
pub struct CellMatrix {
    inner: nalgebra::DMatrix<u64>,
}

/// The cells of a matrix, row by row.
pub uninterp spec fn matrix_cells(m: CellMatrix) -> Seq<Seq<u64>>;

/// The matrix has `rows` rows of `cols` cells each.
pub open spec fn has_shape(m: CellMatrix, rows: int, cols: int) -> bool {
    &&& matrix_cells(m).len() == rows
    &&& forall|i: int| 0 <= i < rows ==> (#[trigger] matrix_cells(m)[i]).len() == cols
}

/// `nalgebra::DMatrix::zeros`: a matrix of the given shape with every cell 0.
/// The shape must fit an allocation, or the call panics.
#[verifier::external_body]
pub(crate) fn matrix_zeros(rows: usize, cols: usize) -> (m: CellMatrix)
    requires
        rows * cols * 8 <= isize::MAX,
    ensures
        has_shape(m, rows as int, cols as int),
        forall|i: int, j: int|
            0 <= i < rows && 0 <= j < cols ==> (#[trigger] matrix_cells(m)[i][j]) == 0,
{
    CellMatrix { inner: nalgebra::DMatrix::zeros(rows, cols) }
}

/// Assignment through `nalgebra`'s index by `(row, column)`: the one cell
/// changes and every other stays. The index must lie in the matrix, or the
/// call panics.
#[verifier::external_body]
pub(crate) fn matrix_set(m: &mut CellMatrix, row: usize, col: usize, value: u64)
    requires
        row < matrix_cells(*old(m)).len(),
        col < matrix_cells(*old(m))[row as int].len(),
    ensures
        matrix_cells(*final(m)) == matrix_cells(*old(m)).update(
            row as int,
            matrix_cells(*old(m))[row as int].update(col as int, value),
        ),
{
    m.inner[(row, col)] = value;
}

/// `nalgebra`'s index by `(row, column)`: the cell at that place. The index
/// must lie in the matrix, or the call panics.
#[verifier::external_body]
pub(crate) fn matrix_get(m: &CellMatrix, row: usize, col: usize) -> (value: u64)
    requires
        row < matrix_cells(*m).len(),
        col < matrix_cells(*m)[row as int].len(),
    ensures
        value == matrix_cells(*m)[row as int][col as int],
{
    m.inner[(row, col)]
}

} // verus!
