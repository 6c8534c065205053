//! A 4x4 matrix stored row-major in sixteen cells. The cell type is left to
//! the caller; the renderer keeps `f32` entries in it.

use vstd::prelude::*;

verus! {

/// A 4x4 matrix whose cell at `(row, col)` is cell number `row * 4 + col`.
pub struct Mat4x4<T> {
    m: [T; 16],
}

impl<T> View for Mat4x4<T> {
    type V = Seq<T>;

    /// The sixteen cells in row-major order.
    closed spec fn view(&self) -> Seq<T> {
        self.m@
    }
}

/// Position of the cell `(row, col)` among the sixteen cells.
pub open spec fn cell_index(row: int, col: int) -> int {
    row * 4 + col
}

/// The sixteen cells of the 4x4 grid are distinct and lie among the sixteen
/// cells of a matrix.
pub proof fn lemma_grid_cells_distinct(row: int, col: int, row2: int, col2: int)
    requires
        0 <= row < 4,
        0 <= col < 4,
        0 <= row2 < 4,
        0 <= col2 < 4,
    ensures
        0 <= cell_index(row, col) < 16,
        cell_index(row, col) == cell_index(row2, col2) ==> row == row2 && col == col2,
{
}

/// Every matrix has exactly sixteen cells.
pub proof fn lemma_sixteen_cells<T>(m: Mat4x4<T>)
    ensures
        m@.len() == 16,
{
}

/// Reading a cell of a matrix after storing into it gives the stored value
/// when both name the same cell, and the earlier content otherwise.
pub proof fn lemma_get_after_set<T>(m: Mat4x4<T>, row: int, col: int, row2: int, col2: int, value: T)
    requires
        0 <= cell_index(row, col) < 16,
        0 <= cell_index(row2, col2) < 16,
    ensures
        m@.update(cell_index(row, col), value)[cell_index(row2, col2)]
            == (if cell_index(row, col) == cell_index(row2, col2) { value } else { m@[cell_index(row2, col2)] }),
        m@.update(cell_index(row, col), value).len() == 16,
{
}

impl<T: Copy> Mat4x4<T> {
    /// A matrix with every cell holding `fill` (the renderer passes zero).
    pub fn new(fill: T) -> (mat: Self)
        ensures
            mat@ == Seq::new(16, |i: int| fill),
    {
        let mat = Mat4x4 { m: [fill; 16] };
        assert(mat@ =~= Seq::new(16, |i: int| fill));
        mat
    }

    /// The cell at `(row, col)`.
    pub fn get(&self, row: usize, col: usize) -> (value: T)
        requires
            cell_index(row as int, col as int) < 16,
        ensures
            value == self@[cell_index(row as int, col as int)],
            self@.len() == 16,
    {
        self.m[row * 4 + col]
    }

    /// Stores `value` in the cell at `(row, col)`.
    pub fn set(&mut self, row: usize, col: usize, value: T)
        requires
            cell_index(row as int, col as int) < 16,
        ensures
            final(self)@ == old(self)@.update(cell_index(row as int, col as int), value),
            old(self)@.len() == 16,
            final(self)@.len() == 16,
            final(self)@[cell_index(row as int, col as int)] == value,
            row < 4 && col < 4 ==> forall|r: int, c: int|
                0 <= r < 4 && 0 <= c < 4 && (r != row || c != col)
                    ==> #[trigger] final(self)@[cell_index(r, c)] == old(self)@[cell_index(r, c)],
    {
        proof {
            assert forall|r: int, c: int|
                0 <= r < 4 && 0 <= c < 4 && (r != row || c != col) && row < 4 && col < 4
                    implies #[trigger] cell_index(r, c) != cell_index(row as int, col as int) by {
                lemma_grid_cells_distinct(r, c, row as int, col as int);
            }
        }
        self.m[row * 4 + col] = value;
    }
}

} // verus!
