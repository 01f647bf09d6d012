//! Dense matrices over GF(2) and their reduction to row-echelon form.

use crate::bit::Bit;
use crate::error::ShapeError;
use crate::reduction::{
    decimated, free_columns, has_shape, is_leading_column, is_reduced, is_stable_sort,
    leading_rows, lemma_search_off, lemma_search_on, lemma_search_starts,
    lemma_decimated_kernel, lemma_decimated_reduced, lemma_reduced_is_sorted,
    lemma_same_kernel_trans, lemma_scan_done_down, lemma_scan_done_right, lemma_scan_pivot,
    lemma_scan_right, lemma_scan_sorted, lemma_sort_key_is_lead, lemma_sort_of_sorted,
    lemma_sorted_kernel, lemma_sorted_shape, lemma_zero_row_from, reduces_to, same_kernel,
    scan_inv, searching_at, sort_key, without_lead, zero_row_from,
};
use crate::rows::{first_on_from, is_zero, lead, lemma_lead, lemma_lead_is, xor_rows};
use crate::order::{ascending, lemma_listed};
use crate::text::{decimal_digits, push_decimal};
use vstd::pervasive::VecAdditionalExecFns;
use vstd::prelude::*;
use vstd::string::StringExecFns;

verus! {

/// The rows of a matrix as sequences of bits.
pub open spec fn grid_view(data: Seq<Vec<Bit>>) -> Seq<Seq<Bit>> {
    Seq::new(data.len(), |i: int| data[i]@)
}

/// A matrix of bits, stored as a vector of rows.
#[derive(Debug, PartialEq, Eq, Clone)]
pub struct Matrix {
    pub rows: usize,
    pub cols: usize,
    pub data: Vec<Vec<Bit>>,
}

impl View for Matrix {
    type V = Seq<Seq<Bit>>;

    open spec fn view(&self) -> Seq<Seq<Bit>> {
        grid_view(self.data@)
    }
}

/// A cell of a grid of `width` columns and `height` rows.
#[derive(Debug, PartialEq, Eq, Clone, Copy)]
pub struct BoundedPosition {
    width: usize,
    height: usize,
    row: usize,
    col: usize,
}

impl BoundedPosition {
    /// The number of columns of the grid.
    pub closed spec fn spec_width(&self) -> int {
        self.width as int
    }

    /// The number of rows of the grid.
    pub closed spec fn spec_height(&self) -> int {
        self.height as int
    }

    /// The row of the cell.
    pub closed spec fn spec_row(&self) -> int {
        self.row as int
    }

    /// The column of the cell.
    pub closed spec fn spec_col(&self) -> int {
        self.col as int
    }

    /// The cell lies inside the grid.
    pub open spec fn wf(&self) -> bool {
        0 <= self.spec_row() < self.spec_height() && 0 <= self.spec_col() < self.spec_width()
    }

    /// The top left cell of a grid of `width` columns and `height` rows, or
    /// `None` if the grid has no cell.
    pub fn origin(width: usize, height: usize) -> (pos: Option<BoundedPosition>)
        ensures
            pos is Some <==> width >= 1 && height >= 1,
            pos matches Some(p) ==> p.wf() && p.spec_width() == width && p.spec_height() == height
                && p.spec_row() == 0 && p.spec_col() == 0,
    {
        if width == 0 || height == 0 {
            None
        } else {
            Some(BoundedPosition { width, height, row: 0, col: 0 })
        }
    }

    /// The row of the cell.
    pub fn row(&self) -> (r: usize)
        ensures
            r == self.spec_row(),
    {
        self.row
    }

    /// The column of the cell.
    pub fn col(&self) -> (c: usize)
        ensures
            c == self.spec_col(),
    {
        self.col
    }

    /// Steps one column to the right unless the cell is in the last column.
    /// Returns whether it stepped.
    pub fn step_right(&mut self) -> (stepped: bool)
        requires
            old(self).wf(),
        ensures
            stepped == (old(self).spec_col() + 1 < old(self).spec_width()),
            final(self).spec_col() == old(self).spec_col() + if stepped {
                1int
            } else {
                0int
            },
            final(self).spec_row() == old(self).spec_row(),
            final(self).spec_width() == old(self).spec_width(),
            final(self).spec_height() == old(self).spec_height(),
            final(self).wf(),
    {
        if self.col + 1 == self.width {
            false
        } else {
            self.col += 1;
            true
        }
    }

    /// Steps one row down unless the cell is in the last row. Returns
    /// whether it stepped.
    pub fn step_down(&mut self) -> (stepped: bool)
        requires
            old(self).wf(),
        ensures
            stepped == (old(self).spec_row() + 1 < old(self).spec_height()),
            final(self).spec_row() == old(self).spec_row() + if stepped {
                1int
            } else {
                0int
            },
            final(self).spec_col() == old(self).spec_col(),
            final(self).spec_width() == old(self).spec_width(),
            final(self).spec_height() == old(self).spec_height(),
            final(self).wf(),
    {
        if self.row + 1 == self.height {
            false
        } else {
            self.row += 1;
            true
        }
    }
}

/// Finds the first `On` entry of `row` at or after index `since`.
pub fn first_active_column_since(row: &[Bit], since: usize) -> (found: Option<usize>)
    ensures
        match found {
            Some(i) => since <= i < row@.len() && row@[i as int] == Bit::On && forall|j: int|
                since <= j < i ==> row@[j] == Bit::Off,
            None => forall|j: int| since <= j < row@.len() ==> row@[j] == Bit::Off,
        },
        match found {
            Some(i) => i == first_on_from(row@, since as int),
            None => first_on_from(row@, since as int) == row@.len(),
        },
{
    let mut i: usize = since;
    while i < row.len()
        invariant
            since <= i,
            since > row@.len() ==> i == since,
            since <= row@.len() ==> i <= row@.len(),
            forall|j: int| since <= j < i && j < row@.len() ==> row@[j] == Bit::Off,
            i <= row@.len() ==> first_on_from(row@, since as int) == first_on_from(row@, i as int),
        decreases row@.len() - i,
    {
        if row[i] == Bit::On {
            return Some(i);
        }
        i += 1;
    }
    assert(first_on_from(row@, i as int) == row@.len());
    assert(first_on_from(row@, since as int) == row@.len());
    None
}

/// Finds the leading column of `row`: the index of its first `On` entry.
pub fn get_leading_column(row: &[Bit]) -> (found: Option<usize>)
    ensures
        match found {
            Some(i) => i == lead(row@) && i < row@.len(),
            None => lead(row@) == row@.len(),
        },
        found is None <==> is_zero(row@),
{
    proof {
        lemma_lead(row@);
    }
    first_active_column_since(row, 0)
}

/// The key by which rows are ordered: the leading column of `row`, or `cols`
/// if `row` is zero.
pub fn leading_key(row: &[Bit], cols: usize) -> (key: usize)
    ensures
        key == sort_key(row@, cols as int),
{
    proof {
        lemma_lead(row@);
    }
    match get_leading_column(row) {
        Some(col) => col,
        None => cols,
    }
}

/// Calls `sort_by_key` of the slice primitive, with `leading_key` as the key
/// function. Claims what its documentation states: the rows come out
/// rearranged, in ascending order of their keys, and rows of equal key keep
/// their relative order.
#[verifier::external_body]
fn sort_stably_by_leading_key(data: &mut Vec<Vec<Bit>>, cols: usize)
    ensures
        is_stable_sort(grid_view(old(data)@), grid_view(final(data)@), cols as int),
{
    data.sort_by_key(|row| leading_key(row, cols));
}

impl Matrix {
    /// The matrix has at least one row and one column, and `data` holds
    /// `rows` rows of `cols` entries.
    pub open spec fn wf(&self) -> bool {
        &&& self.rows >= 1
        &&& self.cols >= 1
        &&& has_shape(self@, self.rows as int, self.cols as int)
    }

    /// Whether the matrix has at least one row and one column, and `data`
    /// holds `rows` rows of `cols` entries.
    pub fn is_well_formed(&self) -> (well_formed: bool)
        ensures
            well_formed == self.wf(),
    {
        if self.rows == 0 || self.cols == 0 || self.data.len() != self.rows {
            return false;
        }
        let mut i: usize = 0;
        while i < self.rows
            invariant
                i <= self.rows,
                self.rows >= 1,
                self.cols >= 1,
                self.data@.len() == self.rows,
                forall|k: int| 0 <= k < i ==> (#[trigger] self@[k]).len() == self.cols,
            decreases self.rows - i,
        {
            if self.data[i].len() != self.cols {
                assert(self@[i as int].len() != self.cols);
                return false;
            }
            i += 1;
        }
        true
    }

    /// Why `data` cannot be a matrix of `rows` rows and `cols` columns, if
    /// it cannot.
    pub open spec fn shape_fault(data: Seq<Vec<Bit>>, rows: usize, cols: usize) -> Option<
        ShapeError,
    > {
        if rows == 0 || cols == 0 {
            Some(ShapeError::Empty)
        } else if data.len() != rows {
            Some(ShapeError::RowCount)
        } else if exists|i: int| 0 <= i < data.len() && (#[trigger] data[i]).len() != cols {
            Some(ShapeError::RowLength)
        } else {
            None
        }
    }

    /// Makes a matrix of `rows` rows and `cols` columns from a vector of
    /// rows, which must have exactly that shape and at least one cell.
    pub fn new(data: Vec<Vec<Bit>>, rows: usize, cols: usize) -> (made: Result<Matrix, ShapeError>)
        ensures
            made == match Self::shape_fault(data@, rows, cols) {
                Some(fault) => Err::<Matrix, ShapeError>(fault),
                None => Ok(Matrix { rows, cols, data }),
            },
            made matches Ok(m) ==> m.wf(),
    {
        if rows == 0 || cols == 0 {
            return Err(ShapeError::Empty);
        }
        if data.len() != rows {
            return Err(ShapeError::RowCount);
        }
        let mut i: usize = 0;
        while i < rows
            invariant
                rows >= 1,
                cols >= 1,
                i <= rows,
                data@.len() == rows,
                forall|k: int| 0 <= k < i ==> (#[trigger] data@[k]).len() == cols,
            decreases rows - i,
        {
            if data[i].len() != cols {
                assert(data@[i as int].len() != cols);
                return Err(ShapeError::RowLength);
            }
            i += 1;
        }
        Ok(Matrix { rows, cols, data })
    }

    /// Returns the bit at `pos`, which must lie inside the matrix.
    pub fn get_at(&self, pos: BoundedPosition) -> (bit: Bit)
        requires
            self.wf(),
            0 <= pos.spec_row() < self.rows,
            0 <= pos.spec_col() < self.cols,
        ensures
            bit == self@[pos.spec_row()][pos.spec_col()],
    {
        self.data[pos.row][pos.col]
    }

    /// Whether every entry of row `row` is `Off`.
    pub fn is_row_zero(&self, row: usize) -> (zero: bool)
        requires
            self.wf(),
            row < self.rows,
        ensures
            zero == is_zero(self@[row as int]),
    {
        get_leading_column(self.data[row].as_slice()).is_none()
    }

    /// The matrix with `col` appended to its rows, entry by entry.
    pub open spec fn augmented(m: Seq<Seq<Bit>>, col: Seq<Bit>) -> Seq<Seq<Bit>> {
        Seq::new(m.len(), |i: int| m[i].push(col[i]))
    }

    /// Appends `col` as a new last column. A column whose length is not the
    /// number of rows is refused, and the matrix stays as it was.
    pub fn augment_column(&mut self, col: &[Bit]) -> (done: Result<(), ShapeError>)
        requires
            old(self).wf(),
            old(self).cols < usize::MAX,
        ensures
            col@.len() != old(self).rows ==> done == Err::<(), ShapeError>(ShapeError::ColumnLength)
                && *final(self) == *old(self),
            col@.len() == old(self).rows ==> done == Ok::<(), ShapeError>(()) && final(self).rows
                == old(self).rows && final(self).cols == old(self).cols + 1 && final(self)@
                == Self::augmented(old(self)@, col@) && final(self).wf(),
    {
        if col.len() != self.rows {
            return Err(ShapeError::ColumnLength);
        }
        let mut row: usize = 0;
        while row < self.rows
            invariant
                row <= self.rows,
                self.rows == old(self).rows,
                self.cols == old(self).cols,
                col@.len() == self.rows,
                self.data@.len() == self.rows,
                old(self).data@.len() == self.rows,
                forall|i: int|
                    0 <= i < row ==> (#[trigger] self.data@[i])@ == old(self).data@[i]@.push(
                        col@[i],
                    ),
                forall|i: int|
                    row <= i < self.rows ==> #[trigger] self.data@[i] == old(self).data@[i],
            decreases self.rows - row,
        {
            self.data[row].push(col[row]);
            row += 1;
        }
        self.cols += 1;
        assert(self@ =~= Self::augmented(old(self)@, col@));
        assert forall|i: int| 0 <= i < self@.len() implies (#[trigger] self@[i]).len()
            == self.cols by {
            assert(old(self)@[i].len() == old(self).cols);
        }
        Ok(())
    }

    /// Exchanges the rows `row1` and `row2`.
    pub fn swap_rows(&mut self, row1: usize, row2: usize)
        requires
            old(self).wf(),
            row1 < old(self).rows,
            row2 < old(self).rows,
        ensures
            final(self).rows == old(self).rows,
            final(self).cols == old(self).cols,
            final(self)@ == old(self)@.update(row1 as int, old(self)@[row2 as int]).update(
                row2 as int,
                old(self)@[row1 as int],
            ),
            final(self).wf(),
    {
        if row1 != row2 {
            let mut held: Vec<Bit> = Vec::new();
            self.data.set_and_swap(row1, &mut held);
            self.data.set_and_swap(row2, &mut held);
            self.data.set_and_swap(row1, &mut held);
        }
        assert(self@ =~= old(self)@.update(row1 as int, old(self)@[row2 as int]).update(
            row2 as int,
            old(self)@[row1 as int],
        ));
    }

    /// Adds row `source_row` to row `target_row`, entry by entry. The two
    /// rows must differ.
    pub fn elementary_add_row_to(&mut self, source_row: usize, target_row: usize)
        requires
            old(self).wf(),
            source_row < old(self).rows,
            target_row < old(self).rows,
            source_row != target_row,
        ensures
            final(self).rows == old(self).rows,
            final(self).cols == old(self).cols,
            final(self)@ == old(self)@.update(
                target_row as int,
                xor_rows(old(self)@[target_row as int], old(self)@[source_row as int]),
            ),
            final(self).wf(),
    {
        assert(self@[target_row as int].len() == self.cols);
        let mut col: usize = 0;
        while col < self.cols
            invariant
                col <= self.cols,
                self.rows == old(self).rows,
                self.cols == old(self).cols,
                source_row < self.rows,
                target_row < self.rows,
                source_row != target_row,
                old(self).wf(),
                self.data@.len() == self.rows,
                forall|i: int|
                    0 <= i < self.rows && i != target_row ==> #[trigger] self.data@[i] == old(
                        self,
                    ).data@[i],
                self.data@[target_row as int]@.len() == self.cols,
                forall|j: int|
                    0 <= j < col ==> #[trigger] self.data@[target_row as int]@[j] == old(
                        self,
                    )@[target_row as int][j].xor(old(self)@[source_row as int][j]),
                forall|j: int|
                    col <= j < self.cols ==> #[trigger] self.data@[target_row as int]@[j] == old(
                        self,
                    )@[target_row as int][j],
            decreases self.cols - col,
        {
            assert(old(self)@[source_row as int].len() == self.cols);
            let addend = self.data[source_row][col];
            let sum = self.data[target_row][col] + addend;
            self.data[target_row][col] = sum;
            col += 1;
        }
        assert(self@[target_row as int] =~= xor_rows(
            old(self)@[target_row as int],
            old(self)@[source_row as int],
        )) by {
            assert(old(self)@[target_row as int].len() == self.cols);
        }
        assert(self@ =~= old(self)@.update(
            target_row as int,
            xor_rows(old(self)@[target_row as int], old(self)@[source_row as int]),
        ));
    }

    /// Orders the rows by leading column, zero rows last. Rows with the
    /// same leading column keep their relative order.
    pub fn sort_rows_by_leading_column(&mut self)
        requires
            old(self).wf(),
        ensures
            final(self).rows == old(self).rows,
            final(self).cols == old(self).cols,
            is_stable_sort(old(self)@, final(self)@, old(self).cols as int),
            final(self).wf(),
    {
        sort_stably_by_leading_key(&mut self.data, self.cols);
        proof {
            lemma_sorted_shape(old(self)@, self@, self.cols as int);
        }
    }

    /// Adds row `source_row` to every other row that holds `On` in column
    /// `column`.
    pub fn decimate_column_with_row(&mut self, source_row: usize, column: usize)
        requires
            old(self).wf(),
            source_row < old(self).rows,
            column < old(self).cols,
        ensures
            final(self).rows == old(self).rows,
            final(self).cols == old(self).cols,
            final(self)@ == decimated(old(self)@, source_row as int, column as int),
            final(self).wf(),
    {
        let mut row: usize = 0;
        while row < self.rows
            invariant
                row <= self.rows,
                self.wf(),
                old(self).wf(),
                self.rows == old(self).rows,
                self.cols == old(self).cols,
                source_row < self.rows,
                column < self.cols,
                self@[source_row as int] == old(self)@[source_row as int],
                forall|i: int|
                    0 <= i < row ==> #[trigger] self@[i] == decimated(
                        old(self)@,
                        source_row as int,
                        column as int,
                    )[i],
                forall|i: int| row <= i < self.rows ==> #[trigger] self@[i] == old(self)@[i],
            decreases self.rows - row,
        {
            assert(self@[row as int].len() == self.cols);
            if row != source_row && self.data[row][column] == Bit::On {
                self.elementary_add_row_to(source_row, row);
            }
            row += 1;
        }
        assert(self@ =~= decimated(old(self)@, source_row as int, column as int));
    }

    /// Gauss-Jordan elimination over GF(2): brings the matrix to reduced
    /// row-echelon form by row operations, which keep its null space. A
    /// matrix that is already reduced is left as it is.
    pub fn eliminate(&mut self)
        requires
            old(self).wf(),
        ensures
            final(self).rows == old(self).rows,
            final(self).cols == old(self).cols,
            final(self).wf(),
            reduces_to(old(self)@, final(self)@, old(self).cols as int),
    {
        let ghost cols = self.cols as int;
        self.sort_rows_by_leading_column();
        proof {
            lemma_sorted_kernel(old(self)@, self@, cols);
            lemma_scan_sorted(old(self)@, self@, cols, 0, 0);
            if is_reduced(old(self)@, cols) {
                lemma_reduced_is_sorted(old(self)@, cols);
                lemma_sort_of_sorted(old(self)@, self@, cols);
            }
        }
        let mut current_cell = BoundedPosition {
            width: self.cols,
            height: self.rows,
            row: 0,
            col: 0,
        };
        loop
            invariant_except_break
                current_cell.row < self.rows,
                current_cell.col < self.cols,
                scan_inv(self@, cols, current_cell.row as int, current_cell.col as int),
            invariant
                cols == self.cols,
                self.rows == old(self).rows,
                self.cols == old(self).cols,
                current_cell.width == self.cols,
                current_cell.height == self.rows,
                self.wf(),
                same_kernel(old(self)@, self@, cols),
                is_reduced(old(self)@, cols) ==> self@ == old(self)@,
            ensures
                is_reduced(self@, cols),
            decreases (self.rows - current_cell.row) + (self.cols - current_cell.col),
        {
            let ghost r = current_cell.row as int;
            let ghost c = current_cell.col as int;
            match self.get_at(current_cell) {
                Bit::Off => {
                    if !current_cell.step_right() {
                        proof {
                            lemma_scan_done_right(self@, cols, r, c);
                        }
                        break ;
                    } else {
                        proof {
                            lemma_scan_right(self@, cols, r, c);
                        }
                        continue ;
                    }
                },
                Bit::On => {
                    let ghost found = self@;
                    self.decimate_column_with_row(current_cell.row, current_cell.col);
                    let ghost cleared = self@;
                    self.sort_rows_by_leading_column();
                    proof {
                        lemma_scan_pivot(found, cols, r, c);
                        lemma_scan_sorted(cleared, self@, cols, r + 1, c);
                        lemma_decimated_kernel(found, cols, r, c);
                        lemma_sorted_kernel(cleared, self@, cols);
                        lemma_same_kernel_trans(old(self)@, found, cleared, cols);
                        lemma_same_kernel_trans(old(self)@, cleared, self@, cols);
                        if is_reduced(old(self)@, cols) {
                            assert forall|j: int| 0 <= j < c implies found[r][j] == Bit::Off by {}
                            lemma_lead_is(found[r], c);
                            lemma_decimated_reduced(found, cols, r);
                            lemma_reduced_is_sorted(cleared, cols);
                            lemma_sort_of_sorted(cleared, self@, cols);
                        }
                    }
                    if !current_cell.step_down() {
                        proof {
                            lemma_scan_done_down(self@, cols, c);
                        }
                        break ;
                    } else {
                        continue ;
                    }
                },
            }
        }
    }

    /// Counts the rows before the first zero row: the rank of the matrix
    /// once it is reduced.
    pub fn non_zero_row_count(&self) -> (count: usize)
        requires
            self.wf(),
        ensures
            count == leading_rows(self@),
            count <= self.rows,
            forall|i: int| 0 <= i < count ==> !is_zero(#[trigger] self@[i]),
            count < self.rows ==> is_zero(self@[count as int]),
    {
        proof {
            lemma_zero_row_from(self@, 0);
        }
        let mut row: usize = 0;
        while row < self.rows
            invariant
                row <= self.rows,
                self.wf(),
                forall|i: int| 0 <= i < row ==> !is_zero(#[trigger] self@[i]),
                zero_row_from(self@, 0) == zero_row_from(self@, row as int),
            decreases self.rows - row,
        {
            if self.is_row_zero(row) {
                return row;
            }
            row += 1;
        }
        self.rows
    }

    /// Collects the columns at which no row leads, in ascending order. The
    /// matrix is searched once from the top left cell: over an `Off` cell
    /// the column is collected and the search moves right, over an `On` cell
    /// it moves down and right, and past a leading entry in the last row
    /// every column further right is collected. The result is exact for a
    /// matrix in reduced row-echelon form.
    pub fn non_leading_columns(&self) -> (free_cols: Vec<usize>)
        requires
            self.wf(),
        ensures
            ascending(free_cols@),
            forall|k: int| 0 <= k < free_cols@.len() ==> #[trigger] free_cols@[k] < self.cols,
            is_reduced(self@, self.cols as int) ==> free_cols@ == free_columns(
                self@,
                self.cols as nat,
            ),
            is_reduced(self@, self.cols as int) ==> forall|c: usize|
                free_cols@.contains(c) <==> c < self.cols && !#[trigger] is_leading_column(
                    self@,
                    c as int,
                ),
    {
        let ghost m = self@;
        let ghost cols = self.cols as int;
        let ghost reduced = is_reduced(self@, self.cols as int);
        let mut current_cell = BoundedPosition {
            width: self.cols,
            height: self.rows,
            row: 0,
            col: 0,
        };
        let mut free_cols: Vec<usize> = Vec::new();
        proof {
            lemma_search_starts(m);
        }
        loop
            invariant_except_break
                current_cell.row < self.rows,
                forall|k: int|
                    0 <= k < free_cols@.len() ==> #[trigger] free_cols@[k] < current_cell.col,
                reduced ==> searching_at(m, current_cell.row as int, current_cell.col as int)
                    && free_cols@ == free_columns(m, current_cell.col as nat),
            invariant
                self.wf(),
                m == self@,
                cols == self.cols,
                reduced == is_reduced(m, cols),
                current_cell.width == self.cols,
                current_cell.height == self.rows,
                current_cell.col < self.cols,
                ascending(free_cols@),
                forall|k: int| 0 <= k < free_cols@.len() ==> #[trigger] free_cols@[k] < self.cols,
            ensures
                reduced ==> free_cols@ == free_columns(m, cols as nat),
            decreases (self.rows - current_cell.row) + (self.cols - current_cell.col),
        {
            let ghost r = current_cell.row as int;
            let ghost c = current_cell.col as int;
            match self.get_at(current_cell) {
                Bit::Off => {
                    proof {
                        if reduced {
                            lemma_search_off(m, cols, r, c);
                        }
                    }
                    free_cols.push(current_cell.col);
                    if !current_cell.step_right() {
                        break ;
                    } else {
                        continue ;
                    }
                },
                Bit::On => {
                    proof {
                        if reduced {
                            lemma_search_on(m, cols, r, c);
                        }
                    }
                    if !current_cell.step_down() {
                        loop
                            invariant_except_break
                                forall|k: int|
                                    0 <= k < free_cols@.len() ==> #[trigger] free_cols@[k]
                                        <= current_cell.col,
                                reduced ==> free_cols@ == free_columns(
                                    m,
                                    (current_cell.col + 1) as nat,
                                ),
                            invariant
                                cols == self.cols,
                                current_cell.width == self.cols,
                                current_cell.height == self.rows,
                                current_cell.row < self.rows,
                                c <= current_cell.col < self.cols,
                                ascending(free_cols@),
                                forall|k: int|
                                    0 <= k < free_cols@.len() ==> #[trigger] free_cols@[k]
                                        < self.cols,
                                reduced ==> forall|x: int|
                                    c < x ==> !#[trigger] is_leading_column(m, x),
                            ensures
                                reduced ==> free_cols@ == free_columns(m, cols as nat),
                            decreases self.cols - current_cell.col,
                        {
                            if !current_cell.step_right() {
                                break ;
                            }
                            proof {
                                if reduced {
                                    assert(!is_leading_column(m, current_cell.col as int));
                                }
                            }
                            free_cols.push(current_cell.col);
                        }
                        break ;
                    } else {
                        if !current_cell.step_right() {
                            break ;
                        } else {
                            continue ;
                        }
                    }
                },
            }
        }
        proof {
            lemma_listed(without_lead(m), cols as nat);
            assert forall|c: usize|
                without_lead(m).contains(c) <==> !#[trigger] is_leading_column(m, c as int) by {}
        }
        free_cols
    }
}

/// The digits of a row.
pub open spec fn row_text(row: Seq<Bit>) -> Seq<char> {
    Seq::new(row.len(), |c: int| row[c].digit())
}

/// The text of the first `upto` rows of `m`: the digits of each row, and a
/// line feed after each.
pub open spec fn rows_text(m: Seq<Seq<Bit>>, upto: nat) -> Seq<char>
    decreases upto,
{
    if upto == 0 {
        Seq::empty()
    } else {
        rows_text(m, (upto - 1) as nat) + row_text(m[upto - 1]) + seq!['\n']
    }
}

/// The digits of a row in the columns listed in `shown`, and a dot in place
/// of every other.
pub open spec fn masked_row_text(row: Seq<Bit>, shown: Seq<usize>) -> Seq<char> {
    Seq::new(
        row.len(),
        |c: int|
            if shown.contains(c as usize) {
                row[c].digit()
            } else {
                '.'
            },
    )
}

/// The text of the first `upto` rows of `m` with only the columns listed in
/// `shown` visible.
pub open spec fn masked_rows_text(m: Seq<Seq<Bit>>, shown: Seq<usize>, upto: nat) -> Seq<char>
    decreases upto,
{
    if upto == 0 {
        Seq::empty()
    } else {
        masked_rows_text(m, shown, (upto - 1) as nat) + masked_row_text(m[upto - 1], shown) + seq![
            '\n',
        ]
    }
}

/// The report on an elimination that took `before` to `after`.
pub open spec fn report_text(before: Seq<Seq<Bit>>, after: Seq<Seq<Bit>>, cols: int) -> Seq<char> {
    "Input:\n"@ + rows_text(before, before.len()) + "\nOutput:\n"@ + rows_text(after, after.len())
        + "\nRank: "@ + decimal_digits(leading_rows(after) as nat) + "\nFree columns:\n"@
        + masked_rows_text(after, free_columns(after, cols as nat), after.len())
}

/// Whether `list` holds `x`.
fn holds(list: &[usize], x: usize) -> (found: bool)
    ensures
        found == list@.contains(x),
{
    let mut k: usize = 0;
    while k < list.len()
        invariant
            k <= list@.len(),
            forall|j: int| 0 <= j < k ==> list@[j] != x,
        decreases list@.len() - k,
    {
        if list[k] == x {
            return true;
        }
        k += 1;
    }
    false
}

impl Matrix {
    /// Renders the matrix as text: one line of binary digits for each row.
    pub fn to_string(&self) -> (text: String)
        requires
            self.wf(),
        ensures
            text@ == rows_text(self@, self.rows as nat),
    {
        let mut out = String::new();
        let mut row: usize = 0;
        while row < self.rows
            invariant
                self.wf(),
                row <= self.rows,
                out@ == rows_text(self@, row as nat),
            decreases self.rows - row,
        {
            let ghost start = out@;
            assert(self@[row as int].len() == self.cols);
            let mut col: usize = 0;
            while col < self.cols
                invariant
                    self.wf(),
                    row < self.rows,
                    col <= self.cols,
                    self@[row as int].len() == self.cols,
                    out@ == start + row_text(self@[row as int]).take(col as int),
                decreases self.cols - col,
            {
                out.append(self.data[row][col].digit_text());
                assert(out@ =~= start + row_text(self@[row as int]).take(col + 1));
                col += 1;
            }
            out.append("\n");
            proof {
                reveal_strlit("\n");
                assert(row_text(self@[row as int]).take(self.cols as int) =~= row_text(
                    self@[row as int],
                ));
                assert(out@ =~= rows_text(self@, (row + 1) as nat));
            }
            row += 1;
        }
        out
    }

    /// Renders the matrix as text with only the columns listed in
    /// `col_nums` visible: every other entry is shown as a dot.
    pub fn display_selected_columns(&self, col_nums: &[usize]) -> (text: String)
        requires
            self.wf(),
        ensures
            text@ == masked_rows_text(self@, col_nums@, self.rows as nat),
    {
        let mut out = String::new();
        let mut row: usize = 0;
        while row < self.rows
            invariant
                self.wf(),
                row <= self.rows,
                out@ == masked_rows_text(self@, col_nums@, row as nat),
            decreases self.rows - row,
        {
            let ghost start = out@;
            assert(self@[row as int].len() == self.cols);
            let mut col: usize = 0;
            while col < self.cols
                invariant
                    self.wf(),
                    row < self.rows,
                    col <= self.cols,
                    self@[row as int].len() == self.cols,
                    out@ == start + masked_row_text(self@[row as int], col_nums@).take(col as int),
                decreases self.cols - col,
            {
                if holds(col_nums, col) {
                    out.append(self.data[row][col].digit_text());
                } else {
                    out.append(".");
                }
                proof {
                    reveal_strlit(".");
                    assert(out@ =~= start + masked_row_text(self@[row as int], col_nums@).take(
                        col + 1,
                    ));
                }
                col += 1;
            }
            out.append("\n");
            proof {
                reveal_strlit("\n");
                assert(masked_row_text(self@[row as int], col_nums@).take(self.cols as int)
                    =~= masked_row_text(self@[row as int], col_nums@));
                assert(out@ =~= masked_rows_text(self@, col_nums@, (row + 1) as nat));
            }
            row += 1;
        }
        out
    }

    /// Eliminates, and reports on it as text: the matrix before, the matrix
    /// after, its rank, and its free columns.
    pub fn report_elimination(&mut self) -> (report: String)
        requires
            old(self).wf(),
        ensures
            final(self).rows == old(self).rows,
            final(self).cols == old(self).cols,
            final(self).wf(),
            reduces_to(old(self)@, final(self)@, old(self).cols as int),
            report@ == report_text(old(self)@, final(self)@, old(self).cols as int),
    {
        let mut out = String::new();
        out.append("Input:\n");
        let input = self.to_string();
        out.append(input.as_str());
        self.eliminate();
        out.append("\nOutput:\n");
        let output = self.to_string();
        out.append(output.as_str());
        out.append("\nRank: ");
        push_decimal(&mut out, self.non_zero_row_count());
        out.append("\nFree columns:\n");
        let non_l_cols = self.non_leading_columns();
        let free = self.display_selected_columns(non_l_cols.as_slice());
        out.append(free.as_str());
        assert(out@ =~= report_text(old(self)@, self@, old(self).cols as int));
        out
    }

    /// Whether the matrix is in reduced row-echelon form.
    pub fn is_row_reduced(&self) -> (reduced: bool)
        requires
            self.wf(),
        ensures
            reduced == is_reduced(self@, self.cols as int),
    {
        let ghost m = self@;
        let ghost cols = self.cols as int;
        let mut keys: Vec<usize> = Vec::new();
        let mut row: usize = 0;
        while row < self.rows
            invariant
                self.wf(),
                m == self@,
                cols == self.cols,
                row <= self.rows,
                keys@.len() == row,
                forall|i: int| 0 <= i < row ==> #[trigger] keys@[i] == lead(m[i]),
            decreases self.rows - row,
        {
            proof {
                lemma_sort_key_is_lead(m[row as int], cols);
            }
            keys.push(leading_key(self.data[row].as_slice(), self.cols));
            row += 1;
        }
        let mut row: usize = 1;
        while row < self.rows
            invariant
                self.wf(),
                m == self@,
                cols == self.cols,
                1 <= row <= self.rows,
                keys@.len() == self.rows,
                forall|i: int| 0 <= i < self.rows ==> #[trigger] keys@[i] == lead(m[i]),
                forall|i: int, j: int|
                    #![trigger lead(m[i]), lead(m[j])]
                    0 <= i < j < row ==> lead(m[i]) < lead(m[j]) || lead(m[j]) == cols,
            decreases self.rows - row,
        {
            if !(keys[row - 1] < keys[row] || keys[row] == self.cols) {
                assert(!(lead(m[row - 1]) < lead(m[row as int]) || lead(m[row as int]) == cols));
                return false;
            }
            proof {
                assert forall|i: int, j: int|
                    #![trigger lead(m[i]), lead(m[j])]
                    0 <= i < j < row + 1 implies lead(m[i]) < lead(m[j]) || lead(m[j]) == cols by {
                    lemma_lead(m[i]);
                    lemma_lead(m[row - 1]);
                    if j == row && i < row - 1 {
                        assert(lead(m[i]) < lead(m[row - 1]) || lead(m[row - 1]) == cols);
                    }
                }
            }
            row += 1;
        }
        let mut row: usize = 0;
        while row < self.rows
            invariant
                self.wf(),
                m == self@,
                cols == self.cols,
                row <= self.rows,
                keys@.len() == self.rows,
                forall|i: int| 0 <= i < self.rows ==> #[trigger] keys@[i] == lead(m[i]),
                forall|i: int, j: int|
                    #![trigger lead(m[i]), lead(m[j])]
                    0 <= i < j < self.rows ==> lead(m[i]) < lead(m[j]) || lead(m[j]) == cols,
                forall|i: int, k: int|
                    #![trigger m[k][lead(m[i])]]
                    0 <= i < row && 0 <= k < m.len() && i != k && lead(m[i]) < cols ==> m[k][lead(
                        m[i],
                    )] == Bit::Off,
            decreases self.rows - row,
        {
            let key = keys[row];
            if key < self.cols {
                let mut other: usize = 0;
                while other < self.rows
                    invariant
                        self.wf(),
                        m == self@,
                        cols == self.cols,
                        row < self.rows,
                        other <= self.rows,
                        key == lead(m[row as int]),
                        key < self.cols,
                        forall|k: int|
                            0 <= k < other && k != row ==> (#[trigger] m[k])[key as int]
                                == Bit::Off,
                    decreases self.rows - other,
                {
                    assert(m[other as int].len() == cols);
                    if other != row && self.data[other][key] == Bit::On {
                        assert(m[other as int][lead(m[row as int])] == Bit::On);
                        return false;
                    }
                    other += 1;
                }
            }
            row += 1;
        }
        true
    }
}

} // verus!
