//! A table, arranged in column-major order: row headers fixed at creation,
//! columns appended one at a time, every cell addressable. Rendering is the
//! caller's business; the table only keeps the cells in shape.

use vstd::prelude::*;

verus! {

/// A table in column-major order.
#[derive(Debug)]
pub struct Table<C, R, T> {
    col_headers: Vec<C>,
    row_headers: Vec<R>,
    data: Vec<T>,
}

impl<C, R, T> Table<C, R, T> {
    /// Number of rows.
    pub closed spec fn rows_n(self) -> int {
        self.row_headers@.len() as int
    }

    /// Number of columns.
    pub closed spec fn cols_n(self) -> int {
        self.col_headers@.len() as int
    }

    /// The column headers.
    pub closed spec fn spec_col_headers(self) -> Seq<C> {
        self.col_headers@
    }

    /// The row headers.
    pub closed spec fn spec_row_headers(self) -> Seq<R> {
        self.row_headers@
    }

    /// Well-formedness: one cell per row/column pair.
    pub closed spec fn wf(self) -> bool {
        self.data@.len() == self.cols_n() * self.rows_n()
    }

    /// The cell at column `c`, row `r`.
    pub closed spec fn cell_at(self, c: int, r: int) -> T {
        self.data@[c * self.rows_n() + r]
    }

    /// A table with the given row headers and no columns.
    pub fn new(row_headers: Vec<R>) -> (t: Table<C, R, T>)
        ensures
            t.wf(),
            t.cols_n() == 0,
            t.rows_n() == row_headers@.len(),
            t.spec_row_headers() == row_headers@,
            t.spec_col_headers() == Seq::<C>::empty(),
    {
        let t = Table { col_headers: Vec::new(), row_headers, data: Vec::new() };
        proof {
            assert(t.cols_n() * t.rows_n() == 0) by (nonlinear_arith)
                requires
                    t.cols_n() == 0,
            ;
            assert(t.spec_col_headers() =~= Seq::<C>::empty());
        }
        t
    }

    /// Appends a column, every cell of it `default`.
    pub fn add_column(&mut self, header: C, default: T) where T: Copy
        requires
            old(self).wf(),
            old(self).cols_n() * old(self).rows_n() + old(self).rows_n() <= usize::MAX,
        ensures
            final(self).wf(),
            final(self).rows_n() == old(self).rows_n(),
            final(self).cols_n() == old(self).cols_n() + 1,
            final(self).spec_col_headers() == old(self).spec_col_headers().push(header),
            final(self).spec_row_headers() == old(self).spec_row_headers(),
            forall|c: int, r: int|
                0 <= c < old(self).cols_n() && 0 <= r < old(self).rows_n() ==> final(self).cell_at(
                    c,
                    r,
                ) == old(self).cell_at(c, r),
            forall|r: int|
                0 <= r < old(self).rows_n() ==> final(self).cell_at(old(self).cols_n(), r)
                    == default,
    {
        self.col_headers.push(header);
        let rows = self.row_headers.len();
        let mut added: usize = 0;
        while added < rows
            invariant
                added <= rows,
                self.col_headers@ == old(self).col_headers@.push(header),
                self.row_headers@ == old(self).row_headers@,
                self.data@.len() == old(self).data@.len() + added,
                old(self).data@.len() + rows <= usize::MAX,
                rows == self.row_headers@.len(),
                forall|k: int| 0 <= k < old(self).data@.len() ==> self.data@[k] == old(self).data@[k],
                forall|k: int|
                    old(self).data@.len() <= k < self.data@.len() ==> self.data@[k] == default,
            decreases rows - added,
        {
            self.data.push(default);
            added += 1;
        }
        proof {
            let oc = old(self).cols_n();
            let rn = old(self).rows_n();
            assert(self.data@.len() == oc * rn + rn);
            assert((oc + 1) * rn == oc * rn + rn) by (nonlinear_arith);
            assert forall|c: int, r: int| 0 <= c < oc && 0 <= r < rn implies self.cell_at(c, r)
                == old(self).cell_at(c, r) by {
                assert(0 <= c * rn + r < oc * rn) by (nonlinear_arith)
                    requires
                        0 <= c < oc,
                        0 <= r < rn,
                ;
            }
        }
    }

    /// Stores `value` in the cell at column `col`, row `row`.
    pub fn set_cell(&mut self, col: usize, row: usize, value: T)
        requires
            old(self).wf(),
            col < old(self).cols_n(),
            row < old(self).rows_n(),
        ensures
            final(self).wf(),
            final(self).rows_n() == old(self).rows_n(),
            final(self).cols_n() == old(self).cols_n(),
            final(self).spec_col_headers() == old(self).spec_col_headers(),
            final(self).spec_row_headers() == old(self).spec_row_headers(),
            final(self).cell_at(col as int, row as int) == value,
            forall|c: int, r: int|
                0 <= c < old(self).cols_n() && 0 <= r < old(self).rows_n() && !(c == col && r
                    == row) ==> final(self).cell_at(c, r) == old(self).cell_at(c, r),
    {
        let rows = self.row_headers.len();
        let dn = self.data.len();
        proof {
            assert(0 <= col * rows + row < self.cols_n() * rows) by (nonlinear_arith)
                requires
                    0 <= (col as int) < self.cols_n(),
                    0 <= (row as int) < (rows as int),
                    self.rows_n() == rows,
            ;
            assert(self.cols_n() * rows == dn);
        }
        let idx = col * rows + row;
        self.data.set(idx, value);
        proof {
            assert forall|c: int, r: int|
                0 <= c < old(self).cols_n() && 0 <= r < old(self).rows_n() && !(c == col && r
                    == row) implies final(self).cell_at(c, r) == old(self).cell_at(c, r) by {
                assert(0 <= c * self.rows_n() + r < self.cols_n() * self.rows_n())
                    by (nonlinear_arith)
                    requires
                        0 <= c < self.cols_n(),
                        0 <= r < self.rows_n(),
                ;
                assert(c * self.rows_n() + r != col * self.rows_n() + row) by (nonlinear_arith)
                    requires
                        0 <= c < self.cols_n(),
                        0 <= r < self.rows_n(),
                        0 <= (col as int) < self.cols_n(),
                        0 <= (row as int) < self.rows_n(),
                        !(c == col && r == row),
                ;
            }
        }
    }

    /// The cell at column `col`, row `row`.
    pub fn cell(&self, col: usize, row: usize) -> (v: &T)
        requires
            self.wf(),
            col < self.cols_n(),
            row < self.rows_n(),
        ensures
            *v == self.cell_at(col as int, row as int),
    {
        let rows = self.row_headers.len();
        let dn = self.data.len();
        proof {
            assert(0 <= col * rows + row < self.cols_n() * rows) by (nonlinear_arith)
                requires
                    0 <= (col as int) < self.cols_n(),
                    0 <= (row as int) < (rows as int),
                    self.rows_n() == rows,
            ;
            assert(self.cols_n() * rows == dn);
        }
        &self.data[col * rows + row]
    }

    /// The column headers.
    pub fn col_headers(&self) -> (r: &Vec<C>)
        ensures
            r@ == self.spec_col_headers(),
    {
        &self.col_headers
    }

    /// The row headers.
    pub fn row_headers(&self) -> (r: &Vec<R>)
        ensures
            r@ == self.spec_row_headers(),
    {
        &self.row_headers
    }

    /// The cells in row-major order: one inner vector per row.
    pub fn rows(&self) -> (r: Vec<Vec<T>>) where T: Copy
        requires
            self.wf(),
        ensures
            r@.len() == self.rows_n(),
            forall|i: int| 0 <= i < r@.len() ==> (#[trigger] r@[i])@.len() == self.cols_n(),
            forall|i: int, j: int|
                0 <= i < r@.len() && 0 <= j < self.cols_n() ==> (#[trigger] r@[i]@[j]) == self.cell_at(
                    j,
                    i,
                ),
    {
        let rows = self.row_headers.len();
        let cols = self.col_headers.len();
        let mut r: Vec<Vec<T>> = Vec::new();
        while r.len() < rows
            invariant
                self.wf(),
                rows == self.rows_n(),
                cols == self.cols_n(),
                r@.len() <= rows,
                forall|i: int| 0 <= i < r@.len() ==> (#[trigger] r@[i])@.len() == cols,
                forall|i: int, j: int|
                    0 <= i < r@.len() && 0 <= j < cols ==> (#[trigger] r@[i]@[j]) == self.cell_at(
                        j,
                        i,
                    ),
            decreases rows - r@.len(),
        {
            let i = r.len();
            let mut row: Vec<T> = Vec::new();
            while row.len() < cols
                invariant
                    self.wf(),
                    rows == self.rows_n(),
                    cols == self.cols_n(),
                    i < rows,
                    row@.len() <= cols,
                    forall|j: int| 0 <= j < row@.len() ==> row@[j] == self.cell_at(j, i as int),
                decreases cols - row@.len(),
            {
                let j = row.len();
                proof {
                    assert(0 <= (j as int) * rows + i < cols * rows) by (nonlinear_arith)
                        requires
                            0 <= (j as int) < cols,
                            0 <= (i as int) < rows,
                    ;
                }
                row.push(*self.cell(j, i));
            }
            r.push(row);
        }
        r
    }
}

} // verus!
