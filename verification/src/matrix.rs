use vstd::prelude::*;
use std::ops::Index;

verus! {

/// A matrix as a mathematical value: a shape, and the cells in row-major order.
pub struct Grid<T> {
    pub rows: nat,
    pub cols: nat,
    pub cells: Seq<T>,
}

impl<T> Grid<T> {
    /// There is exactly one cell for each position.
    pub open spec fn wf(self) -> bool {
        self.cells.len() == self.rows * self.cols
    }

    /// Position `(i, j)` lies inside the shape.
    pub open spec fn has(self, i: int, j: int) -> bool {
        0 <= i < self.rows && 0 <= j < self.cols
    }

    /// The place of position `(i, j)` in the row-major buffer.
    pub open spec fn offset(self, i: int, j: int) -> int {
        i * self.cols + j
    }

    /// The cell at position `(i, j)`.
    pub open spec fn at(self, i: int, j: int) -> T {
        self.cells[self.offset(i, j)]
    }

    /// Row `i`: `cols` consecutive cells.
    pub open spec fn row(self, i: int) -> Seq<T> {
        self.cells.subrange(self.offset(i, 0), self.offset(i + 1, 0))
    }

    /// Column `j`: one cell out of each row.
    pub open spec fn col(self, j: int) -> Seq<T> {
        Seq::new(self.rows, |i: int| self.at(i, j))
    }

    /// This grid with the cell at position `(i, j)` replaced by `value`.
    pub open spec fn with_cell(self, i: int, j: int, value: T) -> Grid<T> {
        Grid { cells: self.cells.update(self.offset(i, j), value), ..self }
    }

    /// This grid with row `i` replaced by `row`.
    pub open spec fn with_row(self, i: int, row: Seq<T>) -> Grid<T> {
        Grid {
            cells: self.cells.subrange(0, self.offset(i, 0)) + row + self.cells.subrange(
                self.offset(i + 1, 0),
                self.cells.len() as int,
            ),
            ..self
        }
    }

    /// The grid of the given shape whose cells all hold `value`.
    pub open spec fn filled(rows: nat, cols: nat, value: T) -> Grid<T> {
        Grid { rows, cols, cells: Seq::new(rows * cols, |k: int| value) }
    }
}

/// A dense matrix that owns its cells in one contiguous row-major buffer.
///
/// Its view is a [`Grid`]. A matrix is well-formed when its view is: the
/// buffer then holds `rows * cols` cells. The constructors return well-formed
/// matrices. The shape never changes, and the buffer is handed out for
/// writing as a slice only, which cannot grow or shrink it.
pub struct Matrix<T> {
    cols: usize,
    rows: usize,
    data: Vec<T>,
}

impl<T> View for Matrix<T> {
    type V = Grid<T>;

    closed spec fn view(&self) -> Grid<T> {
        Grid { rows: self.rows as nat, cols: self.cols as nat, cells: self.data@ }
    }
}

impl<T: Copy> Matrix<T> {
    /// A matrix of the given shape with every cell set to `zero`.
    pub fn new(nrows: usize, ncols: usize, zero: T) -> (mat: Self)
        requires
            nrows * ncols <= usize::MAX,
        ensures
            mat@ == Grid::filled(nrows as nat, ncols as nat, zero),
    {
        let len = ncols * nrows;
        let mut data_vec: Vec<T> = Vec::new();
        while data_vec.len() < len
            invariant
                data_vec@.len() <= len,
                forall|k: int| 0 <= k < data_vec@.len() ==> data_vec@[k] == zero,
            decreases len - data_vec@.len(),
        {
            data_vec.push(zero);
        }
        let mat = Matrix { data: data_vec, cols: ncols, rows: nrows };
        assert(mat@.cells =~= Grid::filled(nrows as nat, ncols as nat, zero).cells);
        mat
    }

    /// A matrix of the given shape whose cells are drawn one at a time, row
    /// after row, each by a call `draw(min_val, max_val)` of its own.
    ///
    /// Nothing is asked of the bounds here: whether they make a range that can
    /// be drawn from is for `draw` to say, and it is asked only if there is a
    /// cell to draw.
    pub fn new_rand_matrix<F: Fn(T, T) -> T>(
        nrows: usize,
        ncols: usize,
        min_val: T,
        max_val: T,
        draw: &F,
    ) -> (mat: Self)
        requires
            nrows * ncols <= usize::MAX,
            nrows * ncols > 0 ==> call_requires(*draw, (min_val, max_val)),
        ensures
            mat@.rows == nrows,
            mat@.cols == ncols,
            mat@.wf(),
            forall|k: int|
                0 <= k < mat@.cells.len() ==> call_ensures(
                    *draw,
                    (min_val, max_val),
                    #[trigger] mat@.cells[k],
                ),
    {
        let mut data_vec: Vec<T> = Vec::new();
        for i in 0..nrows
            invariant
                nrows * ncols <= usize::MAX,
                nrows * ncols > 0 ==> call_requires(*draw, (min_val, max_val)),
                data_vec@.len() == i * ncols,
                forall|k: int|
                    0 <= k < data_vec@.len() ==> call_ensures(
                        *draw,
                        (min_val, max_val),
                        #[trigger] data_vec@[k],
                    ),
        {
            for j in 0..ncols
                invariant
                    i < nrows,
                    nrows * ncols <= usize::MAX,
                    nrows * ncols > 0 ==> call_requires(*draw, (min_val, max_val)),
                    data_vec@.len() == i * ncols + j,
                    forall|k: int|
                        0 <= k < data_vec@.len() ==> call_ensures(
                            *draw,
                            (min_val, max_val),
                            #[trigger] data_vec@[k],
                        ),
            {
                proof {
                    lemma_offset_in_range(nrows as nat, ncols as nat, i as int, j as int);
                }
                data_vec.push(draw(min_val, max_val));
            }
            proof {
                lemma_row_in_range(nrows as nat, ncols as nat, i as int);
            }
        }
        Matrix { data: data_vec, cols: ncols, rows: nrows }
    }
}

impl<T> Matrix<T> {
    /// The row count and the column count.
    pub fn shape(&self) -> (shape: (usize, usize))
        ensures
            shape.0 == self@.rows,
            shape.1 == self@.cols,
    {
        (self.rows, self.cols)
    }

    /// The whole buffer, row after row.
    pub fn data(&self) -> (buf: &[T])
        ensures
            buf@ == self@.cells,
    {
        self.data.as_slice()
    }

    /// The whole buffer, row after row, for writing. The shape stays; the
    /// cells become whatever the caller leaves in the buffer.
    pub fn mut_data(&mut self) -> (buf: &mut [T])
        ensures
            buf@ == old(self)@.cells,
            final(self)@ == (Grid { cells: final(buf)@, ..old(self)@ }),
    {
        self.data.as_mut_slice()
    }

    /// Row `index` for writing: a window of `cols` cells onto the buffer.
    /// The other rows stay as they are.
    pub fn index_mut(&mut self, index: usize) -> (row: &mut [T])
        requires
            old(self)@.wf(),
            index < old(self)@.rows,
        ensures
            row@ == old(self)@.row(index as int),
            final(self)@ == old(self)@.with_row(index as int, final(row)@),
    {
        proof {
            lemma_row_in_range(self@.rows, self@.cols, index as int);
            assert(self.data.len() == self@.cells.len());
        }
        let lo = index * self.cols;
        let width = self.cols;
        let (above, tail) = self.data.as_mut_slice().split_at_mut(lo);
        let ghost above_end = final(above)@;
        let ghost tail_end = final(tail)@;
        let (row, below) = tail.split_at_mut(width);
        proof {
            let cells = old(self)@.cells;
            assert(above_end + tail_end =~= cells.subrange(0, lo as int) + final(row)@
                + cells.subrange(lo + width, cells.len() as int));
        }
        row
    }

    /// The owned buffer itself, for the code of this crate that goes around
    /// the slices of `data` and `mut_data`.
    pub(crate) fn raw(&self) -> (buf: &Vec<T>)
        ensures
            buf@ == self@.cells,
    {
        &self.data
    }

    /// The owned buffer itself, for writing.
    pub(crate) fn raw_mut(&mut self) -> (buf: &mut Vec<T>)
        ensures
            buf@ == old(self)@.cells,
            final(self)@ == (Grid { cells: final(buf)@, ..old(self)@ }),
    {
        &mut self.data
    }
}

impl<T> Index<usize> for Matrix<T> {
    type Output = [T];

    /// Row `index` for reading: a window of `cols` cells onto the buffer.
    fn index(&self, index: usize) -> (row: &[T])
        ensures
            row@ == self@.row(index as int),
    {
        proof {
            lemma_row_in_range(self@.rows, self@.cols, index as int);
            assert(self.data.len() == self@.cells.len());
        }
        let lo = index * self.cols;
        let hi = lo + self.cols;
        &self.data[lo..hi]
    }
}

impl<T> vstd::std_specs::core::IndexSpecImpl<usize> for Matrix<T> {
    /// A row can be had of a well-formed matrix for an index below its row
    /// count.
    open spec fn index_req(&self, index: &usize) -> bool {
        self@.wf() && *index < self@.rows
    }
}

/// Every row of a shape has its own window of `cols` places inside the buffer.
pub proof fn lemma_row_in_range(rows: nat, cols: nat, i: int)
    requires
        0 <= i < rows,
    ensures
        0 <= i * cols,
        (i + 1) * cols == i * cols + cols,
        (i + 1) * cols <= rows * cols,
{
    assert(0 <= i * cols) by (nonlinear_arith)
        requires
            0 <= i,
            0 <= cols,
    ;
    assert((i + 1) * cols == i * cols + cols) by (nonlinear_arith);
    assert((i + 1) * cols <= rows * cols) by (nonlinear_arith)
        requires
            i + 1 <= rows,
            0 <= cols,
    ;
}

/// Every position of a shape has its own place inside the buffer.
pub proof fn lemma_offset_in_range(rows: nat, cols: nat, i: int, j: int)
    requires
        0 <= i < rows,
        0 <= j < cols,
    ensures
        0 <= i * cols <= i * cols + j,
        i * cols + j < (i + 1) * cols,
        i * cols + j < rows * cols,
{
    lemma_row_in_range(rows, cols, i);
}

/// Two positions that share a place in the buffer are the same position.
pub proof fn lemma_offset_injective(cols: nat, i1: int, j1: int, i2: int, j2: int)
    requires
        0 <= j1 < cols,
        0 <= j2 < cols,
        i1 * cols + j1 == i2 * cols + j2,
    ensures
        i1 == i2,
        j1 == j2,
{
    assert(i1 == i2) by (nonlinear_arith)
        requires
            0 <= j1 < cols,
            0 <= j2 < cols,
            i1 * cols + j1 == i2 * cols + j2,
    ;
}

/// Every place of the buffer belongs to one position of the shape: the one
/// in row `p / cols` and column `p % cols`.
pub proof fn lemma_place_position(rows: nat, cols: nat, p: int)
    requires
        0 <= p < rows * cols,
    ensures
        cols > 0,
        0 <= p / (cols as int) < rows,
        0 <= p % (cols as int) < cols,
        (p / (cols as int)) * cols + p % (cols as int) == p,
{
    assert(cols > 0) by (nonlinear_arith)
        requires
            0 <= p < rows * cols,
    ;
    let d = cols as int;
    assert(0 <= p % d < d && (p / d) * d + p % d == p) by (nonlinear_arith)
        requires
            d > 0,
    ;
    assert(0 <= p / d < rows) by (nonlinear_arith)
        requires
            d > 0,
            0 <= p < rows * d,
            0 <= p % d < d,
            (p / d) * d + p % d == p,
    ;
}

/// A filled grid has one cell for each position, and each holds the value.
pub proof fn lemma_filled<T>(rows: nat, cols: nat, value: T, i: int, j: int)
    requires
        0 <= i < rows,
        0 <= j < cols,
    ensures
        Grid::filled(rows, cols, value).wf(),
        Grid::filled(rows, cols, value).at(i, j) == value,
        Grid::filled(rows, cols, value).row(i)[j] == value,
        Grid::filled(rows, cols, value).cells[i * cols + j] == value,
{
    lemma_row_in_range(rows, cols, i);
}

/// Row-major addressing: cell `j` of row `i` is the cell at place
/// `i * cols + j` of the buffer, and each row holds `cols` cells.
pub proof fn lemma_row_major<T>(g: Grid<T>, i: int, j: int)
    requires
        g.wf(),
        g.has(i, j),
    ensures
        0 <= g.offset(i, j) < g.cells.len(),
        g.row(i).len() == g.cols,
        g.row(i)[j] == g.cells[i * g.cols + j],
        g.row(i)[j] == g.at(i, j),
        g.col(j)[i] == g.at(i, j),
{
    lemma_row_in_range(g.rows, g.cols, i);
}

/// Writing cell `j` of row `i` through the row writes the cell at place
/// `i * cols + j` of the buffer and no other.
pub proof fn lemma_row_write<T>(g: Grid<T>, i: int, j: int, value: T)
    requires
        g.wf(),
        g.has(i, j),
    ensures
        g.with_row(i, g.row(i).update(j, value)) == g.with_cell(i, j, value),
        g.with_cell(i, j, value).wf(),
        g.with_cell(i, j, value).at(i, j) == value,
        g.with_cell(i, j, value).row(i)[j] == value,
        g.with_cell(i, j, value).cells[i * g.cols + j] == value,
{
    lemma_row_in_range(g.rows, g.cols, i);
    assert(g.with_row(i, g.row(i).update(j, value)).cells =~= g.with_cell(i, j, value).cells);
}

} // verus!
