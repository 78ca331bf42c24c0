use vstd::prelude::*;
use crate::matrix::lemma_filled;
use crate::matrix::lemma_offset_in_range;
use crate::matrix::lemma_offset_injective;
use crate::matrix::lemma_place_position;
use crate::matrix::lemma_row_in_range;
use crate::matrix::lemma_row_major;
use crate::matrix::lemma_row_write;
use crate::matrix::Grid;
use crate::matrix::Matrix;

verus! {

/// What `plus` may return, as a relation: `r` is a possible result of
/// `plus(x, y)`.
pub open spec fn outcomes<T, F: Fn(T, T) -> T>(plus: F) -> spec_fn(T, T, T) -> bool {
    |x: T, y: T, r: T| call_ensures(plus, (x, y), r)
}

/// `out` is a possible outcome of this accumulation over the first `n` pairs:
/// begin with `start`, and for each pair in turn replace the running value
/// `acc` by a sum of `acc` and a sum of the pair, where `sum(x, y, r)` says
/// that `r` is a sum of `x` and `y`.
///
/// The recursion runs over a relation and not over a function value, so that
/// it unfolds the same way for every function that a caller may hold.
pub open spec fn folds_to<T>(
    sum: spec_fn(T, T, T) -> bool,
    start: T,
    xs: Seq<T>,
    ys: Seq<T>,
    n: nat,
    out: T,
) -> bool
    decreases n,
{
    if n == 0 {
        out == start
    } else {
        exists|acc: T, term: T|
            folds_to(sum, start, xs, ys, (n - 1) as nat, acc) && sum(xs[n - 1], ys[n - 1], term)
                && #[trigger] sum(acc, term, out)
    }
}

/// `out` is a possible outcome of this accumulation over the first `n` pairs:
/// begin with `start`, and for each pair in turn replace the running value
/// `acc` by `plus(acc, plus(xs[k], ys[k]))`.
///
/// Mind that the two members of a pair are combined with the same `plus`
/// that accumulates. The matrix product of linear algebra multiplies them, so
/// what is computed here is not that product, whatever the names say: a cell
/// ends as a sum of sums. The strategies exist to be compared with each other
/// on equal work, and this is the work that all of them do.
///
/// `plus` is described by what it may return and by nothing more, so the
/// definition holds for functions that can answer one question in two ways.
pub open spec fn sums_to<T, F: Fn(T, T) -> T>(
    plus: F,
    start: T,
    xs: Seq<T>,
    ys: Seq<T>,
    n: nat,
    out: T,
) -> bool {
    folds_to(outcomes(plus), start, xs, ys, n, out)
}

/// `c` is a possible outcome of accumulating the combination of `a` and `b`
/// onto `start`: `c` has as many rows as `a` and as many columns as `b`, and
/// each of its cells is an outcome of [`sums_to`] over the matching row of `a`
/// and column of `b`, begun with the matching cell of `start`.
pub open spec fn accumulated<T, F: Fn(T, T) -> T>(
    plus: F,
    start: Grid<T>,
    a: Grid<T>,
    b: Grid<T>,
    c: Grid<T>,
) -> bool {
    &&& c.rows == a.rows
    &&& c.cols == b.cols
    &&& c.wf()
    &&& forall|i: int, j: int|
        c.has(i, j) ==> sums_to(
            plus,
            start.at(i, j),
            a.row(i),
            b.col(j),
            a.cols,
            #[trigger] c.at(i, j),
        )
}

/// `c` is a possible outcome of combining `a` and `b`: the accumulation begun
/// with `zero` in every cell.
pub open spec fn is_product<T, F: Fn(T, T) -> T>(
    plus: F,
    zero: T,
    a: Grid<T>,
    b: Grid<T>,
    c: Grid<T>,
) -> bool {
    accumulated(plus, Grid::filled(a.rows, b.cols, zero), a, b, c)
}

/// The shapes that a combination needs: the inner dimensions agree, and the
/// output has the rows of the left operand and the columns of the right one.
pub open spec fn conformable<T>(a: Grid<T>, b: Grid<T>, c: Grid<T>) -> bool {
    &&& a.wf()
    &&& b.wf()
    &&& c.wf()
    &&& a.cols == b.rows
    &&& c.rows == a.rows
    &&& c.cols == b.cols
}

/// Adds onto `res_mat`, cell by cell, the combination of `mat1` and `mat2`,
/// reading and writing the three flat buffers at offsets computed here.
///
/// The sweep runs over the output rows, then over the output columns, then
/// over the shared dimension, and accumulates into the output cell itself.
/// It allocates nothing, so a caller can time it alone.
pub fn accumulate_flat<T: Copy, F: Fn(T, T) -> T>(
    mat1: &Matrix<T>,
    mat2: &Matrix<T>,
    res_mat: &mut Matrix<T>,
    plus: &F,
)
    requires
        conformable(mat1@, mat2@, old(res_mat)@),
        forall|x: T, y: T| call_requires(*plus, (x, y)),
    ensures
        accumulated(*plus, old(res_mat)@, mat1@, mat2@, final(res_mat)@),
{
    let (nrows1, ncols1) = mat1.shape();
    let (nrows2, ncols2) = mat2.shape();
    let ghost a = mat1@;
    let ghost b = mat2@;
    let ghost start = res_mat@;
    let mat1_buf = mat1.data();
    let mat2_buf = mat2.data();
    let res_buf = res_mat.mut_data();
    for i in 0..nrows1
        invariant
            framed(a, b, start, nrows1, ncols1, nrows2, ncols2),
            mat1_buf@ == a.cells,
            mat2_buf@ == b.cells,
            res_buf@.len() == start.cells.len(),
            forall|x: T, y: T| call_requires(*plus, (x, y)),
            swept(*plus, start, a, b, Grid { cells: res_buf@, ..start }, i as int, 0, 0),
    {
        for j in 0..ncols2
            invariant
                framed(a, b, start, nrows1, ncols1, nrows2, ncols2),
                i < nrows1,
                mat1_buf@ == a.cells,
                mat2_buf@ == b.cells,
                res_buf@.len() == start.cells.len(),
                forall|x: T, y: T| call_requires(*plus, (x, y)),
                swept(*plus, start, a, b, Grid { cells: res_buf@, ..start }, i as int, j as int, 0),
        {
            for k in 0..nrows2
                invariant
                    framed(a, b, start, nrows1, ncols1, nrows2, ncols2),
                    i < nrows1,
                    j < ncols2,
                    mat1_buf@ == a.cells,
                    mat2_buf@ == b.cells,
                    res_buf@.len() == start.cells.len(),
                    forall|x: T, y: T| call_requires(*plus, (x, y)),
                    swept(
                        *plus,
                        start,
                        a,
                        b,
                        Grid { cells: res_buf@, ..start },
                        i as int,
                        j as int,
                        k as nat,
                    ),
            {
                let ghost cur = Grid { cells: res_buf@, ..start };
                proof {
                    lemma_offset_in_range(a.rows, a.cols, i as int, k as int);
                    lemma_offset_in_range(b.rows, b.cols, k as int, j as int);
                    lemma_offset_in_range(start.rows, start.cols, i as int, j as int);
                    assert(mat1_buf.len() == a.cells.len());
                    assert(mat2_buf.len() == b.cells.len());
                    assert(res_buf.len() == start.cells.len());
                }
                let term = plus(mat1_buf[i * ncols1 + k], mat2_buf[k * ncols2 + j]);
                let sum = plus(res_buf[i * ncols2 + j], term);
                res_buf[i * ncols2 + j] = sum;
                proof {
                    lemma_sweep_step(*plus, start, a, b, cur, i as int, j as int, k as nat, term, sum);
                }
            }
        }
    }
}

/// Adds onto `res_mat`, cell by cell, the combination of `mat1` and `mat2`,
/// reaching every cell through its row: first the row of the matrix, then the
/// cell of the row.
///
/// The sweep is that of [`accumulate_flat`].
pub fn accumulate_rows<T: Copy, F: Fn(T, T) -> T>(
    mat1: &Matrix<T>,
    mat2: &Matrix<T>,
    res_mat: &mut Matrix<T>,
    plus: &F,
)
    requires
        conformable(mat1@, mat2@, old(res_mat)@),
        forall|x: T, y: T| call_requires(*plus, (x, y)),
    ensures
        accumulated(*plus, old(res_mat)@, mat1@, mat2@, final(res_mat)@),
{
    let (nrows1, ncols1) = mat1.shape();
    let (nrows2, ncols2) = mat2.shape();
    let ghost a = mat1@;
    let ghost b = mat2@;
    let ghost start = res_mat@;
    for i in 0..nrows1
        invariant
            framed(a, b, res_mat@, nrows1, ncols1, nrows2, ncols2),
            a == mat1@,
            b == mat2@,
            forall|x: T, y: T| call_requires(*plus, (x, y)),
            swept(*plus, start, a, b, res_mat@, i as int, 0, 0),
    {
        for j in 0..ncols2
            invariant
                framed(a, b, res_mat@, nrows1, ncols1, nrows2, ncols2),
                i < nrows1,
                a == mat1@,
                b == mat2@,
                forall|x: T, y: T| call_requires(*plus, (x, y)),
                swept(*plus, start, a, b, res_mat@, i as int, j as int, 0),
        {
            for k in 0..nrows2
                invariant
                    framed(a, b, res_mat@, nrows1, ncols1, nrows2, ncols2),
                    i < nrows1,
                    j < ncols2,
                    a == mat1@,
                    b == mat2@,
                    forall|x: T, y: T| call_requires(*plus, (x, y)),
                    swept(*plus, start, a, b, res_mat@, i as int, j as int, k as nat),
            {
                let ghost cur = res_mat@;
                proof {
                    lemma_row_major(a, i as int, k as int);
                    lemma_row_major(b, k as int, j as int);
                    lemma_row_major(cur, i as int, j as int);
                }
                let term = plus(mat1[i][k], mat2[k][j]);
                let sum = plus(res_mat[i][j], term);
                let row = res_mat.index_mut(i);
                row[j] = sum;
                proof {
                    lemma_row_write(cur, i as int, j as int, sum);
                    lemma_sweep_step(*plus, start, a, b, cur, i as int, j as int, k as nat, term, sum);
                }
            }
        }
    }
}

/// Adds onto `res_mat`, cell by cell, the combination of `mat1` and `mat2`,
/// on the owned buffers themselves and at offsets computed here. No access
/// is left to a check at run time: each offset is proved to lie inside its
/// buffer from the shapes alone. The operands are only read.
///
/// The sweep is that of [`accumulate_flat`].
pub fn accumulate_raw<T: Copy, F: Fn(T, T) -> T>(
    mat1: &Matrix<T>,
    mat2: &Matrix<T>,
    res_mat: &mut Matrix<T>,
    plus: &F,
)
    requires
        conformable(mat1@, mat2@, old(res_mat)@),
        forall|x: T, y: T| call_requires(*plus, (x, y)),
    ensures
        accumulated(*plus, old(res_mat)@, mat1@, mat2@, final(res_mat)@),
{
    let (nrows1, ncols1) = mat1.shape();
    let (nrows2, ncols2) = mat2.shape();
    let ghost a = mat1@;
    let ghost b = mat2@;
    let ghost start = res_mat@;
    let mat1_raw = mat1.raw();
    let mat2_raw = mat2.raw();
    let res_raw = res_mat.raw_mut();
    for i in 0..nrows1
        invariant
            framed(a, b, start, nrows1, ncols1, nrows2, ncols2),
            mat1_raw@ == a.cells,
            mat2_raw@ == b.cells,
            res_raw@.len() == start.cells.len(),
            forall|x: T, y: T| call_requires(*plus, (x, y)),
            swept(*plus, start, a, b, Grid { cells: res_raw@, ..start }, i as int, 0, 0),
    {
        for j in 0..ncols2
            invariant
                framed(a, b, start, nrows1, ncols1, nrows2, ncols2),
                i < nrows1,
                mat1_raw@ == a.cells,
                mat2_raw@ == b.cells,
                res_raw@.len() == start.cells.len(),
                forall|x: T, y: T| call_requires(*plus, (x, y)),
                swept(*plus, start, a, b, Grid { cells: res_raw@, ..start }, i as int, j as int, 0),
        {
            for k in 0..nrows2
                invariant
                    framed(a, b, start, nrows1, ncols1, nrows2, ncols2),
                    i < nrows1,
                    j < ncols2,
                    mat1_raw@ == a.cells,
                    mat2_raw@ == b.cells,
                    res_raw@.len() == start.cells.len(),
                    forall|x: T, y: T| call_requires(*plus, (x, y)),
                    swept(
                        *plus,
                        start,
                        a,
                        b,
                        Grid { cells: res_raw@, ..start },
                        i as int,
                        j as int,
                        k as nat,
                    ),
            {
                let ghost cur = Grid { cells: res_raw@, ..start };
                proof {
                    lemma_offset_in_range(a.rows, a.cols, i as int, k as int);
                    lemma_offset_in_range(b.rows, b.cols, k as int, j as int);
                    lemma_offset_in_range(start.rows, start.cols, i as int, j as int);
                    assert(mat1_raw.len() == a.cells.len());
                    assert(mat2_raw.len() == b.cells.len());
                    assert(res_raw.len() == start.cells.len());
                }
                let term = plus(mat1_raw[i * ncols1 + k], mat2_raw[k * ncols2 + j]);
                let sum = plus(res_raw[i * ncols2 + j], term);
                res_raw[i * ncols2 + j] = sum;
                proof {
                    lemma_sweep_step(*plus, start, a, b, cur, i as int, j as int, k as nat, term, sum);
                }
            }
        }
    }
}

/// The combination of `mat1` and `mat2`, by [`accumulate_flat`] onto a fresh
/// matrix of `zero` cells.
///
/// The columns of `mat1` must be the rows of `mat2`: a caller that does not
/// know the shapes compares them before the call.
pub fn matmul1<T: Copy, F: Fn(T, T) -> T>(
    mat1: &Matrix<T>,
    mat2: &Matrix<T>,
    zero: T,
    plus: &F,
) -> (res_mat: Matrix<T>)
    requires
        mat1@.wf(),
        mat2@.wf(),
        mat1@.cols == mat2@.rows,
        mat1@.rows * mat2@.cols <= usize::MAX,
        forall|x: T, y: T| call_requires(*plus, (x, y)),
    ensures
        res_mat@.rows == mat1@.rows,
        res_mat@.cols == mat2@.cols,
        is_product(*plus, zero, mat1@, mat2@, res_mat@),
{
    let (nrows1, _) = mat1.shape();
    let (_, ncols2) = mat2.shape();
    let mut res_mat = Matrix::new(nrows1, ncols2, zero);
    accumulate_flat(mat1, mat2, &mut res_mat, plus);
    res_mat
}

/// The combination of `mat1` and `mat2`, by [`accumulate_rows`] onto a fresh
/// matrix of `zero` cells.
///
/// The columns of `mat1` must be the rows of `mat2`: a caller that does not
/// know the shapes compares them before the call.
pub fn matmul2<T: Copy, F: Fn(T, T) -> T>(
    mat1: &Matrix<T>,
    mat2: &Matrix<T>,
    zero: T,
    plus: &F,
) -> (res_mat: Matrix<T>)
    requires
        mat1@.wf(),
        mat2@.wf(),
        mat1@.cols == mat2@.rows,
        mat1@.rows * mat2@.cols <= usize::MAX,
        forall|x: T, y: T| call_requires(*plus, (x, y)),
    ensures
        res_mat@.rows == mat1@.rows,
        res_mat@.cols == mat2@.cols,
        is_product(*plus, zero, mat1@, mat2@, res_mat@),
{
    let (nrows1, _) = mat1.shape();
    let (_, ncols2) = mat2.shape();
    let mut res_mat = Matrix::new(nrows1, ncols2, zero);
    accumulate_rows(mat1, mat2, &mut res_mat, plus);
    res_mat
}

/// The combination of `mat1` and `mat2`, by [`accumulate_raw`] onto a fresh
/// matrix of `zero` cells.
///
/// The columns of `mat1` must be the rows of `mat2`: a caller that does not
/// know the shapes compares them before the call.
pub fn matmul3<T: Copy, F: Fn(T, T) -> T>(
    mat1: &Matrix<T>,
    mat2: &Matrix<T>,
    zero: T,
    plus: &F,
) -> (res_mat: Matrix<T>)
    requires
        mat1@.wf(),
        mat2@.wf(),
        mat1@.cols == mat2@.rows,
        mat1@.rows * mat2@.cols <= usize::MAX,
        forall|x: T, y: T| call_requires(*plus, (x, y)),
    ensures
        res_mat@.rows == mat1@.rows,
        res_mat@.cols == mat2@.cols,
        is_product(*plus, zero, mat1@, mat2@, res_mat@),
{
    let (nrows1, _) = mat1.shape();
    let (_, ncols2) = mat2.shape();
    let mut res_mat = Matrix::new(nrows1, ncols2, zero);
    accumulate_raw(mat1, mat2, &mut res_mat, plus);
    res_mat
}

/// `plus` answers each question in one way only.
pub open spec fn single_valued<T, F: Fn(T, T) -> T>(plus: F) -> bool {
    forall|x: T, y: T, r1: T, r2: T|
        #[trigger] call_ensures(plus, (x, y), r1) && #[trigger] call_ensures(plus, (x, y), r2)
            ==> r1 == r2
}

/// Where `plus` answers each question in one way only, an accumulation has
/// one outcome only.
pub proof fn lemma_sums_to_unique<T, F: Fn(T, T) -> T>(
    plus: F,
    start: T,
    xs: Seq<T>,
    ys: Seq<T>,
    n: nat,
    out1: T,
    out2: T,
)
    requires
        single_valued(plus),
        sums_to(plus, start, xs, ys, n, out1),
        sums_to(plus, start, xs, ys, n, out2),
    ensures
        out1 == out2,
    decreases n,
{
    let sum = outcomes(plus);
    if n > 0 {
        let m = (n - 1) as nat;
        let (acc1, term1) = choose|acc: T, term: T|
            folds_to(sum, start, xs, ys, m, acc) && sum(xs[n - 1], ys[n - 1], term)
                && #[trigger] sum(acc, term, out1);
        let (acc2, term2) = choose|acc: T, term: T|
            folds_to(sum, start, xs, ys, m, acc) && sum(xs[n - 1], ys[n - 1], term)
                && #[trigger] sum(acc, term, out2);
        lemma_sums_to_unique(plus, start, xs, ys, m, acc1, acc2);
    }
}

/// Where `plus` answers each question in one way only, accumulating onto
/// one `start` from one pair of operands has one outcome only.
pub proof fn lemma_accumulated_unique<T, F: Fn(T, T) -> T>(
    plus: F,
    start: Grid<T>,
    a: Grid<T>,
    b: Grid<T>,
    c1: Grid<T>,
    c2: Grid<T>,
)
    requires
        single_valued(plus),
        accumulated(plus, start, a, b, c1),
        accumulated(plus, start, a, b, c2),
    ensures
        c1 == c2,
{
    assert forall|p: int| 0 <= p < c1.cells.len() implies c1.cells[p] == c2.cells[p] by {
        lemma_place_position(c1.rows, c1.cols, p);
        let i = p / (c1.cols as int);
        let j = p % (c1.cols as int);
        lemma_sums_to_unique(
            plus,
            start.at(i, j),
            a.row(i),
            b.col(j),
            a.cols,
            c1.at(i, j),
            c2.at(i, j),
        );
    }
    assert(c1.cells =~= c2.cells);
}

/// The strategies agree: where `plus` answers each question in one way only,
/// any two outcomes of combining the same operands from the same `zero` are
/// the same grid, cell for cell. All of [`matmul1`], [`matmul2`] and
/// [`matmul3`] return such an outcome.
pub proof fn lemma_product_unique<T, F: Fn(T, T) -> T>(
    plus: F,
    zero: T,
    a: Grid<T>,
    b: Grid<T>,
    c1: Grid<T>,
    c2: Grid<T>,
)
    requires
        single_valued(plus),
        is_product(plus, zero, a, b, c1),
        is_product(plus, zero, a, b, c2),
    ensures
        c1 == c2,
{
    lemma_accumulated_unique(plus, Grid::filled(a.rows, b.cols, zero), a, b, c1, c2);
}

/// An operand without rows gives an outcome without rows: it has the columns
/// of the right operand and no cell at all.
pub proof fn lemma_product_of_no_rows<T, F: Fn(T, T) -> T>(
    plus: F,
    zero: T,
    a: Grid<T>,
    b: Grid<T>,
    c: Grid<T>,
)
    requires
        is_product(plus, zero, a, b, c),
        a.rows == 0,
    ensures
        c.rows == 0,
        c.cols == b.cols,
        c.cells == Seq::<T>::empty(),
{
    assert(c.cells.len() == 0) by (nonlinear_arith)
        requires
            c.cells.len() == c.rows * c.cols,
            c.rows == 0,
    ;
}

/// `plus` is the function `f`: it returns what `f` says and nothing else.
pub open spec fn computes<T, F: Fn(T, T) -> T>(plus: F, f: spec_fn(T, T) -> T) -> bool {
    forall|x: T, y: T, r: T| #[trigger] call_ensures(plus, (x, y), r) ==> r == f(x, y)
}

/// The accumulation over the first `n` pairs as a value, where adding is the
/// function `f`: `f(.. f(f(start, f(xs[0], ys[0])), f(xs[1], ys[1])) ..)`.
pub open spec fn sum_of_sums<T>(
    f: spec_fn(T, T) -> T,
    start: T,
    xs: Seq<T>,
    ys: Seq<T>,
    n: nat,
) -> T
    decreases n,
{
    if n == 0 {
        start
    } else {
        f(sum_of_sums(f, start, xs, ys, (n - 1) as nat), f(xs[n - 1], ys[n - 1]))
    }
}

/// Where `plus` is the function `f`, the one outcome of an accumulation is
/// its value under `f`.
pub proof fn lemma_sums_to_value<T, F: Fn(T, T) -> T>(
    plus: F,
    f: spec_fn(T, T) -> T,
    start: T,
    xs: Seq<T>,
    ys: Seq<T>,
    n: nat,
    out: T,
)
    requires
        computes(plus, f),
        sums_to(plus, start, xs, ys, n, out),
    ensures
        out == sum_of_sums(f, start, xs, ys, n),
    decreases n,
{
    let sum = outcomes(plus);
    if n > 0 {
        let m = (n - 1) as nat;
        let (acc, term) = choose|acc: T, term: T|
            folds_to(sum, start, xs, ys, m, acc) && sum(xs[n - 1], ys[n - 1], term)
                && #[trigger] sum(acc, term, out);
        lemma_sums_to_value(plus, f, start, xs, ys, m, acc);
    }
}

/// Where `plus` is the function `f`, each cell of a combination of `a` and
/// `b` is the value under `f` of the accumulation over its row of `a` and its
/// column of `b`, begun with `zero`.
pub proof fn lemma_product_value<T, F: Fn(T, T) -> T>(
    plus: F,
    f: spec_fn(T, T) -> T,
    zero: T,
    a: Grid<T>,
    b: Grid<T>,
    c: Grid<T>,
    i: int,
    j: int,
)
    requires
        computes(plus, f),
        is_product(plus, zero, a, b, c),
        c.has(i, j),
    ensures
        c.at(i, j) == sum_of_sums(f, zero, a.row(i), b.col(j), a.cols),
{
    lemma_filled(a.rows, b.cols, zero, i, j);
    lemma_sums_to_value(plus, f, zero, a.row(i), b.col(j), a.cols, c.at(i, j));
}

/// The shapes as the strategies hold them in machine integers.
spec fn framed<T>(
    a: Grid<T>,
    b: Grid<T>,
    c: Grid<T>,
    nrows1: usize,
    ncols1: usize,
    nrows2: usize,
    ncols2: usize,
) -> bool {
    &&& conformable(a, b, c)
    &&& nrows1 == a.rows
    &&& ncols1 == a.cols
    &&& nrows2 == b.rows
    &&& ncols2 == b.cols
}

/// The number of pairs that cell `(i2, j2)` has received when a row-major
/// sweep stands at cell `(i, j)` and has added `k` of its `n` pairs there.
spec fn pairs_added(i2: int, j2: int, i: int, j: int, k: nat, n: nat) -> nat {
    if i2 < i || (i2 == i && j2 < j) {
        n
    } else if i2 == i && j2 == j {
        k
    } else {
        0
    }
}

/// The state of a row-major sweep over the output that stands at cell
/// `(i, j)` with `k` pairs added there.
spec fn swept<T, F: Fn(T, T) -> T>(
    plus: F,
    start: Grid<T>,
    a: Grid<T>,
    b: Grid<T>,
    cur: Grid<T>,
    i: int,
    j: int,
    k: nat,
) -> bool {
    forall|i2: int, j2: int|
        cur.has(i2, j2) ==> sums_to(
            plus,
            start.at(i2, j2),
            a.row(i2),
            b.col(j2),
            pairs_added(i2, j2, i, j, k, a.cols),
            #[trigger] cur.at(i2, j2),
        )
}

/// One more pair added at the cell where the sweep stands.
proof fn lemma_sweep_step<T, F: Fn(T, T) -> T>(
    plus: F,
    start: Grid<T>,
    a: Grid<T>,
    b: Grid<T>,
    cur: Grid<T>,
    i: int,
    j: int,
    k: nat,
    term: T,
    sum: T,
)
    requires
        conformable(a, b, cur),
        cur.has(i, j),
        k < a.cols,
        swept(plus, start, a, b, cur, i, j, k),
        call_ensures(plus, (a.at(i, k as int), b.at(k as int, j)), term),
        call_ensures(plus, (cur.at(i, j), term), sum),
    ensures
        swept(plus, start, a, b, cur.with_cell(i, j, sum), i, j, (k + 1) as nat),
{
    let next = cur.with_cell(i, j, sum);
    lemma_offset_in_range(cur.rows, cur.cols, i, j);
    lemma_row_in_range(a.rows, a.cols, i);
    assert forall|i2: int, j2: int| next.has(i2, j2) implies sums_to(
        plus,
        start.at(i2, j2),
        a.row(i2),
        b.col(j2),
        pairs_added(i2, j2, i, j, (k + 1) as nat, a.cols),
        #[trigger] next.at(i2, j2),
    ) by {
        lemma_offset_in_range(cur.rows, cur.cols, i2, j2);
        let before = cur.at(i2, j2);
        if i2 == i && j2 == j {
            let rel = outcomes(plus);
            assert(rel(before, term, sum));
        } else {
            if cur.offset(i2, j2) == cur.offset(i, j) {
                lemma_offset_injective(cur.cols, i2, j2, i, j);
            }
        }
    }
}

} // verus!
