use std::cell::Cell;

use matmul::Matrix;
use rand::Rng;

fn uniform(lo: f64, hi: f64) -> f64 {
    rand::thread_rng().gen_range(lo..hi)
}

fn counted(rows: usize, cols: usize) -> Matrix<f64> {
    let mut mat = Matrix::new(rows, cols, 0.0);
    for i in 0..rows {
        for j in 0..cols {
            mat.index_mut(i)[j] = (i * 100 + j) as f64;
        }
    }
    mat
}

#[test]
fn new_fills_every_cell_with_zero() {
    let mat = Matrix::new(4, 7, 0.0f64);
    assert_eq!(mat.shape(), (4, 7));
    assert_eq!(mat.data().len(), 28);
    assert!(mat.data().iter().all(|x| x.to_bits() == 0.0f64.to_bits()));
}

#[test]
fn new_fills_with_the_value_given() {
    let mat = Matrix::new(2, 2, 7u32);
    assert_eq!(mat.data(), &[7, 7, 7, 7][..]);
}

#[test]
fn new_with_a_zero_dimension_has_an_empty_buffer() {
    let no_rows = Matrix::new(0, 5, 0.0f64);
    assert_eq!(no_rows.shape(), (0, 5));
    assert!(no_rows.data().is_empty());
    let no_cols = Matrix::new(5, 0, 0.0f64);
    assert_eq!(no_cols.shape(), (5, 0));
    assert!(no_cols.data().is_empty());
    let nothing = Matrix::new(0, 0, 0.0f64);
    assert_eq!(nothing.shape(), (0, 0));
    assert!(nothing.data().is_empty());
}

#[test]
fn shape_gives_rows_then_columns() {
    let mat = Matrix::new(3, 5, 0i64);
    assert_eq!(mat.shape(), (3, 5));
}

#[test]
fn cells_written_through_rows_sit_row_major_in_the_buffer() {
    let mat = counted(3, 4);
    let (rows, cols) = mat.shape();
    for i in 0..rows {
        for j in 0..cols {
            let expected = (i * 100 + j) as f64;
            assert_eq!(mat.data()[i * cols + j], expected);
            assert_eq!(mat[i][j], expected);
        }
    }
    assert_eq!(
        mat.data(),
        &[0.0, 1.0, 2.0, 3.0, 100.0, 101.0, 102.0, 103.0, 200.0, 201.0, 202.0, 203.0][..]
    );
}

#[test]
fn a_row_is_a_window_of_cols_cells() {
    let mat = counted(3, 4);
    assert_eq!(&mat[0], &[0.0, 1.0, 2.0, 3.0][..]);
    assert_eq!(&mat[1], &[100.0, 101.0, 102.0, 103.0][..]);
    assert_eq!(&mat[2], &[200.0, 201.0, 202.0, 203.0][..]);
}

#[test]
fn writing_through_a_row_leaves_the_other_cells() {
    let mut mat = Matrix::new(2, 3, 0u8);
    mat.index_mut(1)[0] = 9;
    assert_eq!(mat.data(), &[0, 0, 0, 9, 0, 0][..]);
    mat.index_mut(0)[2] = 4;
    assert_eq!(mat.data(), &[0, 0, 4, 9, 0, 0][..]);
    assert_eq!(mat.shape(), (2, 3));
}

#[test]
fn cells_written_through_the_buffer_show_in_the_rows() {
    let mut mat = Matrix::new(2, 3, 0.0f64);
    mat.mut_data()[4] = 2.5;
    mat.mut_data()[0] = -1.0;
    assert_eq!(mat[1][1], 2.5);
    assert_eq!(mat[0][0], -1.0);
    assert_eq!(mat[0][1], 0.0);
    assert_eq!(mat.shape(), (2, 3));
    assert_eq!(mat.mut_data().len(), 6);
}

#[test]
fn rows_of_a_matrix_without_columns_are_empty() {
    let mut mat = Matrix::new(3, 0, 0.0f64);
    assert!(mat[2].is_empty());
    assert!(mat.index_mut(0).is_empty());
}

#[test]
fn random_cells_lie_in_the_range() {
    for round in 0..50 {
        let lo = -3.0 + round as f64;
        let hi = lo + 0.5 + round as f64;
        let mat = Matrix::new_rand_matrix(6, 9, lo, hi, &uniform);
        assert_eq!(mat.shape(), (6, 9));
        assert_eq!(mat.data().len(), 54);
        assert!(mat.data().iter().all(|x| lo <= *x && *x < hi));
    }
}

#[test]
fn random_cells_in_the_ranges_of_the_benchmark() {
    let left = Matrix::new_rand_matrix(9, 10, 1.0, 5.0, &uniform);
    assert!(left.data().iter().all(|x| 1.0 <= *x && *x < 5.0));
    let right = Matrix::new_rand_matrix(10, 12, 6.0, 9.0, &uniform);
    assert!(right.data().iter().all(|x| 6.0 <= *x && *x < 9.0));
}

#[test]
fn random_cells_are_not_all_alike() {
    let mat = Matrix::new_rand_matrix(8, 8, 0.0, 1.0, &uniform);
    let first = mat.data()[0];
    assert!(mat.data().iter().any(|x| *x != first));
}

#[test]
fn cells_are_drawn_row_after_row_from_the_bounds_given() {
    let calls = Cell::new(0u32);
    let draw = |lo: u32, hi: u32| {
        calls.set(calls.get() + 1);
        lo * 1000 + hi * 100 + calls.get()
    };
    let mat = Matrix::new_rand_matrix(2, 3, 4, 7, &draw);
    assert_eq!(calls.get(), 6);
    assert_eq!(mat.shape(), (2, 3));
    assert_eq!(mat.data(), &[4701, 4702, 4703, 4704, 4705, 4706][..]);
    assert_eq!(mat[1][0], 4704);
}

#[test]
fn nothing_is_drawn_for_an_empty_matrix() {
    let calls = Cell::new(0u32);
    let draw = |lo: f64, _hi: f64| {
        calls.set(calls.get() + 1);
        lo
    };
    let mat = Matrix::new_rand_matrix(0, 4, 5.0, 1.0, &draw);
    assert_eq!(calls.get(), 0);
    assert_eq!(mat.shape(), (0, 4));
    assert!(mat.data().is_empty());
    let mat = Matrix::new_rand_matrix(4, 0, 5.0, 1.0, &draw);
    assert_eq!(calls.get(), 0);
    assert_eq!(mat.shape(), (4, 0));
}
