use matmul::Matrix;

fn three_places(x: f64) -> String {
    format!("{:.3}", x)
}

#[test]
fn one_line_for_each_row_and_one_space_between_cells() {
    let mut mat = Matrix::new(2, 3, 0.0f64);
    mat.mut_data().copy_from_slice(&[1.0, 2.5, -3.25, 4.0005, 5.0, 6.125]);
    assert_eq!(mat.render(&three_places), "1.000 2.500 -3.250\n4.000 5.000 6.125\n");
}

#[test]
fn no_space_stands_before_the_line_feed() {
    let mat = Matrix::new(3, 1, 1.5f64);
    assert_eq!(mat.render(&three_places), "1.500\n1.500\n1.500\n");
}

#[test]
fn a_matrix_without_rows_has_no_text() {
    let mat = Matrix::new(0, 4, 0.0f64);
    assert_eq!(mat.render(&three_places), "");
}

#[test]
fn a_row_without_cells_is_an_empty_line() {
    let mat = Matrix::new(2, 0, 0.0f64);
    assert_eq!(mat.render(&three_places), "\n\n");
}

#[test]
fn cells_are_shown_row_after_row() {
    let mut mat = Matrix::new(2, 2, 0u8);
    mat.mut_data().copy_from_slice(&[1, 2, 3, 4]);
    let text = mat.render(&|x: u8| format!("<{}>", x));
    assert_eq!(text, "<1> <2>\n<3> <4>\n");
}
