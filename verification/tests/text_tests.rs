use matrix_multiply::{Dot, Matrix, MatrixError, CPU};

#[test]
fn parse_simple_matrix() {
    let m = Matrix::<CPU>::parse_text(&(), b"1 2\n3 4\n").unwrap();
    assert_eq!(m.shape(), (2, 2));
    assert_eq!(m.to_host(&()).unwrap(), vec![1, 2, 3, 4]);
}

#[test]
fn parse_ignores_blank_lines() {
    let m = Matrix::<CPU>::parse_text(&(), b"\n1 2\n\n   \n3 4\n\n").unwrap();
    assert_eq!(m.shape(), (2, 2));
    assert_eq!(m.to_host(&()).unwrap(), vec![1, 2, 3, 4]);
}

#[test]
fn parse_accepts_extra_spaces_and_tabs() {
    let m = Matrix::<CPU>::parse_text(&(), b"  1\t 2 \n 3  4\n").unwrap();
    assert_eq!(m.to_host(&()).unwrap(), vec![1, 2, 3, 4]);
}

#[test]
fn parse_reports_bad_token_position() {
    // row 1 among non-blank lines (0-based), column 1
    let r = Matrix::<CPU>::parse_text(&(), b"1 2\n\n3 x\n");
    assert!(matches!(r, Err(MatrixError::Parse { row: 1, col: 1 })));
}

#[test]
fn parse_reports_bad_token_on_first_row() {
    let r = Matrix::<CPU>::parse_text(&(), b"oops 2\n3 4\n");
    assert!(matches!(r, Err(MatrixError::Parse { row: 0, col: 0 })));
}

#[test]
fn parse_rejects_jagged_text() {
    let r = Matrix::<CPU>::parse_text(&(), b"1 2\n3\n");
    assert!(matches!(r, Err(MatrixError::Shape)));
}

#[test]
fn parse_rejects_empty_text() {
    let r = Matrix::<CPU>::parse_text(&(), b"");
    assert!(matches!(r, Err(MatrixError::Shape)));
    let r2 = Matrix::<CPU>::parse_text(&(), b" \n  \n");
    assert!(matches!(r2, Err(MatrixError::Shape)));
}

#[test]
fn parse_negative_and_boundary_values() {
    let m = Matrix::<CPU>::parse_text(&(), b"-1 2147483647\n-2147483648 0\n").unwrap();
    assert_eq!(m.to_host(&()).unwrap(), vec![-1, 2147483647, -2147483648, 0]);
}

#[test]
fn parse_rejects_out_of_range_values() {
    let r = Matrix::<CPU>::parse_text(&(), b"2147483648\n");
    assert!(matches!(r, Err(MatrixError::Parse { row: 0, col: 0 })));
    let r2 = Matrix::<CPU>::parse_text(&(), b"0 -2147483649\n");
    assert!(matches!(r2, Err(MatrixError::Parse { row: 0, col: 1 })));
}

#[test]
fn parse_via_from_str() {
    let m = "10 -20\n30 40\n".parse::<Matrix<CPU>>().unwrap();
    assert_eq!(m.to_host(&()).unwrap(), vec![10, -20, 30, 40]);
}

#[test]
fn format_renders_rows_with_trailing_newlines() {
    let a = Matrix::<CPU>::try_from(vec![vec![19, 22], vec![43, 50]]).unwrap();
    assert_eq!(a.to_text(&()).unwrap(), b"19 22\n43 50\n".to_vec());
}

#[test]
fn format_renders_negative_values() {
    let a = Matrix::<CPU>::try_from(vec![vec![-1, 0], vec![7, -2147483648]]).unwrap();
    assert_eq!(a.to_text(&()).unwrap(), b"-1 0\n7 -2147483648\n".to_vec());
}

#[test]
fn format_then_parse_round_trip() {
    let a = Matrix::<CPU>::try_from(vec![vec![1, -2, 30], vec![-400, 5, 0]]).unwrap();
    let text = a.to_text(&()).unwrap();
    let b = Matrix::<CPU>::parse_text(&(), &text).unwrap();
    assert!(a == b);
    assert_eq!(b.shape(), (2, 3));
}

#[test]
fn product_of_parsed_matrices_formats_as_expected() {
    let a = Matrix::<CPU>::parse_text(&(), b"1 2\n3 4\n").unwrap();
    let b = Matrix::<CPU>::parse_text(&(), b"5 6\n7 8\n").unwrap();
    let c = a.dot(&(), &b).unwrap();
    assert_eq!(c.to_text(&()).unwrap(), b"19 22\n43 50\n".to_vec());
}
