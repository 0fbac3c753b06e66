use vec_utils::matrix3x3;

#[test]
fn test_matrix3x3_transpose() {
    let matrix = [[1.0, 4.0, 7.0], [3.0, 0.0, 5.0], [-1.0, 9.0, 11.0]];
    let transpose = matrix3x3::transpose(&matrix);
    assert_eq!(transpose[0][0], 1.0);
    assert_eq!(transpose[0][1], 3.0);
    assert_eq!(transpose[0][2], -1.0);
    assert_eq!(transpose[1][0], 4.0);
    assert_eq!(transpose[1][1], 0.0);
    assert_eq!(transpose[1][2], 9.0);
    assert_eq!(transpose[2][0], 7.0);
    assert_eq!(transpose[2][1], 5.0);
    assert_eq!(transpose[2][2], 11.0);
}

#[test]
fn matrix3x3_transpose_twice_is_identity() {
    let matrix = [[1i64, 2, 3], [4, 5, 6], [7, 8, 9]];
    let back = matrix3x3::transpose(&matrix3x3::transpose(&matrix));
    assert_eq!(back, matrix);
}
