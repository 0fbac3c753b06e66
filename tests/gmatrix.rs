use vec_utils::gmatrix::GMatrix;

type GMatrix2x2<T> = GMatrix<2, 2, T>;
type GMatrix3x3<T> = GMatrix<3, 3, T>;

#[test]
fn test_constructors_f64() {
    let zero = GMatrix2x2::<i64>::zeros();
    let one = GMatrix2x2::<i64>::ones();

    for i in zero.iter() {
        assert_eq!(i, 0);
    }
    for i in one.iter() {
        assert_eq!(i, 1);
    }

    let arr = GMatrix2x2::from_nested_arr([[1.0, 2.0], [3.0, 4.0]]);
    assert_eq!(arr.get(0, 0), 1.0);
    assert_eq!(arr.get(1, 1), 4.0);
}

#[test]
fn test_shape_properties() {
    assert!(GMatrix2x2::<f64>::is_square());
    assert!(!GMatrix::<2, 3, f64>::is_square());

    let mut mat = GMatrix2x2::<i64>::zeros();
    mat.set(0, 0, 1);
    mat.set(1, 1, 1);
    assert_eq!(mat.count_nonzero(), 2);
}

#[test]
fn test_triangular_checks() {
    let ut = GMatrix2x2::<i64>::from_nested_arr([[1, 2], [0, 3]]);
    assert!(ut.is_upper_triangular());
    assert!(!ut.is_lower_triangular());

    let lt = GMatrix2x2::<i64>::from_nested_arr([[1, 0], [2, 3]]);
    assert!(lt.is_lower_triangular());
    assert!(!lt.is_upper_triangular());

    let diag = GMatrix2x2::<i64>::from_nested_arr([[1, 0], [0, 3]]);
    assert!(diag.is_diagonal());
}

#[test]
fn generic_test_iterators() {
    let mut mat = GMatrix2x2::<f64>::from_nested_arr([[1.0, 2.0], [3.0, 4.0]]);

    let indexed = mat.iter_indexed();
    assert_eq!(indexed[1], ((0, 1), 2.0));

    for ((r, c), _) in mat.iter_indexed() {
        if r == c {
            mat.set(r, c, 0.0);
        }
    }
    assert_eq!(mat.get(0, 0), 0.0);
    assert_eq!(mat.get(1, 1), 0.0);
}

#[test]
fn generic_test_transpose() {
    let vec = GMatrix::<1, 3, f64>::from_nested_arr([[1.0, 2.0, 3.0]]);
    let vec_t = vec.transpose();
    assert_eq!(vec_t.get(0, 0), 1.0);
    assert_eq!(vec_t.get(2, 0), 3.0);

    let mat = GMatrix2x2::<f64>::from_nested_arr([[1.0, 2.0], [3.0, 4.0]]);
    let mat_t = mat.transpose();
    assert_eq!(mat_t.get(0, 1), 3.0);
    assert_eq!(mat_t.get(1, 0), 2.0);
}

#[test]
#[should_panic(expected = "out of bounds")]
fn generic_test_index_out_of_bounds() {
    let mat = GMatrix2x2::<i64>::zeros();
    let _ = mat.get(2, 0);
}

#[test]
fn test_diagonals() {
    let mat =
        GMatrix3x3::<f64>::from_nested_arr([[1.0, 0.0, 0.0], [0.0, 2.0, 0.0], [0.0, 0.0, 3.0]]);
    assert_eq!(mat.diagonals(), vec![1.0, 2.0, 3.0]);
}

#[test]
fn from_nested_vec_keeps_row_order() {
    let mat = GMatrix::<2, 3, i32>::from_nested_vec(vec![vec![1, 2, 3], vec![4, 5, 6]]);
    assert_eq!(mat.get(1, 0), 4);
    assert_eq!(mat.get(0, 2), 3);
    assert_eq!(mat.iter(), vec![1, 2, 3, 4, 5, 6]);
}

#[test]
fn non_square_triangular_and_diagonal() {
    let wide = GMatrix::<2, 3, i64>::from_nested_arr([[1, 0, 0], [0, 2, 0]]);
    assert!(wide.is_diagonal());
    assert!(wide.is_upper_triangular());
    assert!(wide.is_lower_triangular());
    assert_eq!(wide.diagonals(), vec![1, 2]);

    let tall = GMatrix::<3, 2, i64>::from_nested_arr([[1, 0], [0, 2], [5, 0]]);
    assert!(!tall.is_diagonal());
    assert!(!tall.is_upper_triangular());
    assert!(tall.is_lower_triangular());
}

#[test]
fn count_nonzero_of_empty_and_full() {
    assert_eq!(GMatrix::<3, 4, u64>::zeros().count_nonzero(), 0);
    assert_eq!(GMatrix::<3, 4, u64>::ones().count_nonzero(), 12);
}

#[test]
fn non_square_transpose_swaps_shape() {
    let mat = GMatrix::<2, 3, i64>::from_nested_arr([[1, 2, 3], [4, 5, 6]]);
    let t = mat.transpose();
    assert_eq!(t.iter(), vec![1, 4, 2, 5, 3, 6]);
    assert_eq!(t.get(2, 1), 6);
}
