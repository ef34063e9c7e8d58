//! Views, matrices, validity and errors.
use sp_matmul_rs::csr::{
    check_index_capacity, matmul_topn_short_circuit, try_narrow_indptr, CsrError, CsrMatrix,
    CsrView,
};
use sp_matmul_rs::index::Index;
use sp_matmul_rs::matmul_topn::TopNOptions;
use sp_matmul_rs::topn::has_ascending_columns;
use sp_matmul_rs::{sp_matmul, sp_matmul_topn};

#[test]
fn view_checks_lengths() {
    let data = vec![1i32, 2];
    let ok = CsrView::new(2, 3, &[0i32, 1, 2], &[0i32, 2], &data).unwrap();
    assert_eq!(ok.nnz(), 2);

    let err = CsrView::new(2, 3, &[0i32, 2], &[0i32, 2], &data).unwrap_err();
    assert!(matches!(
        err,
        CsrError::IndptrLength {
            expected: 3,
            got: 2
        }
    ));
    assert_eq!(err.message(), "indptr length mismatch: expected 3, got 2");

    let err = CsrView::new(2, 3, &[0i32, 1, 2], &[0i32], &data).unwrap_err();
    assert!(matches!(
        err,
        CsrError::IndicesDataMismatch {
            indices: 1,
            data: 2
        }
    ));
    assert_eq!(
        err.message(),
        "indices and data length mismatch: indices=1, data=2"
    );
}

#[test]
fn overflow_messages() {
    let err = check_index_capacity::<i32>(3_000_000_000, 10).unwrap_err();
    assert_eq!(
        err.message(),
        "output non-zero count (nnz) (3000000000) exceeds the maximum value representable \
         by the index type (max 2147483647); use a wider index type or reduce the problem size"
    );
    let err = check_index_capacity::<i32>(0, 3_000_000_000).unwrap_err();
    assert_eq!(
        err.message(),
        "output largest column index (2999999999) exceeds the maximum value representable \
         by the index type (max 2147483647); use a wider index type or reduce the problem size"
    );
}

#[test]
fn narrowing_reports_overflow() {
    assert_eq!(try_narrow_indptr::<i32>(7).unwrap(), 7);
    assert_eq!(
        try_narrow_indptr::<i32>(i32::MAX as usize).unwrap(),
        i32::MAX
    );
    let err = try_narrow_indptr::<i32>(i32::MAX as usize + 1).unwrap_err();
    assert!(matches!(
        err,
        CsrError::IndexOverflow {
            value: 2147483648,
            max: 2147483647,
            ..
        }
    ));
    assert_eq!(
        try_narrow_indptr::<i64>(i32::MAX as usize + 1).unwrap(),
        i32::MAX as i64 + 1
    );
}

#[test]
fn index_bounds() {
    assert_eq!(<i32 as Index>::zero(), 0);
    assert_eq!(<i64 as Index>::zero(), 0);
    assert_eq!(<i32 as Index>::max_usize(), 2147483647);
    assert_eq!(<i64 as Index>::max_usize(), i64::MAX as usize);
    assert!(5i32.fits_usize());
    assert!(!(-5i32).fits_usize());
    assert!(!(-1i64).fits_usize());
    // Narrowing truncates, widening a negative index wraps around.
    assert_eq!(<i32 as Index>::from_usize(1 << 32), 0);
    assert_eq!((-1i32).to_usize(), usize::MAX);
}

#[test]
fn zero_matrix() {
    let z = CsrMatrix::<i32, i64>::zeros(3, 5);
    assert_eq!(z.nrows, 3);
    assert_eq!(z.ncols, 5);
    assert_eq!(z.indptr, vec![0, 0, 0, 0]);
    assert_eq!(z.nnz(), 0);
}

#[test]
fn validity() {
    let data = vec![1i32, 2, 3];
    let check = |nrows: usize, ncols: usize, indptr: &[i32], indices: &[i32]| {
        CsrView {
            nrows,
            ncols,
            indptr,
            indices,
            data: &data,
        }
        .is_valid()
    };
    assert!(check(2, 4, &[0, 1, 3], &[3, 0, 2]));
    assert!(check(0, 0, &[0], &[0, 0, 0]));
    // Entries outside of the rows are not read.
    assert!(check(1, 1, &[1, 2], &[9, 0, 9]));
    // Wrong lengths.
    assert!(!check(2, 4, &[0, 3], &[3, 0, 2]));
    assert!(!check(0, 4, &[], &[3, 0, 2]));
    assert!(!check(1, 4, &[0, 2], &[3, 0]));
    // Rows that run backwards, or out of the arrays.
    assert!(!check(2, 4, &[0, 2, 1], &[3, 0, 2]));
    assert!(!check(1, 4, &[0, 4], &[3, 0, 2]));
    assert!(!check(1, 4, &[-1, 3], &[3, 0, 2]));
    // Columns out of range.
    assert!(!check(1, 3, &[0, 3], &[3, 0, 2]));
    assert!(!check(1, 4, &[0, 3], &[3, 0, -2]));
}

#[test]
fn ascending_columns() {
    let data = vec![1i32, 2, 3];
    let sorted = CsrView::new(2, 4, &[0i32, 2, 3], &[1i32, 3, 0], &data).unwrap();
    assert!(has_ascending_columns(sorted));
    let unsorted = CsrView::new(2, 4, &[0i32, 2, 3], &[3i32, 1, 0], &data).unwrap();
    assert!(!has_ascending_columns(unsorted));
    let repeated = CsrView::new(2, 4, &[0i32, 2, 3], &[1i32, 1, 0], &data).unwrap();
    assert!(!has_ascending_columns(repeated));
}

/// The result of a product is a valid factor of the next one.
#[test]
fn results_are_valid_matrices() {
    let a_data = vec![1i32, 2, 3];
    let a = CsrView::new(2, 2, &[0i32, 2, 3], &[0i32, 1, 0], &a_data).unwrap();
    let square = sp_matmul(a, a);
    let view = CsrView::new(2, 2, &square.indptr, &square.indices, &square.data).unwrap();
    assert!(view.is_valid());
    let cube = sp_matmul(a, view);
    // A = [[1, 2], [3, 0]], A² = [[7, 2], [3, 6]], A³ = [[13, 14], [21, 6]].
    let mut row: Vec<(i32, i32)> = (0..2).map(|k| (cube.indices[k], cube.data[k])).collect();
    row.sort();
    assert_eq!(row, vec![(0, 13), (1, 14)]);
    let top = sp_matmul_topn(a, a, 1, TopNOptions::default());
    assert_eq!(top.data, vec![7, 6]);
    let view = CsrView::new(2, 2, &top.indptr, &top.indices, &top.data).unwrap();
    assert!(view.is_valid());
}

#[test]
fn degenerate_inputs_short_circuit() {
    let data = vec![1i32];
    let nil: Vec<i32> = vec![];
    let full = CsrView::new(1, 1, &[0i32, 1], &[0i32], &data).unwrap();
    let empty = CsrView::new(1, 1, &[0i32, 0], &[], &nil).unwrap();
    assert!(matmul_topn_short_circuit(full, full, 1).is_none());
    assert_eq!(
        matmul_topn_short_circuit(full, full, 0).unwrap().indptr,
        vec![0, 0]
    );
    assert!(matmul_topn_short_circuit(empty, full, 1).is_some());
    assert!(matmul_topn_short_circuit(full, empty, 1).is_some());
}
