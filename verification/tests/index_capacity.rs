use sp_matmul_rs::csr::{check_index_capacity, narrow_indptr, INDEX_OVERFLOW_MARKER};

#[test]
fn narrow_indptr_boundary() {
    assert_eq!(narrow_indptr::<i32>(i32::MAX as usize), i32::MAX);
    assert_eq!(
        narrow_indptr::<i64>(i32::MAX as usize + 1),
        i32::MAX as i64 + 1
    );
}

/// The Python bindings match on the marker to translate overflow errors into
/// `OverflowError`; pin that the rendered message contains it.
#[test]
fn overflow_message_contains_marker() {
    let err = check_index_capacity::<i32>(i32::MAX as usize + 1, 10).unwrap_err();
    assert!(err.message().contains(INDEX_OVERFLOW_MARKER));
}

#[test]
fn i32_capacity_boundary() {
    let max = i32::MAX as usize;
    // nnz exactly at the limit fits; one past it overflows.
    assert!(check_index_capacity::<i32>(max, 10).is_ok());
    assert!(check_index_capacity::<i32>(max + 1, 10).is_err());
    // Largest column index is ncols - 1, so ncols == max + 1 still fits.
    assert!(check_index_capacity::<i32>(0, max + 1).is_ok());
    assert!(check_index_capacity::<i32>(0, max + 2).is_err());
    // Empty matrix (ncols == 0) never overflows on the column bound.
    assert!(check_index_capacity::<i32>(0, 0).is_ok());
}

#[test]
fn i64_widens_the_ceiling() {
    // Sizes that overflow i32 are comfortably within i64.
    let over_i32 = i32::MAX as usize + 1;
    assert!(check_index_capacity::<i64>(over_i32, over_i32).is_ok());
}
