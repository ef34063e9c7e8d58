//! The plain product.
use sp_matmul_rs::csr::CsrView;
use sp_matmul_rs::matmul::try_sp_matmul;
use sp_matmul_rs::scalar::Scalar;
use sp_matmul_rs::sp_matmul;

#[derive(Clone, Copy, Debug, PartialEq, PartialOrd)]
struct F64(f64);

impl Scalar for F64 {
    const IS_FLOAT: bool = true;

    fn spec_zero() -> Self {
        Self::zero()
    }
    fn spec_min_value() -> Self {
        Self::min_value()
    }
    fn spec_limits_min() -> Self {
        Self::cpp_numeric_limits_min()
    }
    fn spec_plus(self, other: Self) -> Self {
        self.plus(other)
    }
    fn spec_times(self, other: Self) -> Self {
        self.times(other)
    }
    fn spec_mul_add(self, b: Self, acc: Self) -> Self {
        self.mul_add(b, acc)
    }
    fn spec_max(self, other: Self) -> Self {
        self.max(other)
    }
    fn spec_less(self, other: Self) -> bool {
        self.less(other)
    }
    fn spec_equals(self, other: Self) -> bool {
        self.equals(other)
    }
    fn ordered(self) -> bool {
        !self.0.is_nan()
    }
    fn lemma_less_ordered(_: Self, _: Self) {}
    fn lemma_less_transitive(_: Self, _: Self, _: Self) {}
    fn lemma_not_less_transitive(_: Self, _: Self, _: Self) {}
    fn lemma_max_exceeds(_: Self, _: Self, _: Self) {}
    fn lemma_constants() {}
    fn lemma_limit_ties(_: Self, _: Self) {}

    fn zero() -> Self {
        F64(0.0)
    }
    fn min_value() -> Self {
        F64(f64::NEG_INFINITY)
    }
    fn cpp_numeric_limits_min() -> Self {
        F64(f64::MIN_POSITIVE)
    }
    fn plus(self, other: Self) -> Self {
        F64(self.0 + other.0)
    }
    fn times(self, other: Self) -> Self {
        F64(self.0 * other.0)
    }
    fn mul_add(self, b: Self, acc: Self) -> Self {
        F64(self.0 * b.0 + acc.0)
    }
    fn max(self, other: Self) -> Self {
        F64(self.0.max(other.0))
    }
    fn less(self, other: Self) -> bool {
        self.0 < other.0
    }
    fn equals(self, other: Self) -> bool {
        self.0 == other.0
    }
}

fn floats(values: &[f64]) -> Vec<F64> {
    values.iter().map(|&x| F64(x)).collect()
}

/// 2×3 dense identity-like A and 3×2 B: check known product.
/// A = [[1, 0, 2], [0, 3, 0]], B = [[1, 0], [0, 1], [1, 1]]
/// C = A·B = [[3, 2], [0, 3]]
#[test]
fn small_known_product_f64_i32() {
    let a_indptr: Vec<i32> = vec![0, 2, 3];
    let a_indices: Vec<i32> = vec![0, 2, 1];
    let a_data = floats(&[1.0, 2.0, 3.0]);
    let b_indptr: Vec<i32> = vec![0, 1, 2, 4];
    let b_indices: Vec<i32> = vec![0, 1, 0, 1];
    let b_data = floats(&[1.0, 1.0, 1.0, 1.0]);

    let a = CsrView::new(2, 3, &a_indptr, &a_indices, &a_data).unwrap();
    let b = CsrView::new(3, 2, &b_indptr, &b_indices, &b_data).unwrap();

    let c = sp_matmul(a, b);
    assert_eq!(c.nrows, 2);
    assert_eq!(c.ncols, 2);
    assert_eq!(c.indptr, vec![0, 2, 3]);

    // Pull row 0 and row 1, sort by index, then verify values.
    let row0: Vec<(i32, f64)> = (c.indptr[0] as usize..c.indptr[1] as usize)
        .map(|k| (c.indices[k], c.data[k].0))
        .collect();
    let row1: Vec<(i32, f64)> = (c.indptr[1] as usize..c.indptr[2] as usize)
        .map(|k| (c.indices[k], c.data[k].0))
        .collect();
    let mut row0_sorted = row0.clone();
    row0_sorted.sort_by_key(|(idx, _)| *idx);
    assert_eq!(row0_sorted, vec![(0, 3.0), (1, 2.0)]);
    assert_eq!(row1, vec![(1, 3.0)]);
}

#[test]
fn empty_a_returns_zero_matrix() {
    let a_indptr: Vec<i32> = vec![0, 0, 0];
    let a_indices: Vec<i32> = vec![];
    let a_data: Vec<F64> = vec![];
    let b_indptr: Vec<i32> = vec![0, 1, 2, 3];
    let b_indices: Vec<i32> = vec![0, 1, 0];
    let b_data = floats(&[1.0, 2.0, 3.0]);

    let a = CsrView::new(2, 3, &a_indptr, &a_indices, &a_data).unwrap();
    let b = CsrView::new(3, 2, &b_indptr, &b_indices, &b_data).unwrap();
    let c = sp_matmul(a, b);
    assert_eq!(c.nnz(), 0);
    assert_eq!(c.indptr, vec![0, 0, 0]);
}

#[test]
fn zero_rows_returns_zero_rows() {
    let a_indptr: Vec<i32> = vec![0];
    let a_indices: Vec<i32> = vec![];
    let a_data: Vec<F64> = vec![];
    let b_indptr: Vec<i32> = vec![0, 1, 2, 3];
    let b_indices: Vec<i32> = vec![0, 1, 0];
    let b_data = floats(&[1.0, 2.0, 3.0]);
    let a = CsrView::new(0, 3, &a_indptr, &a_indices, &a_data).unwrap();
    let b = CsrView::new(3, 2, &b_indptr, &b_indices, &b_data).unwrap();
    let c = sp_matmul(a, b);
    assert_eq!(c.nrows, 0);
    assert_eq!(c.ncols, 2);
    assert_eq!(c.indptr, vec![0]);
}

/// A dot product that cancels stays as an explicit zero, so that the row
/// pointers keep matching the entries.
#[test]
fn cancelled_sum_is_an_explicit_zero() {
    // A = [[1, 1], [1, 0]], B = [[2, 5], [-2, 0]]
    let a_data = vec![1i32, 1, 1];
    let b_data = vec![2i32, 5, -2];
    let a = CsrView::new(2, 2, &[0i64, 2, 3], &[0i64, 1, 0], &a_data).unwrap();
    let b = CsrView::new(2, 2, &[0i64, 2, 3], &[0i64, 1, 0], &b_data).unwrap();
    let c = sp_matmul(a, b);
    assert_eq!(c.indptr, vec![0, 2, 4]);
    assert_eq!(c.indices, vec![1, 0, 1, 0]);
    assert_eq!(c.data, vec![5, 0, 5, 2]);
}

/// Integer entries are the exact dot products.
#[test]
fn integer_entries_are_dot_products() {
    // A = [[1, -2, 3]], B = [[4, 0], [5, 6], [0, 7]]: C = [[-6, 9]]
    let a_data = vec![1i64, -2, 3];
    let b_data = vec![4i64, 5, 6, 7];
    let a = CsrView::new(1, 3, &[0i32, 3], &[0i32, 1, 2], &a_data).unwrap();
    let b = CsrView::new(3, 2, &[0i32, 1, 3, 4], &[0i32, 0, 1, 1], &b_data).unwrap();
    let c = try_sp_matmul(a, b).unwrap();
    assert_eq!(c.indices, vec![1, 0]);
    assert_eq!(c.data, vec![9, -6]);
}

/// Repeated columns within a row are summed like any other entries.
#[test]
fn repeated_columns_are_summed() {
    let a_data = vec![1i32, 10];
    let b_data = vec![3i32, 4];
    let a = CsrView::new(1, 1, &[0i32, 2], &[0i32, 0], &a_data).unwrap();
    let b = CsrView::new(1, 1, &[0i32, 2], &[0i32, 0], &b_data).unwrap();
    let c = sp_matmul(a, b);
    assert_eq!(c.indices, vec![0]);
    assert_eq!(c.data, vec![77]);
}
