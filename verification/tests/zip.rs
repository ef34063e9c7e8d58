//! Zipping the results of column chunks.
use sp_matmul_rs::csr::{CsrError, CsrView};
use sp_matmul_rs::matmul_topn::{SortMode, TopNOptions};
use sp_matmul_rs::scalar::Scalar;
use sp_matmul_rs::zip::try_zip_sp_matmul_topn;
use sp_matmul_rs::{sp_matmul_topn, zip_sp_matmul_topn};

#[derive(Clone, Copy, Debug, PartialEq, PartialOrd)]
struct F64(f64);

impl Scalar for F64 {
    const IS_FLOAT: bool = true;

    fn spec_zero() -> Self {
        Self::zero()
    }
    fn spec_min_value() -> Self {
        Self::min_value()
    }
    fn spec_limits_min() -> Self {
        Self::cpp_numeric_limits_min()
    }
    fn spec_plus(self, other: Self) -> Self {
        self.plus(other)
    }
    fn spec_times(self, other: Self) -> Self {
        self.times(other)
    }
    fn spec_mul_add(self, b: Self, acc: Self) -> Self {
        self.mul_add(b, acc)
    }
    fn spec_max(self, other: Self) -> Self {
        self.max(other)
    }
    fn spec_less(self, other: Self) -> bool {
        self.less(other)
    }
    fn spec_equals(self, other: Self) -> bool {
        self.equals(other)
    }
    fn ordered(self) -> bool {
        !self.0.is_nan()
    }
    fn lemma_less_ordered(_: Self, _: Self) {}
    fn lemma_less_transitive(_: Self, _: Self, _: Self) {}
    fn lemma_not_less_transitive(_: Self, _: Self, _: Self) {}
    fn lemma_max_exceeds(_: Self, _: Self, _: Self) {}
    fn lemma_constants() {}
    fn lemma_limit_ties(_: Self, _: Self) {}

    fn zero() -> Self {
        F64(0.0)
    }
    fn min_value() -> Self {
        F64(f64::NEG_INFINITY)
    }
    fn cpp_numeric_limits_min() -> Self {
        F64(f64::MIN_POSITIVE)
    }
    fn plus(self, other: Self) -> Self {
        F64(self.0 + other.0)
    }
    fn times(self, other: Self) -> Self {
        F64(self.0 * other.0)
    }
    fn mul_add(self, b: Self, acc: Self) -> Self {
        F64(self.0 * b.0 + acc.0)
    }
    fn max(self, other: Self) -> Self {
        F64(self.0.max(other.0))
    }
    fn less(self, other: Self) -> bool {
        self.0 < other.0
    }
    fn equals(self, other: Self) -> bool {
        self.0 == other.0
    }
}

fn floats(values: &[f64]) -> Vec<F64> {
    values.iter().map(|&x| F64(x)).collect()
}

#[test]
fn empty_chunks_returns_zero_matrix() {
    let chunks: Vec<CsrView<'_, F64, i32>> = vec![];
    let c = zip_sp_matmul_topn(5, &chunks);
    assert_eq!(c.nrows, 0);
    assert_eq!(c.ncols, 0);
}

#[test]
fn zip_top_n_zero_returns_zero_matrix() {
    let indptr = vec![0i32, 1, 2];
    let indices = vec![0i32, 1];
    let data = floats(&[1.0, 2.0]);
    let chunk = CsrView::new(2, 3, &indptr, &indices, &data).unwrap();
    let c = zip_sp_matmul_topn(0, &[chunk]);
    assert_eq!(c.nrows, 2);
    assert_eq!(c.ncols, 3);
    assert_eq!(c.nnz(), 0);
}

/// Two chunks side by side. Each row has two nnz total, top_n=2 keeps both,
/// sorted by value desc with offset applied to the second chunk's indices.
#[test]
fn two_chunks_offset_applied() {
    // chunk 0 (2x3): row 0 = {col 0: 3.0}, row 1 = {col 2: 1.0}
    let c0_indptr = vec![0i32, 1, 2];
    let c0_indices = vec![0i32, 2];
    let c0_data = floats(&[3.0, 1.0]);
    let chunk0 = CsrView::new(2, 3, &c0_indptr, &c0_indices, &c0_data).unwrap();
    // chunk 1 (2x2): row 0 = {col 1: 5.0}, row 1 = {col 0: 2.0}
    let c1_indptr = vec![0i32, 1, 2];
    let c1_indices = vec![1i32, 0];
    let c1_data = floats(&[5.0, 2.0]);
    let chunk1 = CsrView::new(2, 2, &c1_indptr, &c1_indices, &c1_data).unwrap();

    let c = zip_sp_matmul_topn(2, &[chunk0, chunk1]);
    assert_eq!(c.nrows, 2);
    assert_eq!(c.ncols, 5);
    assert_eq!(c.indptr, vec![0, 2, 4]);
    // Row 0 sorted desc: (col 1+3=4, 5.0), (col 0, 3.0)
    assert_eq!(c.data[0].0, 5.0);
    assert_eq!(c.indices[0], 4);
    assert_eq!(c.data[1].0, 3.0);
    assert_eq!(c.indices[1], 0);
    // Row 1 sorted desc: (col 0+3=3, 2.0), (col 2, 1.0)
    assert_eq!(c.data[2].0, 2.0);
    assert_eq!(c.indices[2], 3);
    assert_eq!(c.data[3].0, 1.0);
    assert_eq!(c.indices[3], 2);
}

/// The implied threshold drops float scores that are not positive, and keeps
/// negative integers.
#[test]
fn float_scores_must_be_positive() {
    let data = floats(&[-1.0, 0.0, 2.0]);
    let chunk = CsrView::new(1, 3, &[0i32, 3], &[0i32, 1, 2], &data).unwrap();
    let c = zip_sp_matmul_topn(3, &[chunk]);
    assert_eq!(c.indices, vec![2]);
    assert_eq!(c.data, floats(&[2.0]));

    let data = vec![-1i32, 0, 2];
    let chunk = CsrView::new(1, 3, &[0i32, 3], &[0i32, 1, 2], &data).unwrap();
    let c = zip_sp_matmul_topn(3, &[chunk]);
    assert_eq!(c.indices, vec![2, 1, 0]);
    assert_eq!(c.data, vec![2, 0, -1]);
}

/// Keeping the top n of each chunk first changes nothing of the final top n.
#[test]
fn zip_of_products_is_top_n_of_all() {
    // A = [[1, 1]]; B0 (2x3) = [[7, 1, 5], [0, 2, 0]], B1 (2x2) = [[6, 9], [0, 0]].
    let a_data = vec![1i32, 1];
    let a = CsrView::new(1, 2, &[0i32, 2], &[0i32, 1], &a_data).unwrap();
    let b0_data = vec![7i32, 1, 5, 2];
    let b0 = CsrView::new(2, 3, &[0i32, 3, 4], &[0i32, 1, 2, 1], &b0_data).unwrap();
    let b1_data = vec![6i32, 9];
    let b1 = CsrView::new(2, 2, &[0i32, 2, 2], &[0i32, 1], &b1_data).unwrap();
    let opts = TopNOptions {
        sort: SortMode::ByValueDesc,
        ..Default::default()
    };
    let c0 = sp_matmul_topn(a, b0, 2, opts);
    let c1 = sp_matmul_topn(a, b1, 2, opts);
    let v0 = CsrView::new(1, 3, &c0.indptr, &c0.indices, &c0.data).unwrap();
    let v1 = CsrView::new(1, 2, &c1.indptr, &c1.indices, &c1.data).unwrap();
    let z = zip_sp_matmul_topn(2, &[v0, v1]);
    assert_eq!(z.ncols, 5);
    assert_eq!(z.indices, vec![4, 0]);
    assert_eq!(z.data, vec![9, 7]);
}

/// The total width is tested against the index type before any work.
#[test]
fn too_wide_for_the_index_type() {
    let data: Vec<i32> = vec![];
    let wide = i32::MAX as usize;
    let chunk = CsrView::new(1, wide, &[0i32, 0], &[], &data).unwrap();
    let one = CsrView::new(1, 1, &[0i32, 0], &[], &data).unwrap();
    // Largest column index i32::MAX still fits.
    assert!(try_zip_sp_matmul_topn(1, &[chunk, one]).is_ok());
    let err = try_zip_sp_matmul_topn(1, &[chunk, one, one]).unwrap_err();
    match err {
        CsrError::IndexOverflow { what, value, max } => {
            assert_eq!(what, "largest column index");
            assert_eq!(value, wide + 1);
            assert_eq!(max, wide);
        }
        _ => panic!("expected an index overflow"),
    }
}

/// Multiplying with the slices of the columns of `B`, keeping the top n of each
/// row and zipping is multiplying with `B`.
#[test]
fn top_n_distributes_over_column_slices() {
    // A = [[1, 2], [0, 3]]; B (2x5) = [[4, -1, 0, 7, 2], [1, 5, -6, 0, 3]].
    let a_data = vec![1i32, 2, 3];
    let a = CsrView::new(2, 2, &[0i32, 2, 3], &[0i32, 1, 1], &a_data).unwrap();
    let b_data = vec![4i32, -1, 7, 2, 1, 5, -6, 3];
    let b_idx = vec![0i32, 1, 3, 4, 0, 1, 2, 4];
    let b = CsrView::new(2, 5, &[0i32, 4, 8], &b_idx, &b_data).unwrap();
    // Columns 0..2 and 2..5.
    let b0_data = vec![4i32, -1, 1, 5];
    let b0 = CsrView::new(2, 2, &[0i32, 2, 4], &[0i32, 1, 0, 1], &b0_data).unwrap();
    let b1_data = vec![7i32, 2, -6, 3];
    let b1 = CsrView::new(2, 3, &[0i32, 2, 4], &[1i32, 2, 0, 2], &b1_data).unwrap();
    let opts = TopNOptions {
        sort: SortMode::ByValueDesc,
        ..Default::default()
    };
    for top_n in 1..=6 {
        let c0 = sp_matmul_topn(a, b0, top_n, opts);
        let c1 = sp_matmul_topn(a, b1, top_n, opts);
        let v0 = CsrView::new(2, 2, &c0.indptr, &c0.indices, &c0.data).unwrap();
        let v1 = CsrView::new(2, 3, &c1.indptr, &c1.indices, &c1.data).unwrap();
        let z = zip_sp_matmul_topn(top_n, &[v0, v1]);
        let c = sp_matmul_topn(a, b, top_n, opts);
        assert_eq!((z.nrows, z.ncols), (c.nrows, c.ncols));
        assert_eq!(z.indptr, c.indptr);
        assert_eq!(z.indices, c.indices);
        assert_eq!(z.data, c.data);
        if top_n == 3 {
            // Row 0 sums to [6, 9, -12, 7, 8], row 1 to [3, 15, -18, -, 9].
            assert_eq!(z.indices, vec![1, 4, 3, 1, 4, 0]);
            assert_eq!(z.data, vec![9, 8, 7, 15, 9, 3]);
        }
    }
}

/// Zipping a zipped matrix again keeps its arrays, ties included.
#[test]
fn zipping_again_changes_nothing() {
    let d0 = vec![5i32, 2, 5, 1];
    let chunk0 = CsrView::new(2, 3, &[0i32, 3, 4], &[0i32, 1, 2, 1], &d0).unwrap();
    let d1 = vec![4i32, 5, -3];
    let chunk1 = CsrView::new(2, 2, &[0i32, 2, 3], &[0i32, 1, 0], &d1).unwrap();
    for top_n in 0..=6 {
        let z = zip_sp_matmul_topn(top_n, &[chunk0, chunk1]);
        let view = CsrView::new(z.nrows, z.ncols, &z.indptr, &z.indices, &z.data).unwrap();
        let again = zip_sp_matmul_topn(top_n, &[view]);
        assert_eq!((again.nrows, again.ncols), (z.nrows, z.ncols));
        assert_eq!(again.indptr, z.indptr);
        assert_eq!(again.data, z.data);
        for i in 0..z.nrows {
            let (lo, hi) = (z.indptr[i] as usize, z.indptr[i + 1] as usize);
            let mut x: Vec<(i32, i32)> = (lo..hi).map(|p| (z.indices[p], z.data[p])).collect();
            let mut y: Vec<(i32, i32)> =
                (lo..hi).map(|p| (again.indices[p], again.data[p])).collect();
            x.sort();
            y.sort();
            assert_eq!(x, y);
        }
        if top_n == 4 {
            assert_eq!(z.indptr, vec![0, 4, 6]);
            assert_eq!(z.data, vec![5, 5, 5, 4, 1, -3]);
        }
    }
}

/// The smallest integer does not exceed the threshold of the zip, so it is the
/// one sum that zipping loses.
#[test]
fn zip_loses_the_smallest_integer() {
    let a_data = vec![1i32];
    let a = CsrView::new(1, 1, &[0i32, 1], &[0i32], &a_data).unwrap();
    let b_data = vec![i32::MIN, i32::MIN + 1];
    let b = CsrView::new(1, 2, &[0i32, 2], &[0i32, 1], &b_data).unwrap();
    let opts = TopNOptions {
        sort: SortMode::ByValueDesc,
        ..Default::default()
    };
    let c = sp_matmul_topn(a, b, 2, opts);
    assert_eq!(c.data, vec![i32::MIN + 1, i32::MIN]);
    let view = CsrView::new(1, 2, &c.indptr, &c.indices, &c.data).unwrap();
    let z = zip_sp_matmul_topn(2, &[view]);
    assert_eq!(z.indices, vec![1]);
    assert_eq!(z.data, vec![i32::MIN + 1]);
}
