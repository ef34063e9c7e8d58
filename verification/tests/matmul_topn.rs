//! The top-n product.
use sp_matmul_rs::csr::{CsrMatrix, CsrView};
use sp_matmul_rs::matmul_topn::{
    sp_matmul_topn, sp_matmul_topn_unchunked_for_tests, suited_options, try_sp_matmul_topn,
    SortMode, TopNOptions,
};
use sp_matmul_rs::scalar::Scalar;
use sp_matmul_rs::{sp_matmul, AccumMode};

#[derive(Clone, Copy, Debug, PartialEq, PartialOrd)]
struct F64(f64);

impl Scalar for F64 {
    const IS_FLOAT: bool = true;

    fn spec_zero() -> Self {
        Self::zero()
    }
    fn spec_min_value() -> Self {
        Self::min_value()
    }
    fn spec_limits_min() -> Self {
        Self::cpp_numeric_limits_min()
    }
    fn spec_plus(self, other: Self) -> Self {
        self.plus(other)
    }
    fn spec_times(self, other: Self) -> Self {
        self.times(other)
    }
    fn spec_mul_add(self, b: Self, acc: Self) -> Self {
        self.mul_add(b, acc)
    }
    fn spec_max(self, other: Self) -> Self {
        self.max(other)
    }
    fn spec_less(self, other: Self) -> bool {
        self.less(other)
    }
    fn spec_equals(self, other: Self) -> bool {
        self.equals(other)
    }
    fn ordered(self) -> bool {
        !self.0.is_nan()
    }
    fn lemma_less_ordered(_: Self, _: Self) {}
    fn lemma_less_transitive(_: Self, _: Self, _: Self) {}
    fn lemma_not_less_transitive(_: Self, _: Self, _: Self) {}
    fn lemma_max_exceeds(_: Self, _: Self, _: Self) {}
    fn lemma_constants() {}
    fn lemma_limit_ties(_: Self, _: Self) {}

    fn zero() -> Self {
        F64(0.0)
    }
    fn min_value() -> Self {
        F64(f64::NEG_INFINITY)
    }
    fn cpp_numeric_limits_min() -> Self {
        F64(f64::MIN_POSITIVE)
    }
    fn plus(self, other: Self) -> Self {
        F64(self.0 + other.0)
    }
    fn times(self, other: Self) -> Self {
        F64(self.0 * other.0)
    }
    fn mul_add(self, b: Self, acc: Self) -> Self {
        F64(self.0 * b.0 + acc.0)
    }
    fn max(self, other: Self) -> Self {
        F64(self.0.max(other.0))
    }
    fn less(self, other: Self) -> bool {
        self.0 < other.0
    }
    fn equals(self, other: Self) -> bool {
        self.0 == other.0
    }
}

type CsrParts = (Vec<i32>, Vec<i32>, Vec<F64>, Vec<i32>, Vec<i32>, Vec<F64>);

fn floats(values: &[f64]) -> Vec<F64> {
    values.iter().map(|&x| F64(x)).collect()
}

/// A (2×3): [[1, 0, 2], [0, 3, 4]]
/// B (3×4): [[1, 0, 0, 5], [0, 1, 0, 6], [0, 0, 1, 7]]
/// C = A·B:
/// row 0: [1, 0, 2, 5+14] = [1, 0, 2, 19]
/// row 1: [0, 3, 4, 18+28] = [0, 3, 4, 46]
fn make_a_b() -> CsrParts {
    let a_indptr = vec![0i32, 2, 4];
    let a_indices = vec![0i32, 2, 1, 2];
    let a_data = floats(&[1.0, 2.0, 3.0, 4.0]);
    let b_indptr = vec![0i32, 2, 4, 6];
    let b_indices = vec![0i32, 3, 1, 3, 2, 3];
    let b_data = floats(&[1.0, 5.0, 1.0, 6.0, 1.0, 7.0]);
    (a_indptr, a_indices, a_data, b_indptr, b_indices, b_data)
}

#[test]
fn top2_by_value_desc() {
    let (a_ip, a_idx, a_d, b_ip, b_idx, b_d) = make_a_b();
    let a = CsrView::new(2, 3, &a_ip, &a_idx, &a_d).unwrap();
    let b = CsrView::new(3, 4, &b_ip, &b_idx, &b_d).unwrap();
    let opts = TopNOptions {
        sort: SortMode::ByValueDesc,
        ..Default::default()
    };
    let c = sp_matmul_topn(a, b, 2, opts);
    assert_eq!(c.indptr, vec![0, 2, 2 + 2]);
    // row 0
    assert_eq!(c.data[0].0, 19.0);
    assert_eq!(c.indices[0], 3);
    assert_eq!(c.data[1].0, 2.0);
    assert_eq!(c.indices[1], 2);
    // row 1
    assert_eq!(c.data[2].0, 46.0);
    assert_eq!(c.indices[2], 3);
    assert_eq!(c.data[3].0, 4.0);
    assert_eq!(c.indices[3], 2);
}

#[test]
fn top2_by_column_order() {
    let (a_ip, a_idx, a_d, b_ip, b_idx, b_d) = make_a_b();
    let a = CsrView::new(2, 3, &a_ip, &a_idx, &a_d).unwrap();
    let b = CsrView::new(3, 4, &b_ip, &b_idx, &b_d).unwrap();
    let opts = TopNOptions {
        sort: SortMode::ByColumn,
        ..Default::default()
    };
    let c = sp_matmul_topn(a, b, 2, opts);
    // Row 0 top-2 are at columns {2, 3}; by column order they should appear as (2,3).
    let row0: Vec<(i32, f64)> = (c.indptr[0] as usize..c.indptr[1] as usize)
        .map(|k| (c.indices[k], c.data[k].0))
        .collect();
    assert_eq!(row0, vec![(2, 2.0), (3, 19.0)]);
    let row1: Vec<(i32, f64)> = (c.indptr[1] as usize..c.indptr[2] as usize)
        .map(|k| (c.indices[k], c.data[k].0))
        .collect();
    assert_eq!(row1, vec![(2, 4.0), (3, 46.0)]);
}

#[test]
fn threshold_filters() {
    let (a_ip, a_idx, a_d, b_ip, b_idx, b_d) = make_a_b();
    let a = CsrView::new(2, 3, &a_ip, &a_idx, &a_d).unwrap();
    let b = CsrView::new(3, 4, &b_ip, &b_idx, &b_d).unwrap();
    let opts = TopNOptions {
        threshold: Some(F64(10.0)),
        sort: SortMode::ByValueDesc,
        ..Default::default()
    };
    let c = sp_matmul_topn(a, b, 4, opts);
    // Only 19 (row 0) and 46 (row 1) exceed 10.
    assert_eq!(c.indptr, vec![0, 1, 2]);
    assert_eq!(c.data, floats(&[19.0, 46.0]));
    assert_eq!(c.indices, vec![3, 3]);
}

#[test]
fn matmul_topn_top_n_zero_returns_zero_matrix() {
    let (a_ip, a_idx, a_d, b_ip, b_idx, b_d) = make_a_b();
    let a = CsrView::new(2, 3, &a_ip, &a_idx, &a_d).unwrap();
    let b = CsrView::new(3, 4, &b_ip, &b_idx, &b_d).unwrap();
    let c = sp_matmul_topn(a, b, 0, TopNOptions::default());
    assert_eq!(c.nnz(), 0);
    assert_eq!(c.indptr, vec![0, 0, 0]);
}

#[test]
fn top_n_equals_ncols_matches_sp_matmul() {
    let (a_ip, a_idx, a_d, b_ip, b_idx, b_d) = make_a_b();
    let a = CsrView::new(2, 3, &a_ip, &a_idx, &a_d).unwrap();
    let b = CsrView::new(3, 4, &b_ip, &b_idx, &b_d).unwrap();
    let c_topn = sp_matmul_topn(a, b, 4, TopNOptions::default());
    let c_plain = sp_matmul(a, b);
    assert_eq!(c_topn.indptr, c_plain.indptr);
    // indices may differ in order: sort each row first
    let sort_rows = |c: &CsrMatrix<F64, i32>| -> Vec<(i32, f64)> {
        let mut out = Vec::new();
        for i in 0..c.nrows {
            let mut row: Vec<(i32, f64)> = (c.indptr[i] as usize..c.indptr[i + 1] as usize)
                .map(|k| (c.indices[k], c.data[k].0))
                .collect();
            row.sort_by_key(|(idx, _)| *idx);
            out.extend(row);
        }
        out
    };
    assert_eq!(sort_rows(&c_topn), sort_rows(&c_plain));
}

/// The unchunked oracle stays bit-equivalent to the chunked driver at the
/// degenerate `chunk_cols >= ncols` setting on the small fixture.
#[test]
fn unchunked_oracle_matches_chunked_one_chunk() {
    let (a_ip, a_idx, a_d, b_ip, b_idx, b_d) = make_a_b();
    let a = CsrView::new(2, 3, &a_ip, &a_idx, &a_d).unwrap();
    let b = CsrView::new(3, 4, &b_ip, &b_idx, &b_d).unwrap();
    let opts = TopNOptions {
        sort: SortMode::ByValueDesc,
        chunk_cols: Some(usize::MAX),
        ..Default::default()
    };
    let chunked = sp_matmul_topn(a, b, 2, opts);
    let oracle = sp_matmul_topn_unchunked_for_tests(a, b, 2, opts);
    assert_eq!(chunked.indptr, oracle.indptr);
    assert_eq!(chunked.indices, oracle.indices);
    assert_eq!(chunked.data, oracle.data);
}

/// `n_threads = None` skips the parallel path; output must match the
/// `Some(1)` setting which also routes through the sequential path.
#[test]
fn n_threads_none_and_one_agree() {
    let (a_ip, a_idx, a_d, b_ip, b_idx, b_d) = make_a_b();
    let a = CsrView::new(2, 3, &a_ip, &a_idx, &a_d).unwrap();
    let b = CsrView::new(3, 4, &b_ip, &b_idx, &b_d).unwrap();
    let opts_none = TopNOptions {
        sort: SortMode::ByValueDesc,
        ..Default::default()
    };
    let opts_one = TopNOptions {
        n_threads: Some(1),
        ..opts_none
    };
    let c_none = sp_matmul_topn(a, b, 2, opts_none);
    let c_one = sp_matmul_topn(a, b, 2, opts_one);
    assert_eq!(c_none.indptr, c_one.indptr);
    assert_eq!(c_none.indices, c_one.indices);
    assert_eq!(c_none.data, c_one.data);
}

/// `n_threads = Some(4)` routes through the parallel driver; output must
/// match the sequential `n_threads = None` baseline on the small fixture.
#[test]
fn matmul_topn_n_threads_many_matches_sequential() {
    let (a_ip, a_idx, a_d, b_ip, b_idx, b_d) = make_a_b();
    let a = CsrView::new(2, 3, &a_ip, &a_idx, &a_d).unwrap();
    let b = CsrView::new(3, 4, &b_ip, &b_idx, &b_d).unwrap();
    let base = TopNOptions {
        sort: SortMode::ByValueDesc,
        ..Default::default()
    };
    let seq = sp_matmul_topn(a, b, 2, base);
    let par = sp_matmul_topn(
        a,
        b,
        2,
        TopNOptions {
            n_threads: Some(4),
            ..base
        },
    );
    assert_eq!(par.indptr, seq.indptr);
    assert_eq!(par.indices, seq.indices);
    assert_eq!(par.data, seq.data);
}

/// With room for every column, every sort order and thread count gives the
/// entries of the plain product.
#[test]
fn full_top_n_is_the_product() {
    // A = [[1, 2], [0, -3]], B = [[1, 0, 4], [-5, 6, 0]]
    let a_data = vec![1i32, 2, -3];
    let b_data = vec![1i32, 4, -5, 6];
    let a = CsrView::new(2, 2, &[0i32, 2, 3], &[0i32, 1, 1], &a_data).unwrap();
    let b = CsrView::new(2, 3, &[0i32, 2, 4], &[0i32, 2, 0, 1], &b_data).unwrap();
    let plain = sp_matmul(a, b);
    let rows = |c: &CsrMatrix<i32, i32>| -> Vec<Vec<(i32, i32)>> {
        (0..c.nrows)
            .map(|i| {
                let mut row: Vec<(i32, i32)> = (c.indptr[i] as usize..c.indptr[i + 1] as usize)
                    .map(|k| (c.indices[k], c.data[k]))
                    .collect();
                row.sort();
                row
            })
            .collect()
    };
    assert_eq!(
        rows(&plain),
        vec![vec![(0, -9), (1, 12), (2, 4)], vec![(0, 15), (1, -18)]]
    );
    for sort in [SortMode::ByColumn, SortMode::ByValueDesc] {
        for n_threads in [None, Some(1), Some(3)] {
            for chunk_cols in [1usize, 2, 3] {
                let opts = TopNOptions {
                    sort,
                    n_threads,
                    chunk_cols: Some(chunk_cols),
                    ..Default::default()
                };
                let c = try_sp_matmul_topn(a, b, 3, opts).unwrap();
                assert_eq!(rows(&c), rows(&plain));
            }
        }
    }
}

/// A threshold is exceeded strictly; without one everything is accepted.
#[test]
fn threshold_is_strict() {
    let a_data = vec![1i32];
    let b_data = vec![5i32, 6, i32::MIN];
    let a = CsrView::new(1, 1, &[0i32, 1], &[0i32], &a_data).unwrap();
    let b = CsrView::new(1, 3, &[0i32, 3], &[0i32, 1, 2], &b_data).unwrap();
    let at = |threshold: Option<i32>| {
        let opts = TopNOptions {
            threshold,
            sort: SortMode::ByValueDesc,
            ..Default::default()
        };
        sp_matmul_topn(a, b, 3, opts).data
    };
    assert_eq!(at(Some(5)), vec![6]);
    assert_eq!(at(Some(4)), vec![6, 5]);
    assert_eq!(at(Some(6)), Vec::<i32>::new());
    assert_eq!(at(Some(i32::MIN)), vec![6, 5]);
    assert_eq!(at(None), vec![6, 5, i32::MIN]);
}

/// NaN sums are never kept: they do not compare with anything.
#[test]
fn nan_sums_are_left_out() {
    let a_data = floats(&[1.0]);
    let b_data = floats(&[f64::NAN, 2.0, f64::NEG_INFINITY]);
    let a = CsrView::new(1, 1, &[0i32, 1], &[0i32], &a_data).unwrap();
    let b = CsrView::new(1, 3, &[0i32, 3], &[0i32, 1, 2], &b_data).unwrap();
    let opts = TopNOptions {
        sort: SortMode::ByValueDesc,
        ..Default::default()
    };
    let c = sp_matmul_topn(a, b, 3, opts);
    assert_eq!(c.indices, vec![1, 2]);
    assert_eq!(c.data, floats(&[2.0, f64::NEG_INFINITY]));
}

/// The kept entries appear in column order.
#[test]
fn default_order_is_by_column() {
    let a_data = vec![1i32];
    let b_data = vec![5i32, 3, 4];
    let a = CsrView::new(1, 1, &[0i32, 1], &[0i32], &a_data).unwrap();
    let b = CsrView::new(1, 3, &[0i32, 3], &[0i32, 1, 2], &b_data).unwrap();
    let c = sp_matmul_topn(a, b, 2, TopNOptions::default());
    assert_eq!(c.indptr, vec![0, 2]);
    assert_eq!(c.indices, vec![0, 2]);
    assert_eq!(c.data, vec![5, 4]);
    let c = sp_matmul_topn_unchunked_for_tests(a, b, 2, TopNOptions::default());
    assert_eq!(c.indices, vec![0, 2]);
    // With room for every column too.
    let c = sp_matmul_topn(a, b, 3, TopNOptions::default());
    assert_eq!(c.indices, vec![0, 1, 2]);
}

/// The thread count leaves no trace, on the shortcut to the plain product
/// neither.
#[test]
fn threads_leave_no_trace_in_integers() {
    let a_data = vec![1i32, -1, 2, 3];
    let b_data = vec![4i32, 4, 1, 7, 2];
    let a = CsrView::new(3, 2, &[0i32, 2, 3, 4], &[0i32, 1, 1, 0], &a_data).unwrap();
    let b = CsrView::new(2, 4, &[0i32, 3, 5], &[0i32, 2, 3, 0, 1], &b_data).unwrap();
    for top_n in 1usize..=5 {
        let one = sp_matmul_topn(a, b, top_n, TopNOptions::default());
        let many = sp_matmul_topn(
            a,
            b,
            top_n,
            TopNOptions {
                n_threads: Some(3),
                ..Default::default()
            },
        );
        assert_eq!(one.indptr, many.indptr);
        assert_eq!(one.indices, many.indices);
        assert_eq!(one.data, many.data);
    }
}

/// Options suited to B: its own where the columns ascend, one chunk otherwise.
#[test]
fn options_suited_to_the_rows() {
    let a_data = vec![1i32];
    let b_data = vec![5i32, 3];
    let a = CsrView::new(1, 1, &[0i32, 1], &[0i32], &a_data).unwrap();
    let sorted = CsrView::new(1, 3, &[0i32, 2], &[0i32, 2], &b_data).unwrap();
    let unsorted = CsrView::new(1, 3, &[0i32, 2], &[2i32, 0], &b_data).unwrap();
    let opts = TopNOptions::<i32>::default();
    let o = suited_options(a, sorted, 1, opts, Some(65536)).unwrap();
    assert_eq!(o.chunk_cols, Some(4096));
    assert_eq!(o.accum_mode, AccumMode::Adaptive);
    let given = TopNOptions {
        chunk_cols: Some(7),
        ..opts
    };
    assert_eq!(
        suited_options(a, sorted, 1, given, None).unwrap().chunk_cols,
        Some(7)
    );
    let o = suited_options(a, unsorted, 1, given, None).unwrap();
    assert_eq!(o.chunk_cols, Some(usize::MAX));
    assert_eq!(o.accum_mode, AccumMode::LinkedList);
    let c = sp_matmul_topn(a, unsorted, 1, o);
    assert_eq!((c.indices[0], c.data[0]), (2, 5));
    let wide = CsrView::new(1, u32::MAX as usize, &[0i32, 2], &[2i32, 0], &b_data).unwrap();
    assert!(suited_options(a, wide, 1, opts, None).is_none());
}
