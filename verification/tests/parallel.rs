//! The parallel driver and its row partition.
use sp_matmul_rs::chunked::sp_matmul_topn_chunked;
use sp_matmul_rs::csr::CsrView;
use sp_matmul_rs::matmul_topn::{SortMode, TopNOptions};
use sp_matmul_rs::parallel::{
    partition_rows, resolve_n_threads, sp_matmul_topn_parallel, try_sp_matmul_topn_in,
    try_sp_matmul_topn_parallel, ROW_BLOCK_HINT,
};
use sp_matmul_rs::scalar::Scalar;

#[derive(Clone, Copy, Debug, PartialEq, PartialOrd)]
struct F64(f64);

impl Scalar for F64 {
    const IS_FLOAT: bool = true;

    fn spec_zero() -> Self {
        Self::zero()
    }
    fn spec_min_value() -> Self {
        Self::min_value()
    }
    fn spec_limits_min() -> Self {
        Self::cpp_numeric_limits_min()
    }
    fn spec_plus(self, other: Self) -> Self {
        self.plus(other)
    }
    fn spec_times(self, other: Self) -> Self {
        self.times(other)
    }
    fn spec_mul_add(self, b: Self, acc: Self) -> Self {
        self.mul_add(b, acc)
    }
    fn spec_max(self, other: Self) -> Self {
        self.max(other)
    }
    fn spec_less(self, other: Self) -> bool {
        self.less(other)
    }
    fn spec_equals(self, other: Self) -> bool {
        self.equals(other)
    }
    fn ordered(self) -> bool {
        !self.0.is_nan()
    }
    fn lemma_less_ordered(_: Self, _: Self) {}
    fn lemma_less_transitive(_: Self, _: Self, _: Self) {}
    fn lemma_not_less_transitive(_: Self, _: Self, _: Self) {}
    fn lemma_max_exceeds(_: Self, _: Self, _: Self) {}
    fn lemma_constants() {}
    fn lemma_limit_ties(_: Self, _: Self) {}

    fn zero() -> Self {
        F64(0.0)
    }
    fn min_value() -> Self {
        F64(f64::NEG_INFINITY)
    }
    fn cpp_numeric_limits_min() -> Self {
        F64(f64::MIN_POSITIVE)
    }
    fn plus(self, other: Self) -> Self {
        F64(self.0 + other.0)
    }
    fn times(self, other: Self) -> Self {
        F64(self.0 * other.0)
    }
    fn mul_add(self, b: Self, acc: Self) -> Self {
        F64(self.0 * b.0 + acc.0)
    }
    fn max(self, other: Self) -> Self {
        F64(self.0.max(other.0))
    }
    fn less(self, other: Self) -> bool {
        self.0 < other.0
    }
    fn equals(self, other: Self) -> bool {
        self.0 == other.0
    }
}

#[test]
fn row_partitioning_covers_all_rows() {
    let cases = [
        (0usize, 1usize),
        (1, 1),
        (1, 4),
        (256, 1),
        (256, 4),
        (10_000, 8),
        (97, 3),
    ];
    for (nrows, nt) in cases {
        let blocks = partition_rows(nrows, nt, ROW_BLOCK_HINT);
        if nrows == 0 {
            assert!(blocks.is_empty(), "expected empty for nrows=0");
            continue;
        }
        assert!(!blocks.is_empty(), "expected non-empty for nrows={nrows}");
        assert_eq!(blocks[0].0, 0, "first block must start at 0");
        assert_eq!(
            blocks.last().unwrap().1,
            nrows,
            "last block must end at nrows",
        );
        for win in blocks.windows(2) {
            assert_eq!(win[0].1, win[1].0, "blocks must be contiguous");
        }
        for &(lo, hi) in &blocks {
            assert!(lo < hi, "block [{lo}, {hi}) must be non-empty");
        }
    }
}

#[test]
fn partition_handles_empty_input() {
    let blocks = partition_rows(0, 8, ROW_BLOCK_HINT);
    assert!(blocks.is_empty());
}

/// About four blocks per thread, none smaller than the hint but the last.
#[test]
fn partition_block_sizes() {
    assert_eq!(partition_rows(10, 1, 1), vec![(0, 3), (3, 6), (6, 9), (9, 10)]);
    assert_eq!(partition_rows(100, 4, 64), vec![(0, 64), (64, 100)]);
    assert_eq!(partition_rows(8, 2, 1).len(), 8);
}

#[test]
fn thread_count_defaults_to_one() {
    assert_eq!(resolve_n_threads(None), 1);
    assert_eq!(resolve_n_threads(Some(6)), 6);
}

type CsrParts = (Vec<i32>, Vec<i32>, Vec<F64>, Vec<i32>, Vec<i32>, Vec<F64>);

fn floats(values: &[f64]) -> Vec<F64> {
    values.iter().map(|&x| F64(x)).collect()
}

/// A (2×3): [[1, 0, 2], [0, 3, 4]]
/// B (3×4): [[1, 0, 0, 5], [0, 1, 0, 6], [0, 0, 1, 7]]
/// C = A·B:
/// row 0: [1, 0, 2, 5+14] = [1, 0, 2, 19]
/// row 1: [0, 3, 4, 18+28] = [0, 3, 4, 46]
fn make_a_b() -> CsrParts {
    let a_indptr = vec![0i32, 2, 4];
    let a_indices = vec![0i32, 2, 1, 2];
    let a_data = floats(&[1.0, 2.0, 3.0, 4.0]);
    let b_indptr = vec![0i32, 2, 4, 6];
    let b_indices = vec![0i32, 3, 1, 3, 2, 3];
    let b_data = floats(&[1.0, 5.0, 1.0, 6.0, 1.0, 7.0]);
    (a_indptr, a_indices, a_data, b_indptr, b_indices, b_data)
}

#[test]
fn n_threads_one_returns_sequential() {
    let (a_ip, a_idx, a_d, b_ip, b_idx, b_d) = make_a_b();
    let a = CsrView::new(2, 3, &a_ip, &a_idx, &a_d).unwrap();
    let b = CsrView::new(3, 4, &b_ip, &b_idx, &b_d).unwrap();
    let opts = TopNOptions {
        sort: SortMode::ByValueDesc,
        n_threads: Some(1),
        ..Default::default()
    };
    let par = sp_matmul_topn_parallel(a, b, 2, opts);
    let seq = sp_matmul_topn_chunked(a, b, 2, opts);
    assert_eq!(par.indptr, seq.indptr);
    assert_eq!(par.indices, seq.indices);
    assert_eq!(par.data, seq.data);
}

#[test]
fn parallel_n_threads_many_matches_sequential() {
    let (a_ip, a_idx, a_d, b_ip, b_idx, b_d) = make_a_b();
    let a = CsrView::new(2, 3, &a_ip, &a_idx, &a_d).unwrap();
    let b = CsrView::new(3, 4, &b_ip, &b_idx, &b_d).unwrap();
    let base = TopNOptions {
        sort: SortMode::ByValueDesc,
        ..Default::default()
    };
    let seq = sp_matmul_topn_chunked(a, b, 2, base);
    for nt in [2usize, 4, 8] {
        let opts = TopNOptions {
            n_threads: Some(nt),
            ..base
        };
        let par = sp_matmul_topn_parallel(a, b, 2, opts);
        assert_eq!(par.indptr, seq.indptr, "n_threads={nt}");
        assert_eq!(par.indices, seq.indices, "n_threads={nt}");
        assert_eq!(par.data, seq.data, "n_threads={nt}");
    }
}

#[test]
fn empty_inputs_short_circuit() {
    let zero_indptr: Vec<i32> = vec![0, 0, 0];
    let nil_idx: Vec<i32> = vec![];
    let nil_data: Vec<F64> = vec![];
    let a = CsrView::new(2, 3, &zero_indptr, &nil_idx, &nil_data).unwrap();
    let b_indptr: Vec<i32> = vec![0, 1, 2, 3];
    let b_indices: Vec<i32> = vec![0, 1, 0];
    let b_data = floats(&[1.0, 2.0, 3.0]);
    let b = CsrView::new(3, 2, &b_indptr, &b_indices, &b_data).unwrap();
    let opts = TopNOptions {
        n_threads: Some(4),
        ..Default::default()
    };
    let c = sp_matmul_topn_parallel(a, b, 5, opts);
    assert_eq!(c.nnz(), 0);
    assert_eq!(c.indptr, vec![0, 0, 0]);
}

/// Many row blocks on real threads come back in row order, whether the caller
/// brings the pool or not.
#[test]
fn many_blocks_keep_row_order() {
    let nrows = 1000usize;
    let a_ip: Vec<i64> = (0..=nrows as i64).collect();
    let a_idx: Vec<i64> = (0..nrows).map(|i| (i % 3) as i64).collect();
    let a_d: Vec<i64> = (1..=nrows as i64).collect();
    let a = CsrView::new(nrows, 3, &a_ip, &a_idx, &a_d).unwrap();
    let b_d = vec![1i64, 10, 100, 1000];
    let b = CsrView::new(3, 2, &[0i64, 1, 2, 4], &[0i64, 1, 0, 1], &b_d).unwrap();
    let opts = TopNOptions {
        sort: SortMode::ByValueDesc,
        n_threads: Some(4),
        ..Default::default()
    };
    let c = try_sp_matmul_topn_parallel(a, b, 1, opts).unwrap();
    assert_eq!(c.indptr, (0..=nrows as i64).collect::<Vec<i64>>());
    for i in 0..nrows {
        let (col, factor) = [(0, 1), (1, 10), (1, 1000)][i % 3];
        assert_eq!(c.indices[i], col);
        assert_eq!(c.data[i], factor * (i as i64 + 1));
    }
    let pool = rayon::ThreadPoolBuilder::new()
        .num_threads(2)
        .build()
        .unwrap();
    let d = try_sp_matmul_topn_in(a, b, 1, opts, &pool).unwrap();
    assert_eq!(d.indptr, c.indptr);
    assert_eq!(d.indices, c.indices);
    assert_eq!(d.data, c.data);
}
