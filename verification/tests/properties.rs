//! Properties of the products on generated inputs.
use std::collections::BTreeMap;

use sp_matmul_rs::csr::{CsrMatrix, CsrView};
use sp_matmul_rs::scalar::Scalar;
use sp_matmul_rs::{
    sp_matmul, sp_matmul_topn, sp_matmul_topn_unchunked_for_tests, zip_sp_matmul_topn, AccumMode,
    BProjection, SortMode, TopNOptions,
};

#[derive(Clone, Copy, Debug, PartialEq, PartialOrd)]
struct F64(f64);

impl Scalar for F64 {
    const IS_FLOAT: bool = true;

    fn spec_zero() -> Self {
        Self::zero()
    }
    fn spec_min_value() -> Self {
        Self::min_value()
    }
    fn spec_limits_min() -> Self {
        Self::cpp_numeric_limits_min()
    }
    fn spec_plus(self, other: Self) -> Self {
        self.plus(other)
    }
    fn spec_times(self, other: Self) -> Self {
        self.times(other)
    }
    fn spec_mul_add(self, b: Self, acc: Self) -> Self {
        self.mul_add(b, acc)
    }
    fn spec_max(self, other: Self) -> Self {
        self.max(other)
    }
    fn spec_less(self, other: Self) -> bool {
        self.less(other)
    }
    fn spec_equals(self, other: Self) -> bool {
        self.equals(other)
    }
    fn ordered(self) -> bool {
        !self.0.is_nan()
    }
    fn lemma_less_ordered(_: Self, _: Self) {}
    fn lemma_less_transitive(_: Self, _: Self, _: Self) {}
    fn lemma_not_less_transitive(_: Self, _: Self, _: Self) {}
    fn lemma_max_exceeds(_: Self, _: Self, _: Self) {}
    fn lemma_constants() {}
    fn lemma_limit_ties(_: Self, _: Self) {}

    fn zero() -> Self {
        F64(0.0)
    }
    fn min_value() -> Self {
        F64(f64::NEG_INFINITY)
    }
    fn cpp_numeric_limits_min() -> Self {
        F64(f64::MIN_POSITIVE)
    }
    fn plus(self, other: Self) -> Self {
        F64(self.0 + other.0)
    }
    fn times(self, other: Self) -> Self {
        F64(self.0 * other.0)
    }
    fn mul_add(self, b: Self, acc: Self) -> Self {
        F64(self.0 * b.0 + acc.0)
    }
    fn max(self, other: Self) -> Self {
        F64(self.0.max(other.0))
    }
    fn less(self, other: Self) -> bool {
        self.0 < other.0
    }
    fn equals(self, other: Self) -> bool {
        self.0 == other.0
    }
}

struct CsrInput {
    nrows: usize,
    ncols: usize,
    indptr: Vec<i32>,
    indices: Vec<i32>,
    data: Vec<F64>,
}

impl CsrInput {
    fn view(&self) -> CsrView<'_, F64, i32> {
        CsrView::new(
            self.nrows,
            self.ncols,
            &self.indptr,
            &self.indices,
            &self.data,
        )
        .unwrap()
    }
}

fn next(state: &mut u64) -> u64 {
    *state = state
        .wrapping_mul(2862933555777941757)
        .wrapping_add(3037000493);
    *state >> 17
}

/// A matrix of about a quarter density whose values make ties unlikely.
fn build(state: &mut u64, nrows: usize, ncols: usize) -> CsrInput {
    let mut indptr = vec![0i32];
    let mut indices = Vec::new();
    let mut data = Vec::new();
    for r in 0..nrows {
        for c in 0..ncols {
            if next(state) & 0xFF < 64 {
                indices.push(c as i32);
                let v = 0.1 + 0.9 * ((next(state) & 0xFFFFFF) as f64) / (0xFFFFFF as f64);
                let perturb = 1.0 + 1e-4 * (((r * 31 + c) as f64).cos().abs());
                data.push(F64(v * perturb));
            }
        }
        indptr.push(indices.len() as i32);
    }
    CsrInput {
        nrows,
        ncols,
        indptr,
        indices,
        data,
    }
}

/// Pairs of factors of many shapes.
fn inputs() -> Vec<(CsrInput, CsrInput)> {
    let mut state = 0x5EEDu64;
    (0..32)
        .map(|_| {
            let nrows = 1 + (next(&mut state) % 20) as usize;
            let inner = 1 + (next(&mut state) % 25) as usize;
            let ncols = 1 + (next(&mut state) % 30) as usize;
            let a = build(&mut state, nrows, inner);
            let b = build(&mut state, inner, ncols);
            (a, b)
        })
        .collect()
}

fn rows_as_maps(c: &CsrMatrix<F64, i32>) -> Vec<BTreeMap<i32, f64>> {
    (0..c.nrows)
        .map(|i| {
            let s = c.indptr[i] as usize;
            let e = c.indptr[i + 1] as usize;
            (s..e).map(|k| (c.indices[k], c.data[k].0)).collect()
        })
        .collect()
}

fn maps_close(a: &[BTreeMap<i32, f64>], b: &[BTreeMap<i32, f64>]) -> bool {
    if a.len() != b.len() {
        return false;
    }
    for (ra, rb) in a.iter().zip(b.iter()) {
        if ra.len() != rb.len() {
            return false;
        }
        for (ka, va) in ra.iter() {
            match rb.get(ka) {
                None => return false,
                Some(vb) => {
                    let diff = (va - vb).abs();
                    let mag = va.abs().max(vb.abs());
                    if !(diff <= 1e-12 || diff <= 1e-12 * mag) {
                        return false;
                    }
                }
            }
        }
    }
    true
}

fn with_sort(sort: SortMode) -> TopNOptions<F64> {
    TopNOptions {
        sort,
        ..Default::default()
    }
}

/// sp_matmul_topn with top_n >= ncols, no threshold, ByColumn must collapse to sp_matmul.
#[test]
fn topn_eq_ncols_equals_matmul() {
    for (a, b) in inputs() {
        let (av, bv) = (a.view(), b.view());
        let c_topn = sp_matmul_topn(av, bv, b.ncols, TopNOptions::default());
        let c_plain = sp_matmul(av, bv);
        assert!(maps_close(&rows_as_maps(&c_topn), &rows_as_maps(&c_plain)));
    }
}

/// Every output row has at most `top_n` entries.
#[test]
fn topn_le_actual_nnz() {
    for (a, b) in inputs() {
        for top_n in 1usize..=12 {
            let c = sp_matmul_topn(a.view(), b.view(), top_n, with_sort(SortMode::ByValueDesc));
            for i in 0..c.nrows {
                let s = c.indptr[i] as usize;
                let e = c.indptr[i + 1] as usize;
                assert!(e - s <= top_n, "row {} has {} > top_n {}", i, e - s, top_n);
                assert!(c.data[s..e].windows(2).all(|w| w[0].0 >= w[1].0));
            }
        }
    }
}

/// ByColumn and ByValueDesc must select the same per-row entries (just sorted differently).
#[test]
fn sort_modes_agree_as_set() {
    for (a, b) in inputs() {
        for top_n in 1usize..=12 {
            let by_col = sp_matmul_topn(a.view(), b.view(), top_n, with_sort(SortMode::ByColumn));
            let by_val =
                sp_matmul_topn(a.view(), b.view(), top_n, with_sort(SortMode::ByValueDesc));
            assert!(maps_close(&rows_as_maps(&by_col), &rows_as_maps(&by_val)));
        }
    }
}

/// With a threshold, every output value strictly exceeds it.
#[test]
fn threshold_filters_correctly() {
    for (a, b) in inputs() {
        for top_n in 1usize..=10 {
            for t in [0.0, 0.1, 0.25, 0.49] {
                let opts = TopNOptions {
                    threshold: Some(F64(t)),
                    sort: SortMode::ByValueDesc,
                    ..Default::default()
                };
                let c = sp_matmul_topn(a.view(), b.view(), top_n, opts);
                for &v in &c.data {
                    assert!(v.0 > t, "value {} did not exceed threshold {}", v.0, t);
                }
            }
        }
    }
}

/// The chunked driver must produce the same per-row entries (as a set) at any
/// `chunk_cols` as at the single-chunk setting.
#[test]
fn chunked_matches_unchunked() {
    for (a, b) in inputs() {
        for top_n in 1usize..=12 {
            let at = |chunk_cols: usize| {
                let opts = TopNOptions {
                    chunk_cols: Some(chunk_cols),
                    ..Default::default()
                };
                rows_as_maps(&sp_matmul_topn(a.view(), b.view(), top_n, opts))
            };
            let whole = at(usize::MAX);
            for chunk_cols in [1usize, 4, 7, 63, 64, 511] {
                assert!(maps_close(&whole, &at(chunk_cols)));
            }
            let oracle =
                sp_matmul_topn_unchunked_for_tests(a.view(), b.view(), top_n, Default::default());
            assert!(maps_close(&whole, &rows_as_maps(&oracle)));
        }
    }
}

/// The parallel driver must produce the same per-row entries at any `n_threads`
/// as the sequential driver at the same `chunk_cols`.
#[test]
fn parallel_matches_sequential() {
    for (a, b) in inputs().into_iter().take(8) {
        for top_n in 1usize..=12 {
            for chunk_cols in [1usize, 5, 64, usize::MAX] {
                for sort in [SortMode::ByColumn, SortMode::ByValueDesc] {
                    let n_threads = 2 + (top_n + chunk_cols % 7) % 7;
                    let base = TopNOptions {
                        chunk_cols: Some(chunk_cols),
                        sort,
                        ..Default::default()
                    };
                    let par_opts = TopNOptions {
                        n_threads: Some(n_threads),
                        ..base
                    };
                    let c_seq = sp_matmul_topn(a.view(), b.view(), top_n, base);
                    let c_par = sp_matmul_topn(a.view(), b.view(), top_n, par_opts);
                    assert!(maps_close(&rows_as_maps(&c_seq), &rows_as_maps(&c_par)));
                    assert_eq!(c_seq.indptr, c_par.indptr);
                    assert_eq!(c_seq.indices, c_par.indices);
                }
            }
        }
    }
}

/// Projection, row blocks and tiling leave no trace in the result.
#[test]
fn organisation_leaves_no_trace() {
    for (a, b) in inputs() {
        for accum_mode in [AccumMode::LinkedList, AccumMode::Dense] {
            let base = TopNOptions {
                chunk_cols: Some(4),
                accum_mode,
                row_block: Some(0),
                ..Default::default()
            };
            let want = sp_matmul_topn(a.view(), b.view(), 5, base);
            for projection in [BProjection::BinarySearch, BProjection::Cursor] {
                for (row_block, tile_b) in [
                    (Some(0), false),
                    (Some(1), false),
                    (Some(3), false),
                    (Some(3), true),
                    (None, true),
                    (None, false),
                ] {
                    let opts = TopNOptions {
                        projection: Some(projection),
                        row_block,
                        tile_b,
                        ..base
                    };
                    let got = sp_matmul_topn(a.view(), b.view(), 5, opts);
                    assert_eq!(got.indptr, want.indptr);
                    assert_eq!(got.indices, want.indices);
                    assert_eq!(got.data, want.data);
                }
            }
        }
    }
}

/// Zipping a single chunk is equivalent (as a set per row) to truncating that chunk
/// to top_n by value desc.
#[test]
fn zip_collapses_single_chunk() {
    for (a, b) in inputs() {
        for top_n in 1usize..=10 {
            let chunk =
                sp_matmul_topn(a.view(), b.view(), top_n, with_sort(SortMode::ByValueDesc));
            let chunk_view = CsrView::new(
                chunk.nrows,
                chunk.ncols,
                &chunk.indptr,
                &chunk.indices,
                &chunk.data,
            )
            .unwrap();
            let zipped = zip_sp_matmul_topn(top_n, &[chunk_view]);
            assert!(maps_close(&rows_as_maps(&chunk), &rows_as_maps(&zipped)));
        }
    }
}

/// Edge cases.
#[test]
fn empty_inputs_produce_zero_matrix() {
    let zero_indptr_2: Vec<i32> = vec![0, 0, 0];
    let nil_data_f: Vec<F64> = vec![];
    let nil_idx: Vec<i32> = vec![];
    let a = CsrView::new(2, 3, &zero_indptr_2, &nil_idx, &nil_data_f).unwrap();
    let b_indptr: Vec<i32> = vec![0, 1, 2, 3];
    let b_indices: Vec<i32> = vec![0, 1, 0];
    let b_data: Vec<F64> = vec![F64(1.0), F64(2.0), F64(3.0)];
    let b = CsrView::new(3, 2, &b_indptr, &b_indices, &b_data).unwrap();

    // empty A
    let c = sp_matmul_topn(a, b, 5, TopNOptions::default());
    assert_eq!(c.nnz(), 0);

    // top_n == 0
    let a_full = CsrView::new(3, 3, &b_indptr, &b_indices, &b_data).unwrap();
    let b_full = CsrView::new(3, 3, &b_indptr, &b_indices, &b_data).unwrap();
    let c = sp_matmul_topn(a_full, b_full, 0, TopNOptions::default());
    assert_eq!(c.nnz(), 0);

    // empty zip
    let empty: Vec<CsrView<'_, F64, i32>> = vec![];
    let z = zip_sp_matmul_topn(5, &empty);
    assert_eq!(z.nrows, 0);
}
