//! The column-chunked kernel: chunk widths, projections and accumulators.
use sp_matmul_rs::chunked::{
    auto_tile, chunk_cols_for, default_chunk_cols, pick_projection, resolve_blocking,
    resolve_chunk_cols, row_update_density, run, sp_matmul_topn_chunked,
    try_sp_matmul_topn_chunked, AccumMode, BProjection, DEFAULT_ROW_BLOCK,
};
use sp_matmul_rs::csr::{CsrError, CsrMatrix, CsrView};
use sp_matmul_rs::matmul_topn::{SortMode, TopNOptions};
use sp_matmul_rs::scalar::Scalar;

#[derive(Clone, Copy, Debug, PartialEq, PartialOrd)]
struct F64(f64);

impl Scalar for F64 {
    const IS_FLOAT: bool = true;

    fn spec_zero() -> Self {
        Self::zero()
    }
    fn spec_min_value() -> Self {
        Self::min_value()
    }
    fn spec_limits_min() -> Self {
        Self::cpp_numeric_limits_min()
    }
    fn spec_plus(self, other: Self) -> Self {
        self.plus(other)
    }
    fn spec_times(self, other: Self) -> Self {
        self.times(other)
    }
    fn spec_mul_add(self, b: Self, acc: Self) -> Self {
        self.mul_add(b, acc)
    }
    fn spec_max(self, other: Self) -> Self {
        self.max(other)
    }
    fn spec_less(self, other: Self) -> bool {
        self.less(other)
    }
    fn spec_equals(self, other: Self) -> bool {
        self.equals(other)
    }
    fn ordered(self) -> bool {
        !self.0.is_nan()
    }
    fn lemma_less_ordered(_: Self, _: Self) {}
    fn lemma_less_transitive(_: Self, _: Self, _: Self) {}
    fn lemma_not_less_transitive(_: Self, _: Self, _: Self) {}
    fn lemma_max_exceeds(_: Self, _: Self, _: Self) {}
    fn lemma_constants() {}
    fn lemma_limit_ties(_: Self, _: Self) {}

    fn zero() -> Self {
        F64(0.0)
    }
    fn min_value() -> Self {
        F64(f64::NEG_INFINITY)
    }
    fn cpp_numeric_limits_min() -> Self {
        F64(f64::MIN_POSITIVE)
    }
    fn plus(self, other: Self) -> Self {
        F64(self.0 + other.0)
    }
    fn times(self, other: Self) -> Self {
        F64(self.0 * other.0)
    }
    fn mul_add(self, b: Self, acc: Self) -> Self {
        F64(self.0 * b.0 + acc.0)
    }
    fn max(self, other: Self) -> Self {
        F64(self.0.max(other.0))
    }
    fn less(self, other: Self) -> bool {
        self.0 < other.0
    }
    fn equals(self, other: Self) -> bool {
        self.0 == other.0
    }
}

#[derive(Clone, Copy, Debug, PartialEq, PartialOrd)]
struct F32(f32);

impl Scalar for F32 {
    const IS_FLOAT: bool = true;

    fn spec_zero() -> Self {
        Self::zero()
    }
    fn spec_min_value() -> Self {
        Self::min_value()
    }
    fn spec_limits_min() -> Self {
        Self::cpp_numeric_limits_min()
    }
    fn spec_plus(self, other: Self) -> Self {
        self.plus(other)
    }
    fn spec_times(self, other: Self) -> Self {
        self.times(other)
    }
    fn spec_mul_add(self, b: Self, acc: Self) -> Self {
        self.mul_add(b, acc)
    }
    fn spec_max(self, other: Self) -> Self {
        self.max(other)
    }
    fn spec_less(self, other: Self) -> bool {
        self.less(other)
    }
    fn spec_equals(self, other: Self) -> bool {
        self.equals(other)
    }
    fn ordered(self) -> bool {
        !self.0.is_nan()
    }
    fn lemma_less_ordered(_: Self, _: Self) {}
    fn lemma_less_transitive(_: Self, _: Self, _: Self) {}
    fn lemma_not_less_transitive(_: Self, _: Self, _: Self) {}
    fn lemma_max_exceeds(_: Self, _: Self, _: Self) {}
    fn lemma_constants() {}
    fn lemma_limit_ties(_: Self, _: Self) {}

    fn zero() -> Self {
        F32(0.0)
    }
    fn min_value() -> Self {
        F32(f32::NEG_INFINITY)
    }
    fn cpp_numeric_limits_min() -> Self {
        F32(f32::MIN_POSITIVE)
    }
    fn plus(self, other: Self) -> Self {
        F32(self.0 + other.0)
    }
    fn times(self, other: Self) -> Self {
        F32(self.0 * other.0)
    }
    fn mul_add(self, b: Self, acc: Self) -> Self {
        F32(self.0 * b.0 + acc.0)
    }
    fn max(self, other: Self) -> Self {
        F32(self.0.max(other.0))
    }
    fn less(self, other: Self) -> bool {
        self.0 < other.0
    }
    fn equals(self, other: Self) -> bool {
        self.0 == other.0
    }
}

fn default_is_power_of_two_in_range<V: Scalar>() {
    let n = default_chunk_cols::<V>();
    assert!(n >= 64, "default {n} < floor");
    assert!(n <= (1 << 20), "default {n} > ceil");
    assert!(n.is_power_of_two(), "default {n} not a power of two");
}

#[test]
fn default_chunk_cols_f32() {
    default_is_power_of_two_in_range::<F32>();
}

#[test]
fn default_chunk_cols_f64() {
    default_is_power_of_two_in_range::<F64>();
}

#[test]
fn default_chunk_cols_i32() {
    default_is_power_of_two_in_range::<i32>();
}

#[test]
fn default_chunk_cols_i64() {
    default_is_power_of_two_in_range::<i64>();
}

/// The width for a given cache size: half the next power of two of the columns
/// that fit, within the floor and the ceiling.
#[test]
fn chunk_width_of_cache_sizes() {
    // 64 KiB at 8 bytes per column: 8192 fit, a power of two already.
    assert_eq!(chunk_cols_for::<i32>(Some(65536)), 4096);
    assert_eq!(chunk_cols_for::<i32>(None), 4096);
    // 64 KiB at 12 bytes per column: 5461 fit, rounded up to 8192.
    assert_eq!(chunk_cols_for::<i64>(Some(65536)), 4096);
    assert_eq!(chunk_cols_for::<i64>(Some(32768)), 2048);
    // Floor and ceiling.
    assert_eq!(chunk_cols_for::<i32>(Some(16)), 64);
    assert_eq!(chunk_cols_for::<i32>(Some(1 << 30)), 1 << 20);
}

#[test]
fn requested_width_is_clipped() {
    assert_eq!(resolve_chunk_cols::<i32>(Some(7), 100), 7);
    assert_eq!(resolve_chunk_cols::<i32>(Some(usize::MAX), 100), 100);
    assert_eq!(resolve_chunk_cols::<i32>(Some(5), 0), 1);
    assert_eq!(
        resolve_chunk_cols::<i32>(Some(usize::MAX), usize::MAX),
        u32::MAX as usize - 2
    );
}

type CsrParts = (Vec<i32>, Vec<i32>, Vec<F64>, Vec<i32>, Vec<i32>, Vec<F64>);

fn floats(values: &[f64]) -> Vec<F64> {
    values.iter().map(|&x| F64(x)).collect()
}

/// A (2×3): [[1, 0, 2], [0, 3, 4]]
/// B (3×4): [[1, 0, 0, 5], [0, 1, 0, 6], [0, 0, 1, 7]]
/// C = A·B:
/// row 0: [1, 0, 2, 5+14] = [1, 0, 2, 19]
/// row 1: [0, 3, 4, 18+28] = [0, 3, 4, 46]
fn make_a_b() -> CsrParts {
    let a_indptr = vec![0i32, 2, 4];
    let a_indices = vec![0i32, 2, 1, 2];
    let a_data = floats(&[1.0, 2.0, 3.0, 4.0]);
    let b_indptr = vec![0i32, 2, 4, 6];
    let b_indices = vec![0i32, 3, 1, 3, 2, 3];
    let b_data = floats(&[1.0, 5.0, 1.0, 6.0, 1.0, 7.0]);
    (a_indptr, a_indices, a_data, b_indptr, b_indices, b_data)
}

fn rows_sorted(c: &CsrMatrix<F64, i32>) -> Vec<Vec<(i32, f64)>> {
    (0..c.nrows)
        .map(|i| {
            let s = c.indptr[i] as usize;
            let e = c.indptr[i + 1] as usize;
            let mut row: Vec<(i32, f64)> = (s..e).map(|k| (c.indices[k], c.data[k].0)).collect();
            row.sort_by_key(|(idx, _)| *idx);
            row
        })
        .collect()
}

/// For each strategy, run the chunked driver at the given width and return the
/// row-sorted (idx, val) lists.
#[allow(clippy::type_complexity)]
fn run_both(
    a: CsrView<'_, F64, i32>,
    b: CsrView<'_, F64, i32>,
    top_n: usize,
    opts: TopNOptions<F64>,
    chunk_cols: usize,
) -> (Vec<Vec<(i32, f64)>>, Vec<Vec<(i32, f64)>>) {
    let cc = chunk_cols.min(b.ncols.max(1));
    let c_bs = run::<F64, i32>(a, b, top_n, opts, cc, BProjection::BinarySearch).unwrap();
    let c_cu = run::<F64, i32>(a, b, top_n, opts, cc, BProjection::Cursor).unwrap();
    (rows_sorted(&c_bs), rows_sorted(&c_cu))
}

/// chunk_cols >= ncols collapses to one chunk; must match single-chunk semantics.
#[test]
fn one_big_chunk_matches_known_product() {
    let (a_ip, a_idx, a_d, b_ip, b_idx, b_d) = make_a_b();
    let a = CsrView::new(2, 3, &a_ip, &a_idx, &a_d).unwrap();
    let b = CsrView::new(3, 4, &b_ip, &b_idx, &b_d).unwrap();
    let opts = TopNOptions {
        sort: SortMode::ByValueDesc,
        ..Default::default()
    };
    let (bs, cu) = run_both(a, b, 2, opts, 4);
    // row 0 top-2: (3, 19) (2, 2); row 1 top-2: (3, 46) (2, 4)
    let expected = vec![vec![(2, 2.0), (3, 19.0)], vec![(2, 4.0), (3, 46.0)]];
    assert_eq!(bs, expected);
    assert_eq!(cu, expected);
}

/// chunk_cols == 1 produces ncols-many chunks; output must still match.
#[test]
fn one_col_chunks_match() {
    let (a_ip, a_idx, a_d, b_ip, b_idx, b_d) = make_a_b();
    let a = CsrView::new(2, 3, &a_ip, &a_idx, &a_d).unwrap();
    let b = CsrView::new(3, 4, &b_ip, &b_idx, &b_d).unwrap();
    let opts = TopNOptions {
        sort: SortMode::ByColumn,
        ..Default::default()
    };
    let (bs, cu) = run_both(a, b, 4, opts, 1);
    // top_n=4 keeps all nonzeros; sorted by column.
    let expected = vec![
        vec![(0, 1.0), (2, 2.0), (3, 19.0)],
        vec![(1, 3.0), (2, 4.0), (3, 46.0)],
    ];
    assert_eq!(bs, expected);
    assert_eq!(cu, expected);
}

/// chunk_cols that does not divide ncols: the last chunk is short.
#[test]
fn non_divisor_chunk_width() {
    let (a_ip, a_idx, a_d, b_ip, b_idx, b_d) = make_a_b();
    let a = CsrView::new(2, 3, &a_ip, &a_idx, &a_d).unwrap();
    let b = CsrView::new(3, 4, &b_ip, &b_idx, &b_d).unwrap();
    let opts = TopNOptions {
        sort: SortMode::ByValueDesc,
        ..Default::default()
    };
    // ncols = 4; chunk_cols = 3 gives two chunks: [0..3), [3..4)
    let (bs, cu) = run_both(a, b, 4, opts, 3);
    let expected = vec![
        vec![(0, 1.0), (2, 2.0), (3, 19.0)],
        vec![(1, 3.0), (2, 4.0), (3, 46.0)],
    ];
    // Sort the two-chunk output by column (ByValueDesc gave us value order).
    let resort = |rs: Vec<Vec<(i32, f64)>>| -> Vec<Vec<(i32, f64)>> {
        rs.into_iter()
            .map(|mut r| {
                r.sort_by_key(|(idx, _)| *idx);
                r
            })
            .collect()
    };
    assert_eq!(resort(bs), expected);
    assert_eq!(resort(cu), expected);
}

/// All A-row entries land in one chunk: most chunks are empty for the row.
#[test]
fn most_chunks_empty_for_row() {
    // A is 1×10 with a single entry at col 3. B is 10×16 with B[3, :] only
    // populating columns 5 and 7. Both fall into the [4..8) chunk if width=4.
    let a_indptr = vec![0i32, 1];
    let a_indices = vec![3i32];
    let a_data = floats(&[2.0]);
    let b_indptr = vec![0i32, 0, 0, 0, 2, 2, 2, 2, 2, 2, 2];
    let b_indices = vec![5i32, 7];
    let b_data = floats(&[3.0, 5.0]);
    let a = CsrView::new(1, 10, &a_indptr, &a_indices, &a_data).unwrap();
    let b = CsrView::new(10, 16, &b_indptr, &b_indices, &b_data).unwrap();
    let opts = TopNOptions {
        sort: SortMode::ByColumn,
        ..Default::default()
    };
    // width=4 gives 4 chunks: [0..4) [4..8) [8..12) [12..16). Only chunk 1 has work.
    let (bs, cu) = run_both(a, b, 4, opts, 4);
    let expected = vec![vec![(5, 6.0), (7, 10.0)]];
    assert_eq!(bs, expected);
    assert_eq!(cu, expected);
}

/// A value found in a later chunk must displace an earlier-chunk value only if
/// strictly greater. Tests the cross-chunk threshold accumulation.
#[test]
fn later_chunk_displaces_earlier() {
    let a_indptr = vec![0i32, 3];
    let a_indices = vec![0i32, 1, 2];
    let a_data = floats(&[1.0, 1.0, 1.0]);
    // B row 0: col 0 with 5, col 5 with 1
    // B row 1: col 2 with 7
    // B row 2: col 4 with 3
    let b_indptr = vec![0i32, 2, 3, 4];
    let b_indices = vec![0i32, 5, 2, 4];
    let b_data = floats(&[5.0, 1.0, 7.0, 3.0]);
    let a = CsrView::new(1, 3, &a_indptr, &a_indices, &a_data).unwrap();
    let b = CsrView::new(3, 6, &b_indptr, &b_indices, &b_data).unwrap();
    // Expected dense product row 0: cols {0:5, 2:7, 4:3, 5:1}. Top-2 by value: 7, 5.
    let opts = TopNOptions {
        sort: SortMode::ByValueDesc,
        ..Default::default()
    };
    let (bs, cu) = run_both(a, b, 2, opts, 2);
    let expected = vec![vec![(0, 5.0), (2, 7.0)]];
    assert_eq!(bs, expected);
    assert_eq!(cu, expected);
}

/// top_n exactly fills with chunk 1; chunk 2 must not displace equal values.
/// Regression guard for `>` (strict) in the heap push guard.
#[test]
fn equal_value_does_not_displace() {
    // A: 1×2 all ones. B: 2×4. row 0: col 0 with 3 and col 1 with 3.
    // row 1: col 3 with 3 (equal). With chunk_cols=2 and top_n=2:
    // chunk 1 [0..2): heap = {(0,3), (1,3)}, min = 3.
    // chunk 2 [2..4): col 3 with 3 must not displace (3 is not > 3).
    let a_indptr = vec![0i32, 2];
    let a_indices = vec![0i32, 1];
    let a_data = floats(&[1.0, 1.0]);
    let b_indptr = vec![0i32, 2, 3];
    let b_indices = vec![0i32, 1, 3];
    let b_data = floats(&[3.0, 3.0, 3.0]);
    let a = CsrView::new(1, 2, &a_indptr, &a_indices, &a_data).unwrap();
    let b = CsrView::new(2, 4, &b_indptr, &b_indices, &b_data).unwrap();
    let opts = TopNOptions {
        sort: SortMode::ByColumn,
        ..Default::default()
    };
    let (bs, cu) = run_both(a, b, 2, opts, 2);
    // Heap kept the first two equal values inserted (cols 0 and 1).
    let expected = vec![vec![(0, 3.0), (1, 3.0)]];
    assert_eq!(bs, expected);
    assert_eq!(cu, expected);
}

/// Threshold pruning at the per-row baseline works across chunks.
#[test]
fn threshold_filters_across_chunks() {
    let (a_ip, a_idx, a_d, b_ip, b_idx, b_d) = make_a_b();
    let a = CsrView::new(2, 3, &a_ip, &a_idx, &a_d).unwrap();
    let b = CsrView::new(3, 4, &b_ip, &b_idx, &b_d).unwrap();
    let opts = TopNOptions {
        threshold: Some(F64(10.0)),
        sort: SortMode::ByValueDesc,
        ..Default::default()
    };
    // width = 2 gives two chunks; only 19 (row 0) and 46 (row 1) survive threshold 10.
    let (bs, cu) = run_both(a, b, 4, opts, 2);
    let expected = vec![vec![(3, 19.0)], vec![(3, 46.0)]];
    assert_eq!(bs, expected);
    assert_eq!(cu, expected);
}

/// top_n smaller than per-chunk nonzeros: heap evicts within a chunk.
#[test]
fn topn_smaller_than_per_chunk_nnz() {
    let (a_ip, a_idx, a_d, b_ip, b_idx, b_d) = make_a_b();
    let a = CsrView::new(2, 3, &a_ip, &a_idx, &a_d).unwrap();
    let b = CsrView::new(3, 4, &b_ip, &b_idx, &b_d).unwrap();
    let opts = TopNOptions {
        sort: SortMode::ByValueDesc,
        ..Default::default()
    };
    // top_n = 1: just the largest value per row.
    let (bs, cu) = run_both(a, b, 1, opts, 4);
    let expected = vec![vec![(3, 19.0)], vec![(3, 46.0)]];
    assert_eq!(bs, expected);
    assert_eq!(cu, expected);
}

/// Forced Dense and forced LinkedList agree on the fixture for every chunk
/// width × projection, for float values without zero sums or ties.
#[test]
fn dense_matches_linked_list() {
    let (a_ip, a_idx, a_d, b_ip, b_idx, b_d) = make_a_b();
    let a = CsrView::new(2, 3, &a_ip, &a_idx, &a_d).unwrap();
    let b = CsrView::new(3, 4, &b_ip, &b_idx, &b_d).unwrap();
    for chunk_cols in [1usize, 2, 3, 4, 8] {
        for projection in [BProjection::BinarySearch, BProjection::Cursor] {
            for top_n in [1usize, 2, 4] {
                let mk = |accum_mode| TopNOptions::<F64> {
                    sort: SortMode::ByColumn,
                    accum_mode,
                    ..Default::default()
                };
                let dense =
                    run::<F64, i32>(a, b, top_n, mk(AccumMode::Dense), chunk_cols, projection)
                        .unwrap();
                let linked = run::<F64, i32>(
                    a,
                    b,
                    top_n,
                    mk(AccumMode::LinkedList),
                    chunk_cols,
                    projection,
                )
                .unwrap();
                assert_eq!(
                    rows_sorted(&dense),
                    rows_sorted(&linked),
                    "chunk_cols={chunk_cols} projection={projection:?} top_n={top_n}"
                );
            }
        }
    }
}

/// Documented dense-mode caveat: a column whose products cancel to exactly
/// 0.0 is treated as untouched and dropped; the linked-list path keeps it.
#[test]
fn dense_drops_exact_zero_sum_floats() {
    // A = [1, 1]; B row 0 = {0: 1.0, 1: 5.0}, row 1 = {0: -1.0, 2: 3.0}.
    // Product row: col 0 = 0.0 (cancel), col 1 = 5.0, col 2 = 3.0.
    let a_indptr = vec![0i32, 2];
    let a_indices = vec![0i32, 1];
    let a_data = floats(&[1.0, 1.0]);
    let b_indptr = vec![0i32, 2, 4];
    let b_indices = vec![0i32, 1, 0, 2];
    let b_data = floats(&[1.0, 5.0, -1.0, 3.0]);
    let a = CsrView::new(1, 2, &a_indptr, &a_indices, &a_data).unwrap();
    let b = CsrView::new(2, 3, &b_indptr, &b_indices, &b_data).unwrap();
    let mk = |accum_mode| TopNOptions::<F64> {
        sort: SortMode::ByColumn,
        accum_mode,
        ..Default::default()
    };
    let linked =
        run::<F64, i32>(a, b, 3, mk(AccumMode::LinkedList), 4, BProjection::Cursor).unwrap();
    let dense = run::<F64, i32>(a, b, 3, mk(AccumMode::Dense), 4, BProjection::Cursor).unwrap();
    assert_eq!(
        rows_sorted(&linked),
        vec![vec![(0, 0.0), (1, 5.0), (2, 3.0)]],
    );
    assert_eq!(rows_sorted(&dense), vec![vec![(1, 5.0), (2, 3.0)]]);
}

/// Integer dtypes must ignore a forced Dense mode: a genuine zero result
/// (2 - 2) stays in the output because they fall back to the linked list.
#[test]
fn dense_forced_on_ints_falls_back_to_linked_list() {
    let a_indptr = vec![0i32, 2];
    let a_indices = vec![0i32, 1];
    let a_data = vec![1i32, 1];
    let b_indptr = vec![0i32, 2, 4];
    let b_indices = vec![0i32, 1, 0, 2];
    let b_data = vec![2i32, 5, -2, 3];
    let a = CsrView::new(1, 2, &a_indptr, &a_indices, &a_data).unwrap();
    let b = CsrView::new(2, 3, &b_indptr, &b_indices, &b_data).unwrap();
    let opts = TopNOptions::<i32> {
        sort: SortMode::ByColumn,
        accum_mode: AccumMode::Dense,
        ..Default::default()
    };
    let c = run::<i32, i32>(a, b, 3, opts, 4, BProjection::Cursor).unwrap();
    let mut row: Vec<(i32, i32)> = (0..c.nnz()).map(|k| (c.indices[k], c.data[k])).collect();
    row.sort_by_key(|(idx, _)| *idx);
    assert_eq!(row, vec![(0, 0), (1, 5), (2, 3)]);
}

/// row_update_density counts the exact per-row update total over ncols.
#[test]
fn row_update_density_exact() {
    let (a_ip, a_idx, a_d, b_ip, b_idx, b_d) = make_a_b();
    let a = CsrView::new(2, 3, &a_ip, &a_idx, &a_d).unwrap();
    let b = CsrView::new(3, 4, &b_ip, &b_idx, &b_d).unwrap();
    let density = |i: usize| {
        let (updates, columns) = row_update_density(a, b, i);
        updates as f64 / columns as f64
    };
    // Row 0 of A hits B-rows 0 (nnz 2) and 2 (nnz 2): 4 updates over 4 cols.
    assert_eq!(density(0), 1.0);
    // Row 1 hits B-rows 1 (nnz 2) and 2 (nnz 2): likewise 1.0.
    assert_eq!(density(1), 1.0);
}

/// pick_projection heuristic returns something sensible for both extremes.
#[test]
fn pick_projection_extremes() {
    // Dense B (nnz = nrows * ncols), few chunks: BinarySearch.
    let dense_indptr: Vec<i32> = (0..=4).map(|i| i * 8).collect();
    let dense_indices: Vec<i32> = (0..32).map(|k| k % 8).collect();
    let dense_data = vec![F64(1.0); 32];
    let dense = CsrView::new(4, 8, &dense_indptr, &dense_indices, &dense_data).unwrap();
    let a_ip = vec![0i32, 1];
    let a_idx = vec![0i32];
    let a_d = floats(&[1.0]);
    let a = CsrView::new(1, 4, &a_ip, &a_idx, &a_d).unwrap();
    assert_eq!(pick_projection(a, dense, 8), BProjection::BinarySearch);

    // Sparse B, many chunks: Cursor.
    let sparse_indptr = vec![0i32, 1, 1, 1, 1];
    let sparse_indices = vec![0i32];
    let sparse_data = floats(&[1.0]);
    let sparse = CsrView::new(4, 1024, &sparse_indptr, &sparse_indices, &sparse_data).unwrap();
    let a2 = CsrView::new(1, 4, &a_ip, &a_idx, &a_d).unwrap();
    assert_eq!(pick_projection(a2, sparse, 16), BProjection::Cursor);
}

/// auto_tile gates: each must individually veto the tiled+blocked path.
#[test]
fn auto_tile_gates() {
    // A 10×4 with 40 nnz (4 per row), B 4×40 with 20 nnz (5 per row).
    let a_ip: Vec<i32> = (0..=10).map(|i| i * 4).collect();
    let a_idx: Vec<i32> = (0..40).map(|k| k % 4).collect();
    let a_d = vec![F64(1.0); 40];
    let a = CsrView::new(10, 4, &a_ip, &a_idx, &a_d).unwrap();
    let b_ip: Vec<i32> = (0..=4).map(|i| i * 5).collect();
    let b_idx: Vec<i32> = (0..20).map(|k| k * 2).collect();
    let b_d = vec![F64(1.0); 20];
    let b = CsrView::new(4, 40, &b_ip, &b_idx, &b_d).unwrap();

    // All gates pass: 5 chunks, a.nnz 40 >= 2·4, nseg 20 <= 4·20.
    assert!(auto_tile(a, b, 8));
    // Single chunk: no reuse to win.
    assert!(!auto_tile(a, b, 40));
    // A too small to amortise the build (nnz 4 < 2·4).
    let a_small = CsrView::new(1, 4, &a_ip[..2], &a_idx[..4], &a_d[..4]).unwrap();
    assert!(!auto_tile(a_small, b, 8));
    // Segment table too large relative to nnz(B): 1 nnz per B-row,
    // 10 chunks: nseg 40 > 4·4.
    let bs_ip: Vec<i32> = vec![0, 1, 2, 3, 4];
    let bs_idx: Vec<i32> = vec![0, 10, 20, 30];
    let bs_d = vec![F64(1.0); 4];
    let b_thin = CsrView::new(4, 40, &bs_ip, &bs_idx, &bs_d).unwrap();
    assert!(!auto_tile(a, b_thin, 4));
}

/// `row_block: Some(0)` is the explicit classic-kernel escape hatch.
#[test]
fn row_block_zero_forces_classic() {
    let a_ip: Vec<i32> = (0..=10).map(|i| i * 4).collect();
    let a_idx: Vec<i32> = (0..40).map(|k| k % 4).collect();
    let a_d = vec![F64(1.0); 40];
    let a = CsrView::new(10, 4, &a_ip, &a_idx, &a_d).unwrap();
    let b_ip: Vec<i32> = (0..=4).map(|i| i * 5).collect();
    let b_idx: Vec<i32> = (0..20).map(|k| k * 2).collect();
    let b_d = vec![F64(1.0); 20];
    let b = CsrView::new(4, 40, &b_ip, &b_idx, &b_d).unwrap();

    let auto = TopNOptions::<F64>::default();
    assert_eq!(
        resolve_blocking(a, b, 8, &auto),
        (true, Some(DEFAULT_ROW_BLOCK))
    );
    let classic = TopNOptions::<F64> {
        row_block: Some(0),
        ..Default::default()
    };
    assert_eq!(resolve_blocking(a, b, 8, &classic), (false, None));

    // Outputs of both paths agree bit-for-bit.
    let c_auto = sp_matmul_topn_chunked(
        a,
        b,
        3,
        TopNOptions {
            chunk_cols: Some(8),
            ..auto
        },
    );
    let c_classic = sp_matmul_topn_chunked(
        a,
        b,
        3,
        TopNOptions {
            chunk_cols: Some(8),
            ..classic
        },
    );
    assert_eq!(c_auto.indptr, c_classic.indptr);
    assert_eq!(c_auto.indices, c_classic.indices);
    assert_eq!(c_auto.data, c_classic.data);
}

/// Rows come out in column order at every chunk width.
#[test]
fn column_order_at_every_width() {
    let (a_ip, a_idx, a_d, b_ip, b_idx, b_d) = make_a_b();
    let a = CsrView::new(2, 3, &a_ip, &a_idx, &a_d).unwrap();
    let b = CsrView::new(3, 4, &b_ip, &b_idx, &b_d).unwrap();
    let opts = TopNOptions::<F64> {
        accum_mode: AccumMode::LinkedList,
        ..Default::default()
    };
    let one = run::<F64, i32>(a, b, 3, opts, 4, BProjection::Cursor).unwrap();
    assert_eq!(one.indices, vec![0, 2, 3, 1, 2, 3]);
    let narrow = run::<F64, i32>(a, b, 3, opts, 1, BProjection::Cursor).unwrap();
    assert_eq!(narrow.indices, vec![0, 2, 3, 1, 2, 3]);
}

/// Integer sums wrap around at the ends of the type.
#[test]
fn integer_sums_wrap() {
    let a_d = vec![i32::MAX, 1];
    let b_d = vec![2i32, 5];
    let a = CsrView::new(1, 2, &[0i32, 2], &[0i32, 1], &a_d).unwrap();
    let b = CsrView::new(2, 1, &[0i32, 1, 2], &[0i32, 0], &b_d).unwrap();
    let c = run::<i32, i32>(a, b, 1, TopNOptions::default(), 1, BProjection::Cursor).unwrap();
    assert_eq!(c.data, vec![3]);
}

/// Without an override the adaptive mode counts updates: one in five columns
/// is dense, which drops an exact zero; fewer keep it.
#[test]
fn adaptive_mode_threshold() {
    let a_d = floats(&[1.0]);
    let b_d = floats(&[0.0]);
    let a = CsrView::new(1, 1, &[0i32, 1], &[0i32], &a_d).unwrap();
    let b5 = CsrView::new(1, 5, &[0i32, 1], &[2i32], &b_d).unwrap();
    let b6 = CsrView::new(1, 6, &[0i32, 1], &[2i32], &b_d).unwrap();
    let opts = TopNOptions::<F64>::default();
    assert_eq!(sp_matmul_topn_chunked(a, b5, 1, opts).nnz(), 0);
    assert_eq!(sp_matmul_topn_chunked(a, b6, 1, opts).nnz(), 1);
}

/// A result that fits is no error.
#[test]
fn chunked_result_that_fits() {
    let (a_ip, a_idx, a_d, b_ip, b_idx, b_d) = make_a_b();
    let a = CsrView::new(2, 3, &a_ip, &a_idx, &a_d).unwrap();
    let b = CsrView::new(3, 4, &b_ip, &b_idx, &b_d).unwrap();
    let r: Result<CsrMatrix<F64, i32>, CsrError> =
        try_sp_matmul_topn_chunked(a, b, 2, TopNOptions::default());
    assert_eq!(r.unwrap().nnz(), 4);
}

/// Without a threshold every value is accepted, the smallest of the type too.
#[test]
fn no_threshold_accepts_the_smallest_value() {
    let one = vec![1i32];
    let smallest = vec![i32::MIN];
    let a = CsrView::new(1, 1, &[0i32, 1], &[0i32], &one).unwrap();
    let b = CsrView::new(1, 1, &[0i32, 1], &[0i32], &smallest).unwrap();
    let c = sp_matmul_topn_chunked(a, b, 1, TopNOptions::default());
    assert_eq!(c.indptr, vec![0, 1]);
    assert_eq!(c.indices, vec![0]);
    assert_eq!(c.data, vec![i32::MIN]);
}

/// Entries of the smallest value fill the heap like any other, are not lost to
/// one another, and give way to larger ones once it is full.
#[test]
fn smallest_values_fill_the_heap() {
    let one = vec![1i32];
    let a = CsrView::new(1, 1, &[0i32, 1], &[0i32], &one).unwrap();
    let m = i32::MIN;
    let b_d = vec![m, m, m, 7, m];
    let b = CsrView::new(1, 5, &[0i32, 5], &[0i32, 1, 2, 3, 4], &b_d).unwrap();
    for chunk_cols in [1usize, 2, 5] {
        for sort in [SortMode::ByColumn, SortMode::ByValueDesc] {
            for (top_n, len) in [(1usize, 1usize), (2, 2), (4, 4), (5, 5), (9, 5)] {
                let opts = TopNOptions {
                    chunk_cols: Some(chunk_cols),
                    sort,
                    ..Default::default()
                };
                let c = sp_matmul_topn_chunked(a, b, top_n, opts);
                assert_eq!(c.nnz(), len, "top_n={top_n}");
                assert!(c.data.contains(&7));
                assert_eq!(c.data.iter().filter(|&&x| x == m).count(), len - 1);
                let mut cols = c.indices.clone();
                cols.sort();
                cols.dedup();
                assert_eq!(cols.len(), len);
            }
        }
    }
}

/// The dense accumulator keeps infinitely small sums where there is room.
#[test]
fn dense_keeps_negative_infinity() {
    let a_d = floats(&[1.0]);
    let b_d = floats(&[f64::NEG_INFINITY, 1.0, f64::NEG_INFINITY, f64::NAN, f64::NEG_INFINITY]);
    let a = CsrView::new(1, 1, &[0i32, 1], &[0i32], &a_d).unwrap();
    let b = CsrView::new(1, 5, &[0i32, 5], &[0i32, 1, 2, 3, 4], &b_d).unwrap();
    for accum_mode in [AccumMode::Dense, AccumMode::LinkedList] {
        let opts = TopNOptions::<F64> {
            accum_mode,
            ..Default::default()
        };
        let c = run::<F64, i32>(a, b, 5, opts, 5, BProjection::Cursor).unwrap();
        assert_eq!(c.indices, vec![0, 1, 2, 4]);
        let c = run::<F64, i32>(a, b, 5, opts, 2, BProjection::BinarySearch).unwrap();
        assert_eq!(c.indices, vec![0, 1, 2, 4]);
    }
}
