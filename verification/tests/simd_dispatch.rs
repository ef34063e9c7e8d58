//! The fused and the baseline kernels agree, whichever is chosen.
use sp_matmul_rs::csr::{CsrMatrix, CsrView};
use sp_matmul_rs::index::Index;
use sp_matmul_rs::matmul_topn::{sp_matmul_topn, SortMode, TopNOptions};
use sp_matmul_rs::scalar::Scalar;
use sp_matmul_rs::simd::{
    avx2_fma_enabled, force_simd_baseline_for_tests, runtime_simd_label, SimdFacts, SimdState,
    SimdTarget,
};
use sp_matmul_rs::AccumMode;

#[derive(Clone, Copy, Debug, PartialEq, PartialOrd)]
struct F64<const FMA: bool>(f64);

impl<const FMA: bool> Scalar for F64<FMA> {
    const IS_FLOAT: bool = true;

    fn spec_zero() -> Self {
        Self::zero()
    }
    fn spec_min_value() -> Self {
        Self::min_value()
    }
    fn spec_limits_min() -> Self {
        Self::cpp_numeric_limits_min()
    }
    fn spec_plus(self, other: Self) -> Self {
        self.plus(other)
    }
    fn spec_times(self, other: Self) -> Self {
        self.times(other)
    }
    fn spec_mul_add(self, b: Self, acc: Self) -> Self {
        self.mul_add(b, acc)
    }
    fn spec_max(self, other: Self) -> Self {
        self.max(other)
    }
    fn spec_less(self, other: Self) -> bool {
        self.less(other)
    }
    fn spec_equals(self, other: Self) -> bool {
        self.equals(other)
    }
    fn ordered(self) -> bool {
        !self.0.is_nan()
    }
    fn lemma_less_ordered(_: Self, _: Self) {}
    fn lemma_less_transitive(_: Self, _: Self, _: Self) {}
    fn lemma_not_less_transitive(_: Self, _: Self, _: Self) {}
    fn lemma_max_exceeds(_: Self, _: Self, _: Self) {}
    fn lemma_constants() {}
    fn lemma_limit_ties(_: Self, _: Self) {}

    fn zero() -> Self {
        F64(0.0)
    }
    fn min_value() -> Self {
        F64(f64::NEG_INFINITY)
    }
    fn cpp_numeric_limits_min() -> Self {
        F64(f64::MIN_POSITIVE)
    }
    fn plus(self, other: Self) -> Self {
        F64(self.0 + other.0)
    }
    fn times(self, other: Self) -> Self {
        F64(self.0 * other.0)
    }
    fn mul_add(self, b: Self, acc: Self) -> Self {
        if FMA {
            F64(self.0.mul_add(b.0, acc.0))
        } else {
            F64(self.0 * b.0 + acc.0)
        }
    }
    fn max(self, other: Self) -> Self {
        F64(self.0.max(other.0))
    }
    fn less(self, other: Self) -> bool {
        self.0 < other.0
    }
    fn equals(self, other: Self) -> bool {
        self.0 == other.0
    }
}

#[derive(Clone, Copy, Debug, PartialEq, PartialOrd)]
struct F32<const FMA: bool>(f32);

impl<const FMA: bool> Scalar for F32<FMA> {
    const IS_FLOAT: bool = true;

    fn spec_zero() -> Self {
        Self::zero()
    }
    fn spec_min_value() -> Self {
        Self::min_value()
    }
    fn spec_limits_min() -> Self {
        Self::cpp_numeric_limits_min()
    }
    fn spec_plus(self, other: Self) -> Self {
        self.plus(other)
    }
    fn spec_times(self, other: Self) -> Self {
        self.times(other)
    }
    fn spec_mul_add(self, b: Self, acc: Self) -> Self {
        self.mul_add(b, acc)
    }
    fn spec_max(self, other: Self) -> Self {
        self.max(other)
    }
    fn spec_less(self, other: Self) -> bool {
        self.less(other)
    }
    fn spec_equals(self, other: Self) -> bool {
        self.equals(other)
    }
    fn ordered(self) -> bool {
        !self.0.is_nan()
    }
    fn lemma_less_ordered(_: Self, _: Self) {}
    fn lemma_less_transitive(_: Self, _: Self, _: Self) {}
    fn lemma_not_less_transitive(_: Self, _: Self, _: Self) {}
    fn lemma_max_exceeds(_: Self, _: Self, _: Self) {}
    fn lemma_constants() {}
    fn lemma_limit_ties(_: Self, _: Self) {}

    fn zero() -> Self {
        F32(0.0)
    }
    fn min_value() -> Self {
        F32(f32::NEG_INFINITY)
    }
    fn cpp_numeric_limits_min() -> Self {
        F32(f32::MIN_POSITIVE)
    }
    fn plus(self, other: Self) -> Self {
        F32(self.0 + other.0)
    }
    fn times(self, other: Self) -> Self {
        F32(self.0 * other.0)
    }
    fn mul_add(self, b: Self, acc: Self) -> Self {
        if FMA {
            F32(self.0.mul_add(b.0, acc.0))
        } else {
            F32(self.0 * b.0 + acc.0)
        }
    }
    fn max(self, other: Self) -> Self {
        F32(self.0.max(other.0))
    }
    fn less(self, other: Self) -> bool {
        self.0 < other.0
    }
    fn equals(self, other: Self) -> bool {
        self.0 == other.0
    }
}

/// Element types with an exact conversion from small integers and back to
/// something comparable.
trait Element: Scalar {
    /// Absolute and relative tolerance.
    const TOLERANCE: f64;
    fn of(x: i16) -> Self;
    fn wide(self) -> f64;
}

impl<const FMA: bool> Element for F64<FMA> {
    const TOLERANCE: f64 = 1e-12;
    fn of(x: i16) -> Self {
        F64(x as f64)
    }
    fn wide(self) -> f64 {
        self.0
    }
}

impl<const FMA: bool> Element for F32<FMA> {
    const TOLERANCE: f64 = 1e-6;
    fn of(x: i16) -> Self {
        F32(x as f32)
    }
    fn wide(self) -> f64 {
        self.0 as f64
    }
}

impl Element for i32 {
    const TOLERANCE: f64 = 0.0;
    fn of(x: i16) -> Self {
        x as i32
    }
    fn wide(self) -> f64 {
        self as f64
    }
}

impl Element for i64 {
    const TOLERANCE: f64 = 0.0;
    fn of(x: i16) -> Self {
        x as i64
    }
    fn wide(self) -> f64 {
        self as f64
    }
}

struct SplitMix64 {
    state: u64,
}

impl SplitMix64 {
    fn new(seed: u64) -> Self {
        Self { state: seed }
    }
    fn next_u64(&mut self) -> u64 {
        self.state = self.state.wrapping_add(0x9E3779B97F4A7C15);
        let mut z = self.state;
        z = (z ^ (z >> 30)).wrapping_mul(0xBF58476D1CE4E5B9);
        z = (z ^ (z >> 27)).wrapping_mul(0x94D049BB133111EB);
        z ^ (z >> 31)
    }
}

/// Deterministic random CSR with `nnz_per_row` strictly increasing column
/// indices per row and small positive values (exact in every supported dtype).
fn build_csr<V: Element, I: Index>(
    seed: u64,
    nrows: usize,
    ncols: usize,
    nnz_per_row: usize,
) -> CsrMatrix<V, I> {
    let mut rng = SplitMix64::new(seed);
    let mut indptr: Vec<I> = Vec::with_capacity(nrows + 1);
    let mut indices: Vec<I> = Vec::new();
    let mut data: Vec<V> = Vec::new();
    indptr.push(I::from_usize(0));
    let target = nnz_per_row.min(ncols);
    let mut cols: Vec<usize> = Vec::with_capacity(target);
    for _ in 0..nrows {
        cols.clear();
        while cols.len() < target {
            let c = (rng.next_u64() % ncols as u64) as usize;
            if let Err(pos) = cols.binary_search(&c) {
                cols.insert(pos, c);
            }
        }
        for &c in &cols {
            indices.push(I::from_usize(c));
            data.push(V::of(1 + (rng.next_u64() % 97) as i16));
        }
        indptr.push(I::from_usize(indices.len()));
    }
    CsrMatrix {
        nrows,
        ncols,
        indptr,
        indices,
        data,
    }
}

fn view<V: Scalar, I: Index>(m: &CsrMatrix<V, I>) -> CsrView<'_, V, I> {
    CsrView::new(m.nrows, m.ncols, &m.indptr, &m.indices, &m.data).unwrap()
}

/// The rows, each sorted by column.
fn rows<V: Element, I: Index>(c: &CsrMatrix<V, I>) -> Vec<Vec<(usize, f64)>> {
    (0..c.nrows)
        .map(|i| {
            let (s, e) = (c.indptr[i].to_usize(), c.indptr[i + 1].to_usize());
            let mut row: Vec<(usize, f64)> = (s..e)
                .map(|k| (c.indices[k].to_usize(), c.data[k].wide()))
                .collect();
            row.sort_by_key(|(idx, _)| *idx);
            row
        })
        .collect()
}

fn assert_equivalent<X: Element, Y: Element, I: Index>(
    got: &CsrMatrix<X, I>,
    want: &CsrMatrix<Y, I>,
) {
    assert_eq!(got.nrows, want.nrows);
    assert_eq!(got.ncols, want.ncols);
    let (g, w) = (rows(got), rows(want));
    for (row, (gr, wr)) in g.iter().zip(w.iter()).enumerate() {
        assert_eq!(gr.len(), wr.len(), "row {row} nnz differs");
        if X::IS_FLOAT {
            for ((gi, gv), (wi, wv)) in gr.iter().zip(wr.iter()) {
                assert_eq!(gi, wi, "row {row}: column index mismatch ({gi} vs {wi})");
                let diff = (gv - wv).abs();
                let mag = gv.abs().max(wv.abs());
                assert!(diff <= X::TOLERANCE || diff <= X::TOLERANCE * mag);
            }
        } else {
            let mut gv: Vec<i64> = gr.iter().map(|(_, x)| *x as i64).collect();
            let mut wv: Vec<i64> = wr.iter().map(|(_, x)| *x as i64).collect();
            gv.sort_unstable();
            wv.sort_unstable();
            assert_eq!(gv, wv, "row {row}: value multiset differs");
        }
    }
}

/// Compare the kernels of the baseline type `B` with those of the fused type
/// `F`, each run where the dispatch decision picks it.
fn check_dtype<B: Element, F: Element, I: Index>(seed: u64) {
    let target = SimdTarget::RuntimeDispatch;
    let facts = SimdFacts {
        force_baseline: None,
        avx2: true,
        fma: true,
    };
    let a_base = build_csr::<B, I>(seed, 120, 60, 12);
    let b_base = build_csr::<B, I>(seed ^ 0xB0B0, 60, 300, 24);
    let a_fused = build_csr::<F, I>(seed, 120, 60, 12);
    let b_fused = build_csr::<F, I>(seed ^ 0xB0B0, 60, 300, 24);

    let accums: &[AccumMode] = if B::IS_FLOAT {
        &[AccumMode::Adaptive, AccumMode::Dense, AccumMode::LinkedList]
    } else {
        &[AccumMode::Adaptive]
    };

    for &chunk_cols in &[7usize, 64, 300, 10_000] {
        for &accum in accums {
            for with_threshold in [false, B::IS_FLOAT] {
                let state = force_simd_baseline_for_tests(target, SimdState::Uninit, true);
                let (fused, state) = avx2_fma_enabled(state, facts);
                assert!(!fused);
                let base = sp_matmul_topn(
                    view(&a_base),
                    view(&b_base),
                    10,
                    TopNOptions::<B> {
                        threshold: with_threshold.then(|| B::of(5000)),
                        sort: SortMode::ByValueDesc,
                        chunk_cols: Some(chunk_cols),
                        accum_mode: accum,
                        ..Default::default()
                    },
                );
                let state = force_simd_baseline_for_tests(target, state, false);
                let (fused, _) = avx2_fma_enabled(state, facts);
                assert!(fused);
                let auto = sp_matmul_topn(
                    view(&a_fused),
                    view(&b_fused),
                    10,
                    TopNOptions::<F> {
                        threshold: with_threshold.then(|| F::of(5000)),
                        sort: SortMode::ByValueDesc,
                        chunk_cols: Some(chunk_cols),
                        accum_mode: accum,
                        ..Default::default()
                    },
                );
                assert_equivalent(&auto, &base);
            }
        }
    }
}

#[test]
fn dispatch_matches_baseline_all_dtypes() {
    check_dtype::<F64<false>, F64<true>, i32>(0x51D0);
    check_dtype::<F64<false>, F64<true>, i64>(0x51D1);
    check_dtype::<F32<false>, F32<true>, i32>(0x51D2);
    check_dtype::<F32<false>, F32<true>, i64>(0x51D3);
    check_dtype::<i32, i32, i32>(0x51D4);
    check_dtype::<i64, i64, i64>(0x51D5);
}

#[test]
fn decisions() {
    let facts = |force_baseline, avx2, fma| SimdFacts {
        force_baseline,
        avx2,
        fma,
    };
    let decide = |f| avx2_fma_enabled(SimdState::Uninit, f);
    assert_eq!(decide(facts(None, true, true)), (true, SimdState::Enabled));
    assert_eq!(decide(facts(Some(""), true, true)), (true, SimdState::Enabled));
    assert_eq!(decide(facts(Some("0"), true, true)), (true, SimdState::Enabled));
    assert_eq!(
        decide(facts(Some("1"), true, true)),
        (false, SimdState::Disabled)
    );
    assert_eq!(
        decide(facts(Some("00"), true, true)),
        (false, SimdState::Disabled)
    );
    assert_eq!(
        decide(facts(None, false, true)),
        (false, SimdState::Disabled)
    );
    assert_eq!(
        decide(facts(None, true, false)),
        (false, SimdState::Disabled)
    );
    // A decision stands, whatever is detected later.
    assert_eq!(
        avx2_fma_enabled(SimdState::Enabled, facts(Some("1"), false, false)),
        (true, SimdState::Enabled)
    );
    assert_eq!(
        avx2_fma_enabled(SimdState::Disabled, facts(None, true, true)),
        (false, SimdState::Disabled)
    );
}

#[test]
fn labels() {
    let facts = SimdFacts {
        force_baseline: None,
        avx2: true,
        fma: true,
    };
    let dispatch = SimdTarget::RuntimeDispatch;
    assert_eq!(
        runtime_simd_label(dispatch, SimdState::Uninit, facts),
        ("avx2+fma", SimdState::Enabled)
    );
    assert_eq!(
        runtime_simd_label(dispatch, SimdState::Disabled, facts),
        ("baseline", SimdState::Disabled)
    );
    assert_eq!(
        runtime_simd_label(SimdTarget::CompileTimeFused, SimdState::Uninit, facts).0,
        "compile-time"
    );
    assert_eq!(
        runtime_simd_label(SimdTarget::NoFused, SimdState::Uninit, facts).0,
        "baseline"
    );
    // Without run-time dispatch the override changes nothing.
    assert_eq!(
        force_simd_baseline_for_tests(SimdTarget::NoFused, SimdState::Uninit, true),
        SimdState::Uninit
    );
}
