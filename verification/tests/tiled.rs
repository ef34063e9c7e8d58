//! B cut into column chunks.
use sp_matmul_rs::csr::CsrView;
use sp_matmul_rs::scalar::Scalar;
use sp_matmul_rs::{sp_matmul_topn, SortMode, TiledB, TopNOptions};

#[derive(Clone, Copy, Debug, PartialEq, PartialOrd)]
struct F64(f64);

impl Scalar for F64 {
    const IS_FLOAT: bool = true;

    fn spec_zero() -> Self {
        Self::zero()
    }
    fn spec_min_value() -> Self {
        Self::min_value()
    }
    fn spec_limits_min() -> Self {
        Self::cpp_numeric_limits_min()
    }
    fn spec_plus(self, other: Self) -> Self {
        self.plus(other)
    }
    fn spec_times(self, other: Self) -> Self {
        self.times(other)
    }
    fn spec_mul_add(self, b: Self, acc: Self) -> Self {
        self.mul_add(b, acc)
    }
    fn spec_max(self, other: Self) -> Self {
        self.max(other)
    }
    fn spec_less(self, other: Self) -> bool {
        self.less(other)
    }
    fn spec_equals(self, other: Self) -> bool {
        self.equals(other)
    }
    fn ordered(self) -> bool {
        !self.0.is_nan()
    }
    fn lemma_less_ordered(_: Self, _: Self) {}
    fn lemma_less_transitive(_: Self, _: Self, _: Self) {}
    fn lemma_not_less_transitive(_: Self, _: Self, _: Self) {}
    fn lemma_max_exceeds(_: Self, _: Self, _: Self) {}
    fn lemma_constants() {}
    fn lemma_limit_ties(_: Self, _: Self) {}

    fn zero() -> Self {
        F64(0.0)
    }
    fn min_value() -> Self {
        F64(f64::NEG_INFINITY)
    }
    fn cpp_numeric_limits_min() -> Self {
        F64(f64::MIN_POSITIVE)
    }
    fn plus(self, other: Self) -> Self {
        F64(self.0 + other.0)
    }
    fn times(self, other: Self) -> Self {
        F64(self.0 * other.0)
    }
    fn mul_add(self, b: Self, acc: Self) -> Self {
        F64(self.0 * b.0 + acc.0)
    }
    fn max(self, other: Self) -> Self {
        F64(self.0.max(other.0))
    }
    fn less(self, other: Self) -> bool {
        self.0 < other.0
    }
    fn equals(self, other: Self) -> bool {
        self.0 == other.0
    }
}

/// B (3×4): [[1, 0, 0, 5], [0, 1, 0, 6], [0, 0, 1, 7]].
fn make_b() -> (Vec<i32>, Vec<i32>, Vec<F64>) {
    (
        vec![0i32, 2, 4, 6],
        vec![0i32, 3, 1, 3, 2, 3],
        [1.0, 5.0, 1.0, 6.0, 1.0, 7.0].iter().map(|&x| F64(x)).collect(),
    )
}

#[test]
fn segments_match_csr_rows() {
    let (ip, ix, d) = make_b();
    let b = CsrView::new(3, 4, &ip, &ix, &d).unwrap();
    for chunk_cols in [1usize, 2, 3, 4, 8] {
        let t = TiledB::build(b, chunk_cols);
        assert_eq!(t.n_chunks, 4usize.div_ceil(chunk_cols));
        // Reassemble each B-row from its chunk segments; must equal the CSR row.
        for j in 0..3 {
            let mut got: Vec<(usize, f64)> = Vec::new();
            for c in 0..t.n_chunks {
                let (si, sd) = t.segment(c, j);
                for (p, &kl) in si.iter().enumerate() {
                    got.push((c * chunk_cols + kl as usize, sd[p].0));
                }
            }
            let s = ip[j] as usize;
            let e = ip[j + 1] as usize;
            let want: Vec<(usize, f64)> = (s..e).map(|kk| (ix[kk] as usize, d[kk].0)).collect();
            assert_eq!(got, want, "chunk_cols={chunk_cols} row={j}");
        }
    }
}

#[test]
fn supports_bounds() {
    let (ip, ix, d) = make_b();
    let b = CsrView::new(3, 4, &ip, &ix, &d).unwrap();
    assert!(TiledB::supports(&b, 4));
    assert!(TiledB::supports(&b, u16::MAX as usize + 1));
    assert!(!TiledB::supports(&b, u16::MAX as usize + 2));
}

/// Segments of unordered rows keep the storage order within each chunk.
#[test]
fn unordered_rows_are_bucketed() {
    let d = vec![1i32, 2, 3, 4];
    let b = CsrView::new(1, 6, &[0i32, 4], &[5i32, 0, 4, 1], &d).unwrap();
    let t = TiledB::build(b, 3);
    assert_eq!(t.segment(0, 0), (&[0u16, 1][..], &[2i32, 4][..]));
    assert_eq!(t.segment(1, 0), (&[2u16, 1][..], &[1i32, 3][..]));
}

/// A matrix without columns still has one, empty, chunk.
#[test]
fn no_columns_make_one_chunk() {
    let d: Vec<i32> = vec![];
    let b = CsrView::new(2, 0, &[0i32, 0, 0], &[], &d).unwrap();
    let t = TiledB::build(b, 8);
    assert_eq!(t.n_chunks, 1);
    assert!(t.segment(0, 1).0.is_empty());
}

/// Read from tiles, rows of B need no order.
#[test]
fn tiles_take_unordered_rows() {
    let a_d = vec![1i32, 2];
    let a = CsrView::new(1, 2, &[0i32, 2], &[0i32, 1], &a_d).unwrap();
    let b_d = vec![5i32, 1, 3, 4];
    let b = CsrView::new(2, 5, &[0i32, 3, 4], &[4i32, 0, 2, 2], &b_d).unwrap();
    let opts = TopNOptions {
        sort: SortMode::ByValueDesc,
        chunk_cols: Some(2),
        tile_b: true,
        ..Default::default()
    };
    let c = sp_matmul_topn(a, b, 2, opts);
    assert_eq!(c.indices, vec![2, 4]);
    assert_eq!(c.data, vec![11, 5]);
}

/// The tiles carry the shape they were built with.
#[test]
fn tiles_carry_their_shape() {
    let data = vec![1i32, 2, 3];
    let b = CsrView::new(2, 7, &[0i32, 2, 3], &[0i32, 6, 3], &data).unwrap();
    let t = TiledB::build(b, 3);
    assert_eq!((t.chunk_cols, t.n_chunks, t.nrows, t.ncols), (3, 3, 2, 7));
    assert_eq!(t.segment(2, 0), (&[0u16][..], &[2i32][..]));
    assert_eq!(t.segment(1, 1), (&[0u16][..], &[3i32][..]));
}
