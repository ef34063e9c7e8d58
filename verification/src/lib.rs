//! Sparse CSR × CSR matrix multiplication with fused top-n selection.
//!
//! The default driver column-chunks B so the `sums` accumulator and the streamed
//! B fragments stay resident in the L1 and L2 caches. What the multiplications
//! return is specified row by row in [`topn`] and [`matmul`]; what holds of
//! them as a whole is stated and proved in [`laws`], [`agreement`], [`merge`],
//! [`split`], [`ties`] and [`pushes`], in plain arithmetic in [`integers`] and [`widths`], and
//! of the checks and errors in [`reports`].
use vstd::prelude::*;

pub mod agreement;
pub mod bindings;
pub mod blocked;
pub mod chunked;
pub mod csr;
pub mod drain;
pub mod index;
pub mod integers;
pub mod laws;
pub mod matmul;
pub mod matmul_topn;
pub mod maxheap;
pub mod merge;
pub mod parallel;
pub mod permutation;
pub mod product;
pub mod pushes;
pub mod reports;
pub mod scalar;
pub mod scatter;
pub mod selection;
pub mod simd;
pub mod sorting;
pub mod split;
pub mod ties;
pub mod tiled;
pub mod topn;
pub mod widths;
pub mod zip;

pub use crate::chunked::{default_chunk_cols, sp_matmul_topn_chunked, AccumMode, BProjection};
pub use crate::csr::{CsrMatrix, CsrView};
pub use crate::index::Index;
pub use crate::matmul::sp_matmul;
pub use crate::matmul_topn::{
    sp_matmul_topn, sp_matmul_topn_unchunked_for_tests, SortMode, TopNOptions,
};
pub use crate::scalar::Scalar;
pub use crate::simd::{force_simd_baseline_for_tests, runtime_simd_label};
pub use crate::tiled::TiledB;
pub use crate::zip::zip_sp_matmul_topn;
