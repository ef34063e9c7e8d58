//! Rayon-backed parallel driver.
//!
//! Unit of work is a slice of rows; within a worker the column-chunk loop stays
//! serial so per-row scratch (`sums`, `next`, heap, optional cursors) stays
//! hot. Per-thread row blocks are concatenated through a prefix sum on per-row
//! nnz counts.
//!
//! For fixed inputs and a fixed chunk width every row's output is independent
//! of the thread count, and the cross-row order is by row index. Parallel
//! results are therefore those of the sequential driver.
use rayon::iter::{IntoParallelRefIterator, ParallelIterator};
use vstd::prelude::*;

use crate::blocked::{build_indptr, process_blocks};
use crate::chunked;
use crate::chunked::{process_row, BProjection, HEAD_NIL, UNVISITED};
use crate::csr::{filled, matmul_topn_short_circuit, CsrError, CsrMatrix, CsrView};
use crate::index::Index;
use crate::matmul_topn::TopNOptions;
use crate::maxheap::MaxHeap;
use crate::scalar::Scalar;
use crate::tiled;
use crate::tiled::TiledB;
use crate::topn;

verus! {

/// Minimum block size: keeps per-block overhead under control for very small
/// `nrows`.
pub const ROW_BLOCK_HINT: usize = 64;

/// Output for one row slice. Rows are dense and ordered by row index;
/// `row_nset` holds the per-row entry counts so the final compaction can build
/// the row pointers via a prefix sum without re-walking `indices`.
#[derive(Debug)]
pub struct RowBlock<V: Scalar, I: Index> {
    pub row_lo: usize,
    pub row_hi: usize,
    pub row_nset: Vec<u32>,
    pub indices: Vec<I>,
    pub data: Vec<V>,
}

impl<V: Scalar, I: Index> RowBlock<V, I> {
    /// Does the block hold its slice of `rows`?
    pub open spec fn holds(self, rows: Seq<Seq<(I, V)>>) -> bool {
        let slice = rows.subrange(self.row_lo as int, self.row_hi as int);
        &&& self.row_lo <= self.row_hi <= rows.len()
        &&& self.row_nset@.len() == slice.len()
        &&& forall|x: int|
            0 <= x < slice.len() ==> #[trigger] self.row_nset@[x] == slice[x].len()
        &&& self.indices@ == crate::csr::columns(crate::csr::flat(slice))
        &&& self.data@ == crate::csr::values(crate::csr::flat(slice))
    }
}

/// The number of rows per block: enough for about four blocks per thread, so
/// heavy-tailed row weight can be rebalanced by stealing, and never under `hint`.
pub open spec fn block_size(nrows: int, n_threads: int, hint: int) -> int {
    let target = if n_threads < 1 {
        1
    } else {
        4 * n_threads
    };
    let even = (nrows - 1) / target + 1;
    if even < hint {
        hint
    } else {
        even
    }
}

/// The row blocks: `0..nrows` cut into slices of that size.
pub open spec fn row_partition(nrows: int, n_threads: int, hint: int) -> Seq<(usize, usize)> {
    let size = block_size(nrows, n_threads, hint);
    if nrows <= 0 {
        Seq::empty()
    } else {
        Seq::new(
            tiled::chunk_count(nrows, size) as nat,
            |k: int|
                (
                    topn::chunk_start(nrows, size, k) as usize,
                    topn::chunk_start(nrows, size, k + 1) as usize,
                ),
        )
    }
}

/// Partition `[0, nrows)` into contiguous row blocks for the work-stealer.
///
/// Aims for about four times `n_threads` blocks; floors the block size at
/// `hint` so no block is too tiny to amortise the dispatch.
pub fn partition_rows(nrows: usize, n_threads: usize, hint: usize) -> (r: Vec<(usize, usize)>)
    ensures
        r@ == row_partition(nrows as int, n_threads as int, hint as int),
{
    let mut blocks: Vec<(usize, usize)> = Vec::new();
    if nrows == 0 {
        return blocks;
    }
    let target: usize = if n_threads < 1 {
        1
    } else if n_threads <= usize::MAX / 4 {
        n_threads * 4
    } else {
        usize::MAX
    };
    let ghost exact = if n_threads < 1 {
        1
    } else {
        4 * n_threads
    };
    assert((nrows - 1) / (target as int) == (nrows - 1) / exact) by {
        if target != exact {
            assert((nrows - 1) / (target as int) == 0) by (nonlinear_arith)
                requires
                    0 <= nrows - 1 < target,
            ;
            assert((nrows - 1) / exact == 0) by (nonlinear_arith)
                requires
                    0 <= nrows - 1 < exact,
            ;
        }
    }
    assert((nrows - 1) / (target as int) <= nrows - 1) by (nonlinear_arith)
        requires
            nrows >= 1,
            target >= 1,
    ;
    assert(0 <= (nrows - 1) / (target as int)) by (nonlinear_arith)
        requires
            nrows >= 1,
            target >= 1,
    ;
    let even: usize = (nrows - 1) / target + 1;
    let size: usize = if even < hint {
        hint
    } else {
        even
    };
    let ghost n = nrows as int;
    let ghost s = size as int;
    let ghost want = row_partition(n, n_threads as int, hint as int);
    let mut lo: usize = 0;
    let ghost mut k: int = 0;
    proof {
        topn::lemma_chunk_start(n, s, 0);
        assert(blocks@ =~= want.take(0));
    }
    while lo < nrows
        invariant
            n == nrows,
            s == size,
            n > 0,
            s > 0,
            s == block_size(n, n_threads as int, hint as int),
            want == row_partition(n, n_threads as int, hint as int),
            0 <= k <= want.len(),
            lo == topn::chunk_start(n, s, k),
            k > 0 ==> topn::chunk_start(n, s, k - 1) < n,
            blocks@ == want.take(k),
        decreases nrows - lo,
    {
        let hi: usize = if nrows - lo < size {
            nrows
        } else {
            lo + size
        };
        proof {
            topn::lemma_chunk_start(n, s, k);
            assert(hi == topn::chunk_start(n, s, k + 1));
            assert(want[k] == (lo, hi));
            assert(want.take(k + 1) =~= want.take(k).push(want[k]));
        }
        blocks.push((lo, hi));
        lo = hi;
        proof {
            k = k + 1;
        }
    }
    proof {
        topn::lemma_chunk_start(n, s, k);
        assert(want.take(k) =~= want);
    }
    blocks
}

/// Resolve the requested thread count. `None` maps to sequential, which avoids
/// surprise oversubscription when the crate is embedded.
pub fn resolve_n_threads(requested: Option<usize>) -> (r: usize)
    requires
        requested != Some(0usize),
    ensures
        r == match requested {
            Some(n) => n,
            None => 1usize,
        },
        r >= 1,
{
    match requested {
        Some(n) => n,
        None => 1,
    }
}

/// Process `[row_lo, row_hi)` through the chunked kernels, writing into
/// block-local output buffers.
pub fn run_row_slice<V: Scalar, I: Index>(
    a: CsrView<'_, V, I>,
    b: CsrView<'_, V, I>,
    top_n: usize,
    opts: TopNOptions<V>,
    chunk_cols: usize,
    projection: BProjection,
    tiled: Option<&TiledB<V>>,
    row_lo: usize,
    row_hi: usize,
) -> (r: RowBlock<V, I>)
    requires
        top_n > 0,
        0 < chunk_cols < HEAD_NIL,
        topn::kernel_ready(a, b, opts.accum_mode, chunk_cols as int, tiled is Some),
        row_lo <= row_hi <= a.nrows,
        tiled matches Some(t) ==> t.tiles(b, chunk_cols),
    ensures
        r.row_lo == row_lo,
        r.row_hi == row_hi,
        r.holds(chunked::requested_rows(a, b, top_n, opts, chunk_cols as int)),
{
    let block_rows: usize = row_hi - row_lo;
    // Halve the estimate against the sequential driver: many blocks summed will
    // reach the sequential capacity, and growth covers under-estimates cheaply.
    let share: Option<usize> = match opts.capacity_hint {
        Some(h) if a.nrows > 0 => Some(h / a.nrows),
        _ => None,
    };
    let est_nnz: usize = chunked::output_capacity(
        block_rows,
        b.ncols,
        match share {
            Some(per_row) if per_row < top_n => per_row,
            _ => top_n,
        },
        None,
    ) / 2;
    let ghost rows = chunked::requested_rows(a, b, top_n, opts, chunk_cols as int);
    let mut row_nset: Vec<u32> = Vec::with_capacity(block_rows);
    let mut indices: Vec<I> = Vec::with_capacity(est_nnz);
    let mut data: Vec<V> = Vec::with_capacity(est_nnz);

    if tiled.is_some() || opts.row_block.is_some() {
        process_blocks(
            a,
            b,
            top_n,
            opts,
            chunk_cols,
            projection,
            tiled,
            row_lo,
            row_hi,
            &mut indices,
            &mut data,
            &mut row_nset,
        );
        proof {
            let slice = rows.subrange(row_lo as int, row_hi as int);
            assert(indices@ =~= crate::csr::columns(crate::csr::flat(slice)));
            assert(data@ =~= crate::csr::values(crate::csr::flat(slice)));
        }
        return RowBlock { row_lo, row_hi, row_nset, indices, data };
    }
    let mut sums: Vec<V> = filled(chunk_cols, V::zero());
    let mut next: Vec<u32> = filled(chunk_cols, UNVISITED);
    let mut heap = MaxHeap::<V, I>::with_floor(top_n, opts.threshold);
    let mut cursors: Vec<usize> = Vec::new();
    proof {
        crate::blocked::lemma_appended_none(
            indices@,
            data@,
            row_nset@,
            rows.subrange(row_lo as int, row_lo as int),
        );
    }
    let mut i: usize = row_lo;
    while i < row_hi
        invariant
            top_n > 0,
            0 < chunk_cols < HEAD_NIL,
            topn::kernel_ready(a, b, opts.accum_mode, chunk_cols as int, false),
            row_lo <= i <= row_hi <= a.nrows,
            rows == chunked::requested_rows(a, b, top_n, opts, chunk_cols as int),
            sums@.len() == chunk_cols,
            chunked::is_clean(sums@, next@),
            heap@.slots.len() == top_n,
            heap@.floor == opts.threshold,
            crate::blocked::appended(
                Seq::empty(),
                Seq::empty(),
                Seq::empty(),
                indices@,
                data@,
                row_nset@,
                rows.subrange(row_lo as int, i as int),
            ),
        decreases row_hi - i,
    {
        let ghost indices1 = indices@;
        let ghost data1 = data@;
        let n_set: usize = process_row(
            a,
            b,
            i,
            opts.sort,
            chunk_cols,
            projection,
            opts.accum_mode,
            &mut sums,
            &mut next,
            &mut heap,
            &mut cursors,
            &mut indices,
            &mut data,
        );
        proof {
            let row = rows[i as int];
            crate::blocked::lemma_appended_row(
                Seq::empty(),
                Seq::empty(),
                Seq::empty(),
                indices1,
                data1,
                row_nset@,
                rows.subrange(row_lo as int, i as int),
                row,
                n_set as u32,
            );
            assert(rows.subrange(row_lo as int, i + 1) =~= rows.subrange(
                row_lo as int,
                i as int,
            ).push(row));
        }
        row_nset.push(n_set as u32);
        i = i + 1;
    }
    proof {
        let slice = rows.subrange(row_lo as int, row_hi as int);
        assert(indices@ =~= crate::csr::columns(crate::csr::flat(slice)));
        assert(data@ =~= crate::csr::values(crate::csr::flat(slice)));
    }
    RowBlock { row_lo, row_hi, row_nset, indices, data }
}

/// Append a copy of `more`.
fn extend<T: Copy>(to: &mut Vec<T>, more: &Vec<T>)
    ensures
        final(to)@ == old(to)@ + more@,
{
    let mut k: usize = 0;
    assert(to@ =~= old(to)@ + more@.take(0));
    while k < more.len()
        invariant
            k <= more@.len(),
            to@ == old(to)@ + more@.take(k as int),
        decreases more@.len() - k,
    {
        to.push(more[k]);
        assert(to@ =~= old(to)@ + more@.take(k + 1));
        k = k + 1;
    }
    assert(more@.take(more@.len() as int) =~= more@);
}

/// Do the blocks, in whatever order, cover all rows: one starts at row zero,
/// and where one ends before the last row, another starts?
pub open spec fn blocks_cover<V: Scalar, I: Index>(
    blocks: Seq<RowBlock<V, I>>,
    rows: Seq<Seq<(I, V)>>,
) -> bool {
    &&& forall|k: int|
        0 <= k < blocks.len() ==> (#[trigger] blocks[k]).holds(rows) && blocks[k].row_lo
            < blocks[k].row_hi
    &&& rows.len() > 0 ==> starts_at(blocks, 0)
    &&& forall|k: int|
        0 <= k < blocks.len() && (#[trigger] blocks[k]).row_hi < rows.len() ==> starts_at(
            blocks,
            blocks[k].row_hi,
        )
}

/// Does one of the blocks start at row `lo`?
pub open spec fn starts_at<V: Scalar, I: Index>(blocks: Seq<RowBlock<V, I>>, lo: usize) -> bool {
    exists|k: int| 0 <= k < blocks.len() && (#[trigger] blocks[k]).row_lo == lo
}

/// The block that starts at row `lo`.
fn find_block<V: Scalar, I: Index>(blocks: &Vec<RowBlock<V, I>>, lo: usize) -> (r: usize)
    requires
        starts_at(blocks@, lo),
    ensures
        r < blocks@.len(),
        blocks@[r as int].row_lo == lo,
{
    let mut k: usize = 0;
    while blocks[k].row_lo != lo
        invariant
            k < blocks@.len(),
            starts_at(blocks@, lo),
            forall|x: int| 0 <= x < k ==> (#[trigger] blocks@[x]).row_lo != lo,
        decreases blocks@.len() - k,
    {
        proof {
            let w = choose|w: int| 0 <= w < blocks@.len() && (#[trigger] blocks@[w]).row_lo == lo;
            assert(w > k);
            assert(blocks@.len() == blocks.len());
        }
        k = k + 1;
    }
    k
}

/// Concatenate `blocks` in row order, materialising the row pointers via a
/// serial prefix sum over the row counts. The blocks may come in any order.
pub(crate) fn build_csr_from_blocks<V: Scalar, I: Index>(
    nrows: usize,
    ncols: usize,
    blocks: &Vec<RowBlock<V, I>>,
    Ghost(rows): Ghost<Seq<Seq<(I, V)>>>,
) -> (r: Result<CsrMatrix<V, I>, CsrError>)
    requires
        nrows < usize::MAX,
        rows.len() == nrows,
        blocks_cover(blocks@, rows),
    ensures
        crate::csr::is_outcome(r, ncols, rows),
{
    let mut row_nset: Vec<u32> = Vec::with_capacity(nrows);
    let mut indices: Vec<I> = Vec::new();
    let mut data: Vec<V> = Vec::new();
    let mut lo: usize = 0;
    proof {
        assert(rows.take(0) =~= Seq::empty());
        crate::blocked::lemma_appended_none(indices@, data@, row_nset@, rows.take(0));
    }
    while lo < nrows
        invariant
            lo <= nrows,
            rows.len() == nrows,
            blocks_cover(blocks@, rows),
            lo < nrows ==> starts_at(blocks@, lo),
            crate::blocked::appended(
                Seq::empty(),
                Seq::empty(),
                Seq::empty(),
                indices@,
                data@,
                row_nset@,
                rows.take(lo as int),
            ),
        decreases nrows - lo,
    {
        let k: usize = find_block(blocks, lo);
        let ghost indices1 = indices@;
        let ghost data1 = data@;
        let ghost nset1 = row_nset@;
        let ghost block = blocks@[k as int];
        let ghost slice = rows.subrange(lo as int, block.row_hi as int);
        assert(block.holds(rows));
        extend(&mut row_nset, &blocks[k].row_nset);
        extend(&mut indices, &blocks[k].indices);
        extend(&mut data, &blocks[k].data);
        proof {
            assert(crate::blocked::appended(
                indices1,
                data1,
                nset1,
                indices@,
                data@,
                row_nset@,
                slice,
            ));
            crate::blocked::lemma_appended_twice(
                Seq::empty(),
                Seq::empty(),
                Seq::empty(),
                indices1,
                data1,
                nset1,
                indices@,
                data@,
                row_nset@,
                rows.take(lo as int),
                slice,
            );
            assert(rows.take(lo as int) + slice =~= rows.take(block.row_hi as int));
        }
        lo = blocks[k].row_hi;
    }
    proof {
        assert(rows.take(nrows as int) =~= rows);
        assert(indices@ =~= crate::csr::columns(crate::csr::flat(rows)));
        assert(data@ =~= crate::csr::values(crate::csr::flat(rows)));
    }
    match build_indptr::<V, I>(&row_nset, Ghost(rows)) {
        Ok(indptr) => Ok(CsrMatrix { nrows, ncols, indptr, indices, data }),
        Err(e) => Err(e),
    }
}

/// A thread pool of `rayon`, opaque here.
#[verifier::external_type_specification]
#[verifier::external_body]
pub struct ExThreadPool(rayon::ThreadPool);

/// `rayon::ThreadPoolBuilder::build` for a pool of `n_threads` threads; `None`
/// where the threads could not be started. Nothing is claimed of the outcome,
/// which depends on the machine.
#[verifier::external_body]
fn build_pool(n_threads: usize) -> Option<rayon::ThreadPool> {
    rayon::ThreadPoolBuilder::new().num_threads(n_threads).build().ok()
}

/// `rayon::ThreadPool::install` around a parallel `map` over a slice, collected
/// into a vector: the result holds, in the order of the items, what `f` returns
/// for each of them.
#[verifier::external_body]
fn par_map<T: Sync, R: Send, F: Fn(&T) -> R + Sync + Send>(
    pool: &rayon::ThreadPool,
    items: &Vec<T>,
    f: F,
) -> (r: Vec<R>)
    requires
        forall|k: int| 0 <= k < items@.len() ==> call_requires(f, (&#[trigger] items@[k],)),
    ensures
        r@.len() == items@.len(),
        forall|k: int|
            0 <= k < items@.len() ==> call_ensures(f, (&items@[k],), #[trigger] r@[k]),
{
    pool.install(|| items.par_iter().map(f).collect())
}

/// The blocks of a partition cover all rows.
proof fn lemma_partition_covers<V: Scalar, I: Index>(
    blocks: Seq<RowBlock<V, I>>,
    rows: Seq<Seq<(I, V)>>,
    n_threads: int,
    hint: int,
)
    requires
        rows.len() <= usize::MAX,
        n_threads >= 0,
        hint >= 0,
        ({
            let parts = row_partition(rows.len() as int, n_threads, hint);
            &&& blocks.len() == parts.len()
            &&& forall|k: int|
                0 <= k < parts.len() ==> (#[trigger] blocks[k]).holds(rows) && blocks[k].row_lo
                    == parts[k].0 && blocks[k].row_hi == parts[k].1
        }),
    ensures
        blocks_cover(blocks, rows),
{
    let n = rows.len() as int;
    let parts = row_partition(n, n_threads, hint);
    let size = block_size(n, n_threads, hint);
    if n > 0 {
        let target = if n_threads < 1 {
            1
        } else {
            4 * n_threads
        };
        assert(0 <= (n - 1) / target) by (nonlinear_arith)
            requires
                n >= 1,
                target >= 1,
        ;
        assert(size >= 1);
        let count = tiled::chunk_count(n, size);
        assert(0 <= (n - 1) / size) by (nonlinear_arith)
            requires
                n >= 1,
                size >= 1,
        ;
        assert forall|k: int| 0 <= k < blocks.len() implies (#[trigger] blocks[k]).row_lo
            < blocks[k].row_hi by {
            lemma_block_bounds(n, size, k);
        }
        lemma_block_bounds(n, size, 0);
        topn::lemma_chunk_start(n, size, 0);
        assert(blocks[0].row_lo == 0);
        assert(starts_at(blocks, 0));
        assert forall|k: int|
            0 <= k < blocks.len() && (#[trigger] blocks[k]).row_hi < rows.len() implies starts_at(
            blocks,
            blocks[k].row_hi,
        ) by {
            lemma_block_bounds(n, size, k);
            topn::lemma_chunk_start(n, size, k + 1);
            assert(blocks[k + 1].row_lo == blocks[k].row_hi);
        }
    }
}

/// Every block of a partition is a non-empty range of rows.
proof fn lemma_block_bounds(n: int, size: int, k: int)
    requires
        0 < n <= usize::MAX,
        size >= 1,
        0 <= k < tiled::chunk_count(n, size),
    ensures
        0 <= topn::chunk_start(n, size, k) < topn::chunk_start(n, size, k + 1) <= n,
{
    topn::lemma_chunk_start(n, size, k);
    topn::lemma_chunk_start(n, size, k + 1);
}

/// Multiply on `pool`, with the rows partitioned for `n_threads` threads.
pub fn run_parallel<V: Scalar, I: Index>(
    a: CsrView<'_, V, I>,
    b: CsrView<'_, V, I>,
    top_n: usize,
    opts: TopNOptions<V>,
    chunk_cols: usize,
    projection: BProjection,
    n_threads: usize,
    pool: &rayon::ThreadPool,
) -> (r: Result<CsrMatrix<V, I>, CsrError>)
    requires
        top_n > 0,
        0 < chunk_cols < HEAD_NIL,
        topn::kernel_ready(
            a,
            b,
            opts.accum_mode,
            chunk_cols as int,
            chunked::blocking(a, b, chunk_cols, opts).0,
        ),
    ensures
        crate::csr::is_outcome(
            r,
            b.ncols,
            chunked::requested_rows(a, b, top_n, opts, chunk_cols as int),
        ),
{
    let nrows: usize = a.nrows;
    let ncols: usize = b.ncols;
    assert(a.indptr@.len() == a.indptr.len());
    let row_blocks: Vec<(usize, usize)> = partition_rows(nrows, n_threads, ROW_BLOCK_HINT);
    let (tile, row_block): (bool, Option<usize>) = chunked::resolve_blocking(
        a,
        b,
        chunk_cols,
        &opts,
    );
    let ghost rows = chunked::requested_rows(a, b, top_n, opts, chunk_cols as int);
    let opts = TopNOptions { row_block, ..opts };
    let built: Option<TiledB<V>> = if tile {
        Some(TiledB::build(b, chunk_cols))
    } else {
        None
    };
    let tiled: Option<&TiledB<V>> = match &built {
        Some(t) => Some(t),
        None => None,
    };
    let work = |block: &(usize, usize)| -> (r: RowBlock<V, I>)
        requires
            block.0 <= block.1 <= nrows,
        ensures
            r.row_lo == block.0,
            r.row_hi == block.1,
            r.holds(chunked::requested_rows(a, b, top_n, opts, chunk_cols as int)),
        {
            run_row_slice(
                a,
                b,
                top_n,
                opts,
                chunk_cols,
                projection,
                tiled,
                block.0,
                block.1,
            )
        };
    proof {
        let size = block_size(nrows as int, n_threads as int, ROW_BLOCK_HINT as int);
        assert forall|k: int| 0 <= k < row_blocks@.len() implies call_requires(
            work,
            (&#[trigger] row_blocks@[k],),
        ) by {
            lemma_block_bounds(nrows as int, size, k);
        }
    }
    let blocks_out: Vec<RowBlock<V, I>> = par_map(pool, &row_blocks, work);
    proof {
        assert(rows == chunked::requested_rows(a, b, top_n, opts, chunk_cols as int));
        lemma_partition_covers(blocks_out@, rows, n_threads as int, ROW_BLOCK_HINT as int);
    }
    build_csr_from_blocks(nrows, ncols, &blocks_out, Ghost(rows))
}

/// Parallel top-n product on the given pool, or the overflow of the index type
/// by the number of entries. `opts.n_threads` still decides how the rows are
/// partitioned, and whether the pool is used at all.
pub fn try_sp_matmul_topn_in<V: Scalar, I: Index>(
    a: CsrView<'_, V, I>,
    b: CsrView<'_, V, I>,
    top_n: usize,
    opts: TopNOptions<V>,
    pool: &rayon::ThreadPool,
) -> (r: Result<CsrMatrix<V, I>, CsrError>)
    requires
        chunked::chunked_ready(a, b, top_n, opts),
        !crate::csr::short_circuits(a, b, top_n) ==> opts.n_threads != Some(0usize),
    ensures
        chunked::is_chunked_outcome(r, a, b, top_n, opts),
{
    assert(a.indptr@.len() == a.indptr.len());
    if let Some(out) = matmul_topn_short_circuit(a, b, top_n) {
        return Ok(out);
    }
    let (chunk_cols, projection): (usize, BProjection) = chunked::resolve_plan(a, b, &opts);
    let n_threads: usize = resolve_n_threads(opts.n_threads);
    if n_threads <= 1 {
        return chunked::dispatch(a, b, top_n, opts, chunk_cols, projection);
    }
    run_parallel(a, b, top_n, opts, chunk_cols, projection, n_threads, pool)
}

/// Parallel top-n product, or the overflow of the index type by the number of
/// entries. One thread takes the sequential driver, and so does a machine that
/// cannot start the threads.
pub fn try_sp_matmul_topn_parallel<V: Scalar, I: Index>(
    a: CsrView<'_, V, I>,
    b: CsrView<'_, V, I>,
    top_n: usize,
    opts: TopNOptions<V>,
) -> (r: Result<CsrMatrix<V, I>, CsrError>)
    requires
        chunked::chunked_ready(a, b, top_n, opts),
        !crate::csr::short_circuits(a, b, top_n) ==> opts.n_threads != Some(0usize),
    ensures
        chunked::is_chunked_outcome(r, a, b, top_n, opts),
{
    assert(a.indptr@.len() == a.indptr.len());
    if let Some(out) = matmul_topn_short_circuit(a, b, top_n) {
        return Ok(out);
    }
    let (chunk_cols, projection): (usize, BProjection) = chunked::resolve_plan(a, b, &opts);
    let n_threads: usize = resolve_n_threads(opts.n_threads);
    if n_threads > 1 {
        if let Some(pool) = build_pool(n_threads) {
            return run_parallel(a, b, top_n, opts, chunk_cols, projection, n_threads, &pool);
        }
    }
    chunked::dispatch(a, b, top_n, opts, chunk_cols, projection)
}

/// Parallel `sp_matmul_topn`, for a result whose entry count the index type can
/// represent. Equivalent to the sequential chunked driver for every valid input
/// shape.
pub fn sp_matmul_topn_parallel<V: Scalar, I: Index>(
    a: CsrView<'_, V, I>,
    b: CsrView<'_, V, I>,
    top_n: usize,
    opts: TopNOptions<V>,
) -> (r: CsrMatrix<V, I>)
    requires
        chunked::chunked_ready(a, b, top_n, opts),
        chunked::result_fits(a, b, top_n, opts),
        !crate::csr::short_circuits(a, b, top_n) ==> opts.n_threads != Some(0usize),
    ensures
        chunked::is_chunked_outcome(Ok(r), a, b, top_n, opts),
{
    let outcome = try_sp_matmul_topn_parallel(a, b, top_n, opts);
    proof {
        chunked::lemma_outcome_fits(outcome, a, b, top_n, opts);
    }
    match outcome {
        Ok(c) => c,
        Err(_) => vstd::pervasive::unreached(),
    }
}

} // verus!
