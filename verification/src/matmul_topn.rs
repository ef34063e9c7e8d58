//! `sp_matmul_topn`: sparse CSR × CSR multiplication keeping the top n per row.
//!
//! The public entry point delegates to the column-chunked driver in
//! [`crate::chunked`].
use vstd::prelude::*;

use crate::chunked;
use crate::chunked::{
    finish_row, output_capacity, try_sp_matmul_topn_chunked, AccumMode, BProjection,
};
use crate::csr::{
    filled, matmul_topn_short_circuit, try_narrow_indptr, CsrError, CsrMatrix, CsrView,
};
use crate::index::Index;
use crate::matmul;
use crate::matmul::{scatter_row, try_sp_matmul, UNVISITED};
use crate::maxheap::MaxHeap;
use crate::parallel::try_sp_matmul_topn_parallel;
use crate::product;
use crate::product::Update;
use crate::scalar::Scalar;
use crate::sorting;
use crate::sorting::sort_by_column;
use crate::topn;

verus! {

/// Order of the entries within an output row.
#[derive(Debug, Clone, Copy, PartialEq, Eq, Structural, Default)]
pub enum SortMode {
    /// Output rows in column order (default).
    #[default]
    ByColumn,
    /// Output rows with the largest value first.
    ByValueDesc,
}

/// Options of the top-n multiplications.
#[derive(Debug, Clone, Copy)]
pub struct TopNOptions<V: Scalar> {
    /// Minimum value to exceed. `None` accepts all values but NaN.
    pub threshold: Option<V>,
    /// Output row ordering.
    pub sort: SortMode,
    /// Expected number of output entries (informs pre-allocation only). `None`
    /// expects full rows.
    pub capacity_hint: Option<usize>,
    /// Column-chunk width in B. `None` takes the cache-size-derived default
    /// (see [`crate::chunked::default_chunk_cols`]). Larger values approach the
    /// single-chunk path; `Some(usize::MAX)` collapses to one chunk after
    /// clamping to `ncols`.
    pub chunk_cols: Option<usize>,
    /// Worker thread count. `None` or `Some(1)` runs the sequential chunked
    /// driver with no thread-pool overhead. `Some(n > 1)` dispatches to the
    /// parallel driver. `Some(0)` is not allowed.
    pub n_threads: Option<usize>,
    /// Accumulator bookkeeping in the chunked kernel, see [`AccumMode`].
    pub accum_mode: AccumMode,
    /// Override the projection of B-rows onto chunks. `None` (default) keeps
    /// the heuristic in [`crate::chunked::pick_projection`].
    pub projection: Option<BProjection>,
    /// Process A-rows in blocks of this size per column chunk, so B-chunk
    /// fragments are reused across rows while hot. `None` (default) lets the
    /// kernel decide: large-enough shapes auto-enable the tiled and blocked
    /// kernel (see [`crate::chunked::auto_tile`]). `Some(0)` forces the classic
    /// row-at-a-time kernel.
    pub row_block: Option<usize>,
    /// Pre-bucket B per column chunk with chunk-local `u16` indices, which
    /// removes the per-row chunk projection and halves the index bandwidth.
    /// Falls back to plain CSR when the shape is unsupported.
    pub tile_b: bool,
}

impl<V: Scalar> Default for TopNOptions<V> {
    fn default() -> (r: Self)
        ensures
            r == (TopNOptions::<V> {
                threshold: None,
                sort: SortMode::ByColumn,
                capacity_hint: None,
                chunk_cols: None,
                n_threads: None,
                accum_mode: AccumMode::Adaptive,
                projection: None,
                row_block: None,
                tile_b: false,
            }),
    {
        Self {
            threshold: None,
            sort: SortMode::ByColumn,
            capacity_hint: None,
            chunk_cols: None,
            n_threads: None,
            accum_mode: AccumMode::Adaptive,
            projection: None,
            row_block: None,
            tile_b: false,
        }
    }
}

/// Does the top-n product degenerate into the plain one: nothing to leave out,
/// no threshold, no sorting and a single thread?
pub open spec fn is_plain<V: Scalar, I: Index>(
    b: CsrView<'_, V, I>,
    top_n: usize,
    opts: TopNOptions<V>,
) -> bool {
    &&& !runs_parallel(opts)
    &&& top_n >= b.ncols
    &&& opts.threshold is None
    &&& opts.sort == SortMode::ByColumn
}

/// Does the product run on several threads?
pub open spec fn runs_parallel<V: Scalar>(opts: TopNOptions<V>) -> bool {
    opts.n_threads matches Some(n) && n > 1
}

/// What [`sp_matmul_topn`] needs of its inputs.
pub open spec fn topn_ready<V: Scalar, I: Index>(
    a: CsrView<'_, V, I>,
    b: CsrView<'_, V, I>,
    top_n: usize,
    opts: TopNOptions<V>,
) -> bool {
    &&& product::multipliable(a, b)
    &&& opts.n_threads != Some(0usize)
    &&& !is_plain(b, top_n, opts) ==> chunked::chunked_ready(a, b, top_n, opts)
}

/// Options under which the chunked drivers take `b` as it is: with the chunk
/// width for an L1d cache of `l1d` bytes where none is given, and, since the
/// kernels cut rows of `b` by column, in one chunk with the linked-list
/// accumulator where the columns of `b` do not ascend. `None` if they do not and
/// `b` is too wide for one chunk.
pub fn suited_options<V: Scalar, I: Index>(
    a: CsrView<'_, V, I>,
    b: CsrView<'_, V, I>,
    top_n: usize,
    opts: TopNOptions<V>,
    l1d: Option<usize>,
) -> (r: Option<TopNOptions<V>>)
    requires
        product::multipliable(a, b),
        opts.chunk_cols != Some(0usize),
    ensures
        match r {
            None => !topn::ascending_columns(b) && b.ncols >= u32::MAX - 2,
            Some(o) => {
                &&& chunked::chunked_ready(a, b, top_n, o)
                &&& topn::ascending_columns(b) || b.ncols < u32::MAX - 2
                &&& o == TopNOptions {
                    chunk_cols: o.chunk_cols,
                    accum_mode: o.accum_mode,
                    ..opts
                }
                &&& if topn::ascending_columns(b) {
                    &&& o.accum_mode == opts.accum_mode
                    &&& match opts.chunk_cols {
                        Some(w) => o.chunk_cols == Some(w),
                        None => o.chunk_cols matches Some(w) && chunked::is_width_for(
                            l1d,
                            vstd::layout::size_of::<V>(),
                            w,
                        ),
                    }
                } else {
                    o.accum_mode == AccumMode::LinkedList && o.chunk_cols == Some(usize::MAX)
                }
            },
        },
{
    if topn::has_ascending_columns(b) {
        let width: usize = match opts.chunk_cols {
            Some(w) => w,
            None => chunked::chunk_cols_for::<V>(l1d),
        };
        let o = TopNOptions { chunk_cols: Some(width), ..opts };
        proof {
            assert forall|cc: int| #[trigger]
                chunked::admissible::<V>(o.chunk_cols, b.ncols, cc) implies topn::kernel_ready(
                a,
                b,
                o.accum_mode,
                cc,
                chunked::blocking(a, b, cc as usize, o).0,
            ) by {
                topn::lemma_ascending_is_ready(
                    a,
                    b,
                    o.accum_mode,
                    cc,
                    chunked::blocking(a, b, cc as usize, o).0,
                );
            }
        }
        Some(o)
    } else if b.ncols as u64 >= u32::MAX as u64 - 2 {
        None
    } else {
        let o = TopNOptions {
            chunk_cols: Some(usize::MAX),
            accum_mode: AccumMode::LinkedList,
            ..opts
        };
        proof {
            assert forall|cc: int| #[trigger]
                chunked::admissible::<V>(o.chunk_cols, b.ncols, cc) implies topn::chunk_ordered(
                b,
                cc,
            ) by {
                assert forall|j: int, p: int, q: int|
                    0 <= j < b.nrows && 0 <= p <= q < b.row(j).len() implies (
                #[trigger] b.row(j)[p]).0 / cc <= (#[trigger] b.row(j)[q]).0 / cc by {
                    product::lemma_row_in_bounds(b, j);
                    let kp = b.row(j)[p].0;
                    let kq = b.row(j)[q].0;
                    assert(kp / cc == 0 && kq / cc == 0) by (nonlinear_arith)
                        requires
                            0 <= kp < cc,
                            0 <= kq < cc,
                    ;
                }
            }
        }
        Some(o)
    }
}

/// Is `r` what [`sp_matmul_topn`] owes: the plain product, row by row in column
/// order, where it degenerates into that, and otherwise what the chunked drivers owe?
pub open spec fn is_topn_outcome<V: Scalar, I: Index>(
    r: Result<CsrMatrix<V, I>, CsrError>,
    a: CsrView<'_, V, I>,
    b: CsrView<'_, V, I>,
    top_n: usize,
    opts: TopNOptions<V>,
) -> bool {
    if !crate::csr::short_circuits(a, b, top_n) && is_plain(b, top_n, opts) {
        crate::csr::is_outcome(r, b.ncols, column_rows(matmul::product_rows(a, b)))
    } else {
        chunked::is_chunked_outcome(r, a, b, top_n, opts)
    }
}

/// The rows, each in the order of its columns.
pub open spec fn column_rows<V: Scalar, I: Index>(rows: Seq<Seq<(I, V)>>) -> Seq<Seq<(I, V)>> {
    Seq::new(rows.len(), |i: int| sorting::by_column(rows[i]))
}

/// Sorting rows changes no length.
pub proof fn lemma_column_rows_lengths<V: Scalar, I: Index>(rows: Seq<Seq<(I, V)>>, max: int)
    ensures
        column_rows(rows).len() == rows.len(),
        forall|i: int|
            0 <= i < rows.len() ==> (#[trigger] column_rows(rows)[i]).len() == rows[i].len(),
        crate::csr::flat(column_rows(rows)).len() == crate::csr::flat(rows).len(),
        crate::csr::first_total_over(column_rows(rows), max) == crate::csr::first_total_over(
            rows,
            max,
        ),
{
    let sorted = column_rows(rows);
    assert forall|i: int| 0 <= i < rows.len() implies (#[trigger] sorted[i]).len()
        == rows[i].len() by {
        sorting::lemma_stable_sorted_len(
            rows[i],
            sorting::order_of::<(I, V), sorting::ByColumn>(),
        );
    }
    crate::csr::lemma_same_lengths(sorted, rows, max);
}

/// Put every row of a matrix in the order of its columns.
fn sort_rows<V: Scalar, I: Index>(
    c: CsrMatrix<V, I>,
    Ghost(ncols): Ghost<usize>,
    Ghost(rows): Ghost<Seq<Seq<(I, V)>>>,
) -> (r: CsrMatrix<V, I>)
    requires
        c.holds(ncols, rows),
    ensures
        r.holds(ncols, column_rows(rows)),
{
    let ghost sorted = column_rows(rows);
    let ghost all = crate::csr::flat(rows);
    let nrows: usize = c.nrows;
    let mut indices: Vec<I> = Vec::with_capacity(c.indices.len());
    let mut data: Vec<V> = Vec::with_capacity(c.data.len());
    proof {
        lemma_column_rows_lengths(rows, 0);
        assert(sorted.take(0) =~= Seq::empty());
        assert(indices@ =~= crate::csr::columns(crate::csr::flat(sorted.take(0))));
        assert(data@ =~= crate::csr::values(crate::csr::flat(sorted.take(0))));
        assert(c.indptr@.len() == c.indptr.len());
        assert(c.indices@.len() == c.indices.len());
    }
    let mut i: usize = 0;
    while i < nrows
        invariant
            i <= nrows,
            nrows == c.nrows,
            nrows < usize::MAX,
            c.indices@.len() <= usize::MAX,
            c.holds(ncols, rows),
            all == crate::csr::flat(rows),
            sorted == column_rows(rows),
            indices@ == crate::csr::columns(crate::csr::flat(sorted.take(i as int))),
            data@ == crate::csr::values(crate::csr::flat(sorted.take(i as int))),
        decreases nrows - i,
    {
        let ghost row = rows[i as int];
        proof {
            crate::csr::lemma_flat_len_monotone(rows, i as int);
            crate::csr::lemma_flat_len_monotone(rows, i + 1);
            crate::csr::lemma_row_of_matrix(c, ncols, rows, i as int);
            assert(rows.take(i + 1) =~= rows.take(i as int).push(row));
            crate::csr::lemma_flat_push(rows.take(i as int), row);
            assert(c.row(i as int).len() == row.len());
        }
        let lo: usize = c.indptr[i].to_usize();
        let hi: usize = c.indptr[i + 1].to_usize();
        let mut picked: Vec<(I, V)> = Vec::with_capacity(hi - lo);
        let mut k: usize = lo;
        while k < hi
            invariant
                lo <= k <= hi <= c.indices@.len(),
                c.indices@.len() == c.data@.len(),
                row.len() == hi - lo,
                lo == c.indptr@[i as int].as_int(),
                hi == c.indptr@[i + 1].as_int(),
                c.row(i as int) == row,
                picked@ == row.take(k - lo),
            decreases hi - k,
        {
            picked.push((c.indices[k], c.data[k]));
            proof {
                assert(c.row(i as int)[k - lo] == (c.indices@[k as int], c.data@[k as int]));
                assert(picked@ =~= row.take(k - lo + 1));
            }
            k = k + 1;
        }
        assert(row.take(row.len() as int) =~= row);
        sort_by_column(&mut picked);
        let ghost indices0 = indices@;
        let ghost data0 = data@;
        let ghost done = sorted[i as int];
        assert(picked@ == done);
        let mut k: usize = 0;
        assert(indices@ =~= indices0 + crate::csr::columns(done.take(0)));
        assert(data@ =~= data0 + crate::csr::values(done.take(0)));
        while k < picked.len()
            invariant
                k <= picked@.len(),
                picked@ == done,
                indices@ == indices0 + crate::csr::columns(done.take(k as int)),
                data@ == data0 + crate::csr::values(done.take(k as int)),
            decreases picked@.len() - k,
        {
            indices.push(picked[k].0);
            data.push(picked[k].1);
            proof {
                assert(done.take(k + 1) =~= done.take(k as int).push(done[k as int]));
                assert(indices@ =~= indices0 + crate::csr::columns(done.take(k + 1)));
                assert(data@ =~= data0 + crate::csr::values(done.take(k + 1)));
            }
            k = k + 1;
        }
        proof {
            assert(done.take(done.len() as int) =~= done);
            assert(sorted.take(i + 1) =~= sorted.take(i as int).push(done));
            crate::csr::lemma_flat_push(sorted.take(i as int), done);
            assert(indices@ =~= crate::csr::columns(crate::csr::flat(sorted.take(i + 1))));
            assert(data@ =~= crate::csr::values(crate::csr::flat(sorted.take(i + 1))));
        }
        i = i + 1;
    }
    let r = CsrMatrix { nrows, ncols: c.ncols, indptr: c.indptr, indices, data };
    proof {
        assert(sorted.take(nrows as int) =~= sorted);
        assert forall|x: int| 0 <= x <= sorted.len() implies (#[trigger] r.indptr@[x]).as_int()
            == crate::csr::flat(sorted.take(x)).len() by {
            lemma_column_rows_lengths(rows, 0);
            let st = sorted.take(x);
            let rt = rows.take(x);
            assert forall|y: int| 0 <= y < st.len() implies (#[trigger] st[y]).len()
                == rt[y].len() by {
                assert(st[y] == sorted[y] && rt[y] == rows[y]);
            }
            crate::csr::lemma_same_lengths(st, rt, 0);
            assert(c.indptr@[x].as_int() == crate::csr::flat(rows.take(x)).len());
        }
    }
    r
}

/// The plain product with every row in the order of its columns.
fn try_plain<V: Scalar, I: Index>(a: CsrView<'_, V, I>, b: CsrView<'_, V, I>) -> (r: Result<
    CsrMatrix<V, I>,
    CsrError,
>)
    requires
        product::multipliable(a, b),
    ensures
        crate::csr::is_outcome(r, b.ncols, column_rows(matmul::product_rows(a, b))),
{
    let ghost rows = matmul::product_rows::<V, I>(a, b);
    proof {
        lemma_column_rows_lengths(rows, I::spec_max_usize() as int);
    }
    match try_sp_matmul(a, b) {
        Ok(c) => Ok(sort_rows(c, Ghost(b.ncols), Ghost(rows))),
        Err(e) => Err(e),
    }
}

/// Top-n product, or the overflow of the index type by the number of entries.
pub fn try_sp_matmul_topn<V: Scalar, I: Index>(
    a: CsrView<'_, V, I>,
    b: CsrView<'_, V, I>,
    top_n: usize,
    opts: TopNOptions<V>,
) -> (r: Result<CsrMatrix<V, I>, CsrError>)
    requires
        topn_ready(a, b, top_n, opts),
    ensures
        is_topn_outcome(r, a, b, top_n, opts),
{
    assert(a.indptr@.len() == a.indptr.len());
    if let Some(out) = matmul_topn_short_circuit(a, b, top_n) {
        return Ok(out);
    }
    if let Some(out) = maybe_parallel(a, b, top_n, opts) {
        return out;
    }
    // Fast path: when top_n reaches ncols, no threshold, and column order is
    // requested, the kernel degenerates into plain matmul, sorted by column.
    if top_n >= b.ncols && opts.threshold.is_none() && opts.sort == SortMode::ByColumn {
        return try_plain(a, b);
    }
    try_sp_matmul_topn_chunked(a, b, top_n, opts)
}

/// Dispatch to the rayon-backed driver when more than one thread is asked for;
/// otherwise return `None` and let the caller fall through to the sequential
/// paths.
fn maybe_parallel<V: Scalar, I: Index>(
    a: CsrView<'_, V, I>,
    b: CsrView<'_, V, I>,
    top_n: usize,
    opts: TopNOptions<V>,
) -> (r: Option<Result<CsrMatrix<V, I>, CsrError>>)
    requires
        topn_ready(a, b, top_n, opts),
    ensures
        match r {
            Some(out) => runs_parallel(opts) && chunked::is_chunked_outcome(
                out,
                a,
                b,
                top_n,
                opts,
            ),
            None => !runs_parallel(opts),
        },
{
    let n_threads: usize = match opts.n_threads {
        Some(n) => n,
        None => 1,
    };
    if n_threads > 1 {
        Some(try_sp_matmul_topn_parallel(a, b, top_n, opts))
    } else {
        None
    }
}

/// Does the entry count of the result fit the index type?
pub open spec fn topn_fits<V: Scalar, I: Index>(
    a: CsrView<'_, V, I>,
    b: CsrView<'_, V, I>,
    top_n: usize,
    opts: TopNOptions<V>,
) -> bool {
    if !crate::csr::short_circuits(a, b, top_n) && is_plain(b, top_n, opts) {
        crate::csr::flat(matmul::product_rows(a, b)).len() <= I::spec_max_usize()
    } else {
        chunked::result_fits(a, b, top_n, opts)
    }
}

/// Top-n product: the `top_n` largest entries per row of `a · b`, by column or
/// the largest first, for a result whose entry count the index type can
/// represent.
pub fn sp_matmul_topn<V: Scalar, I: Index>(
    a: CsrView<'_, V, I>,
    b: CsrView<'_, V, I>,
    top_n: usize,
    opts: TopNOptions<V>,
) -> (r: CsrMatrix<V, I>)
    requires
        topn_ready(a, b, top_n, opts),
        topn_fits(a, b, top_n, opts),
    ensures
        is_topn_outcome(Ok(r), a, b, top_n, opts),
{
    let outcome = try_sp_matmul_topn(a, b, top_n, opts);
    proof {
        if !crate::csr::short_circuits(a, b, top_n) && is_plain(b, top_n, opts) {
            lemma_column_rows_lengths(matmul::product_rows(a, b), I::spec_max_usize() as int);
            crate::csr::lemma_total_within(
                matmul::product_rows(a, b),
                I::spec_max_usize() as int,
            );
        } else {
            chunked::lemma_outcome_fits(outcome, a, b, top_n, opts);
        }
    }
    match outcome {
        Ok(c) => c,
        Err(_) => vstd::pervasive::unreached(),
    }
}

/// The rows of the single-chunk top-n product, with products rounded before
/// they are added.
pub open spec fn unchunked_rows<V: Scalar, I: Index>(
    a: CsrView<'_, V, I>,
    b: CsrView<'_, V, I>,
    top_n: nat,
    floor: Option<V>,
    sort: SortMode,
) -> Seq<Seq<(I, V)>> {
    Seq::new(
        a.nrows as nat,
        |i: int|
            topn::selected(
                product::touched_sums(product::updates_of(a, b, i), false),
                top_n,
                floor,
                sort,
            ),
    )
}

/// Walk the list of touched columns, offer their sums to the heap and leave the
/// scratch space clean.
fn offer_row<V: Scalar, I: Index>(
    Ghost(us): Ghost<Seq<Update<V>>>,
    start: usize,
    length: usize,
    sums: &mut Vec<V>,
    next: &mut Vec<usize>,
    heap: &mut MaxHeap<V, I>,
    root: V,
)
    requires
        old(sums)@.len() == old(next)@.len(),
        product::in_bounds(us, old(sums)@.len() as int),
        matmul::holds_sums(old(sums)@, us),
        matmul::is_list(product::touched(us), old(next)@, start),
        length == product::touched(us).len(),
        old(heap)@.slots.len() > 0,
        root == old(heap)@.min(),
    ensures
        final(sums)@.len() == old(sums)@.len(),
        final(next)@.len() == old(next)@.len(),
        matmul::is_clean(final(sums)@, final(next)@),
        final(heap)@.slots.len() == old(heap)@.slots.len(),
        final(heap)@ == old(heap)@.offer_all(product::touched_sums(us, false)),
{
    let ghost t = product::touched(us);
    let ghost cs = product::touched_sums(us, false);
    let ghost h0 = heap@;
    proof {
        product::lemma_touched(us);
        product::lemma_touched_in_bounds(us, sums@.len() as int);
        assert(cs.take(0) =~= Seq::empty());
        assert(t.take(length as int) =~= t);
        assert forall|k: int|
            0 <= k < sums@.len() && !t.take(length as int).contains(k) implies #[trigger] sums@[k]
            == V::spec_zero() by {
            product::lemma_untouched_is_zero(us, k, false);
        }
    }
    let mut min = root;
    let mut head: usize = start;
    let mut left: usize = length;
    while left > 0
        invariant
            left <= length,
            length == t.len(),
            t == product::touched(us),
            t.no_duplicates(),
            forall|q: int| 0 <= q < t.len() ==> 0 <= #[trigger] t[q] < sums@.len(),
            cs == product::touched_sums(us, false),
            sums@.len() == old(sums)@.len(),
            next@.len() == sums@.len(),
            head == matmul::link(t, left as int),
            forall|q: int| 0 <= q < left ==> next@[#[trigger] t[q]] == matmul::link(t, q),
            forall|q: int|
                0 <= q < left ==> sums@[#[trigger] t[q]] == product::accumulate(us, t[q], false),
            forall|k: int|
                0 <= k < next@.len() && !t.take(left as int).contains(k) ==> #[trigger] next@[k]
                    == UNVISITED,
            forall|k: int|
                0 <= k < sums@.len() && !t.take(left as int).contains(k) ==> #[trigger] sums@[k]
                    == V::spec_zero(),
            heap@.slots.len() == old(heap)@.slots.len(),
            heap@.slots.len() > 0,
            min == heap@.min(),
            heap@ == h0.offer_all(cs.take(length - left)),
        decreases left,
    {
        let ghost done = length - left;
        let ghost next0 = next@;
        let ghost sums0 = sums@;
        proof {
            assert(head == t[left - 1]);
            assert(cs[done] == (head as int, product::accumulate(us, head as int, false)));
            assert(cs.take(done + 1) =~= cs.take(done).push(cs[done]));
            crate::drain::lemma_offer_push(h0, cs.take(done), cs[done]);
        }
        let s = sums[head];
        min = heap.offer(head, s, min);
        let temp: usize = head;
        head = next[temp];
        next[temp] = UNVISITED;
        sums[temp] = V::zero();
        left = left - 1;
        proof {
            assert forall|q: int| 0 <= q < left implies #[trigger] t[q] != temp by {}
            assert forall|k: int| 0 <= k < next@.len() && !t.take(left as int).contains(
                k,
            ) implies #[trigger] next@[k] == UNVISITED && #[trigger] sums@[k]
                == V::spec_zero() by {
                if k != temp {
                    let longer = t.take(left + 1);
                    if longer.contains(k) {
                        let q = choose|q: int| 0 <= q < longer.len() && longer[q] == k;
                        assert(t.take(left as int)[q] == k);
                    }
                    assert(next0[k] == next@[k] && sums0[k] == sums@[k]);
                }
            }
        }
    }
    assert(cs.take(length as int) =~= cs);
    assert forall|k: int| 0 <= k < sums@.len() implies #[trigger] sums@[k] == V::spec_zero()
        && #[trigger] next@[k] == UNVISITED by {
        assert(!t.take(0).contains(k));
    }
}

/// Single-chunk top-n product, or the overflow of the index type by the number
/// of entries.
pub fn try_sp_matmul_topn_unchunked<V: Scalar, I: Index>(
    a: CsrView<'_, V, I>,
    b: CsrView<'_, V, I>,
    top_n: usize,
    opts: TopNOptions<V>,
) -> (r: Result<CsrMatrix<V, I>, CsrError>)
    requires
        product::multipliable(a, b),
    ensures
        if crate::csr::short_circuits(a, b, top_n) {
            r matches Ok(c) && c.holds(
                b.ncols,
                Seq::new(a.nrows as nat, |i: int| Seq::<(I, V)>::empty()),
            )
        } else {
            crate::csr::is_outcome(
                r,
                b.ncols,
                unchunked_rows(a, b, top_n as nat, opts.threshold, opts.sort),
            )
        },
{
    assert(a.indptr@.len() == a.indptr.len());
    if let Some(out) = matmul_topn_short_circuit(a, b, top_n) {
        return Ok(out);
    }
    let nrows: usize = a.nrows;
    let ncols: usize = b.ncols;
    let cap_hint: usize = output_capacity(nrows, ncols, top_n, opts.capacity_hint);
    let ghost rows = unchunked_rows(a, b, top_n as nat, opts.threshold, opts.sort);
    let ghost max = I::spec_max_usize() as int;

    let mut sums: Vec<V> = filled(ncols, V::zero());
    let mut next: Vec<usize> = filled(ncols, UNVISITED);
    let mut heap = MaxHeap::<V, I>::with_floor(top_n, opts.threshold);
    let mut c_indptr: Vec<I> = Vec::with_capacity(nrows + 1);
    let mut c_indices: Vec<I> = Vec::with_capacity(cap_hint);
    let mut c_data: Vec<V> = Vec::with_capacity(cap_hint);
    c_indptr.push(I::zero());
    proof {
        assert(rows.take(0) =~= Seq::empty());
        assert(c_indices@ =~= crate::csr::columns(crate::csr::flat(rows.take(0))));
        assert(c_data@ =~= crate::csr::values(crate::csr::flat(rows.take(0))));
        assert(rows.take(0).take(0) =~= rows.take(0));
    }
    let mut i: usize = 0;
    while i < nrows
        invariant
            product::multipliable(a, b),
            nrows == a.nrows,
            ncols == b.ncols,
            i <= nrows,
            !crate::csr::short_circuits(a, b, top_n),
            max == I::spec_max_usize(),
            rows == unchunked_rows(a, b, top_n as nat, opts.threshold, opts.sort),
            sums@.len() == ncols,
            next@.len() == ncols,
            matmul::is_clean(sums@, next@),
            heap@.slots.len() == top_n,
            heap@.floor == opts.threshold,
            crate::csr::arrays_hold(c_indptr@, c_indices@, c_data@, rows.take(i as int)),
            crate::csr::first_total_over(rows.take(i as int), max) is None,
        decreases nrows - i,
    {
        let ghost indices0 = c_indices@;
        let ghost data0 = c_data@;
        let ghost us = product::updates_of(a, b, i as int);
        let ghost offered = product::touched_sums(us, false);
        let min = heap.reset();
        let ghost h0 = heap@;
        let (head, length): (usize, usize) = scatter_row(a, b, i, &mut sums, &mut next);
        proof {
            product::lemma_product_in_bounds(a, b, i as int);
            crate::selection::lemma_offer_all_shape(h0, offered);
        }
        offer_row(Ghost(us), head, length, &mut sums, &mut next, &mut heap, min);
        let n_set: usize = finish_row(
            opts.sort,
            &mut heap,
            &mut c_indices,
            &mut c_data,
            Ghost(offered),
        );
        let nnz_total: usize = c_indices.len();
        proof {
            let before = rows.take(i as int);
            let row = rows[i as int];
            assert(rows.take(i + 1) =~= before.push(row));
            assert(rows.take(i + 1).drop_last() =~= before);
            crate::csr::lemma_flat_push(before, row);
            crate::csr::lemma_first_total_over_prefix(rows, max, i + 1);
            assert(nnz_total == crate::csr::flat(before).len() + row.len());
        }
        match try_narrow_indptr::<I>(nnz_total) {
            Ok(total) => {
                proof {
                    crate::csr::lemma_arrays_hold_push(
                        c_indptr@,
                        indices0,
                        data0,
                        rows.take(i as int),
                        rows[i as int],
                        total,
                    );
                }
                c_indptr.push(total);
            },
            Err(e) => {
                return Err(e);
            },
        }
        i = i + 1;
    }
    assert(rows.take(nrows as int) =~= rows);
    Ok(CsrMatrix { nrows, ncols, indptr: c_indptr, indices: c_indices, data: c_data })
}

/// Single-chunk top-n product: an independent oracle for the chunked drivers,
/// for a result whose entry count the index type can represent. The production
/// path goes through [`sp_matmul_topn`].
pub fn sp_matmul_topn_unchunked_for_tests<V: Scalar, I: Index>(
    a: CsrView<'_, V, I>,
    b: CsrView<'_, V, I>,
    top_n: usize,
    opts: TopNOptions<V>,
) -> (r: CsrMatrix<V, I>)
    requires
        product::multipliable(a, b),
        !crate::csr::short_circuits(a, b, top_n) ==> crate::csr::flat(
            unchunked_rows::<V, I>(
                a,
                b,
                top_n as nat,
                opts.threshold,
                opts.sort,
            ),
        ).len() <= I::spec_max_usize(),
    ensures
        r.holds(
            b.ncols,
            if crate::csr::short_circuits(a, b, top_n) {
                Seq::new(a.nrows as nat, |i: int| Seq::<(I, V)>::empty())
            } else {
                unchunked_rows(a, b, top_n as nat, opts.threshold, opts.sort)
            },
        ),
{
    let outcome = try_sp_matmul_topn_unchunked(a, b, top_n, opts);
    proof {
        if !crate::csr::short_circuits(a, b, top_n) {
            crate::csr::lemma_total_within(
                unchunked_rows::<V, I>(
                    a,
                    b,
                    top_n as nat,
                    opts.threshold,
                    opts.sort,
                ),
                I::spec_max_usize() as int,
            );
        }
    }
    match outcome {
        Ok(c) => c,
        Err(_) => vstd::pervasive::unreached(),
    }
}

} // verus!
