//! Chunk-major block kernel: processes a block of rows with the column-chunk
//! loop outermost, so the B-fragment of one chunk stays cache-hot across all
//! rows of the block.
use vstd::prelude::*;

use crate::chunked;
use crate::chunked::{
    finish_row, process_chunk, push_row_cursors, row_uses_dense, AccumMode, BProjection,
    UNVISITED,
};
use crate::csr::{filled, try_narrow_indptr, CsrError, CsrMatrix, CsrView};
use crate::index::Index;
use crate::matmul_topn::{SortMode, TopNOptions};
use crate::maxheap::{HeapState, MaxHeap};
use crate::product;
use crate::scalar::Scalar;
use crate::selection;
use crate::tiled::TiledB;
use crate::topn;

verus! {

/// Reusable scratch for [`process_row_block`]: one `sums`/`next` pair (drained
/// per (row, chunk), so shared across the block) plus per-row heap state that
/// must stay alive across the chunk sweep.
pub struct BlockScratch<V: Scalar, I: Index> {
    pub sums: Vec<V>,
    pub next: Vec<u32>,
    pub heaps: Vec<MaxHeap<V, I>>,
    pub mins: Vec<V>,
    pub use_dense: Vec<bool>,
    pub cursors: Vec<usize>,
    pub cursor_base: Vec<usize>,
}

impl<V: Scalar, I: Index> BlockScratch<V, I> {
    /// Is this scratch for chunks of `chunk_cols` columns and blocks of up to
    /// `block_rows` rows, each with a heap for the `top_n` largest above `floor`?
    pub open spec fn ready(
        self,
        top_n: nat,
        floor: Option<V>,
        chunk_cols: usize,
        block_rows: usize,
    ) -> bool {
        &&& self.sums@.len() == chunk_cols
        &&& chunked::is_clean(self.sums@, self.next@)
        &&& self.heaps@.len() == block_rows
        &&& self.mins@.len() == block_rows
        &&& self.use_dense@.len() == block_rows
        &&& forall|r: int|
            0 <= r < block_rows ==> (#[trigger] self.heaps@[r])@.slots.len()
                == top_n && self.heaps@[r]@.floor == floor
    }

    /// Scratch for blocks of up to `block_rows` rows.
    pub fn new(
        top_n: usize,
        threshold: Option<V>,
        chunk_cols: usize,
        block_rows: usize,
    ) -> (r: Self)
        requires
            chunk_cols < chunked::HEAD_NIL,
        ensures
            r.ready(top_n as nat, threshold, chunk_cols, block_rows),
    {
        let mut heaps: Vec<MaxHeap<V, I>> = Vec::with_capacity(block_rows);
        for i in 0..block_rows
            invariant
                heaps@.len() == i,
                forall|r: int|
                    0 <= r < i ==> (#[trigger] heaps@[r])@.slots.len() == top_n
                        && heaps@[r]@.floor == threshold,
        {
            heaps.push(MaxHeap::with_floor(top_n, threshold));
        }
        Self {
            sums: filled(chunk_cols, V::zero()),
            next: filled(chunk_cols, UNVISITED),
            heaps,
            mins: filled(block_rows, V::zero()),
            use_dense: filled(block_rows, false),
            cursors: Vec::new(),
            cursor_base: Vec::new(),
        }
    }
}

/// The candidates of row `i` from the first `m` chunks.
spec fn offered_upto<V: Scalar, I: Index>(
    a: CsrView<'_, V, I>,
    b: CsrView<'_, V, I>,
    accum: AccumMode,
    cc: int,
    i: int,
    m: int,
) -> Seq<(int, V)> {
    topn::candidates_upto(
        product::updates_of(a, b, i),
        b.ncols as int,
        cc,
        topn::uses_dense(a, b, i, accum),
        m,
    )
}

/// Has the heap taken the candidates of the first `m` chunks of row `i`?
spec fn heap_has<V: Scalar, I: Index>(
    heap: MaxHeap<V, I>,
    a: CsrView<'_, V, I>,
    b: CsrView<'_, V, I>,
    accum: AccumMode,
    cc: int,
    top_n: nat,
    floor: Option<V>,
    i: int,
    m: int,
) -> bool {
    &&& heap@.slots.len() == top_n
    &&& heap@ == HeapState::<V, I>::fresh(top_n, floor).offer_all(
        offered_upto(a, b, accum, cc, i, m),
    )
}

/// Do the cursor ranges of the rows of a block lie one after the other?
spec fn bases_apart<V: Scalar, I: Index>(
    bases: Seq<usize>,
    a: CsrView<'_, V, I>,
    row_lo: int,
) -> bool {
    forall|r: int, q: int|
        0 <= r < q < bases.len() ==> (#[trigger] bases[r]) + a.row(row_lo + r).len()
            <= #[trigger] bases[q]
}

/// Start a block: reset the heaps, choose the accumulator mode of each row and
/// seed the cursors.
fn start_block<V: Scalar, I: Index>(
    a: CsrView<'_, V, I>,
    b: CsrView<'_, V, I>,
    row_lo: usize,
    row_hi: usize,
    accum: AccumMode,
    need_cursors: bool,
    scratch: &mut BlockScratch<V, I>,
    Ghost(top_n): Ghost<nat>,
    Ghost(floor): Ghost<Option<V>>,
    Ghost(cc): Ghost<usize>,
    Ghost(rows): Ghost<usize>,
)
    requires
        product::multipliable(a, b),
        row_lo <= row_hi <= a.nrows,
        row_hi - row_lo <= rows,
        old(scratch).ready(top_n, floor, cc, rows),
        top_n > 0,
    ensures
        final(scratch).ready(top_n, floor, cc, rows),
        forall|r: int|
            0 <= r < row_hi - row_lo ==> heap_has(
                #[trigger] final(scratch).heaps@[r],
                a,
                b,
                accum,
                cc as int,
                top_n,
                floor,
                row_lo + r,
                0,
            ) && final(scratch).mins@[r] == final(scratch).heaps@[r]@.min()
                && final(scratch).use_dense@[r] == topn::uses_dense(a, b, row_lo + r, accum),
        need_cursors ==> {
            &&& final(scratch).cursor_base@.len() == row_hi - row_lo
            &&& bases_apart(final(scratch).cursor_base@, a, row_lo as int)
            &&& forall|r: int|
                0 <= r < row_hi - row_lo ==> chunked::cursors_at(
                    final(scratch).cursors@,
                    #[trigger] final(scratch).cursor_base@[r] as int,
                    a,
                    b,
                    row_lo + r,
                    0,
                )
        },
{
    let block_rows: usize = row_hi - row_lo;
    let mut r: usize = 0;
    while r < block_rows
        invariant
            product::multipliable(a, b),
            r <= block_rows,
            block_rows == row_hi - row_lo,
            row_lo <= row_hi <= a.nrows,
            block_rows <= rows,
            scratch.ready(top_n, floor, cc, rows),
            top_n > 0,
            forall|q: int|
                0 <= q < r ==> heap_has(
                    #[trigger] scratch.heaps@[q],
                    a,
                    b,
                    accum,
                    cc as int,
                    top_n,
                    floor,
                    row_lo + q,
                    0,
                ) && scratch.mins@[q] == scratch.heaps@[q]@.min() && scratch.use_dense@[q]
                    == topn::uses_dense(a, b, row_lo + q, accum),
        decreases block_rows - r,
    {
        let ghost heaps0 = scratch.heaps@;
        let min = scratch.heaps[r].reset();
        scratch.mins[r] = min;
        let dense: bool = row_uses_dense(a, b, row_lo + r, accum);
        scratch.use_dense[r] = dense;
        assert(forall|q: int|
            0 <= q < rows && q != r ==> #[trigger] scratch.heaps@[q] == heaps0[q]);
        r = r + 1;
    }
    scratch.cursors.clear();
    scratch.cursor_base.clear();
    if need_cursors {
        let mut r: usize = 0;
        while r < block_rows
            invariant
                product::multipliable(a, b),
                r <= block_rows,
                block_rows == row_hi - row_lo,
                row_lo <= row_hi <= a.nrows,
                block_rows <= rows,
                scratch.ready(top_n, floor, cc, rows),
                forall|q: int|
                    0 <= q < block_rows ==> heap_has(
                        #[trigger] scratch.heaps@[q],
                        a,
                        b,
                        accum,
                        cc as int,
                        top_n,
                        floor,
                        row_lo + q,
                        0,
                    ) && scratch.mins@[q] == scratch.heaps@[q]@.min() && scratch.use_dense@[q]
                        == topn::uses_dense(a, b, row_lo + q, accum),
                scratch.cursor_base@.len() == r,
                bases_apart(scratch.cursor_base@, a, row_lo as int),
                forall|q: int|
                    0 <= q < r ==> chunked::cursors_at(
                        scratch.cursors@,
                        #[trigger] scratch.cursor_base@[q] as int,
                        a,
                        b,
                        row_lo + q,
                        0,
                    ),
            decreases block_rows - r,
        {
            let ghost cursors0 = scratch.cursors@;
            let ghost bases0 = scratch.cursor_base@;
            let base: usize = scratch.cursors.len();
            scratch.cursor_base.push(base);
            push_row_cursors(a, b, row_lo + r, &mut scratch.cursors);
            proof {
                let bases = scratch.cursor_base@;
                assert forall|q: int| 0 <= q < r + 1 implies chunked::cursors_at(
                    scratch.cursors@,
                    #[trigger] bases[q] as int,
                    a,
                    b,
                    row_lo + q,
                    0,
                ) by {
                    if q < r {
                        assert(bases[q] == bases0[q]);
                        assert(chunked::cursors_at(
                            cursors0,
                            bases0[q] as int,
                            a,
                            b,
                            row_lo + q,
                            0,
                        ));
                    }
                }
                assert forall|p: int, q: int| 0 <= p < q < bases.len() implies (#[trigger] bases[p])
                    + a.row(row_lo + p).len() <= #[trigger] bases[q] by {
                    assert(bases[p] == bases0[p]);
                    if q == r {
                        assert(chunked::cursors_at(
                            cursors0,
                            bases0[p] as int,
                            a,
                            b,
                            row_lo + p,
                            0,
                        ));
                    } else {
                        assert(bases[q] == bases0[q]);
                    }
                }
            }
            r = r + 1;
        }
    }
}

/// How far the rows of a block are: row `q` of the block has seen `seen(q)` chunks.
spec fn block_at<V: Scalar, I: Index>(
    scratch: BlockScratch<V, I>,
    a: CsrView<'_, V, I>,
    b: CsrView<'_, V, I>,
    accum: AccumMode,
    cc: int,
    top_n: nat,
    floor: Option<V>,
    row_lo: int,
    block_rows: int,
    need_cursors: bool,
    seen: spec_fn(int) -> int,
) -> bool {
    &&& forall|q: int|
        0 <= q < block_rows ==> heap_has(
            #[trigger] scratch.heaps@[q],
            a,
            b,
            accum,
            cc,
            top_n,
            floor,
            row_lo + q,
            seen(q),
        ) && scratch.mins@[q] == scratch.heaps@[q]@.min() && scratch.use_dense@[q]
            == topn::uses_dense(a, b, row_lo + q, accum)
    &&& need_cursors ==> {
        &&& scratch.cursor_base@.len() == block_rows
        &&& bases_apart(scratch.cursor_base@, a, row_lo)
        &&& forall|q: int|
            0 <= q < block_rows ==> chunked::cursors_at(
                scratch.cursors@,
                #[trigger] scratch.cursor_base@[q] as int,
                a,
                b,
                row_lo + q,
                topn::chunk_start(b.ncols as int, cc, seen(q)),
            )
    }
}

/// One chunk for all rows of a block.
fn sweep_chunk<V: Scalar, I: Index>(
    a: CsrView<'_, V, I>,
    b: CsrView<'_, V, I>,
    row_lo: usize,
    block_rows: usize,
    c0: usize,
    chunk_end: usize,
    chunk_id: usize,
    projection: BProjection,
    accum: AccumMode,
    tiled: Option<&TiledB<V>>,
    scratch: &mut BlockScratch<V, I>,
    Ghost(top_n): Ghost<nat>,
    Ghost(floor): Ghost<Option<V>>,
    Ghost(cc): Ghost<usize>,
    Ghost(rows): Ghost<usize>,
)
    requires
        topn::kernel_ready(a, b, accum, cc as int, tiled is Some),
        row_lo + block_rows <= a.nrows,
        block_rows <= rows,
        top_n > 0,
        old(scratch).ready(top_n, floor, cc, rows),
        tiled matches Some(t) ==> t.tiles(b, cc),
        chunked::is_chunk(
            b,
            tiled is Some,
            cc as int,
            chunk_id as int,
            c0 as int,
            chunk_end as int,
        ),
        block_at(
            *old(scratch),
            a,
            b,
            accum,
            cc as int,
            top_n,
            floor,
            row_lo as int,
            block_rows as int,
            chunked::uses_cursors(tiled, projection),
            |q: int| chunk_id as int,
        ),
    ensures
        final(scratch).ready(top_n, floor, cc, rows),
        block_at(
            *final(scratch),
            a,
            b,
            accum,
            cc as int,
            top_n,
            floor,
            row_lo as int,
            block_rows as int,
            chunked::uses_cursors(tiled, projection),
            |q: int| chunk_id + 1,
        ),
{
    let need_cursors: bool = tiled.is_none() && projection == BProjection::Cursor;
    let mut r: usize = 0;
    assert(block_at(
        *scratch,
        a,
        b,
        accum,
        cc as int,
        top_n,
        floor,
        row_lo as int,
        block_rows as int,
        need_cursors,
        |q: int| if q < 0 { chunk_id + 1 } else { chunk_id as int },
    ));
    while r < block_rows
        invariant
            topn::kernel_ready(a, b, accum, cc as int, tiled is Some),
            need_cursors == chunked::uses_cursors(tiled, projection),
            r <= block_rows,
            row_lo + block_rows <= a.nrows,
            block_rows <= rows,
            top_n > 0,
            scratch.ready(top_n, floor, cc, rows),
            tiled matches Some(t) ==> t.tiles(b, cc),
            chunked::is_chunk(
                b,
                tiled is Some,
                cc as int,
                chunk_id as int,
                c0 as int,
                chunk_end as int,
            ),
            block_at(
                *scratch,
                a,
                b,
                accum,
                cc as int,
                top_n,
                floor,
                row_lo as int,
                block_rows as int,
                need_cursors,
                |q: int| if q < r { chunk_id + 1 } else { chunk_id as int },
            ),
        decreases block_rows - r,
    {
        let ghost s0 = *scratch;
        let ghost seen = |q: int| if q < r { chunk_id + 1 } else { chunk_id as int };
        let ghost seen2 = |q: int| if q < r + 1 { chunk_id + 1 } else { chunk_id as int };
        let i: usize = row_lo + r;
        let ghost us = product::updates_of(a, b, i as int);
        let use_dense: bool = scratch.use_dense[r];
        let min = scratch.mins[r];
        assert(heap_has(
            scratch.heaps@[r as int],
            a,
            b,
            accum,
            cc as int,
            top_n,
            floor,
            row_lo + r,
            seen(r as int),
        ));
        let base: usize = if need_cursors {
            assert(chunked::cursors_at(
                scratch.cursors@,
                scratch.cursor_base@[r as int] as int,
                a,
                b,
                row_lo + r,
                topn::chunk_start(b.ncols as int, cc as int, seen(r as int)),
            ));
            scratch.cursor_base[r]
        } else {
            0
        };
        let new_min = process_chunk(
            a,
            b,
            i,
            c0,
            chunk_end,
            chunk_id,
            projection,
            tiled,
            use_dense,
            &mut scratch.sums,
            &mut scratch.next,
            &mut scratch.heaps[r],
            min,
            &mut scratch.cursors,
            base,
        );
        scratch.mins[r] = new_min;
        proof {
            let h0 = HeapState::<V, I>::fresh(top_n, floor);
            let before = offered_upto(a, b, accum, cc as int, i as int, chunk_id as int);
            let more = topn::chunk_candidates(us, c0 as int, chunk_end as int, use_dense);
            selection::lemma_offer_all_concat(h0, before, more);
            assert(offered_upto(a, b, accum, cc as int, i as int, chunk_id + 1) == before + more);
            selection::lemma_offer_all_shape(h0, before + more);
            assert(scratch.heaps@ == s0.heaps@.update(r as int, scratch.heaps@[r as int]));
            assert forall|q: int| 0 <= q < block_rows implies heap_has(
                #[trigger] scratch.heaps@[q],
                a,
                b,
                accum,
                cc as int,
                top_n,
                floor,
                row_lo + q,
                seen2(q),
            ) && scratch.mins@[q] == scratch.heaps@[q]@.min() && scratch.use_dense@[q]
                == topn::uses_dense(a, b, row_lo + q, accum) by {
                if q != r {
                    assert(scratch.heaps@[q] == s0.heaps@[q]);
                    assert(seen(q) == seen2(q));
                    assert(heap_has(
                        s0.heaps@[q],
                        a,
                        b,
                        accum,
                        cc as int,
                        top_n,
                        floor,
                        row_lo + q,
                        seen(q),
                    ));
                    assert(scratch.mins@[q] == s0.mins@[q]);
                }
            }
            if need_cursors {
                let bases = scratch.cursor_base@;
                assert forall|q: int| 0 <= q < block_rows implies chunked::cursors_at(
                    scratch.cursors@,
                    #[trigger] bases[q] as int,
                    a,
                    b,
                    row_lo + q,
                    topn::chunk_start(b.ncols as int, cc as int, seen2(q)),
                ) by {
                    if q != r {
                        let len = a.row(row_lo + q).len();
                        assert(chunked::cursors_at(
                            s0.cursors@,
                            bases[q] as int,
                            a,
                            b,
                            row_lo + q,
                            topn::chunk_start(b.ncols as int, cc as int, seen(q)),
                        ));
                        assert(seen(q) == seen2(q));
                        if q < r {
                            assert(bases[q] + len <= bases[r as int]);
                        } else {
                            assert(bases[r as int] + a.row(row_lo + r).len() <= bases[q]);
                        }
                        assert forall|m: int| 0 <= m < len implies scratch.cursors@[#[trigger] (
                        bases[q] + m)] == s0.cursors@[bases[q] + m] by {}
                    }
                }
            }
            assert forall|q: int| 0 <= q < rows implies
                (#[trigger] scratch.heaps@[q])@.slots.len() == top_n
                    && scratch.heaps@[q]@.floor == floor by {
                if q != r {
                    assert(scratch.heaps@[q] == s0.heaps@[q]);
                }
            }
            assert(block_at(
                *scratch,
                a,
                b,
                accum,
                cc as int,
                top_n,
                floor,
                row_lo as int,
                block_rows as int,
                need_cursors,
                seen2,
            ));
        }
        r = r + 1;
        proof {
            assert(seen2 =~= (|q: int| if q < r { chunk_id + 1 } else { chunk_id as int }));
        }
    }
    proof {
        let seen = |q: int| if q < r { chunk_id + 1 } else { chunk_id as int };
        assert forall|q: int| 0 <= q < block_rows implies heap_has(
            #[trigger] scratch.heaps@[q],
            a,
            b,
            accum,
            cc as int,
            top_n,
            floor,
            row_lo + q,
            chunk_id + 1,
        ) by {
            assert(seen(q) == chunk_id + 1);
        }
        if need_cursors {
            assert forall|q: int| 0 <= q < block_rows implies chunked::cursors_at(
                scratch.cursors@,
                #[trigger] scratch.cursor_base@[q] as int,
                a,
                b,
                row_lo + q,
                topn::chunk_start(b.ncols as int, cc as int, chunk_id + 1),
            ) by {
                assert(seen(q) == chunk_id + 1);
            }
        }
    }
}

/// The top-n rows `lo..hi`.
pub open spec fn rows_between<V: Scalar, I: Index>(
    a: CsrView<'_, V, I>,
    b: CsrView<'_, V, I>,
    top_n: nat,
    floor: Option<V>,
    sort: SortMode,
    accum: AccumMode,
    cc: int,
    lo: int,
    hi: int,
) -> Seq<Seq<(I, V)>> {
    topn::topn_rows(a, b, top_n, floor, sort, accum, cc).subrange(lo, hi)
}

/// Do the output buffers hold what they held before, followed by `rows`?
pub open spec fn appended<V: Scalar, I: Index>(
    indices0: Seq<I>,
    data0: Seq<V>,
    nset0: Seq<u32>,
    indices: Seq<I>,
    data: Seq<V>,
    nset: Seq<u32>,
    rows: Seq<Seq<(I, V)>>,
) -> bool {
    &&& indices == indices0 + crate::csr::columns(crate::csr::flat(rows))
    &&& data == data0 + crate::csr::values(crate::csr::flat(rows))
    &&& nset.len() == nset0.len() + rows.len()
    &&& forall|x: int| 0 <= x < nset0.len() ==> #[trigger] nset[x] == nset0[x]
    &&& forall|x: int|
        nset0.len() <= x < nset.len() ==> #[trigger] nset[x] == rows[x - nset0.len()].len()
}

/// Appending nothing.
pub proof fn lemma_appended_none<V: Scalar, I: Index>(
    indices: Seq<I>,
    data: Seq<V>,
    nset: Seq<u32>,
    rows: Seq<Seq<(I, V)>>,
)
    requires
        rows.len() == 0,
    ensures
        appended(indices, data, nset, indices, data, nset, rows),
{
    assert(indices =~= indices + crate::csr::columns(crate::csr::flat(rows)));
    assert(data =~= data + crate::csr::values(crate::csr::flat(rows)));
}

/// Appending one more row.
pub proof fn lemma_appended_row<V: Scalar, I: Index>(
    indices0: Seq<I>,
    data0: Seq<V>,
    nset0: Seq<u32>,
    indices: Seq<I>,
    data: Seq<V>,
    nset: Seq<u32>,
    rows: Seq<Seq<(I, V)>>,
    row: Seq<(I, V)>,
    n: u32,
)
    requires
        appended(indices0, data0, nset0, indices, data, nset, rows),
        n == row.len(),
    ensures
        appended(
            indices0,
            data0,
            nset0,
            indices + crate::csr::columns(row),
            data + crate::csr::values(row),
            nset.push(n),
            rows.push(row),
        ),
{
    crate::csr::lemma_flat_push(rows, row);
    let all = crate::csr::flat(rows);
    assert(crate::csr::columns(all + row) =~= crate::csr::columns(all) + crate::csr::columns(row));
    assert(crate::csr::values(all + row) =~= crate::csr::values(all) + crate::csr::values(row));
    assert(indices + crate::csr::columns(row) =~= indices0 + crate::csr::columns(
        crate::csr::flat(rows.push(row)),
    ));
    assert(data + crate::csr::values(row) =~= data0 + crate::csr::values(
        crate::csr::flat(rows.push(row)),
    ));
    let nset2 = nset.push(n);
    assert forall|x: int| nset0.len() <= x < nset2.len() implies #[trigger] nset2[x] == rows.push(
        row,
    )[x - nset0.len()].len() by {
        if x < nset.len() {
            assert(nset2[x] == nset[x]);
        }
    }
}

/// Chunk-major block kernel. Processes rows `[row_lo, row_hi)` with the
/// column-chunk loop outermost. With `tiled` set, B-segments are streamed from
/// the tiled-CSR buckets, without a search and without cursors.
///
/// Per-row accumulation order is that of [`chunked::process_row`], so the
/// output is the same for every block size.
pub(crate) fn process_row_block<V: Scalar, I: Index>(
    a: CsrView<'_, V, I>,
    b: CsrView<'_, V, I>,
    row_lo: usize,
    row_hi: usize,
    sort: SortMode,
    chunk_cols: usize,
    projection: BProjection,
    accum: AccumMode,
    tiled: Option<&TiledB<V>>,
    scratch: &mut BlockScratch<V, I>,
    out_indices: &mut Vec<I>,
    out_data: &mut Vec<V>,
    row_nset: &mut Vec<u32>,
    Ghost(top_n): Ghost<nat>,
    Ghost(floor): Ghost<Option<V>>,
    Ghost(rows): Ghost<usize>,
)
    requires
        chunk_cols > 0,
        topn::kernel_ready(a, b, accum, chunk_cols as int, tiled is Some),
        row_lo <= row_hi <= a.nrows,
        row_hi - row_lo <= rows,
        top_n > 0,
        old(scratch).ready(top_n, floor, chunk_cols, rows),
        tiled matches Some(t) ==> t.tiles(b, chunk_cols),
    ensures
        final(scratch).ready(top_n, floor, chunk_cols, rows),
        appended(
            old(out_indices)@,
            old(out_data)@,
            old(row_nset)@,
            final(out_indices)@,
            final(out_data)@,
            final(row_nset)@,
            rows_between(
                a,
                b,
                top_n,
                floor,
                sort,
                accum,
                chunk_cols as int,
                row_lo as int,
                row_hi as int,
            ),
        ),
{
    let ncols: usize = b.ncols;
    let block_rows: usize = row_hi - row_lo;
    let ghost cc = chunk_cols as int;
    let need_cursors: bool = tiled.is_none() && projection == BProjection::Cursor;
    start_block(
        a,
        b,
        row_lo,
        row_hi,
        accum,
        need_cursors,
        scratch,
        Ghost(top_n),
        Ghost(floor),
        Ghost(chunk_cols),
        Ghost(rows),
    );
    let mut c0: usize = 0;
    let mut chunk_id: usize = 0;
    proof {
        topn::lemma_chunk_start(ncols as int, cc, 0);
        let seen = |q: int| chunk_id as int;
        assert forall|q: int| 0 <= q < block_rows implies heap_has(
            #[trigger] scratch.heaps@[q],
            a,
            b,
            accum,
            cc,
            top_n,
            floor,
            row_lo + q,
            seen(q),
        ) by {
            assert(seen(q) == 0);
        }
        if need_cursors {
            assert forall|q: int| 0 <= q < block_rows implies chunked::cursors_at(
                scratch.cursors@,
                #[trigger] scratch.cursor_base@[q] as int,
                a,
                b,
                row_lo + q,
                topn::chunk_start(ncols as int, cc, seen(q)),
            ) by {
                assert(seen(q) == 0);
            }
        }
        assert(block_at(
            *scratch,
            a,
            b,
            accum,
            cc,
            top_n,
            floor,
            row_lo as int,
            block_rows as int,
            need_cursors,
            seen,
        ));
    }
    while c0 < ncols
        invariant
            chunk_cols > 0,
            cc == chunk_cols,
            ncols == b.ncols,
            topn::kernel_ready(a, b, accum, cc, tiled is Some),
            row_lo <= row_hi <= a.nrows,
            block_rows == row_hi - row_lo,
            block_rows <= rows,
            top_n > 0,
            need_cursors == chunked::uses_cursors(tiled, projection),
            scratch.ready(top_n, floor, chunk_cols, rows),
            tiled matches Some(t) ==> t.tiles(b, chunk_cols),
            c0 == topn::chunk_start(ncols as int, cc, chunk_id as int),
            0 <= chunk_id <= c0,
            chunk_id > 0 ==> topn::chunk_start(ncols as int, cc, chunk_id - 1) < ncols,
            block_at(
                *scratch,
                a,
                b,
                accum,
                cc,
                top_n,
                floor,
                row_lo as int,
                block_rows as int,
                need_cursors,
                |q: int| chunk_id as int,
            ),
        decreases ncols - c0,
    {
        let chunk_width: usize = if ncols - c0 < chunk_cols {
            ncols - c0
        } else {
            chunk_cols
        };
        let chunk_end: usize = c0 + chunk_width;
        proof {
            topn::lemma_chunk_start(ncols as int, cc, chunk_id as int);
            topn::lemma_chunk_start(ncols as int, cc, chunk_id + 1);
        }
        sweep_chunk(
            a,
            b,
            row_lo,
            block_rows,
            c0,
            chunk_end,
            chunk_id,
            projection,
            accum,
            tiled,
            scratch,
            Ghost(top_n),
            Ghost(floor),
            Ghost(chunk_cols),
            Ghost(rows),
        );
        c0 = chunk_end;
        chunk_id = chunk_id + 1;
        assert((|q: int| chunk_id as int) =~= (|q: int| (chunk_id - 1) + 1));
    }
    let ghost all = topn::topn_rows(a, b, top_n, floor, sort, accum, cc);
    let mut r: usize = 0;
    proof {
        lemma_appended_none(
            out_indices@,
            out_data@,
            row_nset@,
            all.subrange(row_lo as int, row_lo as int),
        );
        assert forall|q: int| 0 <= q < block_rows implies (#[trigger] scratch.heaps@[q])@.slots.len() == top_n
            && scratch.heaps@[q]@
            == HeapState::<V, I>::fresh(top_n, floor).offer_all(
            topn::row_candidates(a, b, accum, cc, row_lo + q),
        ) by {
            assert(heap_has(
                scratch.heaps@[q],
                a,
                b,
                accum,
                cc,
                top_n,
                floor,
                row_lo + q,
                chunk_id as int,
            ));
            chunked::lemma_all_chunks(
                product::updates_of(a, b, row_lo + q),
                ncols as int,
                cc,
                topn::uses_dense(a, b, row_lo + q, accum),
                chunk_id as int,
            );
        }
    }
    while r < block_rows
        invariant
            row_lo <= row_hi <= a.nrows,
            block_rows == row_hi - row_lo,
            block_rows <= rows,
            r <= block_rows,
            top_n > 0,
            cc == chunk_cols,
            scratch.ready(top_n, floor, chunk_cols, rows),
            all == topn::topn_rows(a, b, top_n, floor, sort, accum, cc),
            forall|q: int|
                r <= q < block_rows ==> (#[trigger] scratch.heaps@[q])@.slots.len() == top_n
                    && scratch.heaps@[q]@ == HeapState::<
                    V,
                    I,
                >::fresh(top_n, floor).offer_all(
                    topn::row_candidates(a, b, accum, cc, row_lo + q),
                ),
            appended(
                old(out_indices)@,
                old(out_data)@,
                old(row_nset)@,
                out_indices@,
                out_data@,
                row_nset@,
                all.subrange(row_lo as int, row_lo + r),
            ),
        decreases block_rows - r,
    {
        let ghost heaps0 = scratch.heaps@;
        let ghost offered = topn::row_candidates(a, b, accum, cc, row_lo + r);
        let ghost indices1 = out_indices@;
        let ghost data1 = out_data@;
        proof {
            selection::lemma_offer_all_shape(HeapState::<V, I>::fresh(top_n, floor), offered);
        }
        let n_set: usize = finish_row(
            sort,
            &mut scratch.heaps[r],
            out_indices,
            out_data,
            Ghost(offered),
        );
        proof {
            assert(scratch.heaps@ == heaps0.update(r as int, scratch.heaps@[r as int]));
            let row = all[row_lo + r];
            lemma_appended_row(
                old(out_indices)@,
                old(out_data)@,
                old(row_nset)@,
                indices1,
                data1,
                row_nset@,
                all.subrange(row_lo as int, row_lo + r),
                row,
                n_set as u32,
            );
            assert(all.subrange(row_lo as int, row_lo + r + 1) =~= all.subrange(
                row_lo as int,
                row_lo + r,
            ).push(row));
        }
        row_nset.push(n_set as u32);
        r = r + 1;
    }
}

/// Build the row pointers of `rows` from their lengths, or report the overflow.
pub(crate) fn build_indptr<V: Scalar, I: Index>(
    row_nset: &Vec<u32>,
    Ghost(rows): Ghost<Seq<Seq<(I, V)>>>,
) -> (r: Result<Vec<I>, CsrError>)
    requires
        row_nset@.len() == rows.len(),
        row_nset@.len() < usize::MAX,
        forall|x: int| 0 <= x < rows.len() ==> #[trigger] row_nset@[x] == rows[x].len(),
    ensures
        match crate::csr::first_total_over(rows, I::spec_max_usize() as int) {
            None => r matches Ok(indptr) && {
                &&& indptr@.len() == rows.len() + 1
                &&& forall|i: int|
                    0 <= i <= rows.len() ==> (#[trigger] indptr@[i]).as_int() == crate::csr::flat(
                        rows.take(i),
                    ).len()
            },
            Some(count) => r matches Err(e) && e == crate::csr::nnz_overflow(
                count as int,
                I::spec_max_usize(),
            ),
        },
{
    let ghost max = I::spec_max_usize() as int;
    let mut indptr: Vec<I> = Vec::with_capacity(row_nset.len() + 1);
    indptr.push(I::zero());
    let mut running: usize = 0;
    let mut i: usize = 0;
    proof {
        assert(rows.take(0) =~= Seq::empty());
    }
    while i < row_nset.len()
        invariant
            i <= row_nset@.len(),
            row_nset@.len() == rows.len(),
            forall|x: int| 0 <= x < rows.len() ==> #[trigger] row_nset@[x] == rows[x].len(),
            max == I::spec_max_usize(),
            running == crate::csr::flat(rows.take(i as int)).len(),
            crate::csr::first_total_over(rows.take(i as int), max) is None,
            indptr@.len() == i + 1,
            forall|k: int|
                0 <= k <= i ==> (#[trigger] indptr@[k]).as_int() == crate::csr::flat(
                    rows.take(k),
                ).len(),
        decreases row_nset@.len() - i,
    {
        let n: usize = row_nset[i] as usize;
        proof {
            let before = rows.take(i as int);
            let row = rows[i as int];
            assert(row_nset@[i as int] == row.len());
            assert(rows.take(i + 1) =~= before.push(row));
            assert(rows.take(i + 1).drop_last() =~= before);
            crate::csr::lemma_flat_push(before, row);
            crate::csr::lemma_first_total_over_prefix(rows, max, i + 1);
        }
        running =
        match running.checked_add(n) {
            Some(total) => total,
            None => {
                return Err(
                    CsrError::IndexOverflow {
                        what: "non-zero count (nnz)",
                        value: usize::MAX,
                        max: I::max_usize(),
                    },
                );
            },
        };
        match try_narrow_indptr::<I>(running) {
            Ok(total) => indptr.push(total),
            Err(e) => {
                return Err(e);
            },
        }
        i = i + 1;
    }
    assert(rows.take(rows.len() as int) =~= rows);
    Ok(indptr)
}

/// Process rows `[row_lo, row_hi)` block by block, appending to the output.
pub(crate) fn process_blocks<V: Scalar, I: Index>(
    a: CsrView<'_, V, I>,
    b: CsrView<'_, V, I>,
    top_n: usize,
    opts: TopNOptions<V>,
    chunk_cols: usize,
    projection: BProjection,
    tiled: Option<&TiledB<V>>,
    row_lo: usize,
    row_hi: usize,
    out_indices: &mut Vec<I>,
    out_data: &mut Vec<V>,
    row_nset: &mut Vec<u32>,
)
    requires
        top_n > 0,
        0 < chunk_cols < chunked::HEAD_NIL,
        topn::kernel_ready(a, b, opts.accum_mode, chunk_cols as int, tiled is Some),
        row_lo <= row_hi <= a.nrows,
        tiled matches Some(t) ==> t.tiles(b, chunk_cols),
    ensures
        appended(
            old(out_indices)@,
            old(out_data)@,
            old(row_nset)@,
            final(out_indices)@,
            final(out_data)@,
            final(row_nset)@,
            chunked::requested_rows(a, b, top_n, opts, chunk_cols as int).subrange(
                row_lo as int,
                row_hi as int,
            ),
        ),
{
    let span: usize = row_hi - row_lo;
    let wanted: usize = match opts.row_block {
        Some(n) => n,
        None => 1,
    };
    let block_rows: usize = if wanted < 1 || span == 0 {
        1
    } else if wanted < span {
        wanted
    } else {
        span
    };
    let ghost rows = chunked::requested_rows(a, b, top_n, opts, chunk_cols as int);
    let mut scratch = BlockScratch::<V, I>::new(top_n, opts.threshold, chunk_cols, block_rows);
    let mut lo: usize = row_lo;
    proof {
        lemma_appended_none(
            out_indices@,
            out_data@,
            row_nset@,
            rows.subrange(row_lo as int, row_lo as int),
        );
    }
    while lo < row_hi
        invariant
            top_n > 0,
            0 < chunk_cols < chunked::HEAD_NIL,
            topn::kernel_ready(a, b, opts.accum_mode, chunk_cols as int, tiled is Some),
            row_lo <= lo <= row_hi <= a.nrows,
            tiled matches Some(t) ==> t.tiles(b, chunk_cols),
            rows == chunked::requested_rows(a, b, top_n, opts, chunk_cols as int),
            block_rows > 0,
            scratch.ready(top_n as nat, opts.threshold, chunk_cols, block_rows),
            appended(
                old(out_indices)@,
                old(out_data)@,
                old(row_nset)@,
                out_indices@,
                out_data@,
                row_nset@,
                rows.subrange(row_lo as int, lo as int),
            ),
        decreases row_hi - lo,
    {
        let hi: usize = if row_hi - lo < block_rows {
            row_hi
        } else {
            lo + block_rows
        };
        let ghost indices1 = out_indices@;
        let ghost data1 = out_data@;
        let ghost nset1 = row_nset@;
        process_row_block(
            a,
            b,
            lo,
            hi,
            opts.sort,
            chunk_cols,
            projection,
            opts.accum_mode,
            tiled,
            &mut scratch,
            out_indices,
            out_data,
            row_nset,
            Ghost(top_n as nat),
            Ghost(opts.threshold),
            Ghost(block_rows),
        );
        proof {
            lemma_appended_twice(
                old(out_indices)@,
                old(out_data)@,
                old(row_nset)@,
                indices1,
                data1,
                nset1,
                out_indices@,
                out_data@,
                row_nset@,
                rows.subrange(row_lo as int, lo as int),
                rows.subrange(lo as int, hi as int),
            );
            assert(rows.subrange(row_lo as int, lo as int) + rows.subrange(lo as int, hi as int)
                =~= rows.subrange(row_lo as int, hi as int));
        }
        lo = hi;
    }
}

/// Appending twice is appending the rows of both.
pub proof fn lemma_appended_twice<V: Scalar, I: Index>(
    indices0: Seq<I>,
    data0: Seq<V>,
    nset0: Seq<u32>,
    indices1: Seq<I>,
    data1: Seq<V>,
    nset1: Seq<u32>,
    indices2: Seq<I>,
    data2: Seq<V>,
    nset2: Seq<u32>,
    first: Seq<Seq<(I, V)>>,
    second: Seq<Seq<(I, V)>>,
)
    requires
        appended(indices0, data0, nset0, indices1, data1, nset1, first),
        appended(indices1, data1, nset1, indices2, data2, nset2, second),
    ensures
        appended(indices0, data0, nset0, indices2, data2, nset2, first + second),
{
    crate::csr::lemma_flat_concat(first, second);
    let x = crate::csr::flat(first);
    let y = crate::csr::flat(second);
    assert(crate::csr::columns(x + y) =~= crate::csr::columns(x) + crate::csr::columns(y));
    assert(crate::csr::values(x + y) =~= crate::csr::values(x) + crate::csr::values(y));
    assert(indices2 =~= indices0 + crate::csr::columns(x + y));
    assert(data2 =~= data0 + crate::csr::values(x + y));
    let all = first + second;
    assert forall|k: int| 0 <= k < nset0.len() implies #[trigger] nset2[k] == nset0[k] by {
        assert(nset2[k] == nset1[k]);
    }
    assert forall|k: int| nset0.len() <= k < nset2.len() implies #[trigger] nset2[k] == all[k
        - nset0.len()].len() by {
        if k < nset1.len() {
            assert(nset2[k] == nset1[k]);
        }
    }
}

/// Sequential driver over [`process_row_block`]: `row_block` rows per block
/// (default 1), optionally streaming B from a [`TiledB`].
pub fn run_blocked<V: Scalar, I: Index>(
    a: CsrView<'_, V, I>,
    b: CsrView<'_, V, I>,
    top_n: usize,
    opts: TopNOptions<V>,
    chunk_cols: usize,
    projection: BProjection,
    tiled: Option<&TiledB<V>>,
) -> (r: Result<CsrMatrix<V, I>, CsrError>)
    requires
        top_n > 0,
        0 < chunk_cols < chunked::HEAD_NIL,
        topn::kernel_ready(a, b, opts.accum_mode, chunk_cols as int, tiled is Some),
        tiled matches Some(t) ==> t.tiles(b, chunk_cols),
    ensures
        crate::csr::is_outcome(
            r,
            b.ncols,
            chunked::requested_rows(a, b, top_n, opts, chunk_cols as int),
        ),
{
    let nrows: usize = a.nrows;
    let ncols: usize = b.ncols;
    let cap_hint: usize = chunked::output_capacity(nrows, ncols, top_n, opts.capacity_hint);
    let ghost rows = chunked::requested_rows(a, b, top_n, opts, chunk_cols as int);
    assert(a.indptr@.len() == a.indptr.len());
    let mut row_nset: Vec<u32> = Vec::with_capacity(nrows);
    let mut c_indices: Vec<I> = Vec::with_capacity(cap_hint);
    let mut c_data: Vec<V> = Vec::with_capacity(cap_hint);
    process_blocks(
        a,
        b,
        top_n,
        opts,
        chunk_cols,
        projection,
        tiled,
        0,
        nrows,
        &mut c_indices,
        &mut c_data,
        &mut row_nset,
    );
    proof {
        assert(rows.subrange(0, nrows as int) =~= rows);
        assert(c_indices@ =~= crate::csr::columns(crate::csr::flat(rows)));
        assert(c_data@ =~= crate::csr::values(crate::csr::flat(rows)));
    }
    match build_indptr::<V, I>(&row_nset, Ghost(rows)) {
        Ok(indptr) => Ok(CsrMatrix { nrows, ncols, indptr, indices: c_indices, data: c_data }),
        Err(e) => Err(e),
    }
}

/// The output buffers after rows have been appended one at a time: the columns,
/// the values, and for each row its length, as [`chunked::process_row`] appends
/// and returns them.
pub open spec fn row_by_row<V: Scalar, I: Index>(
    indices0: Seq<I>,
    data0: Seq<V>,
    nset0: Seq<u32>,
    rows: Seq<Seq<(I, V)>>,
) -> (Seq<I>, Seq<V>, Seq<u32>)
    decreases rows.len(),
{
    if rows.len() == 0 {
        (indices0, data0, nset0)
    } else {
        let (indices, data, nset) = row_by_row(indices0, data0, nset0, rows.drop_last());
        let row = rows.last();
        (
            indices + crate::csr::columns(row),
            data + crate::csr::values(row),
            nset.push(row.len() as u32),
        )
    }
}

/// What a block appends is what its rows append one at a time, in order.
pub proof fn law_blocks_append_row_by_row<V: Scalar, I: Index>(
    indices0: Seq<I>,
    data0: Seq<V>,
    nset0: Seq<u32>,
    indices: Seq<I>,
    data: Seq<V>,
    nset: Seq<u32>,
    rows: Seq<Seq<(I, V)>>,
)
    requires
        appended(indices0, data0, nset0, indices, data, nset, rows),
    ensures
        row_by_row(indices0, data0, nset0, rows) == (indices, data, nset),
    decreases rows.len(),
{
    if rows.len() == 0 {
        assert(indices =~= indices0);
        assert(data =~= data0);
        assert(nset =~= nset0);
    } else {
        let front = rows.drop_last();
        let row = rows.last();
        let before = nset.drop_last();
        let indices1 = indices0 + crate::csr::columns(crate::csr::flat(front));
        let data1 = data0 + crate::csr::values(crate::csr::flat(front));
        assert(rows =~= front.push(row));
        crate::csr::lemma_flat_push(front, row);
        assert forall|x: int| nset0.len() <= x < before.len() implies #[trigger] before[x]
            == front[x - nset0.len()].len() by {
            assert(before[x] == nset[x]);
            assert(front[x - nset0.len()] == rows[x - nset0.len()]);
        }
        law_blocks_append_row_by_row(indices0, data0, nset0, indices1, data1, before, front);
        let all = crate::csr::flat(front);
        assert(crate::csr::columns(all + row) =~= crate::csr::columns(all) + crate::csr::columns(
            row,
        ));
        assert(crate::csr::values(all + row) =~= crate::csr::values(all) + crate::csr::values(row));
        assert(indices =~= indices1 + crate::csr::columns(row));
        assert(data =~= data1 + crate::csr::values(row));
        assert(nset[nset.len() - 1] == row.len());
        assert(nset =~= before.push(row.len() as u32));
    }
}

/// The rows of a block are the top-n rows of its range, one by one, so cutting
/// the range into smaller blocks changes nothing.
pub proof fn law_blocks_split<V: Scalar, I: Index>(
    a: CsrView<'_, V, I>,
    b: CsrView<'_, V, I>,
    top_n: nat,
    floor: Option<V>,
    sort: SortMode,
    accum: AccumMode,
    cc: int,
    lo: int,
    mid: int,
    hi: int,
)
    requires
        0 <= lo <= mid <= hi <= a.nrows,
    ensures
        rows_between::<V, I>(a, b, top_n, floor, sort, accum, cc, lo, hi) == rows_between::<V, I>(
            a,
            b,
            top_n,
            floor,
            sort,
            accum,
            cc,
            lo,
            mid,
        ) + rows_between::<V, I>(a, b, top_n, floor, sort, accum, cc, mid, hi),
        forall|i: int|
            lo <= i < hi ==> #[trigger] topn::topn_row::<V, I>(
                a,
                b,
                top_n,
                floor,
                sort,
                accum,
                cc,
                i,
            ) == rows_between::<V, I>(a, b, top_n, floor, sort, accum, cc, lo, hi)[i - lo],
{
    let all = topn::topn_rows::<V, I>(a, b, top_n, floor, sort, accum, cc);
    assert(all.subrange(lo, hi) =~= all.subrange(lo, mid) + all.subrange(mid, hi));
}

} // verus!
