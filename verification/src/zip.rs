//! `zip_sp_matmul_topn`: combine top-n sub-matrices produced by independent
//! column chunks.
//!
//! For the distributed use case, where chunks are computed on separate machines
//! and must be materialised. The in-process column-chunked driver does the same
//! thing via a streaming merge and is the preferred single-node path.
use vstd::prelude::*;

use crate::chunked::finish_row;
use crate::csr::{check_index_capacity, try_narrow_indptr, CsrError, CsrMatrix, CsrView};
use crate::index::Index;
use crate::matmul_topn::SortMode;
use crate::maxheap::MaxHeap;
use crate::product;
use crate::scalar::Scalar;
use crate::selection;
use crate::topn;

verus! {

/// The column in the zipped output where the columns of chunk `j` start.
pub open spec fn column_offset<V: Scalar, I: Index>(chunks: Seq<CsrView<'_, V, I>>, j: int) -> int
    decreases j,
{
    if j <= 0 {
        0
    } else {
        column_offset(chunks, j - 1) + chunks[j - 1].ncols
    }
}

/// The entries of a row with their columns shifted by `offset`.
pub open spec fn shifted<V>(row: Seq<(int, V)>, offset: int) -> Seq<(int, V)> {
    row.map_values(|e: (int, V)| (e.0 + offset, e.1))
}

/// The candidates of row `i` from the chunks `j..`, the last chunk first.
pub open spec fn zip_candidates<V: Scalar, I: Index>(
    chunks: Seq<CsrView<'_, V, I>>,
    i: int,
    j: int,
) -> Seq<(int, V)>
    decreases chunks.len() - j,
{
    if j >= chunks.len() {
        Seq::empty()
    } else {
        zip_candidates(chunks, i, j + 1) + shifted(chunks[j].row(i), column_offset(chunks, j))
    }
}

/// The rows of the zipped matrix: the top n of the side-by-side rows, the
/// largest value first.
pub open spec fn zip_rows<V: Scalar, I: Index>(
    chunks: Seq<CsrView<'_, V, I>>,
    top_n: nat,
) -> Seq<Seq<(I, V)>> {
    Seq::new(
        chunks[0].nrows as nat,
        |i: int|
            topn::selected(
                zip_candidates(chunks, i, 0),
                top_n,
                Some(V::spec_limits_min()),
                SortMode::ByValueDesc,
            ),
    )
}

/// Can these chunks stand side by side: valid matrices with equally many rows,
/// whose total width a `usize` can hold?
pub open spec fn zippable<V: Scalar, I: Index>(chunks: Seq<CsrView<'_, V, I>>) -> bool {
    &&& forall|j: int|
        0 <= j < chunks.len() ==> (#[trigger] chunks[j]).valid() && chunks[j].nrows
            == chunks[0].nrows
    &&& column_offset(chunks, chunks.len() as int) <= usize::MAX
}

/// Offsets grow with the chunk number.
pub proof fn lemma_offsets_grow<V: Scalar, I: Index>(chunks: Seq<CsrView<'_, V, I>>, j: int, k: int)
    requires
        0 <= j <= k <= chunks.len(),
    ensures
        0 <= column_offset(chunks, j) <= column_offset(chunks, k),
    decreases k,
{
    if j < k {
        lemma_offsets_grow(chunks, j, k - 1);
    } else if k > 0 {
        lemma_offsets_grow(chunks, j - 1, k - 1);
    }
}

/// Offer one row of one chunk to the heap, its columns shifted by `offset`.
/// Returns the new heap minimum.
fn offer_row<V: Scalar, I: Index>(
    chunk: CsrView<'_, V, I>,
    i: usize,
    offset: usize,
    heap: &mut MaxHeap<V, I>,
    root: V,
) -> (r: V)
    requires
        chunk.valid(),
        i < chunk.nrows,
        offset + chunk.ncols <= usize::MAX,
        old(heap)@.slots.len() > 0,
        root == old(heap)@.min(),
    ensures
        final(heap)@.slots.len() == old(heap)@.slots.len(),
        r == final(heap)@.min(),
        final(heap)@ == old(heap)@.offer_all(shifted(chunk.row(i as int), offset as int)),
{
    let ghost row = shifted(chunk.row(i as int), offset as int);
    let ghost h0 = heap@;
    let mut min = root;
    proof {
        product::lemma_row_in_bounds(chunk, i as int);
        assert(chunk.start(0) <= chunk.start(i as int) <= chunk.start(i + 1) <= chunk.start(
            chunk.nrows as int,
        ));
        assert(row.take(0) =~= Seq::empty());
    }
    let start: usize = chunk.row_start(i);
    let end: usize = chunk.row_start(i + 1);
    let mut k: usize = start;
    while k < end
        invariant
            chunk.valid(),
            i < chunk.nrows,
            offset + chunk.ncols <= usize::MAX,
            start == chunk.start(i as int),
            end == chunk.start(i + 1),
            chunk.start(0) <= start <= k <= end <= chunk.start(chunk.nrows as int),
            end <= chunk.data@.len(),
            row == shifted(chunk.row(i as int), offset as int),
            row.len() == end - start,
            heap@.slots.len() == old(heap)@.slots.len(),
            heap@.slots.len() > 0,
            min == heap@.min(),
            heap@ == h0.offer_all(row.take(k - start)),
        decreases end - k,
    {
        let col: usize = chunk.column_at(k);
        let val = chunk.data[k];
        proof {
            product::lemma_row_in_bounds(chunk, i as int);
            assert(chunk.row(i as int)[k - start] == (col as int, val));
            assert(row[k - start] == (offset + col, val));
            assert(row.take(k - start + 1) =~= row.take(k - start).push(row[k - start]));
            crate::drain::lemma_offer_push(h0, row.take(k - start), row[k - start]);
        }
        min = heap.offer(offset + col, val, min);
        k = k + 1;
    }
    assert(row.take(row.len() as int) =~= row);
    min
}

/// The overflow of the index type by the largest column of the zipped matrix.
pub open spec fn width_overflow(total: int, max: usize) -> CsrError {
    CsrError::IndexOverflow { what: "largest column index", value: (total - 1) as usize, max }
}

/// Zip the chunks, or report the overflow of the index type: by the total width
/// before any work, or by the number of entries.
pub fn try_zip_sp_matmul_topn<V: Scalar, I: Index>(
    top_n: usize,
    c_chunks: &[CsrView<'_, V, I>],
) -> (r: Result<CsrMatrix<V, I>, CsrError>)
    requires
        zippable(c_chunks@),
    ensures
        if c_chunks@.len() == 0 {
            r matches Ok(c) && c.holds(0, Seq::empty())
        } else {
            let total = column_offset(c_chunks@, c_chunks@.len() as int);
            if total - 1 > I::spec_max_usize() {
                r matches Err(e) && e == width_overflow(total, I::spec_max_usize())
            } else {
                crate::csr::is_outcome(r, total as usize, zip_rows(c_chunks@, top_n as nat))
            }
        },
{
    let n: usize = c_chunks.len();
    if n == 0 {
        let empty = CsrMatrix::<V, I>::zeros(0, 0);
        assert(Seq::new(0, |i: int| Seq::<(I, V)>::empty()) =~= Seq::<Seq<(I, V)>>::empty());
        return Ok(empty);
    }
    let ghost chunks = c_chunks@;
    assert(chunks[0].valid());
    let nrows: usize = c_chunks[0].nrows;
    assert(c_chunks[0].indptr@.len() == c_chunks[0].indptr.len());
    // offset[j] = sum of the widths of the chunks before j.
    let mut offset: Vec<usize> = Vec::with_capacity(n);
    let mut acc: usize = 0;
    let mut j: usize = 0;
    while j < n
        invariant
            j <= n,
            n == c_chunks@.len(),
            chunks == c_chunks@,
            zippable(chunks),
            acc == column_offset(chunks, j as int),
            offset@.len() == j,
            forall|x: int| 0 <= x < j ==> #[trigger] offset@[x] == column_offset(chunks, x),
        decreases n - j,
    {
        proof {
            lemma_offsets_grow(chunks, j + 1, n as int);
        }
        offset.push(acc);
        acc = acc + c_chunks[j].ncols;
        j = j + 1;
    }
    let total_ncols: usize = acc;
    if let Err(e) = check_index_capacity::<I>(0, total_ncols) {
        return Err(e);
    }
    let ghost rows = zip_rows::<V, I>(chunks, top_n as nat);
    let ghost max = I::spec_max_usize() as int;
    if top_n == 0 {
        proof {
            assert(rows =~= Seq::new(nrows as nat, |i: int| Seq::<(I, V)>::empty()));
            crate::csr::lemma_flat_of_empty_rows(rows);
            crate::csr::lemma_total_within(rows, max);
        }
        return Ok(CsrMatrix::zeros(nrows, total_ncols));
    }
    let threshold = V::cpp_numeric_limits_min();
    let mut heap = MaxHeap::<V, I>::new(top_n, threshold);
    let mut indptr: Vec<I> = Vec::with_capacity(nrows + 1);
    let mut indices: Vec<I> = Vec::new();
    let mut data: Vec<V> = Vec::new();
    indptr.push(I::zero());
    proof {
        assert(rows.take(0) =~= Seq::empty());
        assert(indices@ =~= crate::csr::columns(crate::csr::flat(rows.take(0))));
        assert(data@ =~= crate::csr::values(crate::csr::flat(rows.take(0))));
        assert(rows.take(0).take(0) =~= rows.take(0));
    }
    let mut i: usize = 0;
    while i < nrows
        invariant
            i <= nrows,
            n == c_chunks@.len(),
            n > 0,
            total_ncols == column_offset(chunks, n as int),
            total_ncols - 1 <= I::spec_max_usize(),
            chunks == c_chunks@,
            zippable(chunks),
            nrows == chunks[0].nrows,
            top_n > 0,
            threshold == V::spec_limits_min(),
            max == I::spec_max_usize(),
            rows == zip_rows::<V, I>(chunks, top_n as nat),
            offset@.len() == n,
            forall|x: int| 0 <= x < n ==> #[trigger] offset@[x] == column_offset(chunks, x),
            heap@.slots.len() == top_n,
            heap@.floor == Some(threshold),
            crate::csr::arrays_hold(indptr@, indices@, data@, rows.take(i as int)),
            crate::csr::first_total_over(rows.take(i as int), max) is None,
        decreases nrows - i,
    {
        let ghost indices0 = indices@;
        let ghost data0 = data@;
        let mut min = heap.reset();
        let ghost h0 = heap@;
        // The chunks in reverse: value-tied entries keep that insertion order.
        let mut j: usize = n;
        while j > 0
            invariant
                j <= n,
                i < nrows,
                n == c_chunks@.len(),
                chunks == c_chunks@,
                zippable(chunks),
                nrows == chunks[0].nrows,
                top_n > 0,
                offset@.len() == n,
                forall|x: int| 0 <= x < n ==> #[trigger] offset@[x] == column_offset(chunks, x),
                heap@.slots.len() == top_n,
                min == heap@.min(),
                heap@ == h0.offer_all(zip_candidates(chunks, i as int, j as int)),
            decreases j,
        {
            proof {
                lemma_offsets_grow(chunks, j as int, n as int);
                assert(chunks[j - 1].valid());
                selection::lemma_offer_all_concat(
                    h0,
                    zip_candidates(chunks, i as int, j as int),
                    shifted(chunks[j - 1].row(i as int), column_offset(chunks, j - 1)),
                );
            }
            min = offer_row(c_chunks[j - 1], i, offset[j - 1], &mut heap, min);
            j = j - 1;
        }
        let ghost offered = zip_candidates(chunks, i as int, 0);
        proof {
            selection::lemma_offer_all_shape(h0, offered);
        }
        let n_set: usize = finish_row(
            SortMode::ByValueDesc,
            &mut heap,
            &mut indices,
            &mut data,
            Ghost(offered),
        );
        let nnz_total: usize = indices.len();
        proof {
            let before = rows.take(i as int);
            let row = rows[i as int];
            assert(rows.take(i + 1) =~= before.push(row));
            assert(rows.take(i + 1).drop_last() =~= before);
            crate::csr::lemma_flat_push(before, row);
            crate::csr::lemma_first_total_over_prefix(rows, max, i + 1);
            assert(nnz_total == crate::csr::flat(before).len() + row.len());
        }
        match try_narrow_indptr::<I>(nnz_total) {
            Ok(total) => {
                proof {
                    crate::csr::lemma_arrays_hold_push(
                        indptr@,
                        indices0,
                        data0,
                        rows.take(i as int),
                        rows[i as int],
                        total,
                    );
                }
                indptr.push(total);
            },
            Err(e) => {
                return Err(e);
            },
        }
        i = i + 1;
    }
    assert(rows.take(nrows as int) =~= rows);
    Ok(CsrMatrix { nrows, ncols: total_ncols, indptr, indices, data })
}

/// Zip the chunks, for a result that the index type can represent.
pub fn zip_sp_matmul_topn<V: Scalar, I: Index>(
    top_n: usize,
    c_chunks: &[CsrView<'_, V, I>],
) -> (r: CsrMatrix<V, I>)
    requires
        zippable(c_chunks@),
        c_chunks@.len() > 0 ==> {
            &&& column_offset(c_chunks@, c_chunks@.len() as int) - 1 <= I::spec_max_usize()
            &&& crate::csr::flat(zip_rows::<V, I>(c_chunks@, top_n as nat)).len()
                <= I::spec_max_usize()
        },
    ensures
        if c_chunks@.len() == 0 {
            r.holds(0, Seq::empty())
        } else {
            r.holds(
                column_offset(c_chunks@, c_chunks@.len() as int) as usize,
                zip_rows(c_chunks@, top_n as nat),
            )
        },
{
    proof {
        crate::csr::lemma_total_within(
            zip_rows::<V, I>(c_chunks@, top_n as nat),
            I::spec_max_usize() as int,
        );
    }
    match try_zip_sp_matmul_topn(top_n, c_chunks) {
        Ok(c) => c,
        Err(_) => vstd::pervasive::unreached(),
    }
}

} // verus!
