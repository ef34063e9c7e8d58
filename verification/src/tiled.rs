//! Tiled-CSR representation of B.
//!
//! `O(nnz(B))` preprocessing that buckets B's entries per column chunk: every
//! (chunk, B-row) pair gets its own contiguous (indices, data) segment, with
//! column indices stored *chunk-local* as `u16`. The chunked kernel then
//! streams each segment directly, without a search and without cursor state,
//! and the index bandwidth halves versus 32-bit global indices.
use vstd::prelude::*;

use crate::csr::{filled, CsrView};
use crate::index::Index;
use crate::product;
use crate::scalar::Scalar;

verus! {

/// B bucketed per column chunk. Segments are ordered chunk-major: the segment
/// for (chunk `c`, B-row `j`) lives at
/// `seg_ptr[c * nrows + j]..seg_ptr[c * nrows + j + 1]`, so one chunk's data is
/// one contiguous region, the streaming order of the blocked kernel.
#[derive(Debug)]
pub struct TiledB<V> {
    pub chunk_cols: usize,
    pub n_chunks: usize,
    pub nrows: usize,
    pub ncols: usize,
    pub seg_ptr: Vec<u32>,
    pub idx: Vec<u16>,
    pub data: Vec<V>,
}

/// The entries of `row` in chunk `c` of width `cc`, with chunk-local columns.
pub open spec fn local_segment<V>(row: Seq<(int, V)>, cc: int, c: int) -> Seq<(int, V)> {
    product::segment(row, c * cc, c * cc + cc).map_values(|e: (int, V)| (e.0 - c * cc, e.1))
}

/// Number of chunks of width `cc` that cover `ncols` columns, at least one.
pub open spec fn chunk_count(ncols: int, cc: int) -> int {
    if ncols <= 0 {
        1
    } else {
        (ncols - 1) / cc + 1
    }
}

/// Can `b` be tiled: do chunk-local columns fit `u16` and entry offsets `u32`?
pub open spec fn tileable<V: Scalar, I: Index>(b: CsrView<'_, V, I>, chunk_cols: usize) -> bool {
    chunk_cols <= 0x1_0000 && b.data@.len() <= u32::MAX
}

/// What bucket `o` holds once the rows before `j` and `p` entries of row `j`
/// are placed.
spec fn placed<V: Scalar, I: Index>(
    b: CsrView<'_, V, I>,
    cc: int,
    j: int,
    p: int,
    o: int,
) -> Seq<(int, V)> {
    let r = o % (b.nrows as int);
    let c = o / (b.nrows as int);
    if r < j {
        local_segment(b.row(r), cc, c)
    } else if r == j {
        local_segment(b.row(j).take(p), cc, c)
    } else {
        Seq::empty()
    }
}

/// All buckets at that point.
spec fn buckets<V: Scalar, I: Index>(
    b: CsrView<'_, V, I>,
    cc: int,
    nseg: nat,
    j: int,
    p: int,
) -> Seq<Seq<(int, V)>> {
    Seq::new(nseg, |o: int| placed(b, cc, j, p, o))
}

/// Which bucket takes an entry in row `j` and column `k`.
spec fn bucket_of(nrows: int, cc: int, j: int, k: int) -> int {
    (k / cc) * nrows + j
}

/// Number of the chunk, local column and bucket of a column.
proof fn lemma_bucket_of(nrows: int, ncols: int, cc: int, j: int, k: int)
    requires
        0 <= j < nrows,
        0 <= k < ncols,
        cc > 0,
    ensures
        ({
            let c = k / cc;
            let o = bucket_of(nrows, cc, j, k);
            &&& 0 <= c < chunk_count(ncols, cc)
            &&& 0 <= c * cc <= k < c * cc + cc
            &&& 0 <= o < chunk_count(ncols, cc) * nrows
            &&& o % nrows == j
            &&& o / nrows == c
        }),
{
    let c = k / cc;
    vstd::arithmetic::div_mod::lemma_fundamental_div_mod(k, cc);
    vstd::arithmetic::div_mod::lemma_div_pos_is_pos(k, cc);
    vstd::arithmetic::div_mod::lemma_div_is_ordered(k, ncols - 1, cc);
    assert(c * cc == cc * c) by (nonlinear_arith);
    assert(0 <= c * cc) by (nonlinear_arith)
        requires
            0 <= c,
            0 < cc,
    ;
    vstd::arithmetic::div_mod::lemma_fundamental_div_mod_converse(c * nrows + j, nrows, c, j);
    let n = chunk_count(ncols, cc);
    assert(c * nrows + j < n * nrows) by (nonlinear_arith)
        requires
            c + 1 <= n,
            0 <= j < nrows,
    ;
    assert(0 <= c * nrows) by (nonlinear_arith)
        requires
            0 <= c,
            0 < nrows,
    ;
}

/// A column lies in the chunk that division finds, and in no other.
pub proof fn lemma_chunk_of(cc: int, c: int, k: int)
    requires
        cc > 0,
    ensures
        c * cc <= k < c * cc + cc <==> k / cc == c,
{
    vstd::arithmetic::div_mod::lemma_fundamental_div_mod(k, cc);
    assert(cc * (k / cc) == (k / cc) * cc) by (nonlinear_arith);
    if c * cc <= k < c * cc + cc {
        vstd::arithmetic::div_mod::lemma_fundamental_div_mod_converse(k, cc, c, k - c * cc);
    }
}

/// Placing one more entry appends it to its bucket and changes no other.
proof fn lemma_place<V: Scalar, I: Index>(
    b: CsrView<'_, V, I>,
    cc: int,
    nseg: nat,
    j: int,
    p: int,
)
    requires
        b.valid(),
        cc > 0,
        0 <= j < b.nrows,
        0 <= p < b.row(j).len(),
        nseg == chunk_count(b.ncols as int, cc) * b.nrows,
    ensures
        ({
            let k = b.row(j)[p].0;
            let o = bucket_of(b.nrows as int, cc, j, k);
            let before = buckets(b, cc, nseg, j, p);
            &&& 0 <= o < nseg
            &&& buckets(b, cc, nseg, j, p + 1) == before.update(
                o,
                before[o].push((k - (k / cc) * cc, b.row(j)[p].1)),
            )
        }),
{
    let nrows = b.nrows as int;
    let row = b.row(j);
    let e = row[p];
    let k = e.0;
    let o = bucket_of(nrows, cc, j, k);
    product::lemma_row_in_bounds(b, j);
    lemma_bucket_of(nrows, b.ncols as int, cc, j, k);
    let before = buckets(b, cc, nseg, j, p);
    let after = buckets(b, cc, nseg, j, p + 1);
    let c = k / cc;
    assert(row.take(p + 1) =~= row.take(p).push(e));
    assert forall|x: int| 0 <= x < nseg implies #[trigger] after[x] == before.update(
        o,
        before[o].push((k - c * cc, e.1)),
    )[x] by {
        let r = x % nrows;
        let d = x / nrows;
        if r == j {
            let inside = |f: (int, V)| d * cc <= f.0 < d * cc + cc;
            row.take(p).lemma_filter_push(e, inside);
            lemma_chunk_of(cc, d, k);
            if x == o {
                assert(d == c);
                assert(local_segment(row.take(p + 1), cc, d) =~= local_segment(
                    row.take(p),
                    cc,
                    d,
                ).push((k - c * cc, e.1)));
            } else {
                assert(d != c) by {
                    vstd::arithmetic::div_mod::lemma_fundamental_div_mod(x, nrows);
                    vstd::arithmetic::div_mod::lemma_fundamental_div_mod(o, nrows);
                }
            }
        }
    }
    assert(after =~= before.update(o, before[o].push((k - c * cc, e.1))));
}

/// Once a row is placed, the next one can start.
proof fn lemma_next_row<V: Scalar, I: Index>(b: CsrView<'_, V, I>, cc: int, nseg: nat, j: int)
    requires
        0 <= j,
        cc > 0,
        b.nrows > 0,
    ensures
        buckets(b, cc, nseg, j, b.row(j).len() as int) == buckets(b, cc, nseg, j + 1, 0),
{
    let done = buckets(b, cc, nseg, j, b.row(j).len() as int);
    let next = buckets(b, cc, nseg, j + 1, 0);
    assert forall|x: int| 0 <= x < nseg implies #[trigger] done[x] == next[x] by {
        let r = x % (b.nrows as int);
        let c = x / (b.nrows as int);
        assert(b.row(j).take(b.row(j).len() as int) =~= b.row(j));
        if r == j + 1 {
            assert(b.row(j + 1).take(0) =~= Seq::empty());
            reveal(Seq::filter);
            assert(local_segment(b.row(j + 1).take(0), cc, c) =~= Seq::empty());
        }
    }
    assert(done =~= next);
}

/// Before the first entry every bucket is empty.
proof fn lemma_first_row<V: Scalar, I: Index>(b: CsrView<'_, V, I>, cc: int, nseg: nat)
    requires
        cc > 0,
        b.nrows > 0,
    ensures
        buckets(b, cc, nseg, 0, 0) == Seq::new(nseg, |o: int| Seq::<(int, V)>::empty()),
        crate::csr::flat(buckets(b, cc, nseg, 0, 0)).len() == 0,
{
    let first = buckets(b, cc, nseg, 0, 0);
    assert forall|x: int| 0 <= x < nseg implies #[trigger] first[x] == Seq::<
        (int, V),
    >::empty() by {
        let r = x % (b.nrows as int);
        let c = x / (b.nrows as int);
        assert(b.row(0).take(0) =~= Seq::empty());
        reveal(Seq::filter);
        assert(local_segment(b.row(0).take(0), cc, c) =~= Seq::empty());
        vstd::arithmetic::div_mod::lemma_fundamental_div_mod(x, b.nrows as int);
    }
    assert(first =~= Seq::new(nseg, |o: int| Seq::<(int, V)>::empty()));
    crate::csr::lemma_flat_of_empty_rows(first);
}

/// Lengthening one of the sequences by one lengthens their concatenation by one.
proof fn lemma_flat_len_update<T>(rows: Seq<Seq<T>>, o: int, x: T)
    requires
        0 <= o < rows.len(),
    ensures
        crate::csr::flat(rows.update(o, rows[o].push(x))).len() == crate::csr::flat(rows).len()
            + 1,
    decreases rows.len(),
{
    let more = rows.update(o, rows[o].push(x));
    if o < rows.len() - 1 {
        lemma_flat_len_update(rows.drop_last(), o, x);
        assert(more.drop_last() =~= rows.drop_last().update(o, rows.drop_last()[o].push(x)));
    } else {
        assert(more.drop_last() =~= rows.drop_last());
    }
}

/// No bucket holds more now than in the end.
proof fn lemma_placed_len<V: Scalar, I: Index>(
    b: CsrView<'_, V, I>,
    cc: int,
    j: int,
    p: int,
    o: int,
)
    requires
        b.nrows > 0,
        0 <= j < b.nrows,
        0 <= p <= b.row(j).len(),
    ensures
        placed(b, cc, j, p, o).len() <= placed(b, cc, b.nrows as int, 0, o).len(),
{
    let r = o % (b.nrows as int);
    let c = o / (b.nrows as int);
    vstd::arithmetic::div_mod::lemma_mod_bound(o, b.nrows as int);
    if r == j {
        let row = b.row(j);
        let inside = |f: (int, V)| c * cc <= f.0 < c * cc + cc;
        assert(row =~= row.take(p) + row.skip(p));
        Seq::filter_distributes_over_add(row.take(p), row.skip(p), inside);
    }
}

/// Where the buckets start once they are laid out one after the other.
spec fn offset<T>(all: Seq<Seq<T>>, o: int) -> int {
    crate::csr::flat(all.take(o)).len() as int
}

/// Buckets follow each other without overlap.
proof fn lemma_offsets<T>(all: Seq<Seq<T>>)
    ensures
        offset(all, 0) == 0,
        forall|o: int|
            0 <= o < all.len() ==> #[trigger] offset(all, o + 1) == offset(all, o) + all[o].len(),
        forall|o: int, x: int|
            0 <= o <= x <= all.len() ==> #[trigger] offset(all, o) <= #[trigger] offset(all, x),
        offset(all, all.len() as int) == crate::csr::flat(all).len(),
{
    assert(all.take(0) =~= Seq::empty());
    assert(all.take(all.len() as int) =~= all);
    assert forall|o: int| 0 <= o < all.len() implies #[trigger] offset(all, o + 1) == offset(all, o)
        + all[o].len() by {
        assert(all.take(o + 1) =~= all.take(o).push(all[o]));
        crate::csr::lemma_flat_push(all.take(o), all[o]);
    }
    assert forall|o: int, x: int| 0 <= o <= x <= all.len() implies #[trigger] offset(all, o)
        <= #[trigger] offset(all, x) by {
        crate::csr::lemma_flat_len_monotone(all.take(x), o);
        assert(all.take(x).take(o) =~= all.take(o));
    }
}

/// Number of chunks of width `chunk_cols` that cover `ncols` columns.
pub(crate) fn count_chunks(ncols: usize, chunk_cols: usize) -> (r: usize)
    requires
        chunk_cols > 0,
    ensures
        r == chunk_count(ncols as int, chunk_cols as int),
{
    if ncols == 0 {
        return 1;
    }
    let full: usize = (ncols - 1) / chunk_cols;
    assert((ncols - 1) / (chunk_cols as int) <= ncols - 1) by (nonlinear_arith)
        requires
            ncols >= 1,
            chunk_cols >= 1,
    ;
    full + 1
}

/// Count the entries of each bucket: `seg_ptr[o + 1]` becomes the size of bucket `o`.
fn count_buckets<V: Scalar, I: Index>(
    b: CsrView<'_, V, I>,
    chunk_cols: usize,
    nseg: usize,
    seg_ptr: &mut Vec<u32>,
)
    requires
        b.valid(),
        chunk_cols > 0,
        b.nrows > 0,
        tileable(b, chunk_cols),
        nseg == chunk_count(b.ncols as int, chunk_cols as int) * b.nrows,
        nseg < usize::MAX,
        old(seg_ptr)@ == Seq::new((nseg + 1) as nat, |i: int| 0u32),
    ensures
        final(seg_ptr)@.len() == nseg + 1,
        final(seg_ptr)@[0] == 0,
        forall|o: int|
            0 <= o < nseg ==> final(seg_ptr)@[#[trigger] (o + 1)] == buckets(
                b,
                chunk_cols as int,
                nseg as nat,
                b.nrows as int,
                0,
            )[o].len(),
        crate::csr::flat(
            buckets(b, chunk_cols as int, nseg as nat, b.nrows as int, 0),
        ).len() <= b.data@.len(),
{
    let ghost cc = chunk_cols as int;
    let nrows: usize = b.nrows;
    proof {
        lemma_first_row(b, cc, nseg as nat);
    }
    let mut j: usize = 0;
    while j < nrows
        invariant
            b.valid(),
            chunk_cols > 0,
            cc == chunk_cols,
            nrows == b.nrows,
            nrows > 0,
            j <= nrows,
            b.data@.len() <= u32::MAX,
            nseg == chunk_count(b.ncols as int, cc) * b.nrows,
            nseg < usize::MAX,
            seg_ptr@.len() == nseg + 1,
            seg_ptr@[0] == 0,
            forall|o: int|
                0 <= o < nseg ==> seg_ptr@[#[trigger] (o + 1)] == buckets(
                    b,
                    cc,
                    nseg as nat,
                    j as int,
                    0,
                )[o].len(),
            crate::csr::flat(buckets(b, cc, nseg as nat, j as int, 0)).len() == b.start(j as int)
                - b.start(0),
        decreases nrows - j,
    {
        let s: usize = b.row_start(j);
        let e: usize = b.row_start(j + 1);
        proof {
            product::lemma_row_in_bounds(b, j as int);
            assert(b.start(0) <= b.start(j as int) <= b.start(j + 1) <= b.start(b.nrows as int));
        }
        let mut kk: usize = s;
        while kk < e
            invariant
                b.valid(),
                chunk_cols > 0,
                cc == chunk_cols,
                nrows == b.nrows,
                j < nrows,
                b.data@.len() <= u32::MAX,
                nseg == chunk_count(b.ncols as int, cc) * b.nrows,
                nseg < usize::MAX,
                s == b.start(j as int),
                e == b.start(j + 1),
                b.row(j as int).len() == e - s,
                0 <= b.start(0) <= s <= kk <= e <= b.start(b.nrows as int),
                e <= b.data@.len(),
                seg_ptr@.len() == nseg + 1,
                seg_ptr@[0] == 0,
                forall|o: int|
                    0 <= o < nseg ==> seg_ptr@[#[trigger] (o + 1)] == buckets(
                        b,
                        cc,
                        nseg as nat,
                        j as int,
                        kk - s,
                    )[o].len(),
                crate::csr::flat(buckets(b, cc, nseg as nat, j as int, kk - s)).len() == kk
                    - b.start(0),
            decreases e - kk,
        {
            let k: usize = b.column_at(kk);
            let c: usize = k / chunk_cols;
            let ghost before = buckets(b, cc, nseg as nat, j as int, kk - s);
            let ghost o = bucket_of(nrows as int, cc, j as int, k as int);
            let ghost x = (k - (k as int / cc) * cc, b.row(j as int)[kk - s].1);
            let ghost ptr0 = seg_ptr@;
            proof {
                product::lemma_row_in_bounds(b, j as int);
                assert(b.row(j as int)[kk - s].0 == k);
                lemma_place(b, cc, nseg as nat, j as int, kk - s);
                lemma_flat_len_update(before, o, x);
                lemma_bucket_of(nrows as int, b.ncols as int, cc, j as int, k as int);
                lemma_offsets(before);
                assert(offset(before, o + 1) <= offset(before, nseg as int));
                assert(0 <= c * nrows <= o) by (nonlinear_arith)
                    requires
                        o == c * nrows + j,
                        0 <= c,
                        0 <= nrows,
                        0 <= j,
                ;
                assert(seg_ptr@[o + 1] == before[o].len());
            }
            let slot: usize = c * nrows + j;
            seg_ptr[slot + 1] = seg_ptr[slot + 1] + 1;
            kk = kk + 1;
            proof {
                let after = buckets(b, cc, nseg as nat, j as int, kk - s);
                assert(after == before.update(o, before[o].push(x)));
                assert forall|y: int| 0 <= y < nseg implies seg_ptr@[#[trigger] (y + 1)]
                    == after[y].len() by {
                    if y != o {
                        assert(ptr0[y + 1] == before[y].len());
                    }
                }
            }
        }
        proof {
            lemma_next_row(b, cc, nseg as nat, j as int);
        }
        j = j + 1;
    }
    assert(b.start(nrows as int) <= b.data@.len());
}

/// Turn bucket sizes into bucket offsets.
fn prefix_sum<V>(seg_ptr: &mut Vec<u32>, nseg: usize, Ghost(all): Ghost<Seq<Seq<(int, V)>>>)
    requires
        nseg < usize::MAX,
        all.len() == nseg,
        old(seg_ptr)@.len() == nseg + 1,
        old(seg_ptr)@[0] == 0,
        forall|o: int| 0 <= o < nseg ==> old(seg_ptr)@[#[trigger] (o + 1)] == all[o].len(),
        crate::csr::flat(all).len() <= u32::MAX,
    ensures
        final(seg_ptr)@.len() == nseg + 1,
        forall|o: int| 0 <= o <= nseg ==> #[trigger] final(seg_ptr)@[o] == offset(all, o),
{
    proof {
        lemma_offsets(all);
    }
    let mut i: usize = 1;
    while i <= nseg
        invariant
            1 <= i <= nseg + 1,
            nseg < usize::MAX,
            all.len() == nseg,
            seg_ptr@.len() == nseg + 1,
            crate::csr::flat(all).len() <= u32::MAX,
            forall|o: int| 0 <= o < i ==> #[trigger] seg_ptr@[o] == offset(all, o),
            forall|o: int|
                i <= o + 1 && o < nseg ==> seg_ptr@[#[trigger] (o + 1)] == all[o].len(),
        decreases nseg + 1 - i,
    {
        proof {
            lemma_offsets(all);
            assert(offset(all, i - 1 + 1) == offset(all, i - 1) + all[i - 1].len());
            assert(seg_ptr@[(i - 1) + 1] == all[i - 1].len());
            assert(offset(all, i as int) <= offset(all, nseg as int));
        }
        seg_ptr[i] = seg_ptr[i] + seg_ptr[i - 1];
        i = i + 1;
    }
}

/// Is every placed entry where its bucket says?
spec fn laid_out<V: Scalar, I: Index>(
    b: CsrView<'_, V, I>,
    cc: int,
    j: int,
    p: int,
    all: Seq<Seq<(int, V)>>,
    cur: Seq<u32>,
    idx: Seq<u16>,
    data: Seq<V>,
) -> bool {
    &&& cur.len() == all.len()
    &&& idx.len() == b.data@.len()
    &&& data.len() == b.data@.len()
    &&& forall|o: int|
        0 <= o < all.len() ==> #[trigger] cur[o] == offset(all, o) + placed(b, cc, j, p, o).len()
    &&& forall|o: int, q: int|
        0 <= o < all.len() && 0 <= q < placed(b, cc, j, p, o).len() ==> (
        #[trigger] placed(b, cc, j, p, o)[q]) == (
            idx[offset(all, o) + q] as int,
            data[offset(all, o) + q],
        )
}

/// Move every entry of `b` into its bucket.
fn fill_buckets<V: Scalar, I: Index>(
    b: CsrView<'_, V, I>,
    chunk_cols: usize,
    nseg: usize,
    cur: &mut Vec<u32>,
    idx: &mut Vec<u16>,
    data: &mut Vec<V>,
)
    requires
        b.valid(),
        chunk_cols > 0,
        b.nrows > 0,
        tileable(b, chunk_cols),
        nseg == chunk_count(b.ncols as int, chunk_cols as int) * b.nrows,
        crate::csr::flat(
            buckets(b, chunk_cols as int, nseg as nat, b.nrows as int, 0),
        ).len() <= b.data@.len(),
        laid_out(
            b,
            chunk_cols as int,
            0,
            0,
            buckets(b, chunk_cols as int, nseg as nat, b.nrows as int, 0),
            old(cur)@,
            old(idx)@,
            old(data)@,
        ),
    ensures
        laid_out(
            b,
            chunk_cols as int,
            b.nrows as int,
            0,
            buckets(b, chunk_cols as int, nseg as nat, b.nrows as int, 0),
            final(cur)@,
            final(idx)@,
            final(data)@,
        ),
{
    let ghost cc = chunk_cols as int;
    let ghost all = buckets(b, cc, nseg as nat, b.nrows as int, 0);
    let nrows: usize = b.nrows;
    let mut j: usize = 0;
    while j < nrows
        invariant
            b.valid(),
            chunk_cols > 0,
            cc == chunk_cols,
            nrows == b.nrows,
            nrows > 0,
            j <= nrows,
            tileable(b, chunk_cols),
            nseg == chunk_count(b.ncols as int, cc) * b.nrows,
            all == buckets(b, cc, nseg as nat, b.nrows as int, 0),
            crate::csr::flat(all).len() <= b.data@.len(),
            laid_out(b, cc, j as int, 0, all, cur@, idx@, data@),
        decreases nrows - j,
    {
        let s: usize = b.row_start(j);
        let e: usize = b.row_start(j + 1);
        proof {
            product::lemma_row_in_bounds(b, j as int);
            assert(b.start(0) <= b.start(j as int) <= b.start(j + 1) <= b.start(b.nrows as int));
        }
        let mut kk: usize = s;
        while kk < e
            invariant
                b.valid(),
                chunk_cols > 0,
                cc == chunk_cols,
                nrows == b.nrows,
                j < nrows,
                tileable(b, chunk_cols),
                nseg == chunk_count(b.ncols as int, cc) * b.nrows,
                s == b.start(j as int),
                e == b.start(j + 1),
                b.row(j as int).len() == e - s,
                0 <= b.start(0) <= s <= kk <= e <= b.start(b.nrows as int),
                e <= b.data@.len(),
                all == buckets(b, cc, nseg as nat, b.nrows as int, 0),
                crate::csr::flat(all).len() <= b.data@.len(),
                laid_out(b, cc, j as int, kk - s, all, cur@, idx@, data@),
            decreases e - kk,
        {
            let k: usize = b.column_at(kk);
            let c: usize = k / chunk_cols;
            let ghost before = buckets(b, cc, nseg as nat, j as int, kk - s);
            let ghost o = bucket_of(nrows as int, cc, j as int, k as int);
            let ghost x = (k - (k as int / cc) * cc, b.row(j as int)[kk - s].1);
            let ghost cur0 = cur@;
            let ghost idx0 = idx@;
            let ghost data0 = data@;
            proof {
                product::lemma_row_in_bounds(b, j as int);
                assert(b.row(j as int)[kk - s].0 == k);
                lemma_place(b, cc, nseg as nat, j as int, kk - s);
                lemma_bucket_of(nrows as int, b.ncols as int, cc, j as int, k as int);
                lemma_offsets(all);
                assert(0 <= c * nrows <= o) by (nonlinear_arith)
                    requires
                        o == c * nrows + j,
                        0 <= c,
                        0 <= nrows,
                        0 <= j,
                ;
                lemma_placed_len(b, cc, j as int, kk - s + 1, o);
                assert(buckets(b, cc, nseg as nat, j as int, kk - s + 1)[o] == before[o].push(x));
                assert(placed(b, cc, j as int, kk - s + 1, o) == before[o].push(x));
                assert(all[o] == placed(b, cc, b.nrows as int, 0, o));
                assert(offset(all, o + 1) == offset(all, o) + all[o].len());
                assert(offset(all, o + 1) <= offset(all, nseg as int));
                assert(cur@[o] == offset(all, o) + placed(b, cc, j as int, kk - s, o).len());
                assert(0 <= c * chunk_cols <= k);
            }
            let slot: usize = c * nrows + j;
            let pos: usize = cur[slot] as usize;
            cur[slot] = cur[slot] + 1;
            idx[pos] = (k - c * chunk_cols) as u16;
            data[pos] = b.data[kk];
            kk = kk + 1;
            proof {
                let p = kk - s;
                let after = buckets(b, cc, nseg as nat, j as int, p);
                assert(after == before.update(o, before[o].push(x)));
                assert forall|y: int| 0 <= y < all.len() implies #[trigger] cur@[y] == offset(
                    all,
                    y,
                ) + placed(b, cc, j as int, p, y).len() by {
                    assert(after[y] == placed(b, cc, j as int, p, y));
                    assert(before[y] == placed(b, cc, j as int, p - 1, y));
                    assert(cur0[y] == offset(all, y) + before[y].len());
                }
                assert forall|y: int, q: int|
                    0 <= y < all.len() && 0 <= q < placed(b, cc, j as int, p, y).len() implies (
                #[trigger] placed(b, cc, j as int, p, y)[q]) == (
                    idx@[offset(all, y) + q] as int,
                    data@[offset(all, y) + q],
                ) by {
                    assert(after[y] == placed(b, cc, j as int, p, y));
                    assert(before[y] == placed(b, cc, j as int, p - 1, y));
                    lemma_placed_len(b, cc, j as int, p, y);
                    assert(all[y] == placed(b, cc, b.nrows as int, 0, y));
                    assert(offset(all, y + 1) == offset(all, y) + all[y].len());
                    if y == o && q == before[o].len() {
                        assert(after[o][q] == x);
                    } else {
                        assert(after[y][q] == before[y][q]);
                        assert(placed(b, cc, j as int, p - 1, y)[q] == (
                            idx0[offset(all, y) + q] as int,
                            data0[offset(all, y) + q],
                        ));
                        if y < o {
                            assert(offset(all, y + 1) <= offset(all, o));
                        } else if y > o {
                            assert(offset(all, o + 1) <= offset(all, y));
                        }
                        assert(offset(all, y) + q != pos);
                        assert(offset(all, y + 1) <= offset(all, nseg as int));
                    }
                }
            }
        }
        proof {
            let done = buckets(b, cc, nseg as nat, j as int, e - s);
            let next = buckets(b, cc, nseg as nat, j + 1, 0);
            lemma_next_row(b, cc, nseg as nat, j as int);
            assert forall|y: int| 0 <= y < all.len() implies placed(b, cc, j as int, e - s, y)
                == #[trigger] placed(b, cc, j + 1, 0, y) by {
                assert(done[y] == placed(b, cc, j as int, e - s, y));
                assert(next[y] == placed(b, cc, j + 1, 0, y));
            }
        }
        j = j + 1;
    }
}

impl<V: Scalar> TiledB<V> {
    /// The segment table has one more entry than there are (chunk, row) pairs,
    /// never decreases and stays within the buffers.
    pub open spec fn wf(self) -> bool {
        &&& self.seg_ptr@.len() == self.n_chunks * self.nrows + 1
        &&& self.idx@.len() == self.data@.len()
        &&& forall|o: int, x: int|
            0 <= o <= x < self.seg_ptr@.len() ==> #[trigger] self.seg_ptr@[o]
                <= #[trigger] self.seg_ptr@[x]
        &&& self.seg_ptr@[self.seg_ptr@.len() - 1] <= self.data@.len()
    }

    /// The entries of B-row `row` within `chunk`, with chunk-local columns.
    pub open spec fn tile(self, chunk: int, row: int) -> Seq<(int, V)> {
        let o = chunk * self.nrows + row;
        let s = self.seg_ptr@[o] as int;
        let e = self.seg_ptr@[o + 1] as int;
        Seq::new((e - s) as nat, |p: int| (self.idx@[s + p] as int, self.data@[s + p]))
    }

    /// Does this hold exactly `b`, cut into chunks of `chunk_cols` columns?
    pub open spec fn tiles<I: Index>(self, b: CsrView<'_, V, I>, chunk_cols: usize) -> bool {
        &&& self.wf()
        &&& self.chunk_cols == chunk_cols
        &&& self.n_chunks == chunk_count(b.ncols as int, chunk_cols as int)
        &&& self.nrows == b.nrows
        &&& self.ncols == b.ncols
        &&& forall|c: int, j: int|
            0 <= c < self.n_chunks && 0 <= j < self.nrows ==> #[trigger] self.tile(c, j)
                == local_segment(b.row(j), chunk_cols as int, c)
    }

    /// Tiling stores chunk-local column offsets in `u16` and global entry
    /// offsets in `u32`; shapes outside those bounds fall back to plain CSR.
    pub fn supports<I: Index>(b: &CsrView<'_, V, I>, chunk_cols: usize) -> (r: bool)
        ensures
            r == tileable(*b, chunk_cols),
    {
        chunk_cols <= u16::MAX as usize + 1 && b.nnz() as u64 <= u32::MAX as u64
    }

    /// Two counting-sort passes over B: count per (chunk, row) segment, prefix
    /// sum, then scatter entries into place. `O(nnz(B) + n_chunks * nrows)`.
    pub fn build<I: Index>(b: CsrView<'_, V, I>, chunk_cols: usize) -> (r: Self)
        requires
            b.valid(),
            chunk_cols > 0,
            tileable(b, chunk_cols),
            chunk_count(b.ncols as int, chunk_cols as int) * b.nrows < usize::MAX,
        ensures
            r.tiles(b, chunk_cols),
    {
        let nrows: usize = b.nrows;
        let ncols: usize = b.ncols;
        let n_chunks: usize = count_chunks(ncols, chunk_cols);
        let nnz: usize = b.nnz();
        assert(0 <= n_chunks * nrows) by (nonlinear_arith)
            requires
                0 <= n_chunks,
                0 <= nrows,
        ;
        let nseg: usize = n_chunks * nrows;
        let ghost cc = chunk_cols as int;
        let ghost all = buckets(b, cc, nseg as nat, b.nrows as int, 0);

        let mut seg_ptr: Vec<u32> = filled(nseg + 1, 0u32);
        let mut idx: Vec<u16> = filled(nnz, 0u16);
        let mut data: Vec<V> = filled(nnz, V::zero());
        if nrows > 0 {
            count_buckets(b, chunk_cols, nseg, &mut seg_ptr);
            prefix_sum::<V>(&mut seg_ptr, nseg, Ghost(all));
            let mut cur: Vec<u32> = Vec::with_capacity(nseg);
            for i in 0..nseg
                invariant
                    nseg < seg_ptr@.len(),
                    cur@ == seg_ptr@.take(i as int),
            {
                cur.push(seg_ptr[i]);
                assert(cur@ =~= seg_ptr@.take(i + 1));
            }
            proof {
                lemma_first_row(b, cc, nseg as nat);
                let first = buckets(b, cc, nseg as nat, 0, 0);
                assert forall|o: int| 0 <= o < nseg implies #[trigger] placed(b, cc, 0, 0, o)
                    == Seq::<(int, V)>::empty() by {
                    assert(first[o] == placed(b, cc, 0, 0, o));
                }
            }
            fill_buckets(b, chunk_cols, nseg, &mut cur, &mut idx, &mut data);
            proof {
                lemma_offsets(all);
                assert(all.take(nseg as int) =~= all);
            }
        } else {
            assert(n_chunks * nrows == 0) by (nonlinear_arith)
                requires
                    nrows == 0,
            ;
        }
        let r = TiledB { chunk_cols, n_chunks, nrows, ncols, seg_ptr, idx, data };
        proof {
            assert forall|c: int, j: int| 0 <= c < n_chunks && 0 <= j < nrows implies #[trigger] r.tile(
                c,
                j,
            ) == local_segment(b.row(j), cc, c) by {
                let o = c * nrows + j;
                vstd::arithmetic::div_mod::lemma_fundamental_div_mod_converse(o, nrows as int, c, j);
                assert(0 <= o < n_chunks * nrows) by (nonlinear_arith)
                    requires
                        o == c * nrows + j,
                        0 <= c,
                        c + 1 <= n_chunks,
                        0 <= j < nrows,
                ;
                lemma_offsets(all);
                assert(offset(all, o + 1) == offset(all, o) + all[o].len());
                assert(all[o] == placed(b, cc, nrows as int, 0, o));
                assert(r.tile(c, j) =~= all[o]) by {
                    assert forall|q: int| 0 <= q < all[o].len() implies r.tile(c, j)[q]
                        == all[o][q] by {
                        assert(placed(b, cc, nrows as int, 0, o)[q] == (
                            idx@[offset(all, o) + q] as int,
                            data@[offset(all, o) + q],
                        ));
                    }
                }
            }
        }
        r
    }

    /// The (chunk-local indices, values) segment of B-row `row` within `chunk`.
    pub fn segment(&self, chunk: usize, row: usize) -> (r: (&[u16], &[V]))
        requires
            self.wf(),
            chunk < self.n_chunks,
            row < self.nrows,
        ensures
            r.0@.len() == self.tile(chunk as int, row as int).len(),
            r.1@.len() == self.tile(chunk as int, row as int).len(),
            forall|p: int|
                0 <= p < r.0@.len() ==> #[trigger] self.tile(chunk as int, row as int)[p] == (
                    r.0@[p] as int,
                    r.1@[p],
                ),
    {
        assert(0 <= chunk * self.nrows && chunk * self.nrows + row + 1 <= self.n_chunks
            * self.nrows) by (nonlinear_arith)
            requires
                0 <= chunk,
                chunk + 1 <= self.n_chunks,
                0 <= row < self.nrows,
        ;
        assert(self.seg_ptr@.len() == self.seg_ptr.len());
        let o: usize = chunk * self.nrows + row;
        assert(self.seg_ptr@[o as int] <= self.seg_ptr@[o + 1]);
        assert(self.seg_ptr@[o + 1] <= self.seg_ptr@[self.seg_ptr@.len() - 1]);
        assert(self.data@.len() == self.data.len());
        let s: usize = self.seg_ptr[o] as usize;
        let e: usize = self.seg_ptr[o + 1] as usize;
        (
            vstd::slice::slice_subrange(self.idx.as_slice(), s, e),
            vstd::slice::slice_subrange(self.data.as_slice(), s, e),
        )
    }
}

} // verus!
