//! The mathematical model of one top-n row: which candidates the column-chunked
//! kernel offers to the heap, in which order, and what the row then holds.
use vstd::prelude::*;

use crate::chunked::AccumMode;
use crate::csr::CsrView;
use crate::index::Index;
use crate::matmul_topn::SortMode;
use crate::maxheap::HeapState;
use crate::product;
use crate::product::Update;
use crate::scalar::Scalar;
use crate::sorting;
use crate::tiled;

verus! {

/// The columns in `lo..hi` whose sum is not zero, in ascending order, with
/// their sums.
pub open spec fn nonzero_sums<V: Scalar>(us: Seq<Update<V>>, lo: int, hi: int) -> Seq<(int, V)>
    decreases hi - lo,
{
    if hi <= lo {
        Seq::empty()
    } else {
        let front = nonzero_sums(us, lo, hi - 1);
        let sum = product::accumulate(us, hi - 1, true);
        if sum.spec_equals(V::spec_zero()) {
            front
        } else {
            front.push((hi - 1, sum))
        }
    }
}

/// The candidates of one chunk. The linked-list accumulator offers every
/// touched column, the dense accumulator every column with a non-zero sum.
pub open spec fn chunk_candidates<V: Scalar>(
    us: Seq<Update<V>>,
    lo: int,
    hi: int,
    dense: bool,
) -> Seq<(int, V)> {
    if dense {
        nonzero_sums(us, lo, hi)
    } else {
        product::touched_sums(product::within(us, lo, hi), true)
    }
}

/// Where chunk `m` of width `cc` starts, and chunk `m - 1` ends.
pub open spec fn chunk_start(ncols: int, cc: int, m: int) -> int {
    if m * cc < ncols {
        m * cc
    } else {
        ncols
    }
}

/// The candidates of the first `m` chunks.
pub open spec fn candidates_upto<V: Scalar>(
    us: Seq<Update<V>>,
    ncols: int,
    cc: int,
    dense: bool,
    m: int,
) -> Seq<(int, V)>
    decreases m,
{
    if m <= 0 {
        Seq::empty()
    } else {
        candidates_upto(us, ncols, cc, dense, m - 1) + chunk_candidates(
            us,
            chunk_start(ncols, cc, m - 1),
            chunk_start(ncols, cc, m),
            dense,
        )
    }
}

/// The candidates of a whole row.
pub open spec fn candidates<V: Scalar>(
    us: Seq<Update<V>>,
    ncols: int,
    cc: int,
    dense: bool,
) -> Seq<(int, V)> {
    candidates_upto(us, ncols, cc, dense, tiled::chunk_count(ncols, cc))
}

/// The entries that a heap of capacity `top_n` and threshold `floor` yields for
/// the given candidates, by column or by descending value. Where there is no
/// threshold, every candidate that compares is acceptable.
pub open spec fn selected<V: Scalar, I: Index>(
    offered: Seq<(int, V)>,
    top_n: nat,
    floor: Option<V>,
    sort: SortMode,
) -> Seq<(I, V)> {
    if top_n == 0 {
        Seq::empty()
    } else {
        let h = HeapState::<V, I>::fresh(top_n, floor).offer_all(offered);
        match sort {
            SortMode::ByColumn => sorting::by_column(h.by_insertion().entries()),
            SortMode::ByValueDesc => h.by_value_desc().entries(),
        }
    }
}

/// Does the kernel use the dense accumulator for row `i`? Integers never do;
/// `Adaptive` does where there are at least 0.2 updates per column.
pub open spec fn uses_dense<V: Scalar, I: Index>(
    a: CsrView<'_, V, I>,
    b: CsrView<'_, V, I>,
    i: int,
    accum: AccumMode,
) -> bool {
    V::IS_FLOAT && match accum {
        AccumMode::LinkedList => false,
        AccumMode::Dense => true,
        AccumMode::Adaptive => 5 * product::updates_of(a, b, i).len() >= if b.ncols == 0 {
            1
        } else {
            b.ncols as int
        },
    }
}

/// Row `i` of the top-n product computed with chunks of `cc` columns.
pub open spec fn topn_row<V: Scalar, I: Index>(
    a: CsrView<'_, V, I>,
    b: CsrView<'_, V, I>,
    top_n: nat,
    floor: Option<V>,
    sort: SortMode,
    accum: AccumMode,
    cc: int,
    i: int,
) -> Seq<(I, V)> {
    selected(row_candidates(a, b, accum, cc, i), top_n, floor, sort)
}

/// The candidates of row `i`.
pub open spec fn row_candidates<V: Scalar, I: Index>(
    a: CsrView<'_, V, I>,
    b: CsrView<'_, V, I>,
    accum: AccumMode,
    cc: int,
    i: int,
) -> Seq<(int, V)> {
    candidates(
        product::updates_of(a, b, i),
        b.ncols as int,
        cc,
        uses_dense(a, b, i, accum),
    )
}

/// The rows of the top-n product computed with chunks of `cc` columns.
pub open spec fn topn_rows<V: Scalar, I: Index>(
    a: CsrView<'_, V, I>,
    b: CsrView<'_, V, I>,
    top_n: nat,
    floor: Option<V>,
    sort: SortMode,
    accum: AccumMode,
    cc: int,
) -> Seq<Seq<(I, V)>> {
    Seq::new(a.nrows as nat, |i: int| topn_row(a, b, top_n, floor, sort, accum, cc, i))
}

/// Do the entries of every row come chunk by chunk: no entry lies in an earlier
/// chunk than one stored before it? Rows with ascending columns do for every
/// width.
pub open spec fn chunk_ordered<V: Scalar, I: Index>(b: CsrView<'_, V, I>, cc: int) -> bool {
    forall|j: int, p: int, q: int|
        0 <= j < b.nrows && 0 <= p <= q < b.row(j).len() ==> (#[trigger] b.row(j)[p]).0 / cc <= (
        #[trigger] b.row(j)[q]).0 / cc
}

/// Does every row store every column at most once?
pub open spec fn distinct_columns<V: Scalar, I: Index>(b: CsrView<'_, V, I>) -> bool {
    forall|j: int, p: int, q: int|
        0 <= j < b.nrows && 0 <= p < q < b.row(j).len() ==> (#[trigger] b.row(j)[p]).0 != (
        #[trigger] b.row(j)[q]).0
}

/// Do the columns of every row ascend strictly?
pub open spec fn ascending_columns<V: Scalar, I: Index>(b: CsrView<'_, V, I>) -> bool {
    forall|j: int, p: int, q: int|
        0 <= j < b.nrows && 0 <= p < q < b.row(j).len() ==> (#[trigger] b.row(j)[p]).0 < (
        #[trigger] b.row(j)[q]).0
}

/// Do the columns of every row ascend strictly?
pub fn has_ascending_columns<V: Scalar, I: Index>(b: CsrView<'_, V, I>) -> (r: bool)
    requires
        b.valid(),
    ensures
        r == ascending_columns(b),
{
    assert(b.indptr@.len() == b.indptr.len());
    let mut j: usize = 0;
    while j < b.nrows
        invariant
            b.valid(),
            b.nrows < usize::MAX,
            j <= b.nrows,
            forall|k: int, p: int, q: int|
                0 <= k < j && 0 <= p < q < b.row(k).len() ==> (#[trigger] b.row(k)[p]).0 < (
                #[trigger] b.row(k)[q]).0,
        decreases b.nrows - j,
    {
        proof {
            assert(b.start(0) <= b.start(j as int) <= b.start(j + 1) <= b.start(b.nrows as int));
        }
        let lo: usize = b.row_start(j);
        let hi: usize = b.row_start(j + 1);
        let ghost row = b.row(j as int);
        let mut p: usize = lo;
        let mut last: Option<usize> = None;
        while p < hi
            invariant
                b.valid(),
                j < b.nrows,
                row == b.row(j as int),
                lo == b.start(j as int),
                hi == b.start(j + 1),
                b.start(0) <= lo <= p <= hi <= b.start(b.nrows as int),
                last is None == (p == lo),
                last matches Some(k) ==> k == row[p - lo - 1].0,
                forall|x: int, y: int|
                    0 <= x < y < p - lo ==> (#[trigger] row[x]).0 < (#[trigger] row[y]).0,
            decreases hi - p,
        {
            let k: usize = b.column_at(p);
            assert(row[p - lo].0 == k);
            if let Some(before) = last {
                if before >= k {
                    assert(row[p - lo - 1].0 >= row[p - lo].0);
                    assert(!ascending_columns(b)) by {
                        assert(b.row(j as int)[p - lo - 1].0 >= b.row(j as int)[p - lo].0);
                    }
                    return false;
                }
            }
            last = Some(k);
            p = p + 1;
        }
        j = j + 1;
    }
    true
}

/// What the chunked kernel needs of its inputs at chunk width `cc`. Rows of `b`
/// that are not read from tiles have to come chunk by chunk, and the dense
/// accumulator takes no column twice.
pub open spec fn kernel_ready<V: Scalar, I: Index>(
    a: CsrView<'_, V, I>,
    b: CsrView<'_, V, I>,
    accum: AccumMode,
    cc: int,
    tiled: bool,
) -> bool {
    &&& product::multipliable(a, b)
    &&& !tiled ==> chunk_ordered(b, cc)
    &&& forall|i: int|
        0 <= i < a.nrows && #[trigger] uses_dense(a, b, i, accum) ==> distinct_columns(b)
}

/// Rows with strictly ascending columns suit the kernel at every width.
pub proof fn lemma_ascending_is_ready<V: Scalar, I: Index>(
    a: CsrView<'_, V, I>,
    b: CsrView<'_, V, I>,
    accum: AccumMode,
    cc: int,
    tiled: bool,
)
    requires
        product::multipliable(a, b),
        ascending_columns(b),
        cc > 0,
    ensures
        kernel_ready(a, b, accum, cc, tiled),
{
    assert forall|j: int, p: int, q: int|
        0 <= j < b.nrows && 0 <= p <= q < b.row(j).len() implies (#[trigger] b.row(j)[p]).0 / cc <= (
    #[trigger] b.row(j)[q]).0 / cc by {
        vstd::arithmetic::div_mod::lemma_div_is_ordered(b.row(j)[p].0, b.row(j)[q].0, cc);
    }
}

/// The entries of a row that is split at `x` and `y` into those below `lo`,
/// those in `lo..hi` and the rest.
pub proof fn lemma_segment_is_subrange<V>(row: Seq<(int, V)>, lo: int, hi: int, x: int, y: int)
    requires
        0 <= x <= y <= row.len(),
        lo <= hi,
        forall|p: int| 0 <= p < x ==> (#[trigger] row[p]).0 < lo,
        forall|p: int| x <= p < y ==> lo <= (#[trigger] row[p]).0 < hi,
        forall|p: int| y <= p < row.len() ==> (#[trigger] row[p]).0 >= hi,
    ensures
        product::segment(row, lo, hi) == row.subrange(x, y),
{
    let inside = |e: (int, V)| lo <= e.0 < hi;
    let head = row.subrange(0, x);
    let mid = row.subrange(x, y);
    let tail = row.subrange(y, row.len() as int);
    assert(row =~= head + mid + tail);
    Seq::filter_distributes_over_add(head + mid, tail, inside);
    Seq::filter_distributes_over_add(head, mid, inside);
    lemma_filter_none(head, inside);
    lemma_filter_all(mid, inside);
    lemma_filter_none(tail, inside);
    assert(product::segment(row, lo, hi) =~= mid);
}

/// Filtering keeps nothing where nothing qualifies.
pub proof fn lemma_filter_none<T>(s: Seq<T>, pred: spec_fn(T) -> bool)
    requires
        forall|i: int| 0 <= i < s.len() ==> !pred(#[trigger] s[i]),
    ensures
        s.filter(pred) == Seq::<T>::empty(),
    decreases s.len(),
{
    reveal(Seq::filter);
    if s.len() > 0 {
        lemma_filter_none(s.drop_last(), pred);
    } else {
        assert(s.filter(pred) =~= Seq::<T>::empty());
    }
}

/// Filtering keeps everything where everything qualifies.
pub proof fn lemma_filter_all<T>(s: Seq<T>, pred: spec_fn(T) -> bool)
    requires
        forall|i: int| 0 <= i < s.len() ==> pred(#[trigger] s[i]),
    ensures
        s.filter(pred) == s,
    decreases s.len(),
{
    reveal(Seq::filter);
    if s.len() > 0 {
        lemma_filter_all(s.drop_last(), pred);
        assert(s.drop_last().push(s.last()) =~= s);
    }
}

/// Scaling a row and restricting it to a column range commute.
pub proof fn lemma_scaled_within<V>(v: V, row: Seq<(int, V)>, lo: int, hi: int)
    ensures
        product::within(product::scaled(v, row), lo, hi) == product::scaled(
            v,
            product::segment(row, lo, hi),
        ),
    decreases row.len(),
{
    reveal(Seq::filter);
    let us = product::scaled(v, row);
    if row.len() > 0 {
        lemma_scaled_within(v, row.drop_last(), lo, hi);
        assert(us.drop_last() =~= product::scaled(v, row.drop_last()));
        let seg = product::segment(row.drop_last(), lo, hi);
        assert(product::scaled(v, seg.push(row.last())) =~= product::scaled(v, seg).push(
            us.last(),
        ));
    } else {
        assert(product::within(us, lo, hi) =~= product::scaled(v, product::segment(row, lo, hi)));
    }
}

/// The updates of one chunk grow by one segment per entry of the left row.
pub proof fn lemma_within_step<V: Scalar, I: Index>(
    left: Seq<(int, V)>,
    b: CsrView<'_, V, I>,
    m: int,
    lo: int,
    hi: int,
)
    requires
        0 <= m < left.len(),
    ensures
        product::within(product::row_updates(left.take(m + 1), b), lo, hi) == product::within(
            product::row_updates(left.take(m), b),
            lo,
            hi,
        ) + product::scaled(left[m].1, product::segment(b.row(left[m].0), lo, hi)),
{
    assert(left.take(m + 1).drop_last() =~= left.take(m));
    lemma_scaled_within(left[m].1, b.row(left[m].0), lo, hi);
    Seq::filter_distributes_over_add(
        product::row_updates(left.take(m), b),
        product::scaled(left[m].1, b.row(left[m].0)),
        |u: Update<V>| lo <= u.col < hi,
    );
}

/// Consecutive chunk boundaries.
pub proof fn lemma_chunk_start(ncols: int, cc: int, m: int)
    requires
        cc > 0,
        m >= 0,
        ncols >= 0,
    ensures
        0 <= chunk_start(ncols, cc, m) <= ncols,
        chunk_start(ncols, cc, m) < ncols ==> m < tiled::chunk_count(ncols, cc),
        chunk_start(ncols, cc, m) < ncols ==> chunk_start(ncols, cc, m) == m * cc,
        chunk_start(ncols, cc, m) <= chunk_start(ncols, cc, m + 1),
        chunk_start(ncols, cc, m + 1) == if ncols - chunk_start(ncols, cc, m) < cc {
            ncols
        } else {
            chunk_start(ncols, cc, m) + cc
        } || chunk_start(ncols, cc, m) == ncols,
        chunk_start(ncols, cc, m) == ncols ==> m >= tiled::chunk_count(ncols, cc) || ncols == 0,
        chunk_start(ncols, cc, 0) == 0,
{
    assert(m * cc + cc == (m + 1) * cc) by (nonlinear_arith);
    assert(m * cc >= 0) by (nonlinear_arith)
        requires
            m >= 0,
            cc > 0,
    ;
    assert(0 * cc == 0) by (nonlinear_arith);
    if ncols > 0 {
        let n = tiled::chunk_count(ncols, cc);
        vstd::arithmetic::div_mod::lemma_fundamental_div_mod(ncols - 1, cc);
        let q = (ncols - 1) / cc;
        assert(cc * q == q * cc) by (nonlinear_arith);
        if m * cc < ncols {
            if m > q {
                assert(m * cc >= (q + 1) * cc) by (nonlinear_arith)
                    requires
                        m >= q + 1,
                        cc > 0,
                ;
                assert((q + 1) * cc == q * cc + cc) by (nonlinear_arith);
            }
        } else {
            if m <= q {
                assert(m * cc <= q * cc) by (nonlinear_arith)
                    requires
                        m <= q,
                        cc > 0,
                ;
            }
        }
    }
}

} // verus!
