//! Multiplying with slices of the columns of `B`.
//!
//! Cut the columns of `B` into slices, multiply with each slice on its own, keep
//! the top n of each row, and zip the results: the outcome agrees with the
//! top-n product with all of `B`.
use vstd::prelude::*;

use crate::agreement;
use crate::chunked::AccumMode;
use crate::csr;
use crate::csr::{CsrMatrix, CsrView};
use crate::index::Index;
use crate::laws;
use crate::matmul_topn;
use crate::matmul_topn::{SortMode, TopNOptions};
use crate::maxheap::admits;
use crate::merge;
use crate::product;
use crate::product::Update;
use crate::scalar::Scalar;
use crate::topn;
use crate::zip;

verus! {

/// Are `bs` the slices of the columns of `b`, from left to right? Each holds the
/// entries of its column range, in order, with columns counted from its own
/// start.
pub open spec fn are_slices<V: Scalar, I: Index>(
    bs: Seq<CsrView<'_, V, I>>,
    b: CsrView<'_, V, I>,
) -> bool {
    &&& bs.len() > 0
    &&& zip::column_offset(bs, bs.len() as int) == b.ncols
    &&& forall|j: int| 0 <= j < bs.len() ==> (#[trigger] bs[j]).valid() && bs[j].nrows == b.nrows
    &&& forall|j: int, r: int|
        0 <= j < bs.len() && 0 <= r < b.nrows ==> #[trigger] bs[j].row(r) == slice_of(
            b.row(r),
            zip::column_offset(bs, j),
            zip::column_offset(bs, j + 1),
        )
}

/// The entries of a row in the columns `lo..hi`, counted from `lo`.
pub open spec fn slice_of<V>(row: Seq<(int, V)>, lo: int, hi: int) -> Seq<(int, V)> {
    zip::shifted(product::segment(row, lo, hi), -lo)
}

/// The updates with their columns counted from `lo`.
pub open spec fn rebased<V>(us: Seq<Update<V>>, lo: int) -> Seq<Update<V>> {
    us.map_values(|u: Update<V>| Update { col: u.col - lo, left: u.left, right: u.right })
}

/// The updates of a product with a slice are those of the whole in its columns.
proof fn lemma_slice_updates<V: Scalar, I: Index>(
    left: Seq<(int, V)>,
    b: CsrView<'_, V, I>,
    slice: CsrView<'_, V, I>,
    lo: int,
    hi: int,
)
    requires
        forall|p: int| 0 <= p < left.len() ==> 0 <= (#[trigger] left[p]).0 < b.nrows,
        forall|r: int|
            0 <= r < b.nrows ==> #[trigger] slice.row(r) == slice_of(b.row(r), lo, hi),
    ensures
        product::row_updates(left, slice) == rebased(
            product::within(product::row_updates(left, b), lo, hi),
            lo,
        ),
    decreases left.len(),
{
    if left.len() > 0 {
        let front = left.drop_last();
        let (r, v) = left.last();
        assert forall|p: int| 0 <= p < front.len() implies 0 <= (#[trigger] front[p]).0
            < b.nrows by {
            assert(front[p] == left[p]);
        }
        lemma_slice_updates(front, b, slice, lo, hi);
        assert(left[left.len() - 1].0 == r);
        assert(slice.row(r) == slice_of(b.row(r), lo, hi));
        topn::lemma_scaled_within(v, b.row(r), lo, hi);
        Seq::filter_distributes_over_add(
            product::row_updates(front, b),
            product::scaled(v, b.row(r)),
            |u: Update<V>| lo <= u.col < hi,
        );
        let seg = product::segment(b.row(r), lo, hi);
        assert(product::scaled(v, slice.row(r)) =~= rebased(product::scaled(v, seg), lo));
        assert(rebased(
            product::within(product::row_updates(front, b), lo, hi) + product::scaled(v, seg),
            lo,
        ) =~= rebased(product::within(product::row_updates(front, b), lo, hi), lo) + rebased(
            product::scaled(v, seg),
            lo,
        ));
    } else {
        reveal(Seq::filter);
        assert(product::row_updates(left, slice) =~= rebased(
            product::within(product::row_updates(left, b), lo, hi),
            lo,
        ));
    }
}

/// Counting columns from elsewhere changes neither the sums nor what is touched.
proof fn lemma_rebased<V: Scalar>(us: Seq<Update<V>>, lo: int, k: int, fused: bool)
    ensures
        product::accumulate(rebased(us, lo), k - lo, fused) == product::accumulate(us, k, fused),
        product::touched(rebased(us, lo)).contains(k - lo) == product::touched(us).contains(k),
    decreases us.len(),
{
    if us.len() > 0 {
        lemma_rebased(us.drop_last(), lo, k, fused);
        assert(rebased(us, lo).drop_last() =~= rebased(us.drop_last(), lo));
    }
    let there = rebased(us, lo);
    product::lemma_touched(us);
    product::lemma_touched(there);
    if product::touched(us).contains(k) {
        let x = choose|x: int| 0 <= x < us.len() && (#[trigger] us[x]).col == k;
        assert(there[x].col == k - lo);
    }
    if product::touched(there).contains(k - lo) {
        let x = choose|x: int| 0 <= x < there.len() && (#[trigger] there[x]).col == k - lo;
        assert(us[x].col == k);
    }
}

/// A column of a slice: its sum and whether it is touched.
proof fn lemma_slice_column<V: Scalar, I: Index>(
    a: CsrView<'_, V, I>,
    bs: Seq<CsrView<'_, V, I>>,
    b: CsrView<'_, V, I>,
    i: int,
    j: int,
    k: int,
)
    requires
        product::multipliable(a, b),
        are_slices(bs, b),
        0 <= i < a.nrows,
        0 <= j < bs.len(),
        zip::column_offset(bs, j) <= k < zip::column_offset(bs, j + 1),
    ensures
        product::accumulate(
            product::updates_of(a, bs[j], i),
            k - zip::column_offset(bs, j),
            true,
        ) == product::accumulate(product::updates_of(a, b, i), k, true),
        product::touched(product::updates_of(a, bs[j], i)).contains(
            k - zip::column_offset(bs, j),
        ) == product::touched(product::updates_of(a, b, i)).contains(k),
{
    let lo = zip::column_offset(bs, j);
    let hi = zip::column_offset(bs, j + 1);
    let us = product::updates_of(a, b, i);
    product::lemma_row_in_bounds(a, i);
    lemma_slice_updates(a.row(i), b, bs[j], lo, hi);
    lemma_rebased(product::within(us, lo, hi), lo, k, true);
    product::lemma_accumulate_within(us, lo, hi, k, true);
    laws::lemma_touched_within(us, lo, hi, k);
}

/// Every column is in one of the slices.
proof fn lemma_in_a_slice<V: Scalar, I: Index>(bs: Seq<CsrView<'_, V, I>>, m: int, k: int) -> (j:
    int)
    requires
        0 <= m <= bs.len(),
        0 <= k < zip::column_offset(bs, m),
    ensures
        0 <= j < m,
        zip::column_offset(bs, j) <= k < zip::column_offset(bs, j + 1),
    decreases m,
{
    if k < zip::column_offset(bs, m - 1) {
        lemma_in_a_slice(bs, m - 1, k)
    } else {
        m - 1
    }
}

/// Is the choice of accumulator without effect on which columns row `i` holds?
/// It is for integers, if it is not left to the density of the row, and where no
/// touched column sums to zero.
pub open spec fn is_accumulated_alike<V: Scalar, I: Index>(
    a: CsrView<'_, V, I>,
    b: CsrView<'_, V, I>,
    accum: AccumMode,
    i: int,
) -> bool {
    ||| !V::IS_FLOAT
    ||| accum != AccumMode::Adaptive
    ||| forall|k: int| #[trigger]
        product::touched(product::updates_of(a, b, i)).contains(k) ==> !product::accumulate(
            product::updates_of(a, b, i),
            k,
            true,
        ).spec_equals(V::spec_zero())
}

/// Slices of the columns lose nothing: side by side, the products with the
/// slices of `b` have the sums of the product with `b`, and can hold the same
/// columns.
pub proof fn law_slices_make_the_product<V: Scalar, I: Index>(
    a: CsrView<'_, V, I>,
    bs: Seq<CsrView<'_, V, I>>,
    b: CsrView<'_, V, I>,
    accum: AccumMode,
    i: int,
)
    requires
        product::multipliable(a, b),
        are_slices(bs, b),
        0 <= i < a.nrows,
        is_accumulated_alike(a, b, accum, i),
    ensures
        forall|k: int|
            0 <= k < b.ncols ==> #[trigger] merge::zipped_sum(a, bs, i)(k) == laws::sum_at(
                product::updates_of(a, b, i),
                true,
            )(k),
        merge::united(merge::zipped_columns(a, bs, accum, i)) == laws::row_columns(
            product::updates_of(a, b, i),
            b.ncols as int,
            topn::uses_dense(a, b, i, accum),
        ),
{
    let us = product::updates_of(a, b, i);
    let ncols = b.ncols as int;
    let dense = topn::uses_dense(a, b, i, accum);
    let whole = laws::row_columns(us, ncols, dense);
    let parts = merge::zipped_columns(a, bs, accum, i);
    let n = bs.len() as int;
    assert forall|k: int| 0 <= k < b.ncols implies #[trigger] merge::zipped_sum(a, bs, i)(k)
        == laws::sum_at(us, true)(k) by {
        let j = lemma_in_a_slice(bs, n, k);
        merge::lemma_owner(bs, k, j);
        lemma_slice_column(a, bs, b, i, j, k);
    }
    product::lemma_product_in_bounds(a, b, i);
    laws::lemma_row_columns_in_bounds(us, ncols, dense);
    assert forall|j: int, k: int|
        0 <= j < n && zip::column_offset(bs, j) <= k < zip::column_offset(bs, j + 1) implies (
    #[trigger] parts[j]).contains(k) == #[trigger] whole.contains(k) by {
        lemma_held_alike(a, bs, b, accum, i, j, k);
    }
    assert(merge::united(parts) =~= whole) by {
        assert forall|k: int| merge::united(parts).contains(k) == whole.contains(k) by {
            if merge::united(parts).contains(k) {
                let j = choose|j: int| 0 <= j < parts.len() && (#[trigger] parts[j]).contains(k);
                let lo = zip::column_offset(bs, j);
                product::lemma_product_in_bounds(a, bs[j], i);
                laws::lemma_row_columns_in_bounds(
                    product::updates_of(a, bs[j], i),
                    bs[j].ncols as int,
                    topn::uses_dense(a, bs[j], i, accum),
                );
                assert(0 <= k - lo < bs[j].ncols);
            }
            if whole.contains(k) {
                let j = lemma_in_a_slice(bs, n, k);
                assert(parts[j].contains(k));
            }
        }
    }
}

/// A column is among those that its slice can hold if it is among those of the
/// whole.
proof fn lemma_held_alike<V: Scalar, I: Index>(
    a: CsrView<'_, V, I>,
    bs: Seq<CsrView<'_, V, I>>,
    b: CsrView<'_, V, I>,
    accum: AccumMode,
    i: int,
    j: int,
    k: int,
)
    requires
        product::multipliable(a, b),
        are_slices(bs, b),
        0 <= i < a.nrows,
        is_accumulated_alike(a, b, accum, i),
        0 <= j < bs.len(),
        zip::column_offset(bs, j) <= k < zip::column_offset(bs, j + 1),
    ensures
        merge::zipped_columns(a, bs, accum, i)[j].contains(k) == laws::row_columns(
            product::updates_of(a, b, i),
            b.ncols as int,
            topn::uses_dense(a, b, i, accum),
        ).contains(k),
{
    let us = product::updates_of(a, b, i);
    let vs = product::updates_of(a, bs[j], i);
    let lo = zip::column_offset(bs, j);
    zip::lemma_offsets_grow(bs, 0, j);
    zip::lemma_offsets_grow(bs, j + 1, bs.len() as int);
    lemma_slice_column(a, bs, b, i, j, k);
    V::lemma_constants();
    if !product::touched(us).contains(k) {
        product::lemma_untouched_is_zero(us, k, true);
        product::lemma_untouched_is_zero(vs, k - lo, true);
    }
}

/// Are the rows of the result the top-n choices of the product? They are unless
/// the plain product stands in as a shortcut for rows that it rounds or fills
/// differently.
pub open spec fn gives_choices<V: Scalar, I: Index>(
    a: CsrView<'_, V, I>,
    b: CsrView<'_, V, I>,
    top_n: usize,
    opts: TopNOptions<V>,
) -> bool {
    matmul_topn::is_plain(b, top_n, opts) ==> forall|i: int|
        0 <= i < a.nrows ==> #[trigger] agreement::is_tame(a, b, i, opts.accum_mode)
}

/// Row `i` of a result, and of a view of it.
proof fn lemma_result_row<V: Scalar, I: Index>(
    a: CsrView<'_, V, I>,
    b: CsrView<'_, V, I>,
    top_n: usize,
    opts: TopNOptions<V>,
    c: CsrMatrix<V, I>,
    i: int,
)
    requires
        product::multipliable(a, b),
        0 <= i < a.nrows,
        top_n <= u32::MAX || b.ncols <= u32::MAX,
        opts.chunk_cols != Some(0usize),
        matmul_topn::is_topn_outcome(Ok(c), a, b, top_n, opts),
        gives_choices(a, b, top_n, opts),
    ensures
        agreement::is_choice(c.row(i), a, b, i, top_n, opts),
{
    let rows = agreement::lemma_topn_rows(a, b, top_n, opts, c);
    csr::lemma_row_of_matrix(c, b.ncols, rows, i);
    if matmul_topn::is_plain(b, top_n, opts) {
        assert(agreement::is_tame(a, b, i, opts.accum_mode));
    }
    assert(agreement::is_choice(rows[i], a, b, i, top_n, opts));
}

/// A view of a result is a valid matrix with the same rows.
proof fn lemma_result_view<V: Scalar, I: Index>(
    a: CsrView<'_, V, I>,
    b: CsrView<'_, V, I>,
    top_n: usize,
    opts: TopNOptions<V>,
    c: CsrMatrix<V, I>,
    view: CsrView<'_, V, I>,
)
    requires
        product::multipliable(a, b),
        top_n <= u32::MAX || b.ncols <= u32::MAX,
        b.ncols - 1 <= I::spec_max_usize(),
        opts.chunk_cols != Some(0usize),
        matmul_topn::is_topn_outcome(Ok(c), a, b, top_n, opts),
        gives_choices(a, b, top_n, opts),
        merge::is_view_of(view, c),
    ensures
        view.valid(),
        view.nrows == a.nrows,
        view.ncols == b.ncols,
        forall|i: int|
            #![trigger view.row(i)]
            #![trigger c.row(i)]
            0 <= i < a.nrows ==> view.row(i) == c.row(i).map_values(
                |e: (I, V)| (e.0.as_int(), e.1),
            ),
{
    let rows = agreement::lemma_topn_rows(a, b, top_n, opts, c);
    let ncols = b.ncols as int;
    assert forall|i: int, p: int| 0 <= i < rows.len() && 0 <= p < rows[i].len() implies 0 <= (
    #[trigger] rows[i][p]).0.as_int() < b.ncols by {
        lemma_result_row(a, b, top_n, opts, c, i);
        csr::lemma_row_of_matrix(c, b.ncols, rows, i);
        let us = product::updates_of(a, b, i);
        let dense = topn::uses_dense(a, b, i, opts.accum_mode);
        let all = laws::row_columns(us, ncols, dense);
        let val = laws::sum_at(us, true);
        let cols = choose|cols: Seq<int>| #[trigger]
            laws::is_top_n_row(
                rows[i],
                cols,
                all,
                val,
                opts.threshold,
                top_n as nat,
                opts.sort,
            );
        assert(rows[i][p] == (I::narrowed(cols[p] as usize), val(cols[p])));
        assert(cols.to_set().contains(cols[p]));
        product::lemma_product_in_bounds(a, b, i);
        laws::lemma_row_columns_in_bounds(us, ncols, dense);
        assert(all.contains(cols[p]));
        I::lemma_index_laws();
        assert(I::narrowed(cols[p] as usize).as_int() == cols[p]);
    }
    laws::law_result_is_valid(c, b.ncols, rows, view);
    assert forall|i: int|
        #![trigger view.row(i)]
        #![trigger c.row(i)]
        0 <= i < a.nrows implies view.row(i) == c.row(i).map_values(
        |e: (I, V)| (e.0.as_int(), e.1),
    ) by {
        csr::lemma_row_of_matrix(c, b.ncols, rows, i);
        assert(view.row(i) == rows[i].map_values(|e: (I, V)| (e.0.as_int(), e.1)));
    }
}

/// Does everything in row `i` that the threshold lets pass also pass when the
/// results are zipped? Zipping keeps what exceeds
/// [`Scalar::cpp_numeric_limits_min`].
pub open spec fn passes_zip<V: Scalar, I: Index>(
    a: CsrView<'_, V, I>,
    b: CsrView<'_, V, I>,
    threshold: Option<V>,
    i: int,
) -> bool {
    forall|k: int| #[trigger]
        product::touched(product::updates_of(a, b, i)).contains(k) && admits(
            threshold,
            product::accumulate(product::updates_of(a, b, i), k, true),
        ) ==> V::spec_limits_min().spec_less(
            product::accumulate(product::updates_of(a, b, i), k, true),
        )
}

/// The zipped row of top-n choices from the slices is a top-n choice of the
/// whole.
proof fn lemma_zipped_choice<V: Scalar, I: Index>(
    a: CsrView<'_, V, I>,
    bs: Seq<CsrView<'_, V, I>>,
    b: CsrView<'_, V, I>,
    chunks: Seq<CsrView<'_, V, I>>,
    rows: Seq<Seq<(I, V)>>,
    top_n: nat,
    threshold: Option<V>,
    sort: SortMode,
    accum: AccumMode,
    i: int,
)
    requires
        product::multipliable(a, b),
        are_slices(bs, b),
        0 <= i < a.nrows,
        top_n <= u32::MAX || b.ncols <= u32::MAX,
        is_accumulated_alike(a, b, accum, i),
        passes_zip(a, b, threshold, i),
        chunks.len() == bs.len(),
        rows.len() == bs.len(),
        forall|j: int|
            0 <= j < bs.len() ==> merge::is_part(
                a,
                bs,
                chunks,
                #[trigger] rows[j],
                top_n,
                threshold,
                sort,
                accum,
                i,
                j,
            ),
    ensures
        laws::chooses_top_n(
            zip::zip_rows::<V, I>(chunks, top_n)[i],
            product::updates_of(a, b, i),
            b.ncols as int,
            topn::uses_dense(a, b, i, accum),
            threshold,
            top_n,
            SortMode::ByValueDesc,
        ),
        forall|p: int|
            0 <= p < zip::zip_rows::<V, I>(chunks, top_n)[i].len()
                ==> V::spec_limits_min().spec_less(
                (#[trigger] zip::zip_rows::<V, I>(chunks, top_n)[i][p]).1,
            ),
{
    let us = product::updates_of(a, b, i);
    let ncols = b.ncols as int;
    let dense = topn::uses_dense(a, b, i, accum);
    let whole = laws::row_columns(us, ncols, dense);
    let sum = laws::sum_at(us, true);
    let val = merge::zipped_sum(a, bs, i);
    let floor = Some(V::spec_limits_min());
    let parts = merge::zipped_columns(a, bs, accum, i);
    let choices = merge::held_columns(chunks, i);
    let row = zip::zip_rows::<V, I>(chunks, top_n)[i];
    let cols = merge::lemma_zip_of_choices(
        a,
        bs,
        chunks,
        rows,
        top_n,
        threshold,
        sort,
        accum,
        i,
    );
    let kept = cols.to_set();
    law_slices_make_the_product(a, bs, b, accum, i);
    product::lemma_product_in_bounds(a, b, i);
    laws::lemma_row_columns_in_bounds(us, ncols, dense);
    V::lemma_constants();
    assert forall|j: int| 0 <= j < parts.len() implies #[trigger] laws::is_top_n(
        choices[j],
        parts[j],
        val,
        threshold,
        top_n,
    ) by {
        assert(laws::is_top_n(merge::held_columns(chunks, i)[j], parts[j], val, threshold, top_n));
    }
    // What the slices hold passes both thresholds.
    assert forall|k: int| #[trigger] merge::united(choices).contains(k) implies whole.contains(k)
        && val(k) == sum(k) && admits(threshold, val(k)) && admits(floor, val(k)) by {
        let j = choose|j: int| 0 <= j < choices.len() && (#[trigger] choices[j]).contains(k);
        assert(laws::is_top_n(choices[j], parts[j], val, threshold, top_n));
        assert(parts[j].contains(k));
        assert(merge::united(parts).contains(k));
        if !product::touched(us).contains(k) {
            product::lemma_untouched_is_zero(us, k, true);
        }
    }
    assert(laws::is_top_n(kept, merge::united(choices), val, threshold, top_n)) by {
        assert forall|k: int| #[trigger] kept.contains(k) implies merge::united(choices).contains(k)
            && admits(threshold, val(k)) by {}
    }
    merge::law_choices_merge(kept, choices, parts, val, threshold, threshold, top_n);
    assert forall|k: int| #[trigger] whole.contains(k) implies val(k) == sum(k) by {}
    assert(laws::is_top_n(kept, whole, sum, threshold, top_n)) by {
        assert forall|k: int| #[trigger] kept.contains(k) implies whole.contains(k) && admits(
            threshold,
            sum(k),
        ) by {
            assert(merge::united(choices).contains(k));
        }
        assert forall|k: int|
            whole.contains(k) && admits(threshold, sum(k)) && !#[trigger] kept.contains(
                k,
            ) implies kept.len() == top_n by {
            assert(val(k) == sum(k));
        }
        assert forall|k: int, q: int|
            whole.contains(k) && admits(threshold, sum(k)) && !#[trigger] kept.contains(k)
                && #[trigger] kept.contains(q) implies !sum(q).spec_less(sum(k)) by {
            assert(val(k) == sum(k));
            assert(merge::united(choices).contains(q));
        }
    }
    assert forall|q: int| 0 <= q < cols.len() implies #[trigger] row[q] == (
        I::narrowed(cols[q] as usize),
        sum(cols[q]),
    ) && V::spec_limits_min().spec_less(row[q].1) by {
        assert(row[q] == (I::narrowed(cols[q] as usize), val(cols[q])));
        assert(kept.contains(cols[q]));
        assert(merge::united(choices).contains(cols[q]));
    }
    assert(laws::is_top_n_row(
        row,
        cols,
        whole,
        sum,
        threshold,
        top_n,
        SortMode::ByValueDesc,
    ));
}

/// Top-n distributes over a split of the columns. Multiply with each slice of
/// the columns of `b`, keep the `top_n` largest of each row, and zip: the result
/// has the shape and the row pointers of the top-n product with `b`, and every
/// two rows agree. With both by value the values are the same one by one, and so
/// are the columns of every row without ties.
///
/// Zipping has a threshold of its own, so this is for products whose acceptable
/// sums exceed it; an integer sum of the smallest value of the type does not.
pub proof fn law_top_n_distributes_over_slices<V: Scalar, I: Index>(
    a: CsrView<'_, V, I>,
    bs: Seq<CsrView<'_, V, I>>,
    b: CsrView<'_, V, I>,
    top_n: usize,
    opts: TopNOptions<V>,
    parts: Seq<CsrMatrix<V, I>>,
    chunks: Seq<CsrView<'_, V, I>>,
    z: CsrMatrix<V, I>,
    whole: TopNOptions<V>,
    c: CsrMatrix<V, I>,
)
    requires
        product::multipliable(a, b),
        are_slices(bs, b),
        top_n <= u32::MAX || b.ncols <= u32::MAX,
        b.ncols - 1 <= I::spec_max_usize(),
        opts.chunk_cols != Some(0usize),
        whole.chunk_cols != Some(0usize),
        opts.threshold == whole.threshold,
        opts.accum_mode == whole.accum_mode,
        parts.len() == bs.len(),
        chunks.len() == bs.len(),
        forall|j: int|
            0 <= j < bs.len() ==> {
                &&& matmul_topn::is_topn_outcome(Ok(#[trigger] parts[j]), a, bs[j], top_n, opts)
                &&& gives_choices(a, bs[j], top_n, opts)
                &&& merge::is_view_of(chunks[j], parts[j])
            },
        z.holds(b.ncols, zip::zip_rows(chunks, top_n as nat)),
        matmul_topn::is_topn_outcome(Ok(c), a, b, top_n, whole),
        gives_choices(a, b, top_n, whole),
        forall|i: int|
            0 <= i < a.nrows ==> #[trigger] is_accumulated_alike(a, b, opts.accum_mode, i),
        forall|i: int| 0 <= i < a.nrows ==> #[trigger] passes_zip(a, b, opts.threshold, i),
    ensures
        z.nrows == c.nrows,
        z.ncols == c.ncols,
        z.indptr@ == c.indptr@,
        forall|i: int|
            #![trigger z.row(i)]
            #![trigger c.row(i)]
            0 <= i < a.nrows ==> laws::agree(
                z.row(i),
                SortMode::ByValueDesc,
                c.row(i),
                whole.sort,
                product::updates_of(a, b, i),
                b.ncols as int,
                topn::uses_dense(a, b, i, opts.accum_mode),
                opts.threshold,
                top_n as nat,
            ),
        whole.sort == SortMode::ByValueDesc ==> z.data@ == c.data@,
{
    let zrows = zip::zip_rows::<V, I>(chunks, top_n as nat);
    let rows = agreement::lemma_topn_rows(a, b, top_n, whole, c);
    lemma_slices_fit(bs, b);
    assert forall|j: int| 0 <= j < bs.len() implies (#[trigger] chunks[j]).valid()
        && chunks[j].nrows == a.nrows && chunks[j].ncols == bs[j].ncols by {
        assert(bs[j].valid());
        assert(matmul_topn::is_topn_outcome(Ok(parts[j]), a, bs[j], top_n, opts));
        lemma_result_view(a, bs[j], top_n, opts, parts[j], chunks[j]);
    }
    assert(chunks[0].valid());
    assert forall|i: int| 0 <= i < a.nrows implies laws::agree(
        #[trigger] zrows[i],
        SortMode::ByValueDesc,
        rows[i],
        whole.sort,
        product::updates_of(a, b, i),
        b.ncols as int,
        topn::uses_dense(a, b, i, opts.accum_mode),
        opts.threshold,
        top_n as nat,
    ) && (whole.sort == SortMode::ByValueDesc ==> csr::values(zrows[i]) == csr::values(
        rows[i],
    )) by {
        assert(is_accumulated_alike(a, b, opts.accum_mode, i));
        assert(passes_zip(a, b, opts.threshold, i));
        lemma_row_distributes(a, bs, b, top_n, opts, parts, chunks, whole, c, i);
        csr::lemma_row_of_matrix(c, b.ncols, rows, i);
    }
    assert forall|i: int| 0 <= i < zrows.len() implies (#[trigger] zrows[i]).len()
        == rows[i].len() by {}
    laws::lemma_same_lengths_same_indptr(z, c, b.ncols, zrows, rows);
    if whole.sort == SortMode::ByValueDesc {
        merge::lemma_same_values(zrows, rows);
    }
    assert forall|i: int|
        #![trigger z.row(i)]
        #![trigger c.row(i)]
        0 <= i < a.nrows implies laws::agree(
        z.row(i),
        SortMode::ByValueDesc,
        c.row(i),
        whole.sort,
        product::updates_of(a, b, i),
        b.ncols as int,
        topn::uses_dense(a, b, i, opts.accum_mode),
        opts.threshold,
        top_n as nat,
    ) by {
        csr::lemma_row_of_matrix(z, b.ncols, zrows, i);
        csr::lemma_row_of_matrix(c, b.ncols, rows, i);
        assert(zrows[i] == z.row(i));
    }
}

/// No slice is wider than the whole.
proof fn lemma_slices_fit<V: Scalar, I: Index>(
    bs: Seq<CsrView<'_, V, I>>,
    b: CsrView<'_, V, I>,
)
    requires
        are_slices(bs, b),
    ensures
        forall|j: int| 0 <= j < bs.len() ==> (#[trigger] bs[j]).ncols <= b.ncols,
{
    assert forall|j: int| 0 <= j < bs.len() implies (#[trigger] bs[j]).ncols <= b.ncols by {
        zip::lemma_offsets_grow(bs, 0, j);
        zip::lemma_offsets_grow(bs, j + 1, bs.len() as int);
    }
}

proof fn lemma_row_distributes<V: Scalar, I: Index>(
    a: CsrView<'_, V, I>,
    bs: Seq<CsrView<'_, V, I>>,
    b: CsrView<'_, V, I>,
    top_n: usize,
    opts: TopNOptions<V>,
    parts: Seq<CsrMatrix<V, I>>,
    chunks: Seq<CsrView<'_, V, I>>,
    whole: TopNOptions<V>,
    c: CsrMatrix<V, I>,
    i: int,
)
    requires
        product::multipliable(a, b),
        are_slices(bs, b),
        0 <= i < a.nrows,
        top_n <= u32::MAX || b.ncols <= u32::MAX,
        b.ncols - 1 <= I::spec_max_usize(),
        opts.chunk_cols != Some(0usize),
        whole.chunk_cols != Some(0usize),
        opts.threshold == whole.threshold,
        opts.accum_mode == whole.accum_mode,
        parts.len() == bs.len(),
        chunks.len() == bs.len(),
        forall|j: int|
            0 <= j < bs.len() ==> {
                &&& matmul_topn::is_topn_outcome(Ok(#[trigger] parts[j]), a, bs[j], top_n, opts)
                &&& gives_choices(a, bs[j], top_n, opts)
                &&& merge::is_view_of(chunks[j], parts[j])
            },
        matmul_topn::is_topn_outcome(Ok(c), a, b, top_n, whole),
        gives_choices(a, b, top_n, whole),
        is_accumulated_alike(a, b, opts.accum_mode, i),
        passes_zip(a, b, opts.threshold, i),
    ensures
        ({
            let row = zip::zip_rows::<V, I>(chunks, top_n as nat)[i];
            &&& laws::agree(
                row,
                SortMode::ByValueDesc,
                c.row(i),
                whole.sort,
                product::updates_of(a, b, i),
                b.ncols as int,
                topn::uses_dense(a, b, i, opts.accum_mode),
                opts.threshold,
                top_n as nat,
            )
            &&& whole.sort == SortMode::ByValueDesc ==> csr::values(row) == csr::values(c.row(i))
        }),
{
    let us = product::updates_of(a, b, i);
    let ncols = b.ncols as int;
    let dense = topn::uses_dense(a, b, i, opts.accum_mode);
    let row = zip::zip_rows::<V, I>(chunks, top_n as nat)[i];
    let rows = Seq::new(bs.len(), |j: int| parts[j].row(i));
    lemma_slices_fit(bs, b);
    assert forall|j: int| 0 <= j < bs.len() implies merge::is_part(
        a,
        bs,
        chunks,
        #[trigger] rows[j],
        top_n as nat,
        opts.threshold,
        opts.sort,
        opts.accum_mode,
        i,
        j,
    ) by {
        assert(bs[j].valid());
        assert(matmul_topn::is_topn_outcome(Ok(parts[j]), a, bs[j], top_n, opts));
        lemma_result_view(a, bs[j], top_n, opts, parts[j], chunks[j]);
        lemma_result_row(a, bs[j], top_n, opts, parts[j], i);
        assert(chunks[j].row(i) == parts[j].row(i).map_values(|e: (I, V)| (e.0.as_int(), e.1)));
    }
    lemma_zipped_choice(
        a,
        bs,
        b,
        chunks,
        rows,
        top_n as nat,
        opts.threshold,
        opts.sort,
        opts.accum_mode,
        i,
    );
    lemma_result_row(a, b, top_n, whole, c, i);
    product::lemma_product_in_bounds(a, b, i);
    laws::lemma_choices_compare(
        row,
        SortMode::ByValueDesc,
        c.row(i),
        whole.sort,
        us,
        ncols,
        dense,
        dense,
        opts.threshold,
        top_n as nat,
    );
    if whole.sort == SortMode::ByValueDesc {
        let all = laws::row_columns(us, ncols, dense);
        let sum = laws::sum_at(us, true);
        let cols = choose|cols: Seq<int>| #[trigger]
            laws::is_top_n_row(
                c.row(i),
                cols,
                all,
                sum,
                opts.threshold,
                top_n as nat,
                whole.sort,
            );
        V::lemma_constants();
        assert forall|p: int| 0 <= p < row.len() implies row[p].1 == c.row(i)[p].1 by {
            assert(c.row(i)[p] == (I::narrowed(cols[p] as usize), sum(cols[p])));
            assert(cols.to_set().contains(cols[p]));
            assert(all.contains(cols[p]) && admits(opts.threshold, sum(cols[p])));
            if !product::touched(us).contains(cols[p]) {
                product::lemma_untouched_is_zero(us, cols[p], true);
            }
            assert(V::spec_limits_min().spec_less(row[p].1));
            assert(laws::ties(row[p].1, c.row(i)[p].1));
            V::lemma_limit_ties(row[p].1, c.row(i)[p].1);
        }
        assert(csr::values(row) =~= csr::values(c.row(i)));
    }
}

} // verus!
