//! What two calls of the top-n product have in common.
//!
//! The laws in [`crate::laws`] speak of single rows. Here they are carried over
//! to the matrices that calls return: calls that ask for the same entries agree,
//! however they organise the work, whatever chunk width they take, and whatever
//! order they ask for.
use vstd::prelude::*;

use crate::chunked;
use crate::chunked::AccumMode;
use crate::csr::{CsrMatrix, CsrView};
use crate::index::Index;
use crate::laws;
use crate::matmul_topn;
use crate::matmul_topn::{SortMode, TopNOptions};
use crate::permutation;
use crate::product;
use crate::scalar::Scalar;
use crate::topn;

verus! {

/// Is row `i` computed alike by the plain product and the chunked kernel?
/// Multiply-add does not fuse, every sum compares, and none is lost as a zero of
/// the dense accumulator.
pub open spec fn is_tame<V: Scalar, I: Index>(
    a: CsrView<'_, V, I>,
    b: CsrView<'_, V, I>,
    i: int,
    accum: AccumMode,
) -> bool {
    let us = product::updates_of(a, b, i);
    &&& crate::scalar::is_unfused::<V>()
    &&& forall|k: int| #[trigger]
        product::touched(us).contains(k) ==> {
            let sum = product::accumulate(us, k, true);
            sum.ordered() && (topn::uses_dense(a, b, i, accum) ==> !sum.spec_equals(
                V::spec_zero(),
            ))
        }
}

/// Integer rows are tame: integers do not fuse, all of them compare, and they
/// never use the dense accumulator.
pub proof fn law_integer_rows_are_tame<I: Index>(
    a32: CsrView<'_, i32, I>,
    b32: CsrView<'_, i32, I>,
    a64: CsrView<'_, i64, I>,
    b64: CsrView<'_, i64, I>,
    i: int,
    accum: AccumMode,
)
    ensures
        is_tame(a32, b32, i, accum),
        is_tame(a64, b64, i, accum),
{
    crate::scalar::lemma_integers();
}

/// Is the row a top-n choice among the columns that row `i` of the product can
/// hold?
pub open spec fn is_choice<V: Scalar, I: Index>(
    row: Seq<(I, V)>,
    a: CsrView<'_, V, I>,
    b: CsrView<'_, V, I>,
    i: int,
    top_n: usize,
    opts: TopNOptions<V>,
) -> bool {
    laws::chooses_top_n(
        row,
        product::updates_of(a, b, i),
        b.ncols as int,
        topn::uses_dense(a, b, i, opts.accum_mode),
        opts.threshold,
        top_n as nat,
        opts.sort,
    )
}

/// Do row `i` of two results agree as far as top-n choices can, see
/// [`laws::agree`]?
pub open spec fn rows_agree<V: Scalar, I: Index>(
    a: CsrView<'_, V, I>,
    b: CsrView<'_, V, I>,
    top_n: usize,
    opts1: TopNOptions<V>,
    c1: CsrMatrix<V, I>,
    opts2: TopNOptions<V>,
    c2: CsrMatrix<V, I>,
    i: int,
) -> bool {
    laws::agree(
        c1.row(i),
        opts1.sort,
        c2.row(i),
        opts2.sort,
        product::updates_of(a, b, i),
        b.ncols as int,
        topn::uses_dense(a, b, i, opts1.accum_mode),
        opts1.threshold,
        top_n as nat,
    )
}

/// The empty row is a top-n choice where nothing is kept or nothing is there.
proof fn lemma_empty_choice<V: Scalar, I: Index>(
    a: CsrView<'_, V, I>,
    b: CsrView<'_, V, I>,
    i: int,
    top_n: usize,
    opts: TopNOptions<V>,
)
    requires
        product::multipliable(a, b),
        0 <= i < a.nrows,
        crate::csr::short_circuits(a, b, top_n),
    ensures
        is_choice::<V, I>(Seq::empty(), a, b, i, top_n, opts),
{
    let us = product::updates_of(a, b, i);
    let ncols = b.ncols as int;
    let dense = topn::uses_dense(a, b, i, opts.accum_mode);
    let all = laws::row_columns(us, ncols, dense);
    let none = Seq::<int>::empty();
    assert(none.to_set() =~= Set::<int>::empty());
    if top_n > 0 {
        crate::matmul::lemma_empty_product_rows::<V, I>(a, b);
        product::lemma_empty_product(a, b, i);
        V::lemma_constants();
        assert forall|k: int| !#[trigger] all.contains(k) by {
            if !product::touched(us).contains(k) {
                product::lemma_untouched_is_zero(us, k, true);
            }
        }
    }
    assert(laws::is_top_n_row(
        Seq::<(I, V)>::empty(),
        none,
        all,
        laws::sum_at(us, true),
        opts.threshold,
        top_n as nat,
        opts.sort,
    ));
}

/// The rows of a chunked result, each a top-n choice.
proof fn lemma_chunked_rows<V: Scalar, I: Index>(
    a: CsrView<'_, V, I>,
    b: CsrView<'_, V, I>,
    top_n: usize,
    opts: TopNOptions<V>,
    c: CsrMatrix<V, I>,
) -> (rows: Seq<Seq<(I, V)>>)
    requires
        product::multipliable(a, b),
        top_n <= u32::MAX || b.ncols <= u32::MAX,
        opts.chunk_cols != Some(0usize),
        chunked::is_chunked_outcome(Ok(c), a, b, top_n, opts),
    ensures
        c.holds(b.ncols, rows),
        rows.len() == a.nrows,
        forall|i: int|
            0 <= i < a.nrows ==> is_choice(#[trigger] rows[i], a, b, i, top_n, opts),
{
    if crate::csr::short_circuits(a, b, top_n) {
        let rows = Seq::new(a.nrows as nat, |i: int| Seq::<(I, V)>::empty());
        assert forall|i: int| 0 <= i < a.nrows implies is_choice(
            #[trigger] rows[i],
            a,
            b,
            i,
            top_n,
            opts,
        ) by {
            lemma_empty_choice::<V, I>(a, b, i, top_n, opts);
        }
        rows
    } else {
        let cc = choose|cc: int| #[trigger]
            chunked::admissible::<V>(opts.chunk_cols, b.ncols, cc) && crate::csr::is_outcome(
                Ok(c),
                b.ncols,
                chunked::requested_rows(a, b, top_n, opts, cc),
            );
        let rows = chunked::requested_rows(a, b, top_n, opts, cc);
        assert forall|i: int| 0 <= i < a.nrows implies is_choice(
            #[trigger] rows[i],
            a,
            b,
            i,
            top_n,
            opts,
        ) by {
            laws::law_row_is_top_n(
                a,
                b,
                top_n as nat,
                opts.threshold,
                opts.sort,
                opts.accum_mode,
                cc,
                i,
            );
        }
        rows
    }
}

/// A row of the plain product, in column order, is a top-n choice where there is
/// room for every column.
proof fn lemma_plain_choice<V: Scalar, I: Index>(
    a: CsrView<'_, V, I>,
    b: CsrView<'_, V, I>,
    top_n: usize,
    opts: TopNOptions<V>,
    i: int,
)
    requires
        product::multipliable(a, b),
        0 <= i < a.nrows,
        matmul_topn::is_plain(b, top_n, opts),
        is_tame(a, b, i, opts.accum_mode),
    ensures
        is_choice(laws::plain_rows::<V, I>(a, b)[i], a, b, i, top_n, opts),
{
    let us = product::updates_of(a, b, i);
    let ncols = b.ncols as int;
    let dense = topn::uses_dense(a, b, i, opts.accum_mode);
    let row = laws::plain_rows::<V, I>(a, b)[i];
    let val = laws::sum_at(us, true);
    let cols = laws::lemma_plain_row::<V, I>(a, b, i);
    product::lemma_product_in_bounds(a, b, i);
    if dense {
        laws::lemma_dense_loses_nothing(us, ncols);
    }
    let all = laws::row_columns(us, ncols, dense);
    assert(all == laws::row_columns(us, ncols, false));
    assert forall|q: int| 0 <= q < cols.len() implies #[trigger] row[q] == (
        I::narrowed(cols[q] as usize),
        val(cols[q]),
    ) by {
        laws::lemma_unfused_sums(us, cols[q]);
        assert(row[q] == (I::narrowed(cols[q] as usize), laws::sum_at(us, false)(cols[q])));
    }
    cols.unique_seq_to_set();
    vstd::seq_lib::seq_to_set_is_finite(cols);
    assert(laws::is_top_n(cols.to_set(), all, val, opts.threshold, top_n as nat)) by {
        assert forall|k: int| #[trigger] cols.to_set().contains(k) implies all.contains(k)
            && crate::maxheap::admits(opts.threshold, val(k)) by {
            assert(product::touched(us).contains(k));
        }
    }
    assert(laws::is_top_n_row(row, cols, all, val, opts.threshold, top_n as nat, opts.sort));
}

/// The rows of a result: a top-n choice each, or a row of the plain product.
pub proof fn lemma_topn_rows<V: Scalar, I: Index>(
    a: CsrView<'_, V, I>,
    b: CsrView<'_, V, I>,
    top_n: usize,
    opts: TopNOptions<V>,
    c: CsrMatrix<V, I>,
) -> (rows: Seq<Seq<(I, V)>>)
    requires
        product::multipliable(a, b),
        top_n <= u32::MAX || b.ncols <= u32::MAX,
        opts.chunk_cols != Some(0usize),
        matmul_topn::is_topn_outcome(Ok(c), a, b, top_n, opts),
    ensures
        c.holds(b.ncols, rows),
        rows.len() == a.nrows,
        forall|i: int|
            0 <= i < a.nrows && (!matmul_topn::is_plain(b, top_n, opts) || is_tame(
                a,
                b,
                i,
                opts.accum_mode,
            )) ==> is_choice(#[trigger] rows[i], a, b, i, top_n, opts),
        matmul_topn::is_plain(b, top_n, opts) && !crate::csr::short_circuits(a, b, top_n)
            ==> rows == laws::plain_rows::<V, I>(a, b),
        crate::csr::short_circuits(a, b, top_n) ==> rows == Seq::new(
            a.nrows as nat,
            |i: int| Seq::<(I, V)>::empty(),
        ),
{
    if !crate::csr::short_circuits(a, b, top_n) && matmul_topn::is_plain(b, top_n, opts) {
        let rows = laws::plain_rows::<V, I>(a, b);
        assert forall|i: int|
            0 <= i < a.nrows && is_tame(a, b, i, opts.accum_mode) implies is_choice(
            #[trigger] rows[i],
            a,
            b,
            i,
            top_n,
            opts,
        ) by {
            lemma_plain_choice::<V, I>(a, b, top_n, opts, i);
        }
        rows
    } else if crate::csr::short_circuits(a, b, top_n) {
        let rows = Seq::new(a.nrows as nat, |i: int| Seq::<(I, V)>::empty());
        assert forall|i: int| 0 <= i < a.nrows implies is_choice(
            #[trigger] rows[i],
            a,
            b,
            i,
            top_n,
            opts,
        ) by {
            lemma_empty_choice::<V, I>(a, b, i, top_n, opts);
        }
        rows
    } else {
        lemma_chunked_rows(a, b, top_n, opts, c)
    }
}

/// A row agrees with itself.
proof fn lemma_agrees_with_itself<V: Scalar, I: Index>(
    row: Seq<(I, V)>,
    sort: SortMode,
    us: Seq<product::Update<V>>,
    ncols: int,
    dense: bool,
    floor: Option<V>,
    n: nat,
)
    ensures
        laws::agree(row, sort, row, sort, us, ncols, dense, floor, n),
{
    permutation::lemma_identity(row);
    let p = permutation::identity(row.len());
    assert forall|x: V| laws::ties(x, x) by {
        V::lemma_less_ordered(x, x);
    }
    assert(laws::arranged(row, p, row, p));
}

/// Two calls of the chunked product that ask for the same entries, whatever
/// their chunk widths, given or not: the results have the same shape and the
/// same row pointers, and every two rows agree. The values of a row are the same
/// up to ties, and only ties at the top-n boundary leave open which columns they
/// are in.
pub proof fn law_chunked_calls_agree<V: Scalar, I: Index>(
    a: CsrView<'_, V, I>,
    b: CsrView<'_, V, I>,
    top_n: usize,
    opts1: TopNOptions<V>,
    opts2: TopNOptions<V>,
    c1: CsrMatrix<V, I>,
    c2: CsrMatrix<V, I>,
)
    requires
        product::multipliable(a, b),
        top_n <= u32::MAX || b.ncols <= u32::MAX,
        opts1.chunk_cols != Some(0usize),
        opts2.chunk_cols != Some(0usize),
        opts1.threshold == opts2.threshold,
        opts1.accum_mode == opts2.accum_mode,
        chunked::is_chunked_outcome(Ok(c1), a, b, top_n, opts1),
        chunked::is_chunked_outcome(Ok(c2), a, b, top_n, opts2),
    ensures
        c1.nrows == c2.nrows,
        c1.ncols == c2.ncols,
        c1.indptr@ == c2.indptr@,
        forall|i: int|
            0 <= i < a.nrows ==> #[trigger] rows_agree(a, b, top_n, opts1, c1, opts2, c2, i),
{
    let rows1 = lemma_chunked_rows(a, b, top_n, opts1, c1);
    let rows2 = lemma_chunked_rows(a, b, top_n, opts2, c2);
    assert forall|i: int| 0 <= i < a.nrows implies rows1[i].len() == rows2[i].len()
        && #[trigger] rows_agree(a, b, top_n, opts1, c1, opts2, c2, i) by {
        lemma_choices_agree(a, b, top_n, opts1, c1, rows1, opts2, c2, rows2, i);
    }
    assert forall|i: int| 0 <= i < rows1.len() implies (#[trigger] rows1[i]).len()
        == rows2[i].len() by {
        assert(rows_agree(a, b, top_n, opts1, c1, opts2, c2, i));
    }
    laws::lemma_same_lengths_same_indptr(c1, c2, b.ncols, rows1, rows2);
}

proof fn lemma_choices_agree<V: Scalar, I: Index>(
    a: CsrView<'_, V, I>,
    b: CsrView<'_, V, I>,
    top_n: usize,
    opts1: TopNOptions<V>,
    c1: CsrMatrix<V, I>,
    rows1: Seq<Seq<(I, V)>>,
    opts2: TopNOptions<V>,
    c2: CsrMatrix<V, I>,
    rows2: Seq<Seq<(I, V)>>,
    i: int,
)
    requires
        product::multipliable(a, b),
        0 <= i < a.nrows,
        opts1.threshold == opts2.threshold,
        opts1.accum_mode == opts2.accum_mode,
        c1.holds(b.ncols, rows1),
        c2.holds(b.ncols, rows2),
        rows1.len() == a.nrows,
        rows2.len() == a.nrows,
        is_choice(rows1[i], a, b, i, top_n, opts1),
        is_choice(rows2[i], a, b, i, top_n, opts2),
    ensures
        rows1[i].len() == rows2[i].len(),
        rows_agree(a, b, top_n, opts1, c1, opts2, c2, i),
{
    crate::csr::lemma_row_of_matrix(c1, b.ncols, rows1, i);
    crate::csr::lemma_row_of_matrix(c2, b.ncols, rows2, i);
    product::lemma_product_in_bounds(a, b, i);
    let dense = topn::uses_dense(a, b, i, opts1.accum_mode);
    laws::lemma_choices_compare(
        rows1[i],
        opts1.sort,
        rows2[i],
        opts2.sort,
        product::updates_of(a, b, i),
        b.ncols as int,
        dense,
        dense,
        opts1.threshold,
        top_n as nat,
    );
}

/// Two calls of the top-n product that ask for the same entries: the results
/// have the same shape and the same row pointers, and every two rows agree, for
/// every sort order, chunk width, thread count, projection, block size and
/// tiling. Where only one of them takes the plain product as a shortcut, the
/// rows have to be tame.
pub proof fn law_topn_calls_agree<V: Scalar, I: Index>(
    a: CsrView<'_, V, I>,
    b: CsrView<'_, V, I>,
    top_n: usize,
    opts1: TopNOptions<V>,
    opts2: TopNOptions<V>,
    c1: CsrMatrix<V, I>,
    c2: CsrMatrix<V, I>,
)
    requires
        product::multipliable(a, b),
        top_n <= u32::MAX || b.ncols <= u32::MAX,
        opts1.chunk_cols != Some(0usize),
        opts2.chunk_cols != Some(0usize),
        opts1.threshold == opts2.threshold,
        opts1.accum_mode == opts2.accum_mode,
        matmul_topn::is_plain(b, top_n, opts1) != matmul_topn::is_plain(b, top_n, opts2)
            ==> forall|i: int|
            0 <= i < a.nrows ==> #[trigger] is_tame(a, b, i, opts1.accum_mode),
        matmul_topn::is_topn_outcome(Ok(c1), a, b, top_n, opts1),
        matmul_topn::is_topn_outcome(Ok(c2), a, b, top_n, opts2),
    ensures
        c1.nrows == c2.nrows,
        c1.ncols == c2.ncols,
        c1.indptr@ == c2.indptr@,
        forall|i: int|
            0 <= i < a.nrows ==> #[trigger] rows_agree(a, b, top_n, opts1, c1, opts2, c2, i),
{
    let rows1 = lemma_topn_rows(a, b, top_n, opts1, c1);
    let rows2 = lemma_topn_rows(a, b, top_n, opts2, c2);
    let plain1 = matmul_topn::is_plain(b, top_n, opts1);
    let plain2 = matmul_topn::is_plain(b, top_n, opts2);
    assert forall|i: int| 0 <= i < a.nrows implies rows1[i].len() == rows2[i].len()
        && #[trigger] rows_agree(a, b, top_n, opts1, c1, opts2, c2, i) by {
        if plain1 && plain2 {
            assert(rows1[i] == rows2[i]);
            crate::csr::lemma_row_of_matrix(c1, b.ncols, rows1, i);
            crate::csr::lemma_row_of_matrix(c2, b.ncols, rows2, i);
            lemma_agrees_with_itself(
                rows1[i],
                opts1.sort,
                product::updates_of(a, b, i),
                b.ncols as int,
                topn::uses_dense(a, b, i, opts1.accum_mode),
                opts1.threshold,
                top_n as nat,
            );
        } else {
            if plain1 != plain2 {
                assert(is_tame(a, b, i, opts1.accum_mode));
            }
            assert(is_choice(rows1[i], a, b, i, top_n, opts1));
            assert(is_choice(rows2[i], a, b, i, top_n, opts2));
            lemma_choices_agree(a, b, top_n, opts1, c1, rows1, opts2, c2, rows2, i);
        }
    }
    assert forall|i: int| 0 <= i < rows1.len() implies (#[trigger] rows1[i]).len()
        == rows2[i].len() by {
        assert(rows_agree(a, b, top_n, opts1, c1, opts2, c2, i));
    }
    laws::lemma_same_lengths_same_indptr(c1, c2, b.ncols, rows1, rows2);
}

/// The sort mode changes the order within the rows and nothing else: the row
/// pointers are the same, and so are the entries of every row without a tie at
/// the top-n boundary, as in a row of distinct sums. By value no entry exceeds one before it; by column the
/// columns ascend.
pub proof fn law_sort_modes_give_the_same_entries<V: Scalar, I: Index>(
    a: CsrView<'_, V, I>,
    b: CsrView<'_, V, I>,
    top_n: usize,
    by_column: TopNOptions<V>,
    by_value: TopNOptions<V>,
    x: CsrMatrix<V, I>,
    y: CsrMatrix<V, I>,
)
    requires
        product::multipliable(a, b),
        top_n <= u32::MAX || b.ncols <= u32::MAX,
        by_column.sort == SortMode::ByColumn,
        by_value == (TopNOptions { sort: SortMode::ByValueDesc, ..by_column }),
        by_column.chunk_cols != Some(0usize),
        matmul_topn::is_plain(b, top_n, by_column) ==> forall|i: int|
            0 <= i < a.nrows ==> #[trigger] is_tame(a, b, i, by_column.accum_mode),
        matmul_topn::is_topn_outcome(Ok(x), a, b, top_n, by_column),
        matmul_topn::is_topn_outcome(Ok(y), a, b, top_n, by_value),
    ensures
        x.nrows == y.nrows,
        x.ncols == y.ncols,
        x.indptr@ == y.indptr@,
        forall|i: int|
            #![trigger x.row(i)]
            #![trigger y.row(i)]
            0 <= i < a.nrows ==> {
                &&& laws::is_by_column(x.row(i))
                &&& laws::is_descending(y.row(i))
                &&& laws::clear_cut(
                    laws::row_columns(
                        product::updates_of(a, b, i),
                        b.ncols as int,
                        topn::uses_dense(a, b, i, by_column.accum_mode),
                    ),
                    laws::sum_at(product::updates_of(a, b, i), true),
                    by_column.threshold,
                    top_n as nat,
                ) ==> laws::same_entries(x.row(i), y.row(i))
                &&& laws::no_ties(
                    laws::row_columns(
                        product::updates_of(a, b, i),
                        b.ncols as int,
                        topn::uses_dense(a, b, i, by_column.accum_mode),
                    ),
                    laws::sum_at(product::updates_of(a, b, i), true),
                    by_column.threshold,
                ) ==> laws::same_entries(x.row(i), y.row(i))
            },
{
    law_topn_calls_agree(a, b, top_n, by_column, by_value, x, y);
    assert forall|i: int|
        #![trigger x.row(i)]
        #![trigger y.row(i)]
        0 <= i < a.nrows implies {
        &&& laws::is_by_column(x.row(i))
        &&& laws::is_descending(y.row(i))
        &&& laws::clear_cut(
            laws::row_columns(
                product::updates_of(a, b, i),
                b.ncols as int,
                topn::uses_dense(a, b, i, by_column.accum_mode),
            ),
            laws::sum_at(product::updates_of(a, b, i), true),
            by_column.threshold,
            top_n as nat,
        ) ==> laws::same_entries(x.row(i), y.row(i))
        &&& laws::no_ties(
            laws::row_columns(
                product::updates_of(a, b, i),
                b.ncols as int,
                topn::uses_dense(a, b, i, by_column.accum_mode),
            ),
            laws::sum_at(product::updates_of(a, b, i), true),
            by_column.threshold,
        ) ==> laws::same_entries(x.row(i), y.row(i))
    } by {
        assert(rows_agree(a, b, top_n, by_column, x, by_value, y, i));
        laws::law_matrix_rows(a, b, top_n, by_column, x, i);
        laws::law_matrix_rows(a, b, top_n, by_value, y, i);
    }
}

/// For integers the choice of the floating-point kernels is not observable: of
/// two calls with the same arguments, whatever [`crate::simd`] has decided in
/// between, the results have the same shape and row pointers, and every two rows
/// hold the same values with their multiplicities.
pub proof fn law_kernel_choice_is_invisible<V: Scalar, I: Index>(
    a: CsrView<'_, V, I>,
    b: CsrView<'_, V, I>,
    top_n: usize,
    opts: TopNOptions<V>,
    base: CsrMatrix<V, I>,
    auto: CsrMatrix<V, I>,
)
    requires
        crate::scalar::ties_are_equal::<V>(),
        product::multipliable(a, b),
        top_n <= u32::MAX || b.ncols <= u32::MAX,
        opts.chunk_cols != Some(0usize),
        matmul_topn::is_topn_outcome(Ok(base), a, b, top_n, opts),
        matmul_topn::is_topn_outcome(Ok(auto), a, b, top_n, opts),
    ensures
        base.nrows == auto.nrows,
        base.ncols == auto.ncols,
        base.indptr@ == auto.indptr@,
        forall|i: int|
            #![trigger base.row(i)]
            #![trigger auto.row(i)]
            0 <= i < a.nrows ==> crate::csr::values(base.row(i)).to_multiset()
                == crate::csr::values(auto.row(i)).to_multiset(),
{
    law_topn_calls_agree(a, b, top_n, opts, opts, base, auto);
    assert forall|i: int|
        #![trigger base.row(i)]
        #![trigger auto.row(i)]
        0 <= i < a.nrows implies crate::csr::values(base.row(i)).to_multiset()
        == crate::csr::values(auto.row(i)).to_multiset() by {
        assert(rows_agree(a, b, top_n, opts, base, opts, auto, i));
        laws::lemma_values_multiset(base.row(i), auto.row(i));
    }
}

/// Chunk-width invariance of whole results: for element types whose ties are
/// equal, every two rows hold the same values with their multiplicities at any
/// two chunk widths, and the same entries where no tie stands at the top-n
/// boundary.
pub proof fn law_chunk_widths_give_the_same_values<V: Scalar, I: Index>(
    a: CsrView<'_, V, I>,
    b: CsrView<'_, V, I>,
    top_n: usize,
    opts: TopNOptions<V>,
    w1: Option<usize>,
    w2: Option<usize>,
    c1: CsrMatrix<V, I>,
    c2: CsrMatrix<V, I>,
)
    requires
        crate::scalar::ties_are_equal::<V>(),
        product::multipliable(a, b),
        top_n <= u32::MAX || b.ncols <= u32::MAX,
        w1 != Some(0usize),
        w2 != Some(0usize),
        chunked::is_chunked_outcome(
            Ok(c1),
            a,
            b,
            top_n,
            TopNOptions { chunk_cols: w1, ..opts },
        ),
        chunked::is_chunked_outcome(
            Ok(c2),
            a,
            b,
            top_n,
            TopNOptions { chunk_cols: w2, ..opts },
        ),
    ensures
        c1.nrows == c2.nrows,
        c1.ncols == c2.ncols,
        c1.indptr@ == c2.indptr@,
        forall|i: int|
            #![trigger c1.row(i)]
            #![trigger c2.row(i)]
            0 <= i < a.nrows ==> {
                &&& crate::csr::values(c1.row(i)).to_multiset() == crate::csr::values(
                    c2.row(i),
                ).to_multiset()
                &&& laws::clear_cut(
                    laws::row_columns(
                        product::updates_of(a, b, i),
                        b.ncols as int,
                        topn::uses_dense(a, b, i, opts.accum_mode),
                    ),
                    laws::sum_at(product::updates_of(a, b, i), true),
                    opts.threshold,
                    top_n as nat,
                ) ==> laws::same_entries(c1.row(i), c2.row(i))
            },
{
    let opts1 = TopNOptions { chunk_cols: w1, ..opts };
    let opts2 = TopNOptions { chunk_cols: w2, ..opts };
    law_chunked_calls_agree(a, b, top_n, opts1, opts2, c1, c2);
    assert forall|i: int|
        #![trigger c1.row(i)]
        #![trigger c2.row(i)]
        0 <= i < a.nrows implies {
        &&& crate::csr::values(c1.row(i)).to_multiset() == crate::csr::values(
            c2.row(i),
        ).to_multiset()
        &&& laws::clear_cut(
            laws::row_columns(
                product::updates_of(a, b, i),
                b.ncols as int,
                topn::uses_dense(a, b, i, opts.accum_mode),
            ),
            laws::sum_at(product::updates_of(a, b, i), true),
            opts.threshold,
            top_n as nat,
        ) ==> laws::same_entries(c1.row(i), c2.row(i))
    } by {
        assert(rows_agree(a, b, top_n, opts1, c1, opts2, c2, i));
        laws::lemma_values_multiset(c1.row(i), c2.row(i));
    }
}

/// With room for every column no choice is left open.
proof fn lemma_room_for_all<V: Scalar, I: Index>(
    row: Seq<(I, V)>,
    a: CsrView<'_, V, I>,
    b: CsrView<'_, V, I>,
    i: int,
    top_n: usize,
    opts: TopNOptions<V>,
)
    requires
        product::multipliable(a, b),
        0 <= i < a.nrows,
        top_n >= b.ncols,
        is_choice(row, a, b, i, top_n, opts),
    ensures
        laws::clear_cut(
            laws::row_columns(
                product::updates_of(a, b, i),
                b.ncols as int,
                topn::uses_dense(a, b, i, opts.accum_mode),
            ),
            laws::sum_at(product::updates_of(a, b, i), true),
            opts.threshold,
            top_n as nat,
        ),
{
    let us = product::updates_of(a, b, i);
    let ncols = b.ncols as int;
    let dense = topn::uses_dense(a, b, i, opts.accum_mode);
    let all = laws::row_columns(us, ncols, dense);
    let val = laws::sum_at(us, true);
    let cols = choose|cols: Seq<int>| #[trigger]
        laws::is_top_n_row(row, cols, all, val, opts.threshold, top_n as nat, opts.sort);
    let kept = cols.to_set();
    let range = vstd::set_lib::set_int_range(0, ncols);
    vstd::set_lib::lemma_int_range(0, ncols);
    product::lemma_product_in_bounds(a, b, i);
    laws::lemma_row_columns_in_bounds(us, ncols, dense);
    assert(laws::is_clear_cut(kept, all, val, opts.threshold, top_n as nat)) by {
        assert forall|k: int, q: int|
            all.contains(k) && crate::maxheap::admits(opts.threshold, val(k))
                && !#[trigger] kept.contains(k) && #[trigger] kept.contains(q) implies val(
            k,
        ).spec_less(val(q)) by {
            assert(kept.insert(k).subset_of(range)) by {
                assert forall|x: int| kept.insert(k).contains(x) implies range.contains(x) by {
                    if x != k {
                        assert(kept.contains(x));
                    }
                    assert(all.contains(x));
                }
            }
            vstd::set_lib::lemma_len_subset(kept.insert(k), range);
        }
    }
}

/// The shortcut to the plain product leaves no trace: with room for every column
/// and no threshold, any two results in column order are the same, bit for bit,
/// where the rows are tame and the index type can hold every column. So the
/// thread count, like everything else about the organisation, is not observable.
pub proof fn law_shortcut_leaves_no_trace<V: Scalar, I: Index>(
    a: CsrView<'_, V, I>,
    b: CsrView<'_, V, I>,
    top_n: usize,
    opts1: TopNOptions<V>,
    opts2: TopNOptions<V>,
    c1: CsrMatrix<V, I>,
    c2: CsrMatrix<V, I>,
)
    requires
        product::multipliable(a, b),
        top_n >= b.ncols,
        top_n <= u32::MAX || b.ncols <= u32::MAX,
        b.ncols - 1 <= I::spec_max_usize(),
        opts1.chunk_cols != Some(0usize),
        opts2.chunk_cols != Some(0usize),
        opts1.threshold is None,
        opts2.threshold is None,
        opts1.sort == SortMode::ByColumn,
        opts2.sort == SortMode::ByColumn,
        opts1.accum_mode == opts2.accum_mode,
        forall|i: int| 0 <= i < a.nrows ==> #[trigger] is_tame(a, b, i, opts1.accum_mode),
        matmul_topn::is_topn_outcome(Ok(c1), a, b, top_n, opts1),
        matmul_topn::is_topn_outcome(Ok(c2), a, b, top_n, opts2),
    ensures
        c1.nrows == c2.nrows,
        c1.ncols == c2.ncols,
        c1.indptr@ == c2.indptr@,
        c1.indices@ == c2.indices@,
        c1.data@ == c2.data@,
{
    let rows1 = lemma_topn_rows(a, b, top_n, opts1, c1);
    let rows2 = lemma_topn_rows(a, b, top_n, opts2, c2);
    law_topn_calls_agree(a, b, top_n, opts1, opts2, c1, c2);
    assert forall|i: int| 0 <= i < a.nrows implies rows1[i] == rows2[i] by {
        assert(is_tame(a, b, i, opts1.accum_mode));
        assert(is_choice(rows1[i], a, b, i, top_n, opts1));
        lemma_room_for_all(rows1[i], a, b, i, top_n, opts1);
        assert(rows_agree(a, b, top_n, opts1, c1, opts2, c2, i));
        crate::csr::lemma_row_of_matrix(c1, b.ncols, rows1, i);
        crate::csr::lemma_row_of_matrix(c2, b.ncols, rows2, i);
    }
    assert(rows1 =~= rows2);
    laws::lemma_same_rows_same_arrays(c1, c2, b.ncols, rows1);
}

} // verus!
