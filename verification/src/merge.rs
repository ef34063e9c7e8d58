//! Why zipping works: the top n of the per-chunk top n's is the top n of the
//! whole.
//!
//! The columns of `B` can be spread over machines, each of which keeps only the
//! `top_n` largest entries of its part of a row. Zipping the parts then gives a
//! top-n choice of the products side by side; [`crate::split`] says what that is
//! where the parts are slices of one `B`. Zipping once more changes nothing.
use vstd::prelude::*;

use crate::chunked::AccumMode;
use crate::csr;
use crate::csr::{CsrMatrix, CsrView};
use crate::index::Index;
use crate::laws;
use crate::matmul;
use crate::matmul_topn::SortMode;
use crate::maxheap::admits;
use crate::permutation;
use crate::product;
use crate::scalar::Scalar;
use crate::selection;
use crate::topn;
use crate::zip;

verus! {

/// Is everything acceptable under `floor` also acceptable under `lower`?
pub open spec fn not_above<V: Scalar>(lower: Option<V>, floor: Option<V>) -> bool {
    forall|x: V| #[trigger] admits(floor, x) ==> admits(lower, x)
}

/// Everything that is in one of the sets.
pub open spec fn united(parts: Seq<Set<int>>) -> Set<int> {
    Set::new(|k: int| exists|j: int| 0 <= j < parts.len() && (#[trigger] parts[j]).contains(k))
}

/// A top-n choice among top-n choices is a top-n choice among everything, where
/// the choices were made above floors no higher than the final one.
pub proof fn law_choices_merge<V: Scalar>(
    kept: Set<int>,
    choices: Seq<Set<int>>,
    parts: Seq<Set<int>>,
    val: spec_fn(int) -> V,
    lower: Option<V>,
    floor: Option<V>,
    n: nat,
)
    requires
        choices.len() == parts.len(),
        not_above(lower, floor),
        forall|j: int|
            0 <= j < parts.len() ==> #[trigger] laws::is_top_n(
                choices[j],
                parts[j],
                val,
                lower,
                n,
            ),
        laws::is_top_n(kept, united(choices), val, floor, n),
    ensures
        laws::is_top_n(kept, united(parts), val, floor, n),
{
    assert forall|k: int| #[trigger] kept.contains(k) implies united(parts).contains(k)
        && admits(floor, val(k)) by {
        assert(united(choices).contains(k));
        let j = choose|j: int| 0 <= j < choices.len() && (#[trigger] choices[j]).contains(k);
        assert(laws::is_top_n(choices[j], parts[j], val, lower, n));
        assert(parts[j].contains(k));
    }
    assert forall|k: int|
        united(parts).contains(k) && admits(floor, val(k)) && !#[trigger] kept.contains(
            k,
        ) implies kept.len() == n by {
        lemma_left_out(kept, choices, parts, val, lower, floor, n, k);
    }
    assert forall|k: int, q: int|
        united(parts).contains(k) && admits(floor, val(k)) && !#[trigger] kept.contains(k)
            && #[trigger] kept.contains(q) implies !val(q).spec_less(val(k)) by {
        lemma_left_out(kept, choices, parts, val, lower, floor, n, k);
    }
}

proof fn lemma_left_out<V: Scalar>(
    kept: Set<int>,
    choices: Seq<Set<int>>,
    parts: Seq<Set<int>>,
    val: spec_fn(int) -> V,
    lower: Option<V>,
    floor: Option<V>,
    n: nat,
    k: int,
)
    requires
        choices.len() == parts.len(),
        not_above(lower, floor),
        forall|j: int|
            0 <= j < parts.len() ==> #[trigger] laws::is_top_n(
                choices[j],
                parts[j],
                val,
                lower,
                n,
            ),
        laws::is_top_n(kept, united(choices), val, floor, n),
        united(parts).contains(k),
        admits(floor, val(k)),
        !kept.contains(k),
    ensures
        kept.len() == n,
        forall|q: int| #[trigger] kept.contains(q) ==> !val(q).spec_less(val(k)),
{
    let j = choose|j: int| 0 <= j < parts.len() && (#[trigger] parts[j]).contains(k);
    let part = choices[j];
    assert(laws::is_top_n(part, parts[j], val, lower, n));
    if part.contains(k) {
        assert(united(choices).contains(k));
    } else {
        assert(admits(lower, val(k)));
        assert(part.len() == n);
        laws::lemma_admitted(floor, val(k));
        assert forall|m: int| #[trigger] part.contains(m) implies united(choices).contains(m)
            && admits(floor, val(m)) by {
            assert(!val(m).spec_less(val(k)));
            laws::lemma_admitted(lower, val(m));
            if !admits(floor, val(m)) {
                if let Some(t) = floor {
                    V::lemma_less_ordered(t, val(k));
                    V::lemma_not_less_transitive(t, val(m), val(k));
                }
            }
        }
        if part.subset_of(kept) {
            vstd::set_lib::lemma_len_subset(part, kept);
            vstd::set_lib::lemma_subset_equality(part, kept);
        } else {
            let m = choose|m: int| part.contains(m) && !kept.contains(m);
            assert(united(choices).contains(m));
            assert(kept.len() == n);
            assert forall|q: int| #[trigger] kept.contains(q) implies !val(q).spec_less(
                val(k),
            ) by {
                assert(!val(q).spec_less(val(m)));
                assert(!val(m).spec_less(val(k)));
                laws::lemma_admitted(floor, val(q));
                laws::lemma_admitted(floor, val(m));
                V::lemma_not_less_transitive(val(q), val(m), val(k));
            }
        }
    }
}

/// The columns of a chunk in the zipped matrix.
pub open spec fn moved(cols: Set<int>, offset: int) -> Set<int> {
    Set::new(|k: int| cols.contains(k - offset))
}

/// The candidates of the chunks `j..` offer each of their columns once.
proof fn lemma_zip_offers<V: Scalar, I: Index>(
    chunks: Seq<CsrView<'_, V, I>>,
    choices: Seq<Set<int>>,
    val: spec_fn(int) -> V,
    i: int,
    j: int,
)
    requires
        0 <= j <= chunks.len(),
        choices.len() == chunks.len(),
        forall|x: int|
            0 <= x < chunks.len() ==> (#[trigger] chunks[x]).valid() && 0 <= i < chunks[x].nrows,
        forall|x: int|
            0 <= x < chunks.len() ==> laws::offers(
                zip::shifted((#[trigger] chunks[x]).row(i), zip::column_offset(chunks, x)),
                choices[x],
                val,
            ),
    ensures
        laws::offers(zip::zip_candidates(chunks, i, j), united(choices.skip(j)), val),
        forall|k: int| #[trigger]
            united(choices.skip(j)).contains(k) ==> k >= zip::column_offset(chunks, j),
    decreases chunks.len() - j,
{
    let rest = choices.skip(j);
    if j < chunks.len() {
        lemma_zip_offers(chunks, choices, val, i, j + 1);
        let offset = zip::column_offset(chunks, j);
        let own = zip::shifted(chunks[j].row(i), offset);
        let later = united(choices.skip(j + 1));
        assert(laws::offers(own, choices[j], val));
        product::lemma_row_in_bounds(chunks[j], i);
        assert forall|k: int| #[trigger] choices[j].contains(k) implies offset <= k < offset
            + chunks[j].ncols by {
            let p = choose|p: int| 0 <= p < own.len() && (#[trigger] own[p]).0 == k;
            assert(0 <= chunks[j].row(i)[p].0 < chunks[j].ncols);
        }
        assert(zip::column_offset(chunks, j + 1) == offset + chunks[j].ncols);
        assert forall|k: int| !(#[trigger] later.contains(k) && choices[j].contains(k)) by {
            if choices[j].contains(k) && later.contains(k) {
                assert(k < offset + chunks[j].ncols);
            }
        }
        laws::lemma_offers_concat(
            zip::zip_candidates(chunks, i, j + 1),
            own,
            later,
            choices[j],
            val,
        );
        assert(united(rest) =~= later.union(choices[j])) by {
            assert forall|k: int| united(rest).contains(k) == later.union(choices[j]).contains(
                k,
            ) by {
                if united(rest).contains(k) {
                    let x = choose|x: int| 0 <= x < rest.len() && (#[trigger] rest[x]).contains(k);
                    if x > 0 {
                        assert(choices.skip(j + 1)[x - 1] == rest[x]);
                    } else {
                        assert(rest[0] == choices[j]);
                    }
                }
                if later.contains(k) {
                    let y = choose|y: int|
                        0 <= y < choices.skip(j + 1).len() && (#[trigger] choices.skip(
                            j + 1,
                        )[y]).contains(k);
                    assert(rest[y + 1] == choices.skip(j + 1)[y]);
                }
                if choices[j].contains(k) {
                    assert(rest[0].contains(k));
                }
            }
        }
        assert forall|k: int| #[trigger] united(rest).contains(k) implies k >= offset by {
            assert(later.union(choices[j]).contains(k));
            if choices[j].contains(k) {
            } else {
                assert(later.contains(k));
            }
        }
    } else {
        assert(united(rest) =~= Set::<int>::empty());
    }
}

/// The number of chunk `j` among the columns: which chunk column `k` is in.
pub open spec fn owner<V: Scalar, I: Index>(bs: Seq<CsrView<'_, V, I>>, k: int) -> int {
    choose|j: int|
        0 <= j < bs.len() && zip::column_offset(bs, j) <= k < #[trigger] zip::column_offset(bs, j)
            + bs[j].ncols
}

/// The sum in column `k` of the side-by-side products of row `i`.
pub open spec fn zipped_sum<V: Scalar, I: Index>(
    a: CsrView<'_, V, I>,
    bs: Seq<CsrView<'_, V, I>>,
    i: int,
) -> spec_fn(int) -> V {
    |k: int|
        {
            let j = owner(bs, k);
            product::accumulate(
                product::updates_of(a, bs[j], i),
                k - zip::column_offset(bs, j),
                true,
            )
        }
}

/// The columns that row `i` of the side-by-side products can hold, by chunk.
pub open spec fn zipped_columns<V: Scalar, I: Index>(
    a: CsrView<'_, V, I>,
    bs: Seq<CsrView<'_, V, I>>,
    accum: AccumMode,
    i: int,
) -> Seq<Set<int>> {
    Seq::new(
        bs.len(),
        |j: int|
            moved(
                laws::row_columns(
                    product::updates_of(a, bs[j], i),
                    bs[j].ncols as int,
                    topn::uses_dense(a, bs[j], i, accum),
                ),
                zip::column_offset(bs, j),
            ),
    )
}

/// Each column has one owner.
pub proof fn lemma_owner<V: Scalar, I: Index>(bs: Seq<CsrView<'_, V, I>>, k: int, j: int)
    requires
        0 <= j < bs.len(),
        zip::column_offset(bs, j) <= k < zip::column_offset(bs, j) + bs[j].ncols,
    ensures
        owner(bs, k) == j,
{
    let x = owner(bs, k);
    assert(0 <= x < bs.len() && zip::column_offset(bs, x) <= k < zip::column_offset(bs, x)
        + bs[x].ncols);
    if x < j {
        lemma_offsets_apart(bs, x, j);
    } else if j < x {
        lemma_offsets_apart(bs, j, x);
    }
}

proof fn lemma_offsets_apart<V: Scalar, I: Index>(bs: Seq<CsrView<'_, V, I>>, x: int, y: int)
    requires
        0 <= x < y <= bs.len(),
    ensures
        zip::column_offset(bs, x) + bs[x].ncols <= zip::column_offset(bs, y),
    decreases y,
{
    if x < y - 1 {
        lemma_offsets_apart(bs, x, y - 1);
    }
}

proof fn lemma_same_offsets<V: Scalar, I: Index>(
    chunks: Seq<CsrView<'_, V, I>>,
    bs: Seq<CsrView<'_, V, I>>,
    j: int,
)
    requires
        0 <= j <= bs.len(),
        chunks.len() == bs.len(),
        forall|x: int| 0 <= x < bs.len() ==> (#[trigger] chunks[x]).ncols == bs[x].ncols,
    ensures
        zip::column_offset(chunks, j) == zip::column_offset(bs, j),
    decreases j,
{
    if j > 0 {
        lemma_same_offsets(chunks, bs, j - 1);
        assert(chunks[j - 1].ncols == bs[j - 1].ncols);
    }
}

/// The columns that row `i` of each chunk holds, in the zipped matrix.
pub open spec fn held_columns<V: Scalar, I: Index>(
    chunks: Seq<CsrView<'_, V, I>>,
    i: int,
) -> Seq<Set<int>> {
    Seq::new(chunks.len(), |j: int| chunk_columns(chunks, i, j))
}

/// Does row `i` of chunk `j` hold a top-n choice of the product of `a` with the
/// columns `bs[j]`, given as `row`?
pub open spec fn is_part<V: Scalar, I: Index>(
    a: CsrView<'_, V, I>,
    bs: Seq<CsrView<'_, V, I>>,
    chunks: Seq<CsrView<'_, V, I>>,
    row: Seq<(I, V)>,
    top_n: nat,
    lower: Option<V>,
    sort: SortMode,
    accum: AccumMode,
    i: int,
    j: int,
) -> bool {
    &&& product::multipliable(a, bs[j])
    &&& bs[j].ncols - 1 <= I::spec_max_usize()
    &&& chunks[j].valid()
    &&& chunks[j].nrows == a.nrows
    &&& chunks[j].ncols == bs[j].ncols
    &&& chunks[j].row(i) == row.map_values(|e: (I, V)| (e.0.as_int(), e.1))
    &&& laws::chooses_top_n(
        row,
        product::updates_of(a, bs[j], i),
        bs[j].ncols as int,
        topn::uses_dense(a, bs[j], i, accum),
        lower,
        top_n,
        sort,
    )
}

/// The zipped row of top-n choices is a top-n choice among what they hold, the
/// largest first.
pub proof fn lemma_zip_of_choices<V: Scalar, I: Index>(
    a: CsrView<'_, V, I>,
    bs: Seq<CsrView<'_, V, I>>,
    chunks: Seq<CsrView<'_, V, I>>,
    rows: Seq<Seq<(I, V)>>,
    top_n: nat,
    lower: Option<V>,
    sort: SortMode,
    accum: AccumMode,
    i: int,
) -> (cols: Seq<int>)
    requires
        bs.len() > 0,
        chunks.len() == bs.len(),
        rows.len() == bs.len(),
        0 <= i < a.nrows,
        top_n <= u32::MAX || zip::zip_candidates(chunks, i, 0).len() <= u32::MAX
            || zip::column_offset(bs, bs.len() as int) <= u32::MAX,
        forall|j: int|
            0 <= j < bs.len() ==> is_part(
                a,
                bs,
                chunks,
                #[trigger] rows[j],
                top_n,
                lower,
                sort,
                accum,
                i,
                j,
            ),
    ensures
        laws::is_top_n_row(
            zip::zip_rows::<V, I>(chunks, top_n)[i],
            cols,
            united(held_columns(chunks, i)),
            zipped_sum(a, bs, i),
            Some(V::spec_limits_min()),
            top_n,
            SortMode::ByValueDesc,
        ),
        forall|j: int|
            0 <= j < bs.len() ==> laws::is_top_n(
                #[trigger] held_columns(chunks, i)[j],
                zipped_columns(a, bs, accum, i)[j],
                zipped_sum(a, bs, i),
                lower,
                top_n,
            ),
{
    let val = zipped_sum(a, bs, i);
    let floor = Some(V::spec_limits_min());
    let parts = zipped_columns(a, bs, accum, i);
    let choices = held_columns(chunks, i);
    assert forall|x: int| 0 <= x < bs.len() implies (#[trigger] bs[x]).ncols == chunks[x].ncols by {
        assert(is_part(a, bs, chunks, rows[x], top_n, lower, sort, accum, i, x));
    }
    assert forall|j: int| 0 <= j < bs.len() implies laws::offers(
        zip::shifted((#[trigger] chunks[j]).row(i), zip::column_offset(chunks, j)),
        choices[j],
        val,
    ) && laws::is_top_n(choices[j], parts[j], val, lower, top_n) by {
        assert(is_part(a, bs, chunks, rows[j], top_n, lower, sort, accum, i, j));
        lemma_chunk_choice(a, bs, chunks, rows[j], top_n, lower, sort, accum, i, j);
    }
    assert forall|x: int| 0 <= x < chunks.len() implies (#[trigger] chunks[x]).valid() && 0 <= i
        < chunks[x].nrows by {
        assert(is_part(a, bs, chunks, rows[x], top_n, lower, sort, accum, i, x));
    }
    lemma_zip_offers(chunks, choices, val, i, 0);
    assert(choices.skip(0) =~= choices);
    let cs = zip::zip_candidates(chunks, i, 0);
    lemma_few_candidates(chunks, i);
    lemma_same_offsets(chunks, bs, bs.len() as int);
    let (_, cols) = laws::law_selected_is_top_n::<V, I>(cs, united(choices), val, top_n, floor);
    assert(is_part(a, bs, chunks, rows[0], top_n, lower, sort, accum, i, 0));
    assert forall|j: int| 0 <= j < bs.len() implies laws::is_top_n(
        #[trigger] held_columns(chunks, i)[j],
        parts[j],
        val,
        lower,
        top_n,
    ) by {
        assert(chunks[j].valid());
    }
    cols
}

/// Merging distributed results: where chunk `j` holds in row `i` a top-n choice
/// of the product of `a` with the columns `bs[j]`, the zipped row is a top-n
/// choice among the columns of all the products side by side, the largest first.
pub proof fn law_zip_of_products<V: Scalar, I: Index>(
    a: CsrView<'_, V, I>,
    bs: Seq<CsrView<'_, V, I>>,
    chunks: Seq<CsrView<'_, V, I>>,
    rows: Seq<Seq<(I, V)>>,
    top_n: nat,
    lower: Option<V>,
    sort: SortMode,
    accum: AccumMode,
    i: int,
) -> (cols: Seq<int>)
    requires
        bs.len() > 0,
        chunks.len() == bs.len(),
        rows.len() == bs.len(),
        0 <= i < a.nrows,
        top_n <= u32::MAX || zip::zip_candidates(chunks, i, 0).len() <= u32::MAX
            || zip::column_offset(bs, bs.len() as int) <= u32::MAX,
        not_above(lower, Some(V::spec_limits_min())),
        forall|j: int|
            0 <= j < bs.len() ==> is_part(
                a,
                bs,
                chunks,
                #[trigger] rows[j],
                top_n,
                lower,
                sort,
                accum,
                i,
                j,
            ),
    ensures
        laws::is_top_n_row(
            zip::zip_rows::<V, I>(chunks, top_n)[i],
            cols,
            united(zipped_columns(a, bs, accum, i)),
            zipped_sum(a, bs, i),
            Some(V::spec_limits_min()),
            top_n,
            SortMode::ByValueDesc,
        ),
{
    let cols = lemma_zip_of_choices(a, bs, chunks, rows, top_n, lower, sort, accum, i);
    let choices = held_columns(chunks, i);
    let parts = zipped_columns(a, bs, accum, i);
    let val = zipped_sum(a, bs, i);
    assert forall|j: int| 0 <= j < parts.len() implies #[trigger] laws::is_top_n(
        choices[j],
        parts[j],
        val,
        lower,
        top_n,
    ) by {
        assert(laws::is_top_n(held_columns(chunks, i)[j], parts[j], val, lower, top_n));
    }
    law_choices_merge(
        cols.to_set(),
        choices,
        parts,
        val,
        lower,
        Some(V::spec_limits_min()),
        top_n,
    );
    cols
}

/// Side by side, a row has no more candidates than there are columns.
proof fn lemma_few_candidates<V: Scalar, I: Index>(chunks: Seq<CsrView<'_, V, I>>, i: int)
    requires
        forall|x: int|
            0 <= x < chunks.len() ==> (#[trigger] chunks[x]).valid() && 0 <= i < chunks[x].nrows,
        forall|p: int, q: int|
            0 <= p < q < zip::zip_candidates(chunks, i, 0).len() ==> (
            #[trigger] zip::zip_candidates(chunks, i, 0)[p]).0 != (#[trigger] zip::zip_candidates(
                chunks,
                i,
                0,
            )[q]).0,
    ensures
        zip::zip_candidates(chunks, i, 0).len() <= zip::column_offset(chunks, chunks.len() as int),
{
    let cs = zip::zip_candidates(chunks, i, 0);
    let total = zip::column_offset(chunks, chunks.len() as int);
    laws::lemma_zip_candidates_in_bounds(chunks, i, 0);
    let cols = cs.map_values(|e: (int, V)| e.0);
    assert(cols.no_duplicates()) by {
        assert forall|p: int, q: int| 0 <= p < cols.len() && 0 <= q < cols.len() && p != q implies cols[p]
            != cols[q] by {
            if p < q {
                assert(cs[p].0 != cs[q].0);
            } else {
                assert(cs[q].0 != cs[p].0);
            }
        }
    }
    cols.unique_seq_to_set();
    let range = vstd::set_lib::set_int_range(0, total);
    vstd::set_lib::lemma_int_range(0, total);
    assert(cols.to_set().subset_of(range)) by {
        assert forall|k: int| cols.to_set().contains(k) implies range.contains(k) by {
            let p = choose|p: int| 0 <= p < cols.len() && cols[p] == k;
            assert(0 <= cs[p].0 < total);
        }
    }
    vstd::set_lib::lemma_len_subset(cols.to_set(), range);
}

/// The columns that row `i` of chunk `j` holds, in the zipped matrix.
pub open spec fn chunk_columns<V: Scalar, I: Index>(
    chunks: Seq<CsrView<'_, V, I>>,
    i: int,
    j: int,
) -> Set<int> {
    zip::shifted(chunks[j].row(i), zip::column_offset(chunks, j)).map_values(
        |e: (int, V)| e.0,
    ).to_set()
}

/// A row of a chunk lists a top-n choice of the chunk's columns.
proof fn lemma_chunk_choice<V: Scalar, I: Index>(
    a: CsrView<'_, V, I>,
    bs: Seq<CsrView<'_, V, I>>,
    chunks: Seq<CsrView<'_, V, I>>,
    row: Seq<(I, V)>,
    top_n: nat,
    lower: Option<V>,
    sort: SortMode,
    accum: AccumMode,
    i: int,
    j: int,
)
    requires
        0 <= j < bs.len(),
        chunks.len() == bs.len(),
        0 <= i < a.nrows,
        forall|x: int| 0 <= x < bs.len() ==> (#[trigger] bs[x]).ncols == chunks[x].ncols,
        is_part(a, bs, chunks, row, top_n, lower, sort, accum, i, j),
    ensures
        laws::offers(
            zip::shifted(chunks[j].row(i), zip::column_offset(chunks, j)),
            chunk_columns(chunks, i, j),
            zipped_sum(a, bs, i),
        ),
        laws::is_top_n(
            chunk_columns(chunks, i, j),
            zipped_columns(a, bs, accum, i)[j],
            zipped_sum(a, bs, i),
            lower,
            top_n,
        ),
{
    let val = zipped_sum(a, bs, i);
    let us = product::updates_of(a, bs[j], i);
    let ncols = bs[j].ncols as int;
    let dense = topn::uses_dense(a, bs[j], i, accum);
    let all = laws::row_columns(us, ncols, dense);
    let part = zipped_columns(a, bs, accum, i)[j];
    let offset = zip::column_offset(bs, j);
    lemma_same_offsets(chunks, bs, j);
    let own = zip::shifted(chunks[j].row(i), offset);
    let own_cols = own.map_values(|e: (int, V)| e.0);
    let held = chunk_columns(chunks, i, j);
    let cols = choose|cols: Seq<int>| #[trigger]
        laws::is_top_n_row(row, cols, all, laws::sum_at(us, true), lower, top_n, sort);
    let kept = cols.to_set();
    product::lemma_product_in_bounds(a, bs[j], i);
    product::lemma_touched_in_bounds(us, ncols);
    assert forall|k: int| #[trigger] all.contains(k) implies 0 <= k < ncols by {
        if !dense {
            let t = product::touched(us);
            let q = choose|q: int| 0 <= q < t.len() && t[q] == k;
            assert(0 <= t[q] < ncols);
        }
    }
    I::lemma_index_laws();
    assert forall|q: int| 0 <= q < cols.len() implies #[trigger] own[q] == (
        cols[q] + offset,
        val(cols[q] + offset),
    ) by {
        assert(kept.contains(cols[q]));
        assert(all.contains(cols[q]));
        assert(row[q] == (I::narrowed(cols[q] as usize), laws::sum_at(us, true)(cols[q])));
        assert(I::narrowed(cols[q] as usize).as_int() == cols[q]);
        lemma_owner(bs, cols[q] + offset, j);
    }
    assert(own.len() == cols.len());
    assert forall|k: int| #[trigger] held.contains(k) == kept.contains(k - offset) by {
        if held.contains(k) {
            let q = choose|q: int| 0 <= q < own_cols.len() && own_cols[q] == k;
            assert(own[q].0 == cols[q] + offset);
            assert(cols.contains(k - offset));
        }
        if kept.contains(k - offset) {
            let q = choose|q: int| 0 <= q < cols.len() && cols[q] == k - offset;
            assert(own[q].0 == k);
            assert(own_cols[q] == k);
            assert(own_cols.contains(k));
        }
    }
    assert(own_cols.no_duplicates()) by {
        assert forall|x: int, y: int|
            0 <= x < own_cols.len() && 0 <= y < own_cols.len() && x != y implies own_cols[x]
            != own_cols[y] by {
            assert(own[x].0 == cols[x] + offset);
            assert(own[y].0 == cols[y] + offset);
        }
    }
    own_cols.unique_seq_to_set();
    cols.unique_seq_to_set();
    vstd::seq_lib::seq_to_set_is_finite(own_cols);
    assert forall|p: int| 0 <= p < own.len() implies held.contains((#[trigger] own[p]).0)
        && own[p].1 == val(own[p].0) by {
        assert(own_cols[p] == own[p].0);
        assert(own_cols.contains(own[p].0));
        assert(cols[p] + offset == own[p].0);
    }
    assert forall|p: int, q: int| 0 <= p < q < own.len() implies (#[trigger] own[p]).0 != (
    #[trigger] own[q]).0 by {
        assert(own_cols[p] != own_cols[q]);
    }
    assert forall|k: int| #[trigger] held.contains(k) implies exists|p: int|
        0 <= p < own.len() && (#[trigger] own[p]).0 == k by {
        let q = choose|q: int| 0 <= q < own_cols.len() && own_cols[q] == k;
        assert(own[q].0 == k);
    }
    assert forall|k: int| #[trigger] part.contains(k) implies all.contains(k - offset) && val(k)
        == laws::sum_at(us, true)(k - offset) by {
        lemma_owner(bs, k, j);
    }
    assert forall|k: int| #[trigger] held.contains(k) implies part.contains(k)
        && admits(lower, val(k)) by {
        assert(kept.contains(k - offset));
        assert(part.contains(k));
    }
    assert forall|k: int|
        part.contains(k) && admits(lower, val(k)) && !#[trigger] held.contains(k) implies held.len()
        == top_n by {
        assert(!kept.contains(k - offset));
    }
    assert forall|k: int, q: int|
        part.contains(k) && admits(lower, val(k)) && !#[trigger] held.contains(k)
            && #[trigger] held.contains(q) implies !val(q).spec_less(val(k)) by {
        assert(!kept.contains(k - offset));
        assert(kept.contains(q - offset));
        assert(part.contains(q));
    }
}

/// Is this a view of the arrays of `c`?
pub open spec fn is_view_of<V: Scalar, I: Index>(
    view: CsrView<'_, V, I>,
    c: CsrMatrix<V, I>,
) -> bool {
    &&& view.nrows == c.nrows
    &&& view.ncols == c.ncols
    &&& view.indptr@ == c.indptr@
    &&& view.indices@ == c.indices@
    &&& view.data@ == c.data@
}

/// Rows of the same values make matrices of the same values.
pub proof fn lemma_same_values<V, I>(rows1: Seq<Seq<(I, V)>>, rows2: Seq<Seq<(I, V)>>)
    requires
        rows1.len() == rows2.len(),
        forall|i: int|
            0 <= i < rows1.len() ==> csr::values(#[trigger] rows1[i]) == csr::values(rows2[i]),
    ensures
        csr::values(csr::flat(rows1)) == csr::values(csr::flat(rows2)),
    decreases rows1.len(),
{
    if rows1.len() > 0 {
        let f1 = rows1.drop_last();
        let f2 = rows2.drop_last();
        assert forall|i: int| 0 <= i < f1.len() implies csr::values(#[trigger] f1[i])
            == csr::values(f2[i]) by {
            assert(f1[i] == rows1[i] && f2[i] == rows2[i]);
        }
        lemma_same_values(f1, f2);
        let n = rows1.len() - 1;
        assert(csr::values(rows1[n]) == csr::values(rows2[n]));
        assert(csr::values(csr::flat(rows1)) =~= csr::values(csr::flat(f1)) + csr::values(
            rows1[n],
        ));
        assert(csr::values(csr::flat(rows2)) =~= csr::values(csr::flat(f2)) + csr::values(
            rows2[n],
        ));
    }
}

/// A descending row and a descending rearrangement of it tie value by value.
proof fn lemma_rearranged_ties<V: Scalar, I: Index>(
    row: Seq<(I, V)>,
    q: Seq<int>,
    floor: Option<V>,
)
    requires
        permutation::is_permutation(q, row.len()),
        laws::is_descending(row),
        laws::is_descending(permutation::permuted(row, q)),
        forall|p: int| 0 <= p < row.len() ==> admits(floor, (#[trigger] row[p]).1),
    ensures
        forall|p: int|
            0 <= p < row.len() ==> laws::ties(
                (#[trigger] row[p]).1,
                permutation::permuted(row, q)[p].1,
            ),
{
    let n = row.len();
    let turned = permutation::permuted(row, q);
    let val = |k: int| row[k].1;
    let all = vstd::set_lib::set_int_range(0, n as int);
    vstd::set_lib::lemma_int_range(0, n as int);
    // The same values, each labelled by its position in `row`.
    let p = permutation::identity(n);
    let here = Seq::new(n, |k: int| (I::narrowed(p[k] as usize), row[p[k]].1));
    let there = Seq::new(n, |k: int| (I::narrowed(q[k] as usize), row[q[k]].1));
    assert(p.to_set() =~= all) by {
        assert forall|k: int| all.contains(k) implies p.to_set().contains(k) by {
            assert(p[k] == k);
        }
    }
    assert(q.to_set() =~= all) by {
        assert forall|k: int| all.contains(k) implies q.to_set().contains(k) by {
            assert(q.contains(k));
        }
    }
    assert(laws::is_descending(here)) by {
        assert forall|x: int, y: int| 0 <= x < y < here.len() implies !(
        #[trigger] here[x]).1.spec_less((#[trigger] here[y]).1) by {
            assert(!row[x].1.spec_less(row[y].1));
        }
    }
    assert(laws::is_descending(there)) by {
        assert forall|x: int, y: int| 0 <= x < y < there.len() implies !(
        #[trigger] there[x]).1.spec_less((#[trigger] there[y]).1) by {
            assert(!turned[x].1.spec_less(turned[y].1));
        }
    }
    assert(laws::is_top_n(all, all, val, floor, n));
    laws::lemma_descending_rows_tie(here, p, there, q, all, val, floor, n);
    assert forall|k: int| 0 <= k < n implies laws::ties((#[trigger] row[k]).1, turned[k].1) by {
        assert(laws::ties(here[k].1, there[k].1));
    }
}

/// A zipped row: no more than `top_n` entries, each above the threshold.
proof fn lemma_zipped_row<V: Scalar, I: Index>(
    chunks: Seq<CsrView<'_, V, I>>,
    top_n: nat,
    i: int,
)
    requires
        top_n > 0,
        top_n <= u32::MAX || zip::zip_candidates(chunks, i, 0).len() <= u32::MAX,
        0 <= i < chunks[0].nrows,
    ensures
        ({
            let row = zip::zip_rows::<V, I>(chunks, top_n)[i];
            &&& row.len() <= top_n
            &&& row.len() <= zip::zip_candidates(chunks, i, 0).len()
            &&& laws::is_descending(row)
            &&& forall|p: int|
                0 <= p < row.len() ==> V::spec_limits_min().spec_less((#[trigger] row[p]).1)
        }),
{
    let cs = zip::zip_candidates(chunks, i, 0);
    let row = zip::zip_rows::<V, I>(chunks, top_n)[i];
    let floor = Some(V::spec_limits_min());
    laws::law_zip_is_top_n::<V, I>(chunks, top_n, i);
    let q = choose|q: Seq<int>| #[trigger]
        selection::lists(row, cs, q) && selection::is_top_n(q.to_set(), cs, floor, top_n);
    q.unique_seq_to_set();
    let range = vstd::set_lib::set_int_range(0, cs.len() as int);
    vstd::set_lib::lemma_int_range(0, cs.len() as int);
    assert(q.to_set().subset_of(range));
    vstd::set_lib::lemma_len_subset(q.to_set(), range);
    assert forall|p: int| 0 <= p < row.len() implies V::spec_limits_min().spec_less(
        (#[trigger] row[p]).1,
    ) by {
        assert(0 <= q[p] < cs.len());
        assert(q.to_set().contains(q[p]));
    }
}

/// Zipping a zipped row again only exchanges entries whose values tie.
proof fn lemma_zip_row_again<V: Scalar, I: Index>(
    chunks: Seq<CsrView<'_, V, I>>,
    top_n: nat,
    again: CsrView<'_, V, I>,
    i: int,
)
    requires
        chunks.len() > 0,
        again.valid(),
        0 <= i < chunks[0].nrows,
        again.nrows == chunks[0].nrows,
        top_n <= u32::MAX || zip::zip_candidates(chunks, i, 0).len() <= u32::MAX,
        again.row(i) == zip::zip_rows::<V, I>(chunks, top_n)[i].map_values(
            |e: (I, V)| (e.0.as_int(), e.1),
        ),
    ensures
        ({
            let row = zip::zip_rows::<V, I>(chunks, top_n)[i];
            let twice = zip::zip_rows::<V, I>(seq![again], top_n)[i];
            &&& laws::same_entries(row, twice)
            &&& csr::values(row) == csr::values(twice)
        }),
{
    let row = zip::zip_rows::<V, I>(chunks, top_n)[i];
    let twice = zip::zip_rows::<V, I>(seq![again], top_n)[i];
    if top_n == 0 {
        assert(row =~= twice);
    } else {
        lemma_zipped_row::<V, I>(chunks, top_n, i);
        let held = again.row(i);
        assert forall|p: int| 0 <= p < held.len() implies V::spec_limits_min().spec_less(
            (#[trigger] held[p]).1,
        ) by {
            assert(held[p] == (row[p].0.as_int(), row[p].1));
        }
        laws::law_zip_of_one_chunk::<V, I>(again, top_n, i);
        let q = choose|q: Seq<int>|
            #[trigger] permutation::is_permutation(q, held.len()) && twice == matmul::narrowed::<
                V,
                I,
            >(permutation::permuted(held, q));
        let turned = permutation::permuted(row, q);
        I::lemma_index_laws();
        product::lemma_row_in_bounds(again, i);
        assert forall|p: int| 0 <= p < row.len() implies twice[p] == #[trigger] turned[p] by {
            let e = row[q[p]];
            assert(0 <= q[p] < held.len());
            assert(held[q[p]] == (e.0.as_int(), e.1));
            assert(0 <= e.0.as_int() < again.ncols);
            assert(I::narrowed(e.0.as_int() as usize).as_int() == e.0.as_int());
        }
        assert(twice =~= turned);
        permutation::lemma_permuted_multiset(row, q);
        reveal_with_fuel(zip::zip_candidates, 3);
        assert(zip::zip_candidates(seq![again], i, 0) =~= held);
        lemma_zipped_row::<V, I>(seq![again], top_n, i);
        lemma_rearranged_ties(row, q, Some(V::spec_limits_min()));
        assert forall|p: int| 0 <= p < row.len() implies row[p].1 == twice[p].1 by {
            assert(laws::ties(row[p].1, turned[p].1));
            V::lemma_limit_ties(row[p].1, twice[p].1);
        }
        assert(csr::values(row) =~= csr::values(twice));
    }
}

/// Zipping is idempotent: zipping a zipped matrix again changes neither the
/// shape nor the row pointers nor the values, and every row keeps its entries.
/// Only columns whose values tie can change places.
pub proof fn law_zip_again<V: Scalar, I: Index>(
    chunks: Seq<CsrView<'_, V, I>>,
    top_n: nat,
    z: CsrMatrix<V, I>,
    view: CsrView<'_, V, I>,
    again: CsrMatrix<V, I>,
)
    requires
        chunks.len() > 0,
        zip::zippable(chunks),
        zip::column_offset(chunks, chunks.len() as int) - 1 <= I::spec_max_usize(),
        top_n <= u32::MAX || forall|i: int|
            0 <= i < chunks[0].nrows ==> (#[trigger] zip::zip_candidates(chunks, i, 0)).len()
                <= u32::MAX,
        z.holds(
            zip::column_offset(chunks, chunks.len() as int) as usize,
            zip::zip_rows(chunks, top_n),
        ),
        is_view_of(view, z),
        again.holds(
            zip::column_offset(seq![view], 1) as usize,
            zip::zip_rows(seq![view], top_n),
        ),
    ensures
        again.nrows == z.nrows,
        again.ncols == z.ncols,
        again.indptr@ == z.indptr@,
        again.data@ == z.data@,
        forall|i: int|
            #![trigger z.row(i)]
            #![trigger again.row(i)]
            0 <= i < z.nrows ==> laws::same_entries(z.row(i), again.row(i)),
{
    let total = zip::column_offset(chunks, chunks.len() as int) as usize;
    let rows = zip::zip_rows::<V, I>(chunks, top_n);
    let twice = zip::zip_rows::<V, I>(seq![view], top_n);
    zip::lemma_offsets_grow(chunks, 0, chunks.len() as int);
    laws::law_zip_rows_in_bounds::<V, I>(chunks, top_n);
    laws::law_result_is_valid(z, total, rows, view);
    reveal_with_fuel(zip::column_offset, 2);
    assert(zip::column_offset(seq![view], 1) == total);
    assert forall|i: int| 0 <= i < rows.len() implies laws::same_entries(
        #[trigger] rows[i],
        twice[i],
    ) && csr::values(rows[i]) == csr::values(twice[i]) by {
        assert(view.row(i) == rows[i].map_values(|e: (I, V)| (e.0.as_int(), e.1)));
        lemma_zip_row_again::<V, I>(chunks, top_n, view, i);
    }
    assert forall|i: int| 0 <= i < rows.len() implies (#[trigger] rows[i]).len()
        == twice[i].len() by {
        assert(csr::values(rows[i]).len() == csr::values(twice[i]).len());
    }
    laws::lemma_same_lengths_same_indptr(z, again, total, rows, twice);
    lemma_same_values(rows, twice);
    assert forall|i: int|
        #![trigger z.row(i)]
        #![trigger again.row(i)]
        0 <= i < z.nrows implies laws::same_entries(z.row(i), again.row(i)) by {
        csr::lemma_row_of_matrix(z, total, rows, i);
        csr::lemma_row_of_matrix(again, total, twice, i);
        assert(laws::same_entries(rows[i], twice[i]));
    }
}

} // verus!
