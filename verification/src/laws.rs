//! What holds of the top-n products as a whole, whatever the inputs.
//!
//! The executable functions are specified row by row in [`crate::topn`]. The
//! results here say what those rows are: a choice of the largest sums, the same
//! for every way of cutting, blocking, tiling and threading the work.
use vstd::prelude::*;

use crate::chunked;
use crate::chunked::AccumMode;
use crate::csr::{CsrMatrix, CsrView};
use crate::index::Index;
use crate::matmul;
use crate::matmul_topn::{SortMode, TopNOptions};
use crate::maxheap::{admits, HeapState};
use crate::permutation;
use crate::product;
use crate::product::Update;
use crate::scalar::Scalar;
use crate::selection;
use crate::sorting;
use crate::tiled;
use crate::topn;
use crate::zip;

verus! {

/// Do the candidates `cs` offer every column of `all` once, with its value?
pub open spec fn offers<V>(
    cs: Seq<(int, V)>,
    all: Set<int>,
    val: spec_fn(int) -> V,
) -> bool {
    &&& forall|p: int|
        0 <= p < cs.len() ==> all.contains((#[trigger] cs[p]).0) && cs[p].1 == val(cs[p].0)
    &&& forall|p: int, q: int|
        0 <= p < q < cs.len() ==> (#[trigger] cs[p]).0 != (#[trigger] cs[q]).0
    &&& forall|k: int| #[trigger]
        all.contains(k) ==> exists|p: int| 0 <= p < cs.len() && (#[trigger] cs[p]).0 == k
}

/// Is `kept` a choice of the `n` largest columns of `all` above `floor`?
/// Everything kept exceeds the floor, at most `n` are kept, and where an
/// eligible column is left out, `n` others are kept and none of them is smaller.
pub open spec fn is_top_n<V: Scalar>(
    kept: Set<int>,
    all: Set<int>,
    val: spec_fn(int) -> V,
    floor: Option<V>,
    n: nat,
) -> bool {
    &&& kept.finite()
    &&& kept.len() <= n
    &&& forall|k: int| #[trigger]
        kept.contains(k) ==> all.contains(k) && admits(floor, val(k))
    &&& forall|k: int|
        all.contains(k) && admits(floor, val(k)) && !#[trigger] kept.contains(k) ==> kept.len()
            == n
    &&& forall|k: int, q: int|
        all.contains(k) && admits(floor, val(k)) && !#[trigger] kept.contains(k)
            && #[trigger] kept.contains(q) ==> !val(q).spec_less(val(k))
}

/// Do the entries list the columns `cols`, one for one, with their values?
pub open spec fn lists<V: Scalar, I: Index>(
    entries: Seq<(I, V)>,
    cols: Seq<int>,
    val: spec_fn(int) -> V,
) -> bool {
    &&& entries.len() == cols.len()
    &&& cols.no_duplicates()
    &&& forall|q: int|
        0 <= q < cols.len() ==> #[trigger] entries[q] == (
            I::narrowed(cols[q] as usize),
            val(cols[q]),
        )
}

/// Does no value exceed one before it?
pub open spec fn is_descending<V: Scalar, I>(entries: Seq<(I, V)>) -> bool {
    forall|i: int, j: int|
        0 <= i < j < entries.len() ==> !(#[trigger] entries[i]).1.spec_less(
            (#[trigger] entries[j]).1,
        )
}

/// Do the columns ascend?
pub open spec fn is_by_column<V, I: Index>(entries: Seq<(I, V)>) -> bool {
    forall|p: int, q: int|
        0 <= p < q < entries.len() ==> (#[trigger] entries[p]).0.as_int() <= (
        #[trigger] entries[q]).0.as_int()
}

/// Do the columns ascend strictly?
pub open spec fn strictly_by_column<V, I: Index>(entries: Seq<(I, V)>) -> bool {
    forall|p: int, q: int|
        0 <= p < q < entries.len() ==> (#[trigger] entries[p]).0.as_int() < (
        #[trigger] entries[q]).0.as_int()
}

/// What is acceptable compares.
pub proof fn lemma_admitted<V: Scalar>(floor: Option<V>, val: V)
    ensures
        admits(floor, val) ==> val.ordered(),
{
    if let Some(t) = floor {
        V::lemma_less_ordered(t, val);
    }
}

/// Is the row a top-n choice among the columns of `all`, in the order asked for?
pub open spec fn is_top_n_row<V: Scalar, I: Index>(
    row: Seq<(I, V)>,
    cols: Seq<int>,
    all: Set<int>,
    val: spec_fn(int) -> V,
    floor: Option<V>,
    n: nat,
    sort: SortMode,
) -> bool {
    &&& lists(row, cols, val)
    &&& is_top_n(cols.to_set(), all, val, floor, n)
    &&& sort == SortMode::ByValueDesc ==> is_descending(row)
    &&& sort == SortMode::ByColumn ==> is_by_column(row)
}

/// Positions of candidates as columns.
proof fn lemma_columns_of_positions<V: Scalar, I: Index>(
    entries: Seq<(I, V)>,
    cs: Seq<(int, V)>,
    positions: Seq<int>,
    all: Set<int>,
    val: spec_fn(int) -> V,
    floor: Option<V>,
    n: nat,
) -> (cols: Seq<int>)
    requires
        offers(cs, all, val),
        selection::lists(entries, cs, positions),
        selection::is_top_n(positions.to_set(), cs, floor, n),
    ensures
        lists(entries, cols, val),
        is_top_n(cols.to_set(), all, val, floor, n),
        cols == positions.map_values(|p: int| cs[p].0),
{
    let cols = positions.map_values(|p: int| cs[p].0);
    let kept = cols.to_set();
    let at = positions.to_set();
    assert(cols.no_duplicates()) by {
        assert forall|a: int, b: int| 0 <= a < cols.len() && 0 <= b < cols.len() && a != b implies cols[a]
            != cols[b] by {
            assert(positions[a] != positions[b]);
            if positions[a] < positions[b] {
                assert(cs[positions[a]].0 != cs[positions[b]].0);
            } else {
                assert(cs[positions[b]].0 != cs[positions[a]].0);
            }
        }
    }
    cols.unique_seq_to_set();
    positions.unique_seq_to_set();
    vstd::seq_lib::seq_to_set_is_finite(cols);
    assert(kept.len() == at.len());
    assert forall|q: int| 0 <= q < cols.len() implies #[trigger] entries[q] == (
        I::narrowed(cols[q] as usize),
        val(cols[q]),
    ) by {
        assert(0 <= positions[q] < cs.len());
        assert(cs[positions[q]].1 == val(cs[positions[q]].0));
    }
    assert forall|k: int| #[trigger] kept.contains(k) implies all.contains(k) && admits(floor, val(k),
    ) by {
        let q = choose|q: int| 0 <= q < cols.len() && cols[q] == k;
        assert(at.contains(positions[q]));
        assert(cs[positions[q]].0 == k);
    }
    assert forall|k: int|
        all.contains(k) && admits(floor, val(k)) && !#[trigger] kept.contains(k) implies exists|p: int|
        0 <= p < cs.len() && (#[trigger] cs[p]).0 == k && !at.contains(p) by {
        let p = choose|p: int| 0 <= p < cs.len() && (#[trigger] cs[p]).0 == k;
        if at.contains(p) {
            let q = choose|q: int| 0 <= q < positions.len() && positions[q] == p;
            assert(cols[q] == k);
            assert(cols.contains(k));
        }
    }
    assert forall|k: int|
        all.contains(k) && admits(floor, val(k)) && !#[trigger] kept.contains(k) implies kept.len()
        == n by {
        let p = choose|p: int| 0 <= p < cs.len() && (#[trigger] cs[p]).0 == k && !at.contains(p);
        assert(admits(floor, cs[p].1));
    }
    assert forall|k: int, q: int|
        all.contains(k) && admits(floor, val(k)) && !#[trigger] kept.contains(k)
            && #[trigger] kept.contains(q) implies !val(q).spec_less(val(k)) by {
        let p = choose|p: int| 0 <= p < cs.len() && (#[trigger] cs[p]).0 == k && !at.contains(p);
        let x = choose|x: int| 0 <= x < cols.len() && cols[x] == q;
        assert(at.contains(positions[x]));
        assert(admits(floor, cs[p].1));
        assert(cs[positions[x]].1 == val(q));
    }
    cols
}

/// What is selected from candidates that offer every column of `all` once: a
/// top-n choice among those columns. Both sort modes choose the same columns;
/// one lists them in ascending order, the other puts the largest value first.
///
/// The heap counts its entries in a `u32`, so either `n` or the number of
/// candidates has to fit one.
pub proof fn law_selected_is_top_n<V: Scalar, I: Index>(
    cs: Seq<(int, V)>,
    all: Set<int>,
    val: spec_fn(int) -> V,
    n: nat,
    floor: Option<V>,
) -> (r: (Seq<int>, Seq<int>))
    requires
        offers(cs, all, val),
        n <= u32::MAX || cs.len() <= u32::MAX,
    ensures
        is_top_n_row(
            topn::selected::<V, I>(cs, n, floor, SortMode::ByColumn),
            r.0,
            all,
            val,
            floor,
            n,
            SortMode::ByColumn,
        ),
        is_top_n_row(
            topn::selected::<V, I>(cs, n, floor, SortMode::ByValueDesc),
            r.1,
            all,
            val,
            floor,
            n,
            SortMode::ByValueDesc,
        ),
        r.0.to_set() == r.1.to_set(),
{
    let by_col = topn::selected::<V, I>(cs, n, floor, SortMode::ByColumn);
    let by_val = topn::selected::<V, I>(cs, n, floor, SortMode::ByValueDesc);
    if n == 0 {
        let none = Seq::<int>::empty();
        assert(none.to_set() =~= Set::<int>::empty());
        assert(by_col =~= Seq::empty());
        assert(by_val =~= Seq::empty());
        (none, none)
    } else {
        selection::lemma_top_n::<V, I>(n, floor, cs);
        let in_order = HeapState::<V, I>::fresh(n, floor).offer_all(cs).by_insertion().entries();
        let (kept, p0, q) = choose|kept: Set<int>, p: Seq<int>, q: Seq<int>|
            {
                &&& #[trigger] selection::is_top_n(kept, cs, floor, n)
                &&& #[trigger] selection::lists(in_order, cs, p)
                &&& p.to_set() == kept
                &&& cs.len() <= u32::MAX ==> forall|i: int, j: int|
                    0 <= i < j < p.len() ==> p[i] < p[j]
                &&& #[trigger] selection::lists(by_val, cs, q)
                &&& q.to_set() == kept
                &&& forall|i: int, j: int|
                    0 <= i < j < by_val.len() ==> !(#[trigger] by_val[i]).1.spec_less(
                        (#[trigger] by_val[j]).1,
                    )
            };
        let order = sorting::order_of::<(I, V), sorting::ByColumn>();
        sorting::lemma_columns_are_weak(in_order);
        let perm = sorting::lemma_stable_sorted(in_order, order);
        let p = permutation::permuted(p0, perm);
        assert(selection::lists(by_col, cs, p)) by {
            assert forall|k: int| 0 <= k < p.len() implies 0 <= #[trigger] p[k] < cs.len()
                && by_col[k] == (I::narrowed(cs[p[k]].0 as usize), cs[p[k]].1) by {
                assert(by_col[k] == in_order[perm[k]]);
                assert(p[k] == p0[perm[k]]);
            }
            assert forall|x: int, y: int| 0 <= x < p.len() && 0 <= y < p.len() && x != y implies p[x]
                != p[y] by {
                assert(perm[x] != perm[y]);
            }
        }
        assert(p.to_set() =~= kept) by {
            assert forall|x: int| p.to_set().contains(x) == kept.contains(x) by {
                if p.contains(x) {
                    let k = choose|k: int| 0 <= k < p.len() && p[k] == x;
                    assert(p0[perm[k]] == x);
                    assert(p0.contains(x));
                    assert(p0.to_set().contains(x));
                }
                if kept.contains(x) {
                    assert(p0.to_set().contains(x));
                    assert(p0.contains(x));
                    let m = choose|m: int| 0 <= m < p0.len() && p0[m] == x;
                    assert(perm.contains(m));
                    let k = choose|k: int| 0 <= k < perm.len() && perm[k] == m;
                    assert(p[k] == x);
                    assert(p.contains(x));
                }
            }
        }
        assert(is_by_column(by_col)) by {
            assert forall|x: int, y: int| 0 <= x < y < by_col.len() implies (
            #[trigger] by_col[x]).0.as_int() <= (#[trigger] by_col[y]).0.as_int() by {
                assert(!order(by_col[y], by_col[x]));
            }
        }
        let c1 = lemma_columns_of_positions(by_col, cs, p, all, val, floor, n);
        let c2 = lemma_columns_of_positions(by_val, cs, q, all, val, floor, n);
        assert(c1.to_set() =~= c2.to_set()) by {
            assert forall|k: int| c1.to_set().contains(k) == c2.to_set().contains(k) by {
                if c1.contains(k) {
                    let x = choose|x: int| 0 <= x < c1.len() && c1[x] == k;
                    assert(p.to_set().contains(p[x]));
                    assert(q.contains(p[x]));
                    let y = choose|y: int| 0 <= y < q.len() && q[y] == p[x];
                    assert(c2[y] == k);
                }
                if c2.contains(k) {
                    let x = choose|x: int| 0 <= x < c2.len() && c2[x] == k;
                    assert(q.to_set().contains(q[x]));
                    assert(p.contains(q[x]));
                    let y = choose|y: int| 0 <= y < p.len() && p[y] == q[x];
                    assert(c1[y] == k);
                }
            }
        }
        (c1, c2)
    }
}

/// Two top-n choices among the same columns are of the same size, and where the
/// choice is clear-cut they are the same.
pub proof fn lemma_choices_agree<V: Scalar>(
    x: Set<int>,
    y: Set<int>,
    all: Set<int>,
    val: spec_fn(int) -> V,
    floor: Option<V>,
    n: nat,
)
    requires
        is_top_n(x, all, val, floor, n),
        is_top_n(y, all, val, floor, n),
    ensures
        x.len() == y.len(),
        clear_cut(all, val, floor, n) ==> x == y,
        no_ties(all, val, floor) ==> clear_cut(all, val, floor, n),
{
    lemma_choice_not_smaller(x, y, all, val, floor, n);
    lemma_choice_not_smaller(y, x, all, val, floor, n);
    if clear_cut(all, val, floor, n) {
        let kept = choose|kept: Set<int>| #[trigger] is_clear_cut(kept, all, val, floor, n);
        lemma_clear_cut(x, kept, all, val, floor, n);
        lemma_clear_cut(y, kept, all, val, floor, n);
    }
    if no_ties(all, val, floor) {
        assert(is_clear_cut(x, all, val, floor, n)) by {
            assert forall|k: int, q: int|
                all.contains(k) && admits(floor, val(k)) && !#[trigger] x.contains(k)
                    && #[trigger] x.contains(q) implies val(k).spec_less(val(q)) by {
                assert(all.contains(q));
            }
        }
    }
}

/// Does no eligible column tie with another: of two, one is always the smaller?
pub open spec fn no_ties<V: Scalar>(
    all: Set<int>,
    val: spec_fn(int) -> V,
    floor: Option<V>,
) -> bool {
    forall|k: int, q: int|
        #[trigger] all.contains(k) && #[trigger] all.contains(q) && k != q && admits(
            floor,
            val(k),
        ) && admits(floor, val(q)) ==> val(k).spec_less(val(q)) || val(q).spec_less(val(k))
}

/// Is `kept` a top-n choice without a tie at its boundary: what is left out is
/// smaller than everything kept?
pub open spec fn is_clear_cut<V: Scalar>(
    kept: Set<int>,
    all: Set<int>,
    val: spec_fn(int) -> V,
    floor: Option<V>,
    n: nat,
) -> bool {
    &&& is_top_n(kept, all, val, floor, n)
    &&& forall|k: int, q: int|
        all.contains(k) && admits(floor, val(k)) && !#[trigger] kept.contains(k)
            && #[trigger] kept.contains(q) ==> val(k).spec_less(val(q))
}

/// Is there no tie at the top-n boundary?
pub open spec fn clear_cut<V: Scalar>(
    all: Set<int>,
    val: spec_fn(int) -> V,
    floor: Option<V>,
    n: nat,
) -> bool {
    exists|kept: Set<int>| #[trigger] is_clear_cut(kept, all, val, floor, n)
}

/// A clear-cut choice is the only one.
proof fn lemma_clear_cut<V: Scalar>(
    x: Set<int>,
    kept: Set<int>,
    all: Set<int>,
    val: spec_fn(int) -> V,
    floor: Option<V>,
    n: nat,
)
    requires
        is_top_n(x, all, val, floor, n),
        is_clear_cut(kept, all, val, floor, n),
    ensures
        x == kept,
{
    lemma_choice_not_smaller(x, kept, all, val, floor, n);
    lemma_choice_not_smaller(kept, x, all, val, floor, n);
    if !x.subset_of(kept) {
        let k = choose|k: int| x.contains(k) && !kept.contains(k);
        assert(x.contains(k));
        if kept.subset_of(x) {
            vstd::set_lib::lemma_subset_equality(kept, x);
        }
        let q = choose|q: int| kept.contains(q) && !x.contains(q);
        assert(kept.contains(q));
        assert(val(k).spec_less(val(q)));
    }
    vstd::set_lib::lemma_subset_equality(x, kept);
}

proof fn lemma_choice_not_smaller<V: Scalar>(
    x: Set<int>,
    y: Set<int>,
    all: Set<int>,
    val: spec_fn(int) -> V,
    floor: Option<V>,
    n: nat,
)
    requires
        is_top_n(x, all, val, floor, n),
        is_top_n(y, all, val, floor, n),
    ensures
        x.len() <= y.len(),
{
    if x.subset_of(y) {
        vstd::set_lib::lemma_len_subset(x, y);
    } else {
        let k = choose|k: int| x.contains(k) && !y.contains(k);
        assert(x.contains(k));
        assert(y.len() == n);
    }
}

/// Two values neither of which is the smaller.
pub open spec fn ties<V: Scalar>(x: V, y: V) -> bool {
    !x.spec_less(y) && !y.spec_less(x)
}

/// Two descending top-n rows from the same columns agree value by value, up to
/// ties.
pub proof fn lemma_descending_rows_tie<V: Scalar, I: Index>(
    row1: Seq<(I, V)>,
    cols1: Seq<int>,
    row2: Seq<(I, V)>,
    cols2: Seq<int>,
    all: Set<int>,
    val: spec_fn(int) -> V,
    floor: Option<V>,
    n: nat,
)
    requires
        is_top_n_row(row1, cols1, all, val, floor, n, SortMode::ByValueDesc),
        is_top_n_row(row2, cols2, all, val, floor, n, SortMode::ByValueDesc),
    ensures
        row1.len() == row2.len(),
        forall|i: int|
            0 <= i < row1.len() ==> ties((#[trigger] row1[i]).1, (#[trigger] row2[i]).1),
{
    lemma_choices_agree(cols1.to_set(), cols2.to_set(), all, val, floor, n);
    cols1.unique_seq_to_set();
    cols2.unique_seq_to_set();
    assert forall|i: int| 0 <= i < row1.len() implies ties(
        (#[trigger] row1[i]).1,
        (#[trigger] row2[i]).1,
    ) by {
        lemma_rank_not_smaller(row1, cols1, row2, cols2, all, val, floor, n, i);
        lemma_rank_not_smaller(row2, cols2, row1, cols1, all, val, floor, n, i);
    }
}

/// The `i`-th largest value of one choice is not smaller than that of another.
proof fn lemma_rank_not_smaller<V: Scalar, I: Index>(
    row1: Seq<(I, V)>,
    cols1: Seq<int>,
    row2: Seq<(I, V)>,
    cols2: Seq<int>,
    all: Set<int>,
    val: spec_fn(int) -> V,
    floor: Option<V>,
    n: nat,
    i: int,
)
    requires
        is_top_n_row(row1, cols1, all, val, floor, n, SortMode::ByValueDesc),
        is_top_n_row(row2, cols2, all, val, floor, n, SortMode::ByValueDesc),
        row1.len() == row2.len(),
        0 <= i < row1.len(),
    ensures
        !row1[i].1.spec_less(row2[i].1),
{
    if row1[i].1.spec_less(row2[i].1) {
        let v1 = row1[i].1;
        let v2 = row2[i].1;
        V::lemma_less_ordered(v1, v2);
        // More columns of the second choice exceed `v1` than the first can hold
        // before position `i`.
        let better = cols2.take(i + 1);
        let before = cols1.take(i);
        assert(better.no_duplicates());
        assert(before.no_duplicates());
        better.unique_seq_to_set();
        before.unique_seq_to_set();
        vstd::seq_lib::seq_to_set_is_finite(better);
        vstd::seq_lib::seq_to_set_is_finite(before);
        if better.to_set().subset_of(before.to_set()) {
            vstd::set_lib::lemma_len_subset(better.to_set(), before.to_set());
        }
        let k = choose|k: int| better.to_set().contains(k) && !before.to_set().contains(k);
        assert(better.contains(k) && !before.contains(k));
        let x = choose|x: int| 0 <= x < better.len() && better[x] == k;
        assert(cols2[x] == k);
        assert(row2[x] == (I::narrowed(cols2[x] as usize), val(cols2[x])));
        assert(cols2.to_set().contains(k));
        lemma_admitted(floor, val(k));
        // `k` is at least as large as `v2`, so larger than `v1`.
        assert(v1.spec_less(val(k))) by {
            if !v1.spec_less(val(k)) {
                if x == i {
                    assert(false);
                }
                assert(!row2[x].1.spec_less(row2[i].1));
                V::lemma_not_less_transitive(v1, val(k), v2);
            }
        }
        assert(row1[i] == (I::narrowed(cols1[i] as usize), val(cols1[i])));
        if cols1.contains(k) {
            let y = choose|y: int| 0 <= y < cols1.len() && cols1[y] == k;
            assert(row1[y] == (I::narrowed(cols1[y] as usize), val(cols1[y])));
            if y < i {
                assert(before[y] == k);
            }
            assert(y >= i);
            if y > i {
                assert(!row1[i].1.spec_less(row1[y].1));
            } else {
                V::lemma_less_ordered(v1, v1);
            }
        } else {
            assert(!cols1.to_set().contains(k));
            assert(cols1.contains(cols1[i]));
            assert(cols1.to_set().contains(cols1[i]));
        }
    }
}

/// The sum of each column.
pub open spec fn sum_at<V: Scalar>(us: Seq<Update<V>>, fused: bool) -> spec_fn(int) -> V {
    |k: int| product::accumulate(us, k, fused)
}

/// The columns a row can hold: the touched ones, or with the dense accumulator
/// those whose sum is not zero.
pub open spec fn row_columns<V: Scalar>(us: Seq<Update<V>>, ncols: int, dense: bool) -> Set<int> {
    if dense {
        Set::new(
            |k: int|
                0 <= k < ncols && !product::accumulate(us, k, true).spec_equals(V::spec_zero()),
        )
    } else {
        Set::new(|k: int| product::touched(us).contains(k))
    }
}

/// Candidates of disjoint columns one after the other.
pub proof fn lemma_offers_concat<V>(
    first: Seq<(int, V)>,
    second: Seq<(int, V)>,
    x: Set<int>,
    y: Set<int>,
    val: spec_fn(int) -> V,
)
    requires
        offers(first, x, val),
        offers(second, y, val),
        forall|k: int| !(#[trigger] x.contains(k) && y.contains(k)),
    ensures
        offers(first + second, x.union(y), val),
{
    let cs = first + second;
    let all = x.union(y);
    let n = first.len();
    assert forall|p: int| 0 <= p < cs.len() implies all.contains((#[trigger] cs[p]).0) && cs[p].1
        == val(cs[p].0) by {
        if p < n {
            assert(cs[p] == first[p]);
        } else {
            assert(cs[p] == second[p - n]);
        }
    }
    assert forall|p: int, q: int| 0 <= p < q < cs.len() implies (#[trigger] cs[p]).0 != (
    #[trigger] cs[q]).0 by {
        if q < n {
            assert(cs[p] == first[p] && cs[q] == first[q]);
        } else if p >= n {
            assert(cs[p] == second[p - n] && cs[q] == second[q - n]);
        } else {
            assert(cs[p] == first[p] && cs[q] == second[q - n]);
            assert(x.contains(cs[p].0));
        }
    }
    assert forall|k: int| #[trigger] all.contains(k) implies exists|p: int|
        0 <= p < cs.len() && (#[trigger] cs[p]).0 == k by {
        if x.contains(k) {
            let p = choose|p: int| 0 <= p < first.len() && (#[trigger] first[p]).0 == k;
            assert(cs[p].0 == k);
        } else {
            let p = choose|p: int| 0 <= p < second.len() && (#[trigger] second[p]).0 == k;
            assert(cs[n + p].0 == k);
        }
    }
}

/// The touched sums offer every touched column once.
pub proof fn lemma_touched_sums_offer<V: Scalar>(us: Seq<Update<V>>, fused: bool)
    ensures
        offers(
            product::touched_sums(us, fused),
            Set::new(|k: int| product::touched(us).contains(k)),
            sum_at(us, fused),
        ),
{
    let t = product::touched(us);
    let cs = product::touched_sums(us, fused);
    let all = Set::new(|k: int| t.contains(k));
    product::lemma_touched(us);
    let n = t.len();
    assert forall|p: int| 0 <= p < cs.len() implies all.contains((#[trigger] cs[p]).0) && cs[p].1
        == sum_at(us, fused)(cs[p].0) by {
        assert(cs[p].0 == t[n - 1 - p]);
    }
    assert forall|p: int, q: int| 0 <= p < q < cs.len() implies (#[trigger] cs[p]).0 != (
    #[trigger] cs[q]).0 by {
        assert(cs[p].0 == t[n - 1 - p] && cs[q].0 == t[n - 1 - q]);
    }
    assert forall|k: int| #[trigger] all.contains(k) implies exists|p: int|
        0 <= p < cs.len() && (#[trigger] cs[p]).0 == k by {
        let q = choose|q: int| 0 <= q < t.len() && t[q] == k;
        assert(cs[n - 1 - q].0 == k);
    }
}

/// The columns of a range among those a row can hold.
spec fn columns_in<V: Scalar>(
    us: Seq<Update<V>>,
    ncols: int,
    dense: bool,
    lo: int,
    hi: int,
) -> Set<int> {
    row_columns(us, ncols, dense).intersect(Set::new(|k: int| lo <= k < hi))
}

/// A column of a range is touched if and only if an update of the range touches it.
pub proof fn lemma_touched_within<V>(us: Seq<Update<V>>, lo: int, hi: int, k: int)
    requires
        lo <= k < hi,
    ensures
        product::touched(product::within(us, lo, hi)).contains(k) == product::touched(
            us,
        ).contains(k),
{
    let ws = product::within(us, lo, hi);
    let inside = |u: Update<V>| lo <= u.col < hi;
    product::lemma_touched(us);
    product::lemma_touched(ws);
    if product::touched(us).contains(k) {
        let i = choose|i: int| 0 <= i < us.len() && (#[trigger] us[i]).col == k;
        us.lemma_filter_contains(inside, i);
        let j = choose|j: int| 0 <= j < ws.len() && ws[j] == us[i];
        assert(ws[j].col == k);
    }
    if product::touched(ws).contains(k) {
        let j = choose|j: int| 0 <= j < ws.len() && (#[trigger] ws[j]).col == k;
        us.lemma_filter_contains_rev(inside, ws[j]);
        let i = choose|i: int| 0 <= i < us.len() && us[i] == ws[j];
        assert(us[i].col == k);
    }
}

/// One chunk offers the columns of its range.
proof fn lemma_chunk_offers<V: Scalar>(
    us: Seq<Update<V>>,
    ncols: int,
    dense: bool,
    lo: int,
    hi: int,
)
    requires
        0 <= lo <= hi <= ncols,
    ensures
        offers(
            topn::chunk_candidates(us, lo, hi, dense),
            columns_in(us, ncols, dense, lo, hi),
            sum_at(us, true),
        ),
    decreases hi - lo,
{
    let all = columns_in(us, ncols, dense, lo, hi);
    let val = sum_at(us, true);
    if dense {
        if lo < hi {
            lemma_chunk_offers(us, ncols, dense, lo, hi - 1);
            let front = columns_in(us, ncols, dense, lo, hi - 1);
            let sum = product::accumulate(us, hi - 1, true);
            let before = topn::nonzero_sums(us, lo, hi - 1);
            if sum.spec_equals(V::spec_zero()) {
                assert(all =~= front);
            } else {
                let one = seq![(hi - 1, sum)];
                let only = set![hi - 1];
                assert(one[0].0 == hi - 1);
                assert(offers(one, only, val));
                lemma_offers_concat(before, one, front, only, val);
                assert(before + one =~= before.push((hi - 1, sum)));
                assert(all =~= front.union(only));
            }
        } else {
            assert(all =~= Set::empty());
        }
    } else {
        let ws = product::within(us, lo, hi);
        let cs = product::touched_sums(ws, true);
        lemma_touched_sums_offer(ws, true);
        let touched = Set::new(|k: int| product::touched(ws).contains(k));
        assert forall|k: int| product::touched(ws).contains(k) implies lo <= k < hi by {
            product::lemma_touched(ws);
            let i = choose|i: int| 0 <= i < ws.len() && (#[trigger] ws[i]).col == k;
            us.lemma_filter_pred(|u: Update<V>| lo <= u.col < hi, i);
        }
        assert(touched =~= all) by {
            assert forall|k: int| touched.contains(k) == all.contains(k) by {
                if lo <= k < hi {
                    lemma_touched_within(us, lo, hi, k);
                }
            }
        }
        assert forall|p: int| 0 <= p < cs.len() implies (#[trigger] cs[p]).1 == val(cs[p].0) by {
            assert(touched.contains(cs[p].0));
            product::lemma_accumulate_within(us, lo, hi, cs[p].0, true);
        }
    }
}

/// The first `m` chunks offer the columns up to where they end.
proof fn lemma_upto_offers<V: Scalar>(us: Seq<Update<V>>, ncols: int, cc: int, dense: bool, m: int)
    requires
        ncols >= 0,
        cc > 0,
        m >= 0,
    ensures
        offers(
            topn::candidates_upto(us, ncols, cc, dense, m),
            columns_in(us, ncols, dense, 0, topn::chunk_start(ncols, cc, m)),
            sum_at(us, true),
        ),
    decreases m,
{
    topn::lemma_chunk_start(ncols, cc, m);
    if m == 0 {
        assert(columns_in(us, ncols, dense, 0, 0) =~= Set::empty());
    } else {
        topn::lemma_chunk_start(ncols, cc, m - 1);
        lemma_upto_offers(us, ncols, cc, dense, m - 1);
        let lo = topn::chunk_start(ncols, cc, m - 1);
        let hi = topn::chunk_start(ncols, cc, m);
        lemma_chunk_offers(us, ncols, dense, lo, hi);
        let x = columns_in(us, ncols, dense, 0, lo);
        let y = columns_in(us, ncols, dense, lo, hi);
        lemma_offers_concat(
            topn::candidates_upto(us, ncols, cc, dense, m - 1),
            topn::chunk_candidates(us, lo, hi, dense),
            x,
            y,
            sum_at(us, true),
        );
        assert(x.union(y) =~= columns_in(us, ncols, dense, 0, hi));
    }
}

/// Whatever the chunk width, the kernel offers to the heap exactly the columns
/// that the row can hold, each once, with its sum.
pub proof fn law_candidates<V: Scalar>(us: Seq<Update<V>>, ncols: int, cc: int, dense: bool)
    requires
        product::in_bounds(us, ncols),
        ncols >= 0,
        cc > 0,
    ensures
        offers(
            topn::candidates(us, ncols, cc, dense),
            row_columns(us, ncols, dense),
            sum_at(us, true),
        ),
        topn::candidates(us, ncols, cc, dense).len() <= ncols,
{
    let n = tiled::chunk_count(ncols, cc);
    let cs = topn::candidates(us, ncols, cc, dense);
    if ncols > 0 {
        assert(0 <= (ncols - 1) / cc) by (nonlinear_arith)
            requires
                ncols >= 1,
                cc >= 1,
        ;
    }
    topn::lemma_chunk_start(ncols, cc, n);
    lemma_upto_offers(us, ncols, cc, dense, n);
    assert(topn::chunk_start(ncols, cc, n) == ncols);
    product::lemma_touched_in_bounds(us, ncols);
    assert(columns_in(us, ncols, dense, 0, ncols) =~= row_columns(us, ncols, dense)) by {
        assert forall|k: int| row_columns(us, ncols, dense).contains(k) implies 0 <= k < ncols by {
            if !dense {
                let t = product::touched(us);
                let q = choose|q: int| 0 <= q < t.len() && t[q] == k;
                assert(0 <= t[q] < ncols);
            }
        }
    }
    // Distinct columns in `0..ncols` are at most `ncols`.
    let cols = cs.map_values(|e: (int, V)| e.0);
    assert(cols.no_duplicates()) by {
        assert forall|p: int, q: int|
            0 <= p < cols.len() && 0 <= q < cols.len() && p != q implies cols[p] != cols[q] by {
            if p < q {
                assert(cs[p].0 != cs[q].0);
            } else {
                assert(cs[q].0 != cs[p].0);
            }
        }
    }
    cols.unique_seq_to_set();
    vstd::seq_lib::seq_to_set_is_finite(cols);
    let range = vstd::set_lib::set_int_range(0, ncols);
    vstd::set_lib::lemma_int_range(0, ncols);
    assert(cols.to_set().subset_of(range)) by {
        assert forall|k: int| cols.to_set().contains(k) implies range.contains(k) by {
            let p = choose|p: int| 0 <= p < cols.len() && cols[p] == k;
            assert(columns_in(us, ncols, dense, 0, ncols).contains(cs[p].0));
        }
    }
    vstd::set_lib::lemma_len_subset(cols.to_set(), range);
}

/// Is the row a top-n choice among the columns that the product row can hold?
pub open spec fn chooses_top_n<V: Scalar, I: Index>(
    row: Seq<(I, V)>,
    us: Seq<Update<V>>,
    ncols: int,
    dense: bool,
    floor: Option<V>,
    n: nat,
    sort: SortMode,
) -> bool {
    exists|cols: Seq<int>| #[trigger]
        is_top_n_row(
            row,
            cols,
            row_columns(us, ncols, dense),
            sum_at(us, true),
            floor,
            n,
            sort,
        )
}

/// The top-n law. Every row of the top-n product holds a choice of the `top_n`
/// largest sums above the threshold; at most `top_n` entries, each above the
/// threshold; with [`SortMode::ByValueDesc`] the largest first.
///
/// Entries are counted in a `u32`, so either `top_n` or the number of columns
/// has to fit one.
pub proof fn law_row_is_top_n<V: Scalar, I: Index>(
    a: CsrView<'_, V, I>,
    b: CsrView<'_, V, I>,
    top_n: nat,
    floor: Option<V>,
    sort: SortMode,
    accum: AccumMode,
    cc: int,
    i: int,
)
    requires
        product::multipliable(a, b),
        0 <= i < a.nrows,
        cc > 0,
        top_n <= u32::MAX || b.ncols <= u32::MAX,
    ensures
        ({
            let row = topn::topn_row(a, b, top_n, floor, sort, accum, cc, i);
            &&& chooses_top_n(
                row,
                product::updates_of(a, b, i),
                b.ncols as int,
                topn::uses_dense(a, b, i, accum),
                floor,
                top_n,
                sort,
            )
            &&& row.len() <= top_n
            &&& forall|p: int| 0 <= p < row.len() ==> admits(floor, (#[trigger] row[p]).1)
            &&& sort == SortMode::ByValueDesc ==> is_descending(row)
            &&& sort == SortMode::ByColumn ==> is_by_column(row)
            &&& sort == SortMode::ByColumn && b.ncols - 1 <= I::spec_max_usize()
                ==> strictly_by_column(row)
        }),
{
    let us = product::updates_of(a, b, i);
    let ncols = b.ncols as int;
    let dense = topn::uses_dense(a, b, i, accum);
    let row = topn::topn_row(a, b, top_n, floor, sort, accum, cc, i);
    product::lemma_product_in_bounds(a, b, i);
    law_candidates(us, ncols, cc, dense);
    let (c1, c2) = law_selected_is_top_n::<V, I>(
        topn::candidates(us, ncols, cc, dense),
        row_columns(us, ncols, dense),
        sum_at(us, true),
        top_n,
        floor,
    );
    let cols = if sort == SortMode::ByColumn {
        c1
    } else {
        c2
    };
    assert(is_top_n_row(
        row,
        cols,
        row_columns(us, ncols, dense),
        sum_at(us, true),
        floor,
        top_n,
        sort,
    ));
    cols.unique_seq_to_set();
    assert forall|p: int| 0 <= p < row.len() implies admits(floor, (#[trigger] row[p]).1) by {
        assert(cols.to_set().contains(cols[p]));
        assert(row[p] == (I::narrowed(cols[p] as usize), sum_at(us, true)(cols[p])));
    }
    if sort == SortMode::ByColumn && b.ncols - 1 <= I::spec_max_usize() {
        lemma_row_columns_in_bounds(us, ncols, dense);
        assert forall|p: int| 0 <= p < cols.len() implies 0 <= #[trigger] cols[p] < ncols by {
            assert(cols.to_set().contains(cols[p]));
        }
        lemma_strictly_by_column(row, cols, sum_at(us, true), ncols);
    }
}

/// The columns that a row can hold are columns of the product.
pub proof fn lemma_row_columns_in_bounds<V: Scalar>(
    us: Seq<Update<V>>,
    ncols: int,
    dense: bool,
)
    requires
        product::in_bounds(us, ncols),
        ncols >= 0,
    ensures
        forall|k: int| #[trigger] row_columns(us, ncols, dense).contains(k) ==> 0 <= k < ncols,
{
    product::lemma_touched_in_bounds(us, ncols);
    assert forall|k: int| #[trigger] row_columns(us, ncols, dense).contains(k) implies 0 <= k
        < ncols by {
        if !dense {
            let t = product::touched(us);
            let q = choose|q: int| 0 <= q < t.len() && t[q] == k;
            assert(0 <= t[q] < ncols);
        }
    }
}

/// Where the index type can hold every column, rows by column ascend strictly,
/// and so do the columns they list.
pub proof fn lemma_strictly_by_column<V: Scalar, I: Index>(
    row: Seq<(I, V)>,
    cols: Seq<int>,
    val: spec_fn(int) -> V,
    ncols: int,
)
    requires
        lists(row, cols, val),
        is_by_column(row),
        0 <= ncols <= usize::MAX,
        ncols - 1 <= I::spec_max_usize(),
        forall|p: int| 0 <= p < cols.len() ==> 0 <= #[trigger] cols[p] < ncols,
    ensures
        strictly_by_column(row),
        forall|p: int, q: int| 0 <= p < q < cols.len() ==> #[trigger] cols[p] < #[trigger] cols[q],
{
    I::lemma_index_laws();
    assert forall|p: int| 0 <= p < cols.len() implies (#[trigger] row[p]).0.as_int()
        == cols[p] by {
        assert(row[p] == (I::narrowed(cols[p] as usize), val(cols[p])));
        assert(I::narrowed(cols[p] as usize).as_int() == cols[p]);
    }
    assert forall|p: int, q: int| 0 <= p < q < cols.len() implies #[trigger] cols[p]
        < #[trigger] cols[q] by {
        assert(row[p].0.as_int() <= row[q].0.as_int());
    }
}

/// Do two rows hold the same entries, whatever their order?
pub open spec fn same_entries<V, I>(x: Seq<(I, V)>, y: Seq<(I, V)>) -> bool {
    x.to_multiset() == y.to_multiset()
}

/// Sequences of the same distinct elements are permutations of each other.
proof fn lemma_same_set_permutes(x: Seq<int>, y: Seq<int>) -> (p: Seq<int>)
    requires
        x.no_duplicates(),
        y.no_duplicates(),
        x.to_set() == y.to_set(),
    ensures
        permutation::is_permutation(p, x.len()),
        x.len() == y.len(),
        permutation::permuted(x, p) == y,
{
    x.unique_seq_to_set();
    y.unique_seq_to_set();
    let p = Seq::new(y.len(), |k: int| x.index_of(y[k]));
    assert forall|k: int| 0 <= k < y.len() implies 0 <= #[trigger] p[k] < x.len() && x[p[k]]
        == y[k] by {
        assert(y.to_set().contains(y[k]));
        assert(x.contains(y[k]));
    }
    assert forall|i: int| 0 <= i < x.len() implies #[trigger] p.contains(i) by {
        assert(x.to_set().contains(x[i]));
        assert(y.contains(x[i]));
        let k = choose|k: int| 0 <= k < y.len() && y[k] == x[i];
        assert(x[p[k]] == x[i]);
        assert(p[k] == i);
    }
    assert(p.no_duplicates()) by {
        assert forall|a: int, b: int| 0 <= a < p.len() && 0 <= b < p.len() && a != b implies p[a]
            != p[b] by {
            assert(x[p[a]] == y[a] && x[p[b]] == y[b]);
        }
    }
    assert(permutation::permuted(x, p) =~= y);
    p
}

/// Rows that list the same columns hold the same entries.
proof fn lemma_same_columns_same_entries<V: Scalar, I: Index>(
    row1: Seq<(I, V)>,
    cols1: Seq<int>,
    row2: Seq<(I, V)>,
    cols2: Seq<int>,
    val: spec_fn(int) -> V,
)
    requires
        lists(row1, cols1, val),
        lists(row2, cols2, val),
        cols1.to_set() == cols2.to_set(),
    ensures
        same_entries(row1, row2),
{
    let p = lemma_same_set_permutes(cols1, cols2);
    assert(row2 =~= permutation::permuted(row1, p)) by {
        assert forall|k: int| 0 <= k < row2.len() implies row2[k] == permutation::permuted(
            row1,
            p,
        )[k] by {
            assert(cols2[k] == cols1[p[k]]);
            assert(row1[p[k]] == (I::narrowed(cols1[p[k]] as usize), val(cols1[p[k]])));
            assert(row2[k] == (I::narrowed(cols2[k] as usize), val(cols2[k])));
        }
    }
    permutation::lemma_permuted_multiset(row1, p);
}

/// The two sort modes select the same entries of every row, only in a
/// different order.
pub proof fn law_sort_modes_agree<V: Scalar, I: Index>(
    a: CsrView<'_, V, I>,
    b: CsrView<'_, V, I>,
    top_n: nat,
    floor: Option<V>,
    accum: AccumMode,
    cc: int,
    i: int,
)
    requires
        product::multipliable(a, b),
        0 <= i < a.nrows,
        cc > 0,
        top_n <= u32::MAX || b.ncols <= u32::MAX,
    ensures
        same_entries(
            topn::topn_row(a, b, top_n, floor, SortMode::ByColumn, accum, cc, i),
            topn::topn_row(a, b, top_n, floor, SortMode::ByValueDesc, accum, cc, i),
        ),
{
    let us = product::updates_of(a, b, i);
    let ncols = b.ncols as int;
    let dense = topn::uses_dense(a, b, i, accum);
    product::lemma_product_in_bounds(a, b, i);
    law_candidates(us, ncols, cc, dense);
    let (c1, c2) = law_selected_is_top_n::<V, I>(
        topn::candidates(us, ncols, cc, dense),
        row_columns(us, ncols, dense),
        sum_at(us, true),
        top_n,
        floor,
    );
    lemma_same_columns_same_entries(
        topn::topn_row(a, b, top_n, floor, SortMode::ByColumn, accum, cc, i),
        c1,
        topn::topn_row(a, b, top_n, floor, SortMode::ByValueDesc, accum, cc, i),
        c2,
        sum_at(us, true),
    );
}

/// Do the values of two rows match up to ties: can both be arranged so that
/// they tie one by one?
pub open spec fn values_match<V: Scalar, I>(row1: Seq<(I, V)>, row2: Seq<(I, V)>) -> bool {
    &&& row1.len() == row2.len()
    &&& exists|p1: Seq<int>, p2: Seq<int>| #[trigger] arranged(row1, p1, row2, p2)
}

/// Do two rows tie one by one once arranged as `p1` and `p2` say?
pub open spec fn arranged<V: Scalar, I>(
    row1: Seq<(I, V)>,
    p1: Seq<int>,
    row2: Seq<(I, V)>,
    p2: Seq<int>,
) -> bool {
    &&& permutation::is_permutation(p1, row1.len())
    &&& permutation::is_permutation(p2, row2.len())
    &&& forall|k: int|
        0 <= k < row1.len() ==> ties(row1[#[trigger] p1[k]].1, row2[#[trigger] p2[k]].1)
}

/// Where values that tie are equal, matching rows hold the same values, with
/// their multiplicities.
pub proof fn lemma_values_multiset<V: Scalar, I>(row1: Seq<(I, V)>, row2: Seq<(I, V)>)
    requires
        values_match(row1, row2),
        crate::scalar::ties_are_equal::<V>(),
    ensures
        crate::csr::values(row1).to_multiset() == crate::csr::values(row2).to_multiset(),
{
    let (p1, p2) = choose|p1: Seq<int>, p2: Seq<int>| #[trigger] arranged(row1, p1, row2, p2);
    let v1 = crate::csr::values(row1);
    let v2 = crate::csr::values(row2);
    permutation::lemma_permuted_multiset(v1, p1);
    permutation::lemma_permuted_multiset(v2, p2);
    assert(permutation::permuted(v1, p1) =~= permutation::permuted(v2, p2)) by {
        assert forall|k: int| 0 <= k < v1.len() implies permutation::permuted(v1, p1)[k]
            == permutation::permuted(v2, p2)[k] by {
            assert(ties(row1[p1[k]].1, row2[p2[k]].1));
        }
    }
}

/// A top-n row arranged by descending value.
proof fn lemma_arranged_descending<V: Scalar, I: Index>(
    row: Seq<(I, V)>,
    cols: Seq<int>,
    all: Set<int>,
    val: spec_fn(int) -> V,
    floor: Option<V>,
    n: nat,
    sort: SortMode,
) -> (p: Seq<int>)
    requires
        is_top_n_row(row, cols, all, val, floor, n, sort),
    ensures
        permutation::is_permutation(p, row.len()),
        is_top_n_row(
            permutation::permuted(row, p),
            permutation::permuted(cols, p),
            all,
            val,
            floor,
            n,
            SortMode::ByValueDesc,
        ),
{
    let order = |x: (I, V), y: (I, V)| y.1.spec_less(x.1);
    assert forall|k: int| 0 <= k < row.len() implies (#[trigger] row[k]).1.ordered() by {
        assert(row[k] == (I::narrowed(cols[k] as usize), val(cols[k])));
        assert(cols.to_set().contains(cols[k]));
        lemma_admitted(floor, val(cols[k]));
    }
    assert(sorting::weakly_orders(order, row)) by {
        assert forall|i: int, j: int|
            0 <= i < row.len() && 0 <= j < row.len() && order(
                #[trigger] row[i],
                #[trigger] row[j],
            ) implies !order(row[j], row[i]) by {
            if row[i].1.spec_less(row[j].1) {
                V::lemma_less_transitive(row[i].1, row[j].1, row[i].1);
                V::lemma_less_ordered(row[i].1, row[i].1);
            }
        }
        assert forall|i: int, j: int, k: int|
            0 <= i < row.len() && 0 <= j < row.len() && 0 <= k < row.len() && !order(
                #[trigger] row[i],
                #[trigger] row[j],
            ) && !order(row[j], #[trigger] row[k]) implies !order(row[i], row[k]) by {
            V::lemma_not_less_transitive(row[k].1, row[j].1, row[i].1);
        }
    }
    let p = sorting::lemma_stable_sorted(row, order);
    let sorted = permutation::permuted(row, p);
    let scols = permutation::permuted(cols, p);
    assert(lists(sorted, scols, val)) by {
        assert forall|q: int| 0 <= q < scols.len() implies #[trigger] sorted[q] == (
            I::narrowed(scols[q] as usize),
            val(scols[q]),
        ) by {
            assert(row[p[q]] == (I::narrowed(cols[p[q]] as usize), val(cols[p[q]])));
        }
        assert forall|a: int, b: int|
            0 <= a < scols.len() && 0 <= b < scols.len() && a != b implies scols[a] != scols[b] by {
            assert(p[a] != p[b]);
        }
    }
    assert(scols.to_set() =~= cols.to_set()) by {
        assert forall|k: int| scols.to_set().contains(k) == cols.to_set().contains(k) by {
            if scols.contains(k) {
                let q = choose|q: int| 0 <= q < scols.len() && scols[q] == k;
                assert(cols[p[q]] == k);
            }
            if cols.contains(k) {
                let m = choose|m: int| 0 <= m < cols.len() && cols[m] == k;
                assert(p.contains(m));
                let q = choose|q: int| 0 <= q < p.len() && p[q] == m;
                assert(scols[q] == k);
            }
        }
    }
    assert(is_descending(sorted)) by {
        assert forall|i: int, j: int| 0 <= i < j < sorted.len() implies !(
        #[trigger] sorted[i]).1.spec_less((#[trigger] sorted[j]).1) by {
            assert(!order(sorted[j], sorted[i]));
        }
    }
    p
}

/// Strictly ascending sequences of the same elements are the same.
proof fn lemma_ascending_unique(x: Seq<int>, y: Seq<int>)
    requires
        x.to_set() == y.to_set(),
        forall|p: int, q: int| 0 <= p < q < x.len() ==> #[trigger] x[p] < #[trigger] x[q],
        forall|p: int, q: int| 0 <= p < q < y.len() ==> #[trigger] y[p] < #[trigger] y[q],
    ensures
        x == y,
    decreases x.len(),
{
    if x.len() == 0 {
        if y.len() > 0 {
            assert(y.to_set().contains(y[0]));
            assert(x.contains(y[0]));
        }
        assert(x =~= y);
    } else {
        assert(x.to_set().contains(x.last()));
        assert(y.contains(x.last()));
        assert(y.to_set().contains(y.last()));
        assert(x.contains(y.last()));
        let i = choose|i: int| 0 <= i < y.len() && y[i] == x.last();
        let j = choose|j: int| 0 <= j < x.len() && x[j] == y.last();
        assert(x.last() == y.last()) by {
            if i < y.len() - 1 {
                assert(y[i] < y[y.len() - 1]);
                if j < x.len() - 1 {
                    assert(x[j] < x[x.len() - 1]);
                }
            }
        }
        let fx = x.drop_last();
        let fy = y.drop_last();
        assert(fx.to_set() =~= fy.to_set()) by {
            assert forall|k: int| fx.to_set().contains(k) == fy.to_set().contains(k) by {
                if fx.contains(k) {
                    let p = choose|p: int| 0 <= p < fx.len() && fx[p] == k;
                    assert(x[p] < x[x.len() - 1]);
                    assert(x.to_set().contains(x[p]));
                    assert(y.contains(k));
                    let q = choose|q: int| 0 <= q < y.len() && y[q] == k;
                    assert(fy[q] == k);
                }
                if fy.contains(k) {
                    let p = choose|p: int| 0 <= p < fy.len() && fy[p] == k;
                    assert(y[p] < y[y.len() - 1]);
                    assert(y.to_set().contains(y[p]));
                    assert(x.contains(k));
                    let q = choose|q: int| 0 <= q < x.len() && x[q] == k;
                    assert(fx[q] == k);
                }
            }
        }
        lemma_ascending_unique(fx, fy);
        assert(x =~= fx.push(x.last()));
        assert(y =~= fy.push(y.last()));
    }
}

/// Do two rows agree as far as top-n choices can? They have equally many entries
/// and their values match up to ties; where no tie stands at the top-n boundary
/// they hold the same entries; and in the same order they are then the same row,
/// if the index type can hold every column or, for rows by value, no two values
/// tie.
pub open spec fn agree<V: Scalar, I: Index>(
    row1: Seq<(I, V)>,
    sort1: SortMode,
    row2: Seq<(I, V)>,
    sort2: SortMode,
    us: Seq<Update<V>>,
    ncols: int,
    dense: bool,
    floor: Option<V>,
    n: nat,
) -> bool {
    let all = row_columns(us, ncols, dense);
    let val = sum_at(us, true);
    &&& row1.len() == row2.len()
    &&& values_match(row1, row2)
    &&& sort1 == SortMode::ByValueDesc && sort2 == SortMode::ByValueDesc ==> forall|p: int|
        0 <= p < row1.len() ==> ties((#[trigger] row1[p]).1, (#[trigger] row2[p]).1)
    &&& clear_cut(all, val, floor, n) ==> {
        &&& same_entries(row1, row2)
        &&& sort1 == SortMode::ByColumn && sort2 == SortMode::ByColumn && ncols - 1
            <= I::spec_max_usize() ==> row1 == row2
    }
    &&& no_ties(all, val, floor) ==> {
        &&& same_entries(row1, row2)
        &&& sort1 == SortMode::ByValueDesc && sort2 == SortMode::ByValueDesc ==> row1 == row2
    }
}

/// Any two top-n choices from the same columns agree.
pub proof fn lemma_choices_compare<V: Scalar, I: Index>(
    row1: Seq<(I, V)>,
    sort1: SortMode,
    row2: Seq<(I, V)>,
    sort2: SortMode,
    us: Seq<Update<V>>,
    ncols: int,
    dense1: bool,
    dense2: bool,
    floor: Option<V>,
    n: nat,
)
    requires
        product::in_bounds(us, ncols),
        0 <= ncols <= usize::MAX,
        chooses_top_n(row1, us, ncols, dense1, floor, n, sort1),
        chooses_top_n(row2, us, ncols, dense2, floor, n, sort2),
        row_columns(us, ncols, dense1) == row_columns(us, ncols, dense2),
    ensures
        agree(row1, sort1, row2, sort2, us, ncols, dense1, floor, n),
{
    let all = row_columns(us, ncols, dense1);
    let val = sum_at(us, true);
    let c1 = choose|cols: Seq<int>| #[trigger]
        is_top_n_row(row1, cols, all, val, floor, n, sort1);
    let c2 = choose|cols: Seq<int>| #[trigger]
        is_top_n_row(row2, cols, all, val, floor, n, sort2);
    lemma_choices_agree(c1.to_set(), c2.to_set(), all, val, floor, n);
    c1.unique_seq_to_set();
    c2.unique_seq_to_set();
    let p1 = lemma_arranged_descending(row1, c1, all, val, floor, n, sort1);
    let p2 = lemma_arranged_descending(row2, c2, all, val, floor, n, sort2);
    let d1 = permutation::permuted(row1, p1);
    let d2 = permutation::permuted(row2, p2);
    lemma_descending_rows_tie(
        d1,
        permutation::permuted(c1, p1),
        d2,
        permutation::permuted(c2, p2),
        all,
        val,
        floor,
        n,
    );
    assert(arranged(row1, p1, row2, p2)) by {
        assert forall|k: int| 0 <= k < row1.len() implies ties(
            row1[#[trigger] p1[k]].1,
            row2[#[trigger] p2[k]].1,
        ) by {
            assert(ties(d1[k].1, d2[k].1));
        }
    }
    if sort1 == SortMode::ByValueDesc && sort2 == SortMode::ByValueDesc {
        lemma_descending_rows_tie(row1, c1, row2, c2, all, val, floor, n);
    }
    if clear_cut(all, val, floor, n) {
        lemma_same_columns_same_entries(row1, c1, row2, c2, val);
        if sort1 == SortMode::ByColumn && sort2 == SortMode::ByColumn && ncols - 1
            <= I::spec_max_usize() {
            lemma_row_columns_in_bounds(us, ncols, dense1);
            assert forall|p: int| 0 <= p < c1.len() implies 0 <= #[trigger] c1[p] < ncols by {
                assert(c1.to_set().contains(c1[p]));
            }
            assert forall|p: int| 0 <= p < c2.len() implies 0 <= #[trigger] c2[p] < ncols by {
                assert(c2.to_set().contains(c2[p]));
            }
            lemma_strictly_by_column(row1, c1, val, ncols);
            lemma_strictly_by_column(row2, c2, val, ncols);
            lemma_ascending_unique(c1, c2);
            assert(row1 =~= row2);
        }
    }
    if no_ties(all, val, floor) && sort1 == SortMode::ByValueDesc && sort2
        == SortMode::ByValueDesc {
        assert forall|p: int| 0 <= p < row1.len() implies row1[p] == row2[p] by {
            assert(ties(row1[p].1, row2[p].1));
            assert(row1[p] == (I::narrowed(c1[p] as usize), val(c1[p])));
            assert(row2[p] == (I::narrowed(c2[p] as usize), val(c2[p])));
            assert(c1.to_set().contains(c1[p]));
            assert(c2.to_set().contains(c2[p]));
            assert(all.contains(c1[p]) && all.contains(c2[p]));
        }
        assert(row1 =~= row2);
    }
}

/// Chunk invariance: any two chunk widths give rows that agree. Only sums that
/// tie at the top-n boundary can be resolved differently.
pub proof fn law_chunk_width_invariance<V: Scalar, I: Index>(
    a: CsrView<'_, V, I>,
    b: CsrView<'_, V, I>,
    top_n: nat,
    floor: Option<V>,
    sort: SortMode,
    accum: AccumMode,
    cc1: int,
    cc2: int,
    i: int,
)
    requires
        product::multipliable(a, b),
        0 <= i < a.nrows,
        cc1 > 0,
        cc2 > 0,
        top_n <= u32::MAX || b.ncols <= u32::MAX,
    ensures
        agree(
            topn::topn_row(a, b, top_n, floor, sort, accum, cc1, i),
            sort,
            topn::topn_row(a, b, top_n, floor, sort, accum, cc2, i),
            sort,
            product::updates_of(a, b, i),
            b.ncols as int,
            topn::uses_dense(a, b, i, accum),
            floor,
            top_n,
        ),
{
    product::lemma_product_in_bounds(a, b, i);
    law_row_is_top_n(a, b, top_n, floor, sort, accum, cc1, i);
    law_row_is_top_n(a, b, top_n, floor, sort, accum, cc2, i);
    lemma_choices_compare(
        topn::topn_row(a, b, top_n, floor, sort, accum, cc1, i),
        sort,
        topn::topn_row(a, b, top_n, floor, sort, accum, cc2, i),
        sort,
        product::updates_of(a, b, i),
        b.ncols as int,
        topn::uses_dense(a, b, i, accum),
        topn::uses_dense(a, b, i, accum),
        floor,
        top_n,
    );
}

/// The accumulator modes give rows that agree, at any chunk widths, where no
/// touched column of the row sums to zero.
pub proof fn law_accumulators_agree<V: Scalar, I: Index>(
    a: CsrView<'_, V, I>,
    b: CsrView<'_, V, I>,
    top_n: nat,
    floor: Option<V>,
    sort: SortMode,
    accum1: AccumMode,
    accum2: AccumMode,
    cc1: int,
    cc2: int,
    i: int,
)
    requires
        product::multipliable(a, b),
        0 <= i < a.nrows,
        cc1 > 0,
        cc2 > 0,
        top_n <= u32::MAX || b.ncols <= u32::MAX,
        forall|k: int| #[trigger]
            product::touched(product::updates_of(a, b, i)).contains(k) ==> !product::accumulate(
                product::updates_of(a, b, i),
                k,
                true,
            ).spec_equals(V::spec_zero()),
    ensures
        agree(
            topn::topn_row(a, b, top_n, floor, sort, accum1, cc1, i),
            sort,
            topn::topn_row(a, b, top_n, floor, sort, accum2, cc2, i),
            sort,
            product::updates_of(a, b, i),
            b.ncols as int,
            topn::uses_dense(a, b, i, accum1),
            floor,
            top_n,
        ),
{
    let us = product::updates_of(a, b, i);
    let ncols = b.ncols as int;
    product::lemma_product_in_bounds(a, b, i);
    lemma_dense_loses_nothing(us, ncols);
    law_row_is_top_n(a, b, top_n, floor, sort, accum1, cc1, i);
    law_row_is_top_n(a, b, top_n, floor, sort, accum2, cc2, i);
    lemma_choices_compare(
        topn::topn_row(a, b, top_n, floor, sort, accum1, cc1, i),
        sort,
        topn::topn_row(a, b, top_n, floor, sort, accum2, cc2, i),
        sort,
        us,
        ncols,
        topn::uses_dense(a, b, i, accum1),
        topn::uses_dense(a, b, i, accum2),
        floor,
        top_n,
    );
}

/// Where no touched column sums to zero, both accumulators offer the same
/// columns.
pub proof fn lemma_dense_loses_nothing<V: Scalar>(us: Seq<Update<V>>, ncols: int)
    requires
        product::in_bounds(us, ncols),
        ncols >= 0,
        forall|k: int| #[trigger]
            product::touched(us).contains(k) ==> !product::accumulate(us, k, true).spec_equals(
                V::spec_zero(),
            ),
    ensures
        row_columns(us, ncols, true) == row_columns(us, ncols, false),
{
    product::lemma_touched_in_bounds(us, ncols);
    V::lemma_constants();
    assert(row_columns(us, ncols, true) =~= row_columns(us, ncols, false)) by {
        assert forall|k: int|
            row_columns(us, ncols, true).contains(k) == row_columns(us, ncols, false).contains(
                k,
            ) by {
            let t = product::touched(us);
            if t.contains(k) {
                let q = choose|q: int| 0 <= q < t.len() && t[q] == k;
                assert(0 <= t[q] < ncols);
            } else {
                product::lemma_untouched_is_zero(us, k, true);
            }
        }
    }
}

/// The dense accumulator never yields an entry that equals zero: an exact-zero
/// sum counts as untouched.
pub proof fn law_dense_drops_zero_sums<V: Scalar, I: Index>(
    a: CsrView<'_, V, I>,
    b: CsrView<'_, V, I>,
    top_n: nat,
    floor: Option<V>,
    sort: SortMode,
    accum: AccumMode,
    cc: int,
    i: int,
)
    requires
        product::multipliable(a, b),
        0 <= i < a.nrows,
        cc > 0,
        top_n <= u32::MAX || b.ncols <= u32::MAX,
        topn::uses_dense(a, b, i, accum),
    ensures
        ({
            let row = topn::topn_row(a, b, top_n, floor, sort, accum, cc, i);
            forall|p: int|
                0 <= p < row.len() ==> !(#[trigger] row[p]).1.spec_equals(V::spec_zero())
        }),
{
    law_row_is_top_n(a, b, top_n, floor, sort, accum, cc, i);
    let us = product::updates_of(a, b, i);
    let ncols = b.ncols as int;
    let row = topn::topn_row(a, b, top_n, floor, sort, accum, cc, i);
    let all = row_columns(us, ncols, true);
    let cols = choose|cols: Seq<int>| #[trigger]
        is_top_n_row(row, cols, all, sum_at(us, true), floor, top_n, sort);
    assert forall|p: int| 0 <= p < row.len() implies !(#[trigger] row[p]).1.spec_equals(
        V::spec_zero(),
    ) by {
        assert(row[p] == (I::narrowed(cols[p] as usize), sum_at(us, true)(cols[p])));
        assert(cols.to_set().contains(cols[p]));
        assert(all.contains(cols[p]));
    }
}

/// Integers never use the dense accumulator, so a genuine zero sum is offered
/// like any other.
pub proof fn law_integers_keep_zero_sums<I: Index>(
    a32: CsrView<'_, i32, I>,
    b32: CsrView<'_, i32, I>,
    a64: CsrView<'_, i64, I>,
    b64: CsrView<'_, i64, I>,
    i: int,
    accum: AccumMode,
)
    ensures
        !topn::uses_dense(a32, b32, i, accum),
        !topn::uses_dense(a64, b64, i, accum),
{
    crate::scalar::lemma_integers();
}

/// Without fusing, both ways of accumulating give the same sums.
pub proof fn lemma_unfused_sums<V: Scalar>(us: Seq<Update<V>>, k: int)
    requires
        crate::scalar::is_unfused::<V>(),
    ensures
        product::accumulate(us, k, true) == product::accumulate(us, k, false),
    decreases us.len(),
{
    if us.len() > 0 {
        lemma_unfused_sums(us.drop_last(), k);
    }
}

/// With room for every column, no threshold to miss and the linked-list
/// accumulator, a top-n row holds the same entries as the row of the plain
/// product. This is for element types whose multiply-add does not fuse, and sums
/// that compare.
pub proof fn law_full_top_n_is_product<V: Scalar, I: Index>(
    a: CsrView<'_, V, I>,
    b: CsrView<'_, V, I>,
    top_n: nat,
    sort: SortMode,
    accum: AccumMode,
    cc: int,
    i: int,
)
    requires
        product::multipliable(a, b),
        0 <= i < a.nrows,
        cc > 0,
        top_n >= b.ncols,
        top_n <= u32::MAX || b.ncols <= u32::MAX,
        !topn::uses_dense(a, b, i, accum),
        crate::scalar::is_unfused::<V>(),
        forall|k: int| #[trigger]
            product::touched(product::updates_of(a, b, i)).contains(k)
                ==> product::accumulate(product::updates_of(a, b, i), k, true).ordered(),
    ensures
        same_entries(
            topn::topn_row(a, b, top_n, None, sort, accum, cc, i),
            matmul::product_rows(a, b)[i],
        ),
{
    let us = product::updates_of(a, b, i);
    let ncols = b.ncols as int;
    let floor: Option<V> = None;
    let row = topn::topn_row(a, b, top_n, floor, sort, accum, cc, i);
    let plain = matmul::product_rows(a, b)[i];
    let all = row_columns(us, ncols, false);
    let t = product::touched(us);
    law_row_is_top_n(a, b, top_n, floor, sort, accum, cc, i);
    let cols = choose|cols: Seq<int>| #[trigger]
        is_top_n_row(row, cols, all, sum_at(us, true), floor, top_n, sort);
    product::lemma_product_in_bounds(a, b, i);
    product::lemma_touched(us);
    product::lemma_touched_in_bounds(us, ncols);
    // Nothing is left out: the touched columns are no more than `top_n`.
    let back = t.reverse();
    assert(back.no_duplicates());
    back.unique_seq_to_set();
    vstd::seq_lib::seq_to_set_is_finite(back);
    assert(back.to_set() =~= all) by {
        assert forall|k: int| back.to_set().contains(k) == all.contains(k) by {
            if t.contains(k) {
                let q = choose|q: int| 0 <= q < t.len() && t[q] == k;
                assert(back[t.len() - 1 - q] == k);
            }
            if back.contains(k) {
                let q = choose|q: int| 0 <= q < back.len() && back[q] == k;
                assert(t[t.len() - 1 - q] == k);
            }
        }
    }
    let kept = cols.to_set();
    assert(kept =~= all) by {
        assert forall|k: int| all.contains(k) implies kept.contains(k) by {
            if !kept.contains(k) {
                assert(kept.len() == top_n);
                assert(kept.subset_of(all.remove(k)));
                vstd::set_lib::lemma_len_subset(kept, all.remove(k));
            }
        }
    }
    assert(lists(plain, back, sum_at(us, true))) by {
        assert forall|q: int| 0 <= q < back.len() implies #[trigger] plain[q] == (
            I::narrowed(back[q] as usize),
            sum_at(us, true)(back[q]),
        ) by {
            lemma_unfused_sums(us, back[q]);
        }
    }
    lemma_same_columns_same_entries(row, cols, plain, back, sum_at(us, true));
}

/// A single chunk as wide as the matrix gives the rows of the single-chunk
/// reference, entry by entry and in the same order, where multiply-add does not
/// fuse and the linked-list accumulator is used.
pub proof fn law_one_chunk_is_unchunked<V: Scalar, I: Index>(
    a: CsrView<'_, V, I>,
    b: CsrView<'_, V, I>,
    top_n: nat,
    floor: Option<V>,
    sort: SortMode,
    accum: AccumMode,
    cc: int,
    i: int,
)
    requires
        product::multipliable(a, b),
        0 <= i < a.nrows,
        cc > 0,
        cc >= b.ncols,
        !topn::uses_dense(a, b, i, accum),
        crate::scalar::is_unfused::<V>(),
    ensures
        topn::topn_row(a, b, top_n, floor, sort, accum, cc, i)
            == crate::matmul_topn::unchunked_rows(a, b, top_n, floor, sort)[i],
{
    let us = product::updates_of(a, b, i);
    let ncols = b.ncols as int;
    product::lemma_product_in_bounds(a, b, i);
    topn::lemma_chunk_start(ncols, cc, 0);
    topn::lemma_chunk_start(ncols, cc, 1);
    assert(tiled::chunk_count(ncols, cc) == 1) by {
        if ncols > 0 {
            assert((ncols - 1) / cc == 0) by (nonlinear_arith)
                requires
                    0 <= ncols - 1 < cc,
            ;
        }
    }
    assert(1 * cc == cc);
    reveal_with_fuel(topn::candidates_upto, 2);
    topn::lemma_filter_all(us, |u: Update<V>| 0 <= u.col < ncols);
    assert(product::within(us, 0, ncols) == us);
    let cs = topn::candidates(us, ncols, cc, false);
    assert(cs =~= product::touched_sums(us, true));
    assert(cs =~= product::touched_sums(us, false)) by {
        assert forall|p: int| 0 <= p < cs.len() implies
            cs[p] == product::touched_sums(us, false)[p] by {
            lemma_unfused_sums(us, cs[p].0);
        }
    }
}

/// Two matrices with the same rows are the same arrays.
pub proof fn lemma_same_rows_same_arrays<V: Scalar, I: Index>(
    c1: CsrMatrix<V, I>,
    c2: CsrMatrix<V, I>,
    ncols: usize,
    rows: Seq<Seq<(I, V)>>,
)
    requires
        c1.holds(ncols, rows),
        c2.holds(ncols, rows),
    ensures
        c1.nrows == c2.nrows,
        c1.ncols == c2.ncols,
        c1.indptr@ == c2.indptr@,
        c1.indices@ == c2.indices@,
        c1.data@ == c2.data@,
{
    I::lemma_index_laws();
    assert forall|i: int| 0 <= i < c1.indptr@.len() implies c1.indptr@[i] == c2.indptr@[i] by {
        assert(c1.indptr@[i].as_int() == c2.indptr@[i].as_int());
    }
    assert(c1.indptr@ =~= c2.indptr@);
}

/// Do two options differ only in how the work is organised: thread count,
/// projection, row blocks, tiling and the capacity hint?
pub open spec fn same_work<V: Scalar>(x: TopNOptions<V>, y: TopNOptions<V>) -> bool {
    &&& x.threshold == y.threshold
    &&& x.sort == y.sort
    &&& x.chunk_cols == y.chunk_cols
    &&& x.accum_mode == y.accum_mode
}

/// Organisation invariance: at a given chunk width the result is the same, bit
/// for bit, for every thread count, projection, block size and tiling. This
/// covers the sequential and the parallel driver alike.
pub proof fn law_organisation_invariance<V: Scalar, I: Index>(
    a: CsrView<'_, V, I>,
    b: CsrView<'_, V, I>,
    top_n: usize,
    opts1: TopNOptions<V>,
    opts2: TopNOptions<V>,
    c1: CsrMatrix<V, I>,
    c2: CsrMatrix<V, I>,
)
    requires
        same_work(opts1, opts2),
        opts1.chunk_cols is Some,
        chunked::is_chunked_outcome(Ok(c1), a, b, top_n, opts1),
        chunked::is_chunked_outcome(Ok(c2), a, b, top_n, opts2),
    ensures
        c1.nrows == c2.nrows,
        c1.ncols == c2.ncols,
        c1.indptr@ == c2.indptr@,
        c1.indices@ == c2.indices@,
        c1.data@ == c2.data@,
{
    if crate::csr::short_circuits(a, b, top_n) {
        lemma_same_rows_same_arrays(
            c1,
            c2,
            b.ncols,
            Seq::new(a.nrows as nat, |i: int| Seq::<(I, V)>::empty()),
        );
    } else {
        let w = opts1.chunk_cols->0;
        let cc = chunked::capped_width(w as int, b.ncols as int);
        let rows = chunked::requested_rows(a, b, top_n, opts1, cc);
        assert(rows == chunked::requested_rows(a, b, top_n, opts2, cc));
        lemma_same_rows_same_arrays(c1, c2, b.ncols, rows);
    }
}

/// At one common chunk width, given or not, the result is the same, bit for bit,
/// however the work is organised.
pub proof fn law_common_width<V: Scalar, I: Index>(
    a: CsrView<'_, V, I>,
    b: CsrView<'_, V, I>,
    top_n: usize,
    opts1: TopNOptions<V>,
    opts2: TopNOptions<V>,
    cc: int,
    c1: CsrMatrix<V, I>,
    c2: CsrMatrix<V, I>,
)
    requires
        opts1.threshold == opts2.threshold,
        opts1.sort == opts2.sort,
        opts1.accum_mode == opts2.accum_mode,
        crate::csr::is_outcome(
            Ok(c1),
            b.ncols,
            chunked::requested_rows(a, b, top_n, opts1, cc),
        ),
        crate::csr::is_outcome(
            Ok(c2),
            b.ncols,
            chunked::requested_rows(a, b, top_n, opts2, cc),
        ),
    ensures
        c1.nrows == c2.nrows,
        c1.ncols == c2.ncols,
        c1.indptr@ == c2.indptr@,
        c1.indices@ == c2.indices@,
        c1.data@ == c2.data@,
{
    lemma_same_rows_same_arrays(
        c1,
        c2,
        b.ncols,
        chunked::requested_rows(a, b, top_n, opts1, cc),
    );
}

/// The rows of the plain product, each in column order.
pub open spec fn plain_rows<V: Scalar, I: Index>(
    a: CsrView<'_, V, I>,
    b: CsrView<'_, V, I>,
) -> Seq<Seq<(I, V)>> {
    crate::matmul_topn::column_rows(matmul::product_rows(a, b))
}

/// A row of the plain product in column order lists the touched columns.
pub proof fn lemma_plain_row<V: Scalar, I: Index>(
    a: CsrView<'_, V, I>,
    b: CsrView<'_, V, I>,
    i: int,
) -> (cols: Seq<int>)
    requires
        product::multipliable(a, b),
        0 <= i < a.nrows,
    ensures
        lists(plain_rows(a, b)[i], cols, sum_at(product::updates_of(a, b, i), false)),
        cols.to_set() == row_columns(product::updates_of(a, b, i), b.ncols as int, false),
        forall|p: int| 0 <= p < cols.len() ==> 0 <= #[trigger] cols[p] < b.ncols,
        is_by_column(plain_rows::<V, I>(a, b)[i]),
        same_entries(plain_rows::<V, I>(a, b)[i], matmul::product_rows::<V, I>(a, b)[i]),
        cols.len() <= b.ncols,
{
    let us = product::updates_of(a, b, i);
    let ncols = b.ncols as int;
    let t = product::touched(us);
    let back = t.reverse();
    let row = matmul::product_rows::<V, I>(a, b)[i];
    let sorted = plain_rows::<V, I>(a, b)[i];
    let order = sorting::order_of::<(I, V), sorting::ByColumn>();
    let val = sum_at(us, false);
    product::lemma_product_in_bounds(a, b, i);
    product::lemma_touched(us);
    product::lemma_touched_in_bounds(us, ncols);
    sorting::lemma_columns_are_weak(row);
    let perm = sorting::lemma_stable_sorted(row, order);
    permutation::lemma_permuted_multiset(row, perm);
    assert forall|q: int| 0 <= q < row.len() implies #[trigger] row[q] == (
        I::narrowed(back[q] as usize),
        val(back[q]),
    ) by {}
    let cols = permutation::permuted(back, perm);
    assert forall|q: int| 0 <= q < cols.len() implies #[trigger] sorted[q] == (
        I::narrowed(cols[q] as usize),
        val(cols[q]),
    ) by {
        assert(sorted[q] == row[perm[q]]);
    }
    assert forall|x: int, y: int| 0 <= x < cols.len() && 0 <= y < cols.len() && x != y implies cols[x]
        != cols[y] by {
        assert(perm[x] != perm[y]);
    }
    assert(cols.to_set() =~= row_columns(us, ncols, false)) by {
        assert forall|k: int|
            cols.to_set().contains(k) == row_columns(us, ncols, false).contains(k) by {
            if cols.contains(k) {
                let q = choose|q: int| 0 <= q < cols.len() && cols[q] == k;
                assert(t[t.len() - 1 - perm[q]] == k);
            }
            if t.contains(k) {
                let m = choose|m: int| 0 <= m < t.len() && t[m] == k;
                let x = t.len() - 1 - m;
                assert(back[x] == k);
                assert(perm.contains(x));
                let q = choose|q: int| 0 <= q < perm.len() && perm[q] == x;
                assert(cols[q] == k);
            }
        }
    }
    assert forall|p: int| 0 <= p < cols.len() implies 0 <= #[trigger] cols[p] < b.ncols by {
        assert(t[t.len() - 1 - perm[p]] == cols[p]);
    }
    assert(is_by_column(sorted)) by {
        assert forall|x: int, y: int| 0 <= x < y < sorted.len() implies (
        #[trigger] sorted[x]).0.as_int() <= (#[trigger] sorted[y]).0.as_int() by {
            assert(!order(sorted[y], sorted[x]));
        }
    }
    lemma_product_row_len::<V, I>(a, b, i);
    cols
}

/// Threading invariance of the whole product: the thread count, like every
/// other choice of how the work is organised, leaves no trace in the result,
/// unless it decides whether the plain product can stand in for the top-n one.
pub proof fn law_threading_invariance<V: Scalar, I: Index>(
    a: CsrView<'_, V, I>,
    b: CsrView<'_, V, I>,
    top_n: usize,
    opts1: TopNOptions<V>,
    opts2: TopNOptions<V>,
    c1: CsrMatrix<V, I>,
    c2: CsrMatrix<V, I>,
)
    requires
        same_work(opts1, opts2),
        opts1.chunk_cols is Some,
        crate::matmul_topn::is_plain(b, top_n, opts1) == crate::matmul_topn::is_plain(
            b,
            top_n,
            opts2,
        ),
        crate::matmul_topn::is_topn_outcome(Ok(c1), a, b, top_n, opts1),
        crate::matmul_topn::is_topn_outcome(Ok(c2), a, b, top_n, opts2),
    ensures
        c1.nrows == c2.nrows,
        c1.ncols == c2.ncols,
        c1.indptr@ == c2.indptr@,
        c1.indices@ == c2.indices@,
        c1.data@ == c2.data@,
{
    if !crate::csr::short_circuits(a, b, top_n) && crate::matmul_topn::is_plain(b, top_n, opts1) {
        lemma_same_rows_same_arrays(c1, c2, b.ncols, plain_rows(a, b));
    } else {
        law_organisation_invariance(a, b, top_n, opts1, opts2, c1, c2);
    }
}

/// Without columns there are no entries.
proof fn lemma_no_columns<V: Scalar, I: Index>(a: CsrView<'_, V, I>, b: CsrView<'_, V, I>)
    requires
        product::multipliable(a, b),
        b.ncols == 0,
    ensures
        matmul::product_rows(a, b) == Seq::new(a.nrows as nat, |i: int| Seq::<(I, V)>::empty()),
{
    let rows = matmul::product_rows(a, b);
    assert forall|i: int| 0 <= i < rows.len() implies #[trigger] rows[i] == Seq::<
        (I, V),
    >::empty() by {
        let us = product::updates_of(a, b, i);
        product::lemma_product_in_bounds(a, b, i);
        product::lemma_touched_in_bounds(us, 0);
        if product::touched(us).len() > 0 {
            assert(0 <= product::touched(us)[0] < 0);
        }
        assert(rows[i] =~= Seq::<(I, V)>::empty());
    }
    assert(rows =~= Seq::new(a.nrows as nat, |i: int| Seq::<(I, V)>::empty()));
}

/// With room for every column, no threshold, column order and one thread,
/// `sp_matmul_topn` gives the matrix of `sp_matmul` with every row in column
/// order, for every element type.
pub proof fn law_plain_top_n_equals_product<V: Scalar, I: Index>(
    a: CsrView<'_, V, I>,
    b: CsrView<'_, V, I>,
    top_n: usize,
    opts: TopNOptions<V>,
    c: CsrMatrix<V, I>,
    p: CsrMatrix<V, I>,
)
    requires
        product::multipliable(a, b),
        crate::matmul_topn::is_plain(b, top_n, opts),
        crate::matmul_topn::is_topn_outcome(Ok(c), a, b, top_n, opts),
        p.holds(b.ncols, matmul::product_rows(a, b)),
    ensures
        c.nrows == p.nrows,
        c.ncols == p.ncols,
        c.indptr@ == p.indptr@,
        forall|i: int|
            #![trigger c.row(i)]
            0 <= i < a.nrows ==> same_entries(c.row(i), p.row(i)) && is_by_column(c.row(i)),
{
    let rows = matmul::product_rows::<V, I>(a, b);
    let sorted = plain_rows::<V, I>(a, b);
    if crate::csr::short_circuits(a, b, top_n) {
        lemma_short_circuit_plain::<V, I>(a, b, top_n);
    }
    assert(c.holds(b.ncols, sorted));
    crate::matmul_topn::lemma_column_rows_lengths(rows, 0);
    lemma_same_lengths_same_indptr(c, p, b.ncols, sorted, rows);
    assert forall|i: int|
        #![trigger c.row(i)]
        0 <= i < a.nrows implies same_entries(c.row(i), p.row(i)) && is_by_column(c.row(i)) by {
        crate::csr::lemma_row_of_matrix(c, b.ncols, sorted, i);
        crate::csr::lemma_row_of_matrix(p, b.ncols, rows, i);
        let _ = lemma_plain_row::<V, I>(a, b, i);
    }
}

/// Where the top-n product is empty for want of entries or columns, so is the
/// plain one.
proof fn lemma_short_circuit_plain<V: Scalar, I: Index>(
    a: CsrView<'_, V, I>,
    b: CsrView<'_, V, I>,
    top_n: usize,
)
    requires
        product::multipliable(a, b),
        crate::csr::short_circuits(a, b, top_n),
        top_n >= b.ncols,
    ensures
        plain_rows::<V, I>(a, b) == Seq::new(a.nrows as nat, |i: int| Seq::<(I, V)>::empty()),
        matmul::product_rows::<V, I>(a, b) == Seq::new(
            a.nrows as nat,
            |i: int| Seq::<(I, V)>::empty(),
        ),
{
    if b.ncols == 0 {
        lemma_no_columns::<V, I>(a, b);
    } else {
        matmul::lemma_empty_product_rows::<V, I>(a, b);
    }
    let rows = matmul::product_rows::<V, I>(a, b);
    crate::matmul_topn::lemma_column_rows_lengths(rows, 0);
    assert forall|i: int| 0 <= i < rows.len() implies plain_rows::<V, I>(a, b)[i] == Seq::<
        (I, V),
    >::empty() by {
        assert(rows[i].len() == 0);
        assert(plain_rows::<V, I>(a, b)[i].len() == 0);
    }
    assert(plain_rows::<V, I>(a, b) =~= Seq::new(
        a.nrows as nat,
        |i: int| Seq::<(I, V)>::empty(),
    ));
}

/// Matrices with rows of the same lengths have the same row pointers.
pub proof fn lemma_same_lengths_same_indptr<V: Scalar, I: Index>(
    c1: CsrMatrix<V, I>,
    c2: CsrMatrix<V, I>,
    ncols: usize,
    rows1: Seq<Seq<(I, V)>>,
    rows2: Seq<Seq<(I, V)>>,
)
    requires
        c1.holds(ncols, rows1),
        c2.holds(ncols, rows2),
        rows1.len() == rows2.len(),
        forall|i: int| 0 <= i < rows1.len() ==> (#[trigger] rows1[i]).len() == rows2[i].len(),
    ensures
        c1.nrows == c2.nrows,
        c1.ncols == c2.ncols,
        c1.indptr@ == c2.indptr@,
{
    I::lemma_index_laws();
    assert forall|x: int| 0 <= x < c1.indptr@.len() implies c1.indptr@[x] == c2.indptr@[x] by {
        let t1 = rows1.take(x);
        let t2 = rows2.take(x);
        assert forall|y: int| 0 <= y < t1.len() implies (#[trigger] t1[y]).len() == t2[y].len() by {
            assert(t1[y] == rows1[y] && t2[y] == rows2[y]);
        }
        crate::csr::lemma_same_lengths(t1, t2, 0);
        assert(c1.indptr@[x].as_int() == c2.indptr@[x].as_int());
    }
    assert(c1.indptr@ =~= c2.indptr@);
}

/// With room for every column and no threshold, `sp_matmul_topn` gives the
/// entries of `sp_matmul` row by row, whatever the sort order and however the
/// work is organised, for element types that do not fuse multiply-add, on rows
/// that do not use the dense accumulator, and for sums that compare.
pub proof fn law_full_top_n_matrix<V: Scalar, I: Index>(
    a: CsrView<'_, V, I>,
    b: CsrView<'_, V, I>,
    top_n: usize,
    opts: TopNOptions<V>,
    c: CsrMatrix<V, I>,
    p: CsrMatrix<V, I>,
    i: int,
)
    requires
        product::multipliable(a, b),
        0 <= i < a.nrows,
        top_n >= b.ncols,
        top_n <= u32::MAX || b.ncols <= u32::MAX,
        opts.threshold is None,
        opts.chunk_cols != Some(0usize),
        crate::matmul_topn::is_topn_outcome(Ok(c), a, b, top_n, opts),
        p.holds(b.ncols, matmul::product_rows(a, b)),
        !topn::uses_dense(a, b, i, opts.accum_mode),
        crate::scalar::is_unfused::<V>(),
        forall|k: int| #[trigger]
            product::touched(product::updates_of(a, b, i)).contains(k)
                ==> product::accumulate(product::updates_of(a, b, i), k, true).ordered(),
    ensures
        same_entries(c.row(i), p.row(i)),
{
    let rows = matmul::product_rows::<V, I>(a, b);
    crate::csr::lemma_row_of_matrix(p, b.ncols, rows, i);
    if crate::csr::short_circuits(a, b, top_n) {
        lemma_short_circuit_plain::<V, I>(a, b, top_n);
        crate::csr::lemma_row_of_matrix(c, b.ncols, rows, i);
    } else if crate::matmul_topn::is_plain(b, top_n, opts) {
        crate::csr::lemma_row_of_matrix(c, b.ncols, plain_rows(a, b), i);
        let _ = lemma_plain_row::<V, I>(a, b, i);
    } else {
        let cc = choose|cc: int| #[trigger]
            chunked::admissible::<V>(opts.chunk_cols, b.ncols, cc) && crate::csr::is_outcome(
                Ok(c),
                b.ncols,
                chunked::requested_rows(a, b, top_n, opts, cc),
            );
        let kept = chunked::requested_rows(a, b, top_n, opts, cc);
        crate::csr::lemma_row_of_matrix(c, b.ncols, kept, i);
        law_full_top_n_is_product(a, b, top_n as nat, opts.sort, opts.accum_mode, cc, i);
    }
}

/// Every row of a top-n product has at most `top_n` entries, each above the
/// threshold if one is given. With [`SortMode::ByValueDesc`] the largest comes
/// first; with [`SortMode::ByColumn`] the columns ascend, strictly so where the
/// index type can hold them all.
pub proof fn law_matrix_rows<V: Scalar, I: Index>(
    a: CsrView<'_, V, I>,
    b: CsrView<'_, V, I>,
    top_n: usize,
    opts: TopNOptions<V>,
    c: CsrMatrix<V, I>,
    i: int,
)
    requires
        product::multipliable(a, b),
        0 <= i < a.nrows,
        top_n <= u32::MAX || b.ncols <= u32::MAX,
        opts.chunk_cols != Some(0usize),
        crate::matmul_topn::is_topn_outcome(Ok(c), a, b, top_n, opts),
    ensures
        c.row(i).len() <= top_n,
        opts.threshold matches Some(t) ==> forall|p: int|
            0 <= p < c.row(i).len() ==> t.spec_less((#[trigger] c.row(i)[p]).1),
        opts.sort == SortMode::ByValueDesc ==> is_descending(c.row(i)),
        opts.sort == SortMode::ByColumn ==> is_by_column(c.row(i)),
        opts.sort == SortMode::ByColumn && b.ncols - 1 <= I::spec_max_usize()
            ==> strictly_by_column(c.row(i)),
{
    if crate::csr::short_circuits(a, b, top_n) {
        let rows = Seq::new(a.nrows as nat, |i: int| Seq::<(I, V)>::empty());
        crate::csr::lemma_row_of_matrix(c, b.ncols, rows, i);
    } else if crate::matmul_topn::is_plain(b, top_n, opts) {
        crate::csr::lemma_row_of_matrix(c, b.ncols, plain_rows(a, b), i);
        let cols = lemma_plain_row::<V, I>(a, b, i);
        if b.ncols - 1 <= I::spec_max_usize() {
            lemma_strictly_by_column(
                plain_rows::<V, I>(a, b)[i],
                cols,
                sum_at(product::updates_of(a, b, i), false),
                b.ncols as int,
            );
        }
    } else {
        let cc = choose|cc: int| #[trigger]
            chunked::admissible::<V>(opts.chunk_cols, b.ncols, cc) && crate::csr::is_outcome(
                Ok(c),
                b.ncols,
                chunked::requested_rows(a, b, top_n, opts, cc),
            );
        crate::csr::lemma_row_of_matrix(c, b.ncols, chunked::requested_rows(a, b, top_n, opts, cc), i);
        law_row_is_top_n(
            a,
            b,
            top_n as nat,
            opts.threshold,
            opts.sort,
            opts.accum_mode,
            cc,
            i,
        );
    }
}

/// Is every entry of `rows` in a column of `0..ncols`?
pub open spec fn rows_in_bounds<V: Scalar, I: Index>(
    rows: Seq<Seq<(I, V)>>,
    ncols: usize,
) -> bool {
    forall|i: int, p: int|
        0 <= i < rows.len() && 0 <= p < rows[i].len() ==> 0 <= (#[trigger] rows[i][p]).0.as_int()
            < ncols
}

/// Results are valid CSR matrices: a view of the arrays of a matrix that holds
/// rows within the columns can be handed to any of the multiplications.
pub proof fn law_result_is_valid<V: Scalar, I: Index>(
    c: CsrMatrix<V, I>,
    ncols: usize,
    rows: Seq<Seq<(I, V)>>,
    view: CsrView<'_, V, I>,
)
    requires
        c.holds(ncols, rows),
        rows_in_bounds(rows, ncols),
        view.nrows == c.nrows,
        view.ncols == c.ncols,
        view.indptr@ == c.indptr@,
        view.indices@ == c.indices@,
        view.data@ == c.data@,
    ensures
        view.valid(),
        forall|i: int| #![trigger view.row(i)]
            0 <= i < c.nrows ==> view.row(i) == rows[i].map_values(
                |e: (I, V)| (e.0.as_int(), e.1),
            ),
{
    let all = crate::csr::flat(rows);
    assert(rows.take(rows.len() as int) =~= rows);
    assert forall|i: int| 0 <= i <= view.nrows implies 0 <= #[trigger] view.start(i)
        <= view.data@.len() by {
        assert(view.start(i) == crate::csr::flat(rows.take(i)).len());
        crate::csr::lemma_flat_len_monotone(rows, i);
    }
    assert forall|i: int, j: int| 0 <= i <= j <= view.nrows implies #[trigger] view.start(i)
        <= #[trigger] view.start(j) by {
        assert(view.start(i) == crate::csr::flat(rows.take(i)).len());
        assert(view.start(j) == crate::csr::flat(rows.take(j)).len());
        crate::csr::lemma_flat_len_monotone(rows.take(j), i);
        assert(rows.take(j).take(i) =~= rows.take(i));
    }
    lemma_flat_in_bounds(rows, ncols);
    assert forall|p: int|
        view.start(0) <= p < view.start(view.nrows as int) implies 0 <= #[trigger] view.col(p)
        < view.ncols by {
        assert(view.start(0) == crate::csr::flat(rows.take(0)).len());
        assert(view.start(view.nrows as int) == all.len());
        assert(view.indices@[p] == all[p].0);
    }
    assert forall|i: int| #![trigger view.row(i)] 0 <= i < c.nrows implies view.row(i)
        == rows[i].map_values(|e: (I, V)| (e.0.as_int(), e.1)) by {
        crate::csr::lemma_row_of_matrix(c, ncols, rows, i);
        let want = rows[i].map_values(|e: (I, V)| (e.0.as_int(), e.1));
        assert(c.row(i).len() == rows[i].len());
        assert forall|p: int| 0 <= p < want.len() implies view.row(i)[p] == want[p] by {
            assert(c.row(i)[p] == rows[i][p]);
        }
        assert(view.row(i) =~= want);
    }
}

proof fn lemma_flat_in_bounds<V: Scalar, I: Index>(rows: Seq<Seq<(I, V)>>, ncols: usize)
    requires
        rows_in_bounds(rows, ncols),
    ensures
        forall|p: int|
            0 <= p < crate::csr::flat(rows).len() ==> 0 <= (#[trigger] crate::csr::flat(
                rows,
            )[p]).0.as_int() < ncols,
    decreases rows.len(),
{
    if rows.len() > 0 {
        let front = rows.drop_last();
        assert forall|i: int, p: int| 0 <= i < front.len() && 0 <= p < front[i].len() implies 0 <= (
        #[trigger] front[i][p]).0.as_int() < ncols by {
            assert(front[i][p] == rows[i][p]);
        }
        lemma_flat_in_bounds(front, ncols);
        let n = crate::csr::flat(front).len();
        assert forall|p: int| 0 <= p < crate::csr::flat(rows).len() implies 0 <= (
        #[trigger] crate::csr::flat(rows)[p]).0.as_int() < ncols by {
            if p < n {
                assert(crate::csr::flat(rows)[p] == crate::csr::flat(front)[p]);
            } else {
                assert(crate::csr::flat(rows)[p] == rows[rows.len() - 1][p - n]);
            }
        }
    }
}

/// The rows of a top-n product lie within its columns, where the index type can
/// hold the largest of them.
pub proof fn law_topn_rows_in_bounds<V: Scalar, I: Index>(
    a: CsrView<'_, V, I>,
    b: CsrView<'_, V, I>,
    top_n: nat,
    floor: Option<V>,
    sort: SortMode,
    accum: AccumMode,
    cc: int,
)
    requires
        product::multipliable(a, b),
        cc > 0,
        top_n <= u32::MAX || b.ncols <= u32::MAX,
        b.ncols - 1 <= I::spec_max_usize(),
    ensures
        rows_in_bounds(topn::topn_rows(a, b, top_n, floor, sort, accum, cc), b.ncols),
{
    let rows = topn::topn_rows(a, b, top_n, floor, sort, accum, cc);
    let ncols = b.ncols as int;
    assert forall|i: int, p: int| 0 <= i < rows.len() && 0 <= p < rows[i].len() implies 0 <= (
    #[trigger] rows[i][p]).0.as_int() < b.ncols by {
        law_row_is_top_n(a, b, top_n, floor, sort, accum, cc, i);
        let us = product::updates_of(a, b, i);
        let dense = topn::uses_dense(a, b, i, accum);
        let row = topn::topn_row(a, b, top_n, floor, sort, accum, cc, i);
        let all = row_columns(us, ncols, dense);
        let cols = choose|cols: Seq<int>| #[trigger]
            is_top_n_row(row, cols, all, sum_at(us, true), floor, top_n, sort);
        assert(row[p] == (I::narrowed(cols[p] as usize), sum_at(us, true)(cols[p])));
        assert(cols.to_set().contains(cols[p]));
        let k = cols[p];
        assert(all.contains(k));
        product::lemma_product_in_bounds(a, b, i);
        product::lemma_touched_in_bounds(us, ncols);
        if !dense {
            let t = product::touched(us);
            let q = choose|q: int| 0 <= q < t.len() && t[q] == k;
            assert(0 <= t[q] < ncols);
        }
        I::lemma_index_laws();
        assert(I::narrowed(k as usize).as_int() == k);
    }
}

/// The rows of the plain product lie within its columns, where the index type
/// can hold the largest of them.
pub proof fn law_product_rows_in_bounds<V: Scalar, I: Index>(
    a: CsrView<'_, V, I>,
    b: CsrView<'_, V, I>,
)
    requires
        product::multipliable(a, b),
        b.ncols - 1 <= I::spec_max_usize(),
    ensures
        rows_in_bounds(matmul::product_rows(a, b), b.ncols),
{
    let rows = matmul::product_rows(a, b);
    assert forall|i: int, p: int| 0 <= i < rows.len() && 0 <= p < rows[i].len() implies 0 <= (
    #[trigger] rows[i][p]).0.as_int() < b.ncols by {
        let us = product::updates_of(a, b, i);
        let t = product::touched(us);
        product::lemma_product_in_bounds(a, b, i);
        product::lemma_touched_in_bounds(us, b.ncols as int);
        let k = t[t.len() - 1 - p];
        assert(rows[i][p].0 == I::narrowed(k as usize));
        I::lemma_index_laws();
        assert(I::narrowed(k as usize).as_int() == k);
    }
}

/// Zipping keeps the `top_n` largest of the side-by-side entries of each row
/// above the threshold, the largest first.
pub proof fn law_zip_is_top_n<V: Scalar, I: Index>(
    chunks: Seq<CsrView<'_, V, I>>,
    top_n: nat,
    i: int,
)
    requires
        top_n > 0,
        top_n <= u32::MAX || zip::zip_candidates(chunks, i, 0).len() <= u32::MAX,
        0 <= i < chunks[0].nrows,
    ensures
        exists|q: Seq<int>| #[trigger]
            selection::lists(
                zip::zip_rows::<V, I>(chunks, top_n)[i],
                zip::zip_candidates(chunks, i, 0),
                q,
            ) && selection::is_top_n(
                q.to_set(),
                zip::zip_candidates(chunks, i, 0),
                Some(V::spec_limits_min()),
                top_n,
            ),
        is_descending(zip::zip_rows::<V, I>(chunks, top_n)[i]),
{
    let cs = zip::zip_candidates(chunks, i, 0);
    let floor = Some(V::spec_limits_min());
    let row = zip::zip_rows::<V, I>(chunks, top_n)[i];
    selection::lemma_top_n::<V, I>(top_n, floor, cs);
    let h = HeapState::<V, I>::fresh(top_n, floor).offer_all(cs);
    assert(row == h.by_value_desc().entries());
}

/// Side by side, the columns stay within the total width.
pub proof fn lemma_zip_candidates_in_bounds<V: Scalar, I: Index>(
    chunks: Seq<CsrView<'_, V, I>>,
    i: int,
    j: int,
)
    requires
        0 <= j <= chunks.len(),
        forall|x: int|
            0 <= x < chunks.len() ==> (#[trigger] chunks[x]).valid() && 0 <= i < chunks[x].nrows,
    ensures
        0 <= zip::column_offset(chunks, j) <= zip::column_offset(chunks, chunks.len() as int),
        forall|p: int|
            0 <= p < zip::zip_candidates(chunks, i, j).len() ==> 0 <= (
            #[trigger] zip::zip_candidates(chunks, i, j)[p]).0 < zip::column_offset(
                chunks,
                chunks.len() as int,
            ),
    decreases chunks.len() - j,
{
    let cs = zip::zip_candidates(chunks, i, j);
    if j < chunks.len() {
        lemma_zip_candidates_in_bounds(chunks, i, j + 1);
        zip::lemma_offsets_grow(chunks, j, j + 1);
        product::lemma_row_in_bounds(chunks[j], i);
        let later = zip::zip_candidates(chunks, i, j + 1);
        let offset = zip::column_offset(chunks, j);
        assert(zip::column_offset(chunks, j + 1) == offset + chunks[j].ncols);
        assert forall|p: int| 0 <= p < cs.len() implies 0 <= (#[trigger] cs[p]).0
            < zip::column_offset(chunks, chunks.len() as int) by {
            if p < later.len() {
                assert(cs[p] == later[p]);
            } else {
                let x = p - later.len();
                assert(cs[p] == zip::shifted(chunks[j].row(i), offset)[x]);
                assert(0 <= chunks[j].row(i)[x].0 < chunks[j].ncols);
            }
        }
    } else {
        zip::lemma_offsets_grow(chunks, j, j);
    }
}

/// The rows of a zipped matrix lie within its columns, where the index type can
/// hold the largest of them.
pub proof fn law_zip_rows_in_bounds<V: Scalar, I: Index>(
    chunks: Seq<CsrView<'_, V, I>>,
    top_n: nat,
)
    requires
        chunks.len() > 0,
        zip::zippable(chunks),
        zip::column_offset(chunks, chunks.len() as int) - 1 <= I::spec_max_usize(),
        top_n <= u32::MAX || forall|i: int|
            0 <= i < chunks[0].nrows ==> (#[trigger] zip::zip_candidates(chunks, i, 0)).len()
                <= u32::MAX,
    ensures
        rows_in_bounds(
            zip::zip_rows::<V, I>(chunks, top_n),
            zip::column_offset(chunks, chunks.len() as int) as usize,
        ),
{
    let rows = zip::zip_rows::<V, I>(chunks, top_n);
    let total = zip::column_offset(chunks, chunks.len() as int);
    assert forall|i: int, p: int| 0 <= i < rows.len() && 0 <= p < rows[i].len() implies 0 <= (
    #[trigger] rows[i][p]).0.as_int() < total by {
        let cs = zip::zip_candidates(chunks, i, 0);
        assert(chunks[0].valid());
        lemma_zip_candidates_in_bounds(chunks, i, 0);
        law_zip_is_top_n::<V, I>(chunks, top_n, i);
        let q = choose|q: Seq<int>| #[trigger]
            selection::lists(rows[i], cs, q) && selection::is_top_n(
                q.to_set(),
                cs,
                Some(V::spec_limits_min()),
                top_n,
            );
        assert(0 <= q[p] < cs.len());
        let k = cs[q[p]].0;
        assert(rows[i][p].0 == I::narrowed(k as usize));
        I::lemma_index_laws();
        assert(I::narrowed(k as usize).as_int() == k);
    }
}

/// Zipping a single chunk whose rows are no longer than `top_n`, with values
/// above the threshold, keeps every entry of every row.
pub proof fn law_zip_of_one_chunk<V: Scalar, I: Index>(
    chunk: CsrView<'_, V, I>,
    top_n: nat,
    i: int,
)
    requires
        chunk.valid(),
        top_n > 0,
        top_n <= u32::MAX || chunk.row(i).len() <= u32::MAX,
        0 <= i < chunk.nrows,
        chunk.row(i).len() <= top_n,
        forall|p: int|
            0 <= p < chunk.row(i).len() ==> V::spec_limits_min().spec_less(
                (#[trigger] chunk.row(i)[p]).1,
            ),
    ensures
        exists|q: Seq<int>|
            #[trigger] crate::permutation::is_permutation(q, chunk.row(i).len())
                && zip::zip_rows::<V, I>(seq![chunk], top_n)[i] == matmul::narrowed::<V, I>(
                crate::permutation::permuted(chunk.row(i), q),
            ),
{
    let chunks = seq![chunk];
    let cs = chunk.row(i);
    let floor = Some(V::spec_limits_min());
    let row = zip::zip_rows::<V, I>(chunks, top_n)[i];
    reveal_with_fuel(zip::zip_candidates, 3);
    assert(zip::zip_candidates(chunks, i, 0) =~= cs);
    law_zip_is_top_n::<V, I>(chunks, top_n, i);
    let q = choose|q: Seq<int>| #[trigger]
        selection::lists(row, cs, q) && selection::is_top_n(q.to_set(), cs, floor, top_n);
    q.unique_seq_to_set();
    selection::lemma_top_n_len(q.to_set(), cs, floor, top_n);
    let all = selection::eligible(cs, floor);
    let range = vstd::set_lib::set_int_range(0, cs.len() as int);
    vstd::set_lib::lemma_int_range(0, cs.len() as int);
    assert(all =~= range) by {
        assert forall|p: int| range.contains(p) implies all.contains(p) by {
            assert(admits(floor, chunk.row(i)[p].1));
        }
    }
    assert(q.to_set() =~= all) by {
        vstd::set_lib::lemma_subset_equality(q.to_set(), all);
    }
    assert forall|p: int| 0 <= p < cs.len() implies #[trigger] q.contains(p) by {
        assert(range.contains(p));
        assert(q.to_set().contains(p));
    }
    assert(crate::permutation::is_permutation(q, cs.len()));
    assert(row =~= matmul::narrowed::<V, I>(crate::permutation::permuted(cs, q)));
}

/// Where the columns of a row reach `bound`, for a row in which everything
/// below the bound comes first.
proof fn lemma_reaches<V>(row: Seq<(int, V)>, bound: int) -> (x: int)
    requires
        forall|p: int, q: int|
            0 <= p <= q < row.len() && (#[trigger] row[q]).0 < bound ==> (#[trigger] row[p]).0
                < bound,
    ensures
        0 <= x <= row.len(),
        forall|p: int| 0 <= p < x ==> (#[trigger] row[p]).0 < bound,
        forall|p: int| x <= p < row.len() ==> (#[trigger] row[p]).0 >= bound,
    decreases row.len(),
{
    if row.len() == 0 || row.last().0 < bound {
        if row.len() > 0 {
            assert(row[row.len() - 1].0 < bound);
        }
        row.len() as int
    } else {
        let front = row.drop_last();
        assert forall|p: int, q: int|
            0 <= p <= q < front.len() && (#[trigger] front[q]).0 < bound implies (
        #[trigger] front[p]).0 < bound by {
            assert(front[q] == row[q] && front[p] == row[p]);
        }
        let x = lemma_reaches(front, bound);
        assert forall|p: int| 0 <= p < x implies (#[trigger] row[p]).0 < bound by {
            assert(front[p] == row[p]);
        }
        assert forall|p: int| x <= p < row.len() implies (#[trigger] row[p]).0 >= bound by {
            if p < front.len() {
                assert(front[p] == row[p]);
            }
        }
        x
    }
}

/// Tiling loses nothing: the segments of a row, taken chunk by chunk, are the
/// row again, for a row whose entries come chunk by chunk.
pub proof fn law_segments_reassemble<V>(row: Seq<(int, V)>, ncols: int, cc: int)
    requires
        cc > 0,
        ncols >= 0,
        forall|p: int| 0 <= p < row.len() ==> 0 <= (#[trigger] row[p]).0 < ncols,
        forall|p: int, q: int|
            0 <= p <= q < row.len() ==> (#[trigger] row[p]).0 / cc <= (#[trigger] row[q]).0 / cc,
    ensures
        crate::csr::flat(
            Seq::new(
                tiled::chunk_count(ncols, cc) as nat,
                |c: int| product::segment(row, c * cc, c * cc + cc),
            ),
        ) == row,
{
    let n = tiled::chunk_count(ncols, cc);
    if ncols > 0 {
        assert(0 <= (ncols - 1) / cc) by (nonlinear_arith)
            requires
                ncols >= 1,
                cc >= 1,
        ;
    }
    let x = lemma_segments_upto(row, cc, n);
    let segments = Seq::new(n as nat, |c: int| product::segment(row, c * cc, c * cc + cc));
    assert(x == row.len()) by {
        if x < row.len() {
            assert(row[x].0 < ncols);
            vstd::arithmetic::div_mod::lemma_fundamental_div_mod(ncols - 1, cc);
            let q = (ncols - 1) / cc;
            assert(cc * q + cc == n * cc) by (nonlinear_arith)
                requires
                    n == q + 1,
            ;
        }
    }
    assert(row.take(x) =~= row);
}

proof fn lemma_segments_upto<V>(row: Seq<(int, V)>, cc: int, m: int) -> (x: int)
    requires
        cc > 0,
        m >= 0,
        forall|p: int| 0 <= p < row.len() ==> 0 <= (#[trigger] row[p]).0,
        forall|p: int, q: int|
            0 <= p <= q < row.len() ==> (#[trigger] row[p]).0 / cc <= (#[trigger] row[q]).0 / cc,
    ensures
        0 <= x <= row.len(),
        forall|p: int| 0 <= p < x ==> (#[trigger] row[p]).0 < m * cc,
        forall|p: int| x <= p < row.len() ==> (#[trigger] row[p]).0 >= m * cc,
        crate::csr::flat(
            Seq::new(m as nat, |c: int| product::segment(row, c * cc, c * cc + cc)),
        ) == row.take(x),
    decreases m,
{
    let segments = Seq::new(m as nat, |c: int| product::segment(row, c * cc, c * cc + cc));
    if m == 0 {
        assert(0 * cc == 0) by (nonlinear_arith);
        assert(row.take(0) =~= crate::csr::flat(segments));
        0
    } else {
        let before = lemma_segments_upto(row, cc, m - 1);
        let bound = m * cc;
        assert((m - 1) * cc + cc == m * cc) by (nonlinear_arith);
        assert forall|p: int, q: int|
            0 <= p <= q < row.len() && (#[trigger] row[q]).0 < bound implies (#[trigger] row[p]).0
            < bound by {
            let kp = row[p].0;
            let kq = row[q].0;
            vstd::arithmetic::div_mod::lemma_fundamental_div_mod(kp, cc);
            vstd::arithmetic::div_mod::lemma_fundamental_div_mod(kq, cc);
            let dp = kp / cc;
            let dq = kq / cc;
            assert(dq < m) by (nonlinear_arith)
                requires
                    kq == cc * dq + kq % cc,
                    0 <= kq % cc,
                    kq < m * cc,
                    cc > 0,
            ;
            assert(kp < m * cc) by (nonlinear_arith)
                requires
                    kp == cc * dp + kp % cc,
                    kp % cc < cc,
                    dp + 1 <= m,
                    cc > 0,
            ;
        }
        let x = lemma_reaches(row, bound);
        if before > x {
            assert(row[x].0 >= bound);
            assert(row[x].0 < (m - 1) * cc);
        }
        topn::lemma_segment_is_subrange(row, (m - 1) * cc, bound, before, x);
        let front = Seq::new(
            (m - 1) as nat,
            |c: int| product::segment(row, c * cc, c * cc + cc),
        );
        assert(segments.drop_last() =~= front);
        assert(segments.last() == row.subrange(before, x));
        assert(row.take(before) + row.subrange(before, x) =~= row.take(x));
        x
    }
}

/// The exact sum of products in column `k`.
pub open spec fn exact_sum<V>(us: Seq<Update<V>>, k: int, value: spec_fn(V) -> int) -> int
    decreases us.len(),
{
    if us.len() == 0 {
        0
    } else {
        exact_sum(us.drop_last(), k, value) + if us.last().col == k {
            value(us.last().left) * value(us.last().right)
        } else {
            0
        }
    }
}

/// Do all products and all partial sums in column `k` lie in `lo..=hi`?
pub open spec fn never_overflows<V>(
    us: Seq<Update<V>>,
    k: int,
    value: spec_fn(V) -> int,
    lo: int,
    hi: int,
) -> bool {
    forall|m: int|
        0 <= m <= us.len() ==> lo <= #[trigger] exact_sum(us.take(m), k, value) <= hi && (m
            < us.len() && us[m].col == k ==> lo <= value(us[m].left) * value(us[m].right) <= hi)
}

/// Integer entries are the mathematical dot products, where nothing overflows
/// on the way.
pub proof fn law_i32_sums_are_exact(us: Seq<Update<i32>>, k: int, fused: bool)
    requires
        never_overflows(us, k, |x: i32| x as int, i32::MIN as int, i32::MAX as int),
    ensures
        product::accumulate(us, k, fused) == exact_sum(us, k, |x: i32| x as int),
    decreases us.len(),
{
    let value = |x: i32| x as int;
    if us.len() > 0 {
        let prev = us.drop_last();
        let n = us.len() as int;
        assert(us.take(n) =~= us);
        assert(us.take(n - 1) =~= prev);
        assert forall|m: int| 0 <= m <= prev.len() implies i32::MIN <= #[trigger] exact_sum(
            prev.take(m),
            k,
            value,
        ) <= i32::MAX && (m < prev.len() && prev[m].col == k ==> i32::MIN <= value(prev[m].left)
            * value(prev[m].right) <= i32::MAX) by {
            assert(prev.take(m) =~= us.take(m));
            assert(i32::MIN <= exact_sum(us.take(m), k, value) <= i32::MAX);
        }
        law_i32_sums_are_exact(prev, k, fused);
        assert(i32::MIN <= exact_sum(us.take(n), k, value) <= i32::MAX);
        assert(i32::MIN <= exact_sum(us.take(n - 1), k, value) <= i32::MAX);
    }
}

/// Integer entries are the mathematical dot products, where nothing overflows
/// on the way.
pub proof fn law_i64_sums_are_exact(us: Seq<Update<i64>>, k: int, fused: bool)
    requires
        never_overflows(us, k, |x: i64| x as int, i64::MIN as int, i64::MAX as int),
    ensures
        product::accumulate(us, k, fused) == exact_sum(us, k, |x: i64| x as int),
    decreases us.len(),
{
    let value = |x: i64| x as int;
    if us.len() > 0 {
        let prev = us.drop_last();
        let n = us.len() as int;
        assert(us.take(n) =~= us);
        assert(us.take(n - 1) =~= prev);
        assert forall|m: int| 0 <= m <= prev.len() implies i64::MIN <= #[trigger] exact_sum(
            prev.take(m),
            k,
            value,
        ) <= i64::MAX && (m < prev.len() && prev[m].col == k ==> i64::MIN <= value(prev[m].left)
            * value(prev[m].right) <= i64::MAX) by {
            assert(prev.take(m) =~= us.take(m));
            assert(i64::MIN <= exact_sum(us.take(m), k, value) <= i64::MAX);
        }
        law_i64_sums_are_exact(prev, k, fused);
        assert(i64::MIN <= exact_sum(us.take(n), k, value) <= i64::MAX);
        assert(i64::MIN <= exact_sum(us.take(n - 1), k, value) <= i64::MAX);
    }
}

/// Factors whose rows ascend suit every multiplication, at every chunk width and
/// with every accumulator.
pub proof fn law_ascending_rows_suffice<V: Scalar, I: Index>(
    a: CsrView<'_, V, I>,
    b: CsrView<'_, V, I>,
    top_n: usize,
    opts: TopNOptions<V>,
)
    requires
        product::multipliable(a, b),
        topn::ascending_columns(b),
        opts.chunk_cols != Some(0usize),
        opts.n_threads != Some(0usize),
    ensures
        chunked::chunked_ready(a, b, top_n, opts),
        crate::matmul_topn::topn_ready(a, b, top_n, opts),
{
    assert forall|cc: int| #[trigger]
        chunked::admissible::<V>(opts.chunk_cols, b.ncols, cc) implies topn::kernel_ready(
        a,
        b,
        opts.accum_mode,
        cc,
        chunked::blocking(a, b, cc as usize, opts).0,
    ) by {
        topn::lemma_ascending_is_ready(
            a,
            b,
            opts.accum_mode,
            cc,
            chunked::blocking(a, b, cc as usize, opts).0,
        );
    }
}

/// No more is selected than the heap has room for.
proof fn lemma_selected_len<V: Scalar, I: Index>(
    cs: Seq<(int, V)>,
    n: nat,
    floor: Option<V>,
    sort: SortMode,
)
    ensures
        topn::selected::<V, I>(cs, n, floor, sort).len() <= n,
{
    if n > 0 {
        let fresh = HeapState::<V, I>::fresh(n, floor);
        selection::lemma_offer_all_shape(fresh, cs);
        let slots = fresh.offer_all(cs).slots;
        sorting::lemma_stable_sorted_len(slots, crate::maxheap::earlier());
        sorting::lemma_stable_sorted_len(slots, crate::maxheap::larger());
        sorting::lemma_stable_sorted_len(
            fresh.offer_all(cs).by_insertion().entries(),
            sorting::order_of::<(I, V), sorting::ByColumn>(),
        );
    }
}

/// Rows of at most `n` entries hold at most `n` times their number.
proof fn lemma_flat_bound<T>(rows: Seq<Seq<T>>, n: nat)
    requires
        forall|i: int| 0 <= i < rows.len() ==> (#[trigger] rows[i]).len() <= n,
    ensures
        crate::csr::flat(rows).len() <= rows.len() * n,
    decreases rows.len(),
{
    if rows.len() > 0 {
        let front = rows.drop_last();
        assert forall|i: int| 0 <= i < front.len() implies (#[trigger] front[i]).len() <= n by {
            assert(front[i] == rows[i]);
        }
        lemma_flat_bound(front, n);
        assert(rows[rows.len() - 1].len() <= n);
        assert(front.len() * n + n == rows.len() * n) by (nonlinear_arith)
            requires
                front.len() == rows.len() - 1,
        ;
    }
}

/// A result fits the index type where `top_n` entries in every row would.
pub proof fn law_small_results_fit<V: Scalar, I: Index>(
    a: CsrView<'_, V, I>,
    b: CsrView<'_, V, I>,
    top_n: usize,
    opts: TopNOptions<V>,
)
    requires
        product::multipliable(a, b),
        a.nrows * top_n <= I::spec_max_usize(),
    ensures
        chunked::result_fits(a, b, top_n, opts),
        crate::matmul_topn::topn_fits(a, b, top_n, opts),
{
    let max = I::spec_max_usize();
    let floor = opts.threshold;
    assert forall|cc: int| #[trigger]
        chunked::admissible::<V>(opts.chunk_cols, b.ncols, cc) implies crate::csr::flat(
        chunked::requested_rows(a, b, top_n, opts, cc),
    ).len() <= max by {
        let rows = chunked::requested_rows(a, b, top_n, opts, cc);
        assert forall|i: int| 0 <= i < rows.len() implies (#[trigger] rows[i]).len() <= top_n by {
            lemma_selected_len::<V, I>(
                topn::row_candidates(a, b, opts.accum_mode, cc, i),
                top_n as nat,
                floor,
                opts.sort,
            );
        }
        lemma_flat_bound(rows, top_n as nat);
    }
    if crate::matmul_topn::is_plain(b, top_n, opts) {
        let rows = matmul::product_rows(a, b);
        assert forall|i: int| 0 <= i < rows.len() implies (#[trigger] rows[i]).len() <= top_n by {
            lemma_product_row_len(a, b, i);
        }
        lemma_flat_bound(rows, top_n as nat);
    }
}

/// A row of the plain product has at most one entry per column.
proof fn lemma_product_row_len<V: Scalar, I: Index>(
    a: CsrView<'_, V, I>,
    b: CsrView<'_, V, I>,
    i: int,
)
    requires
        product::multipliable(a, b),
        0 <= i < a.nrows,
    ensures
        matmul::product_rows(a, b)[i].len() <= b.ncols,
{
    let us = product::updates_of(a, b, i);
    let t = product::touched(us);
    let range = vstd::set_lib::set_int_range(0, b.ncols as int);
    product::lemma_product_in_bounds(a, b, i);
    product::lemma_touched(us);
    product::lemma_touched_in_bounds(us, b.ncols as int);
    vstd::set_lib::lemma_int_range(0, b.ncols as int);
    t.unique_seq_to_set();
    assert(t.to_set().subset_of(range)) by {
        assert forall|k: int| t.to_set().contains(k) implies range.contains(k) by {
            let q = choose|q: int| 0 <= q < t.len() && t[q] == k;
            assert(0 <= t[q] < b.ncols);
        }
    }
    vstd::set_lib::lemma_len_subset(t.to_set(), range);
}

/// Of two touched columns the one listed first was touched first.
proof fn lemma_touched_in_order<V>(us: Seq<Update<V>>, s: int, t: int)
    requires
        0 <= s < t < product::touched(us).len(),
    ensures
        exists|y: int|
            0 <= y < us.len() && (#[trigger] us[y]).col == product::touched(us)[s] && forall|x: int|
                0 <= x <= y ==> (#[trigger] us[x]).col != product::touched(us)[t],
    decreases us.len(),
{
    let prev = us.drop_last();
    let before = product::touched(prev);
    product::lemma_touched(prev);
    if t < before.len() {
        lemma_touched_in_order(prev, s, t);
        let y = choose|y: int|
            0 <= y < prev.len() && (#[trigger] prev[y]).col == before[s] && forall|x: int|
                0 <= x <= y ==> (#[trigger] prev[x]).col != before[t];
        assert(us[y].col == product::touched(us)[s]);
        assert forall|x: int| 0 <= x <= y implies (#[trigger] us[x]).col != product::touched(
            us,
        )[t] by {
            assert(prev[x].col != before[t]);
        }
    } else {
        assert(before.contains(before[s]));
        let y = choose|y: int| 0 <= y < prev.len() && (#[trigger] prev[y]).col == before[s];
        assert(us[y].col == product::touched(us)[s]);
        assert forall|x: int| 0 <= x <= y implies (#[trigger] us[x]).col != product::touched(
            us,
        )[t] by {
            assert(us[x] == prev[x]);
        }
    }
}

/// The order within a row of the plain product: the column that was reached last
/// comes first. Before any update of the column at `p`, the column at a later
/// position has had one.
pub proof fn law_product_order<V: Scalar, I: Index>(
    a: CsrView<'_, V, I>,
    b: CsrView<'_, V, I>,
    c: CsrMatrix<V, I>,
    i: int,
    p: int,
    q: int,
)
    requires
        product::multipliable(a, b),
        b.ncols - 1 <= I::spec_max_usize(),
        c.holds(b.ncols, matmul::product_rows(a, b)),
        0 <= i < a.nrows,
        0 <= p < q < c.row(i).len(),
    ensures
        ({
            let us = product::updates_of(a, b, i);
            exists|y: int|
                0 <= y < us.len() && (#[trigger] us[y]).col == c.row(i)[q].0.as_int() && forall|
                    x: int,
                |
                    0 <= x <= y ==> (#[trigger] us[x]).col != c.row(i)[p].0.as_int()
        }),
{
    let us = product::updates_of(a, b, i);
    let t = product::touched(us);
    let rows = matmul::product_rows::<V, I>(a, b);
    crate::csr::lemma_row_of_matrix(c, b.ncols, rows, i);
    product::lemma_product_in_bounds(a, b, i);
    product::lemma_touched_in_bounds(us, b.ncols as int);
    I::lemma_index_laws();
    let s = t.len() - 1 - q;
    let r = t.len() - 1 - p;
    assert(rows[i][q].0 == I::narrowed(t[s] as usize));
    assert(rows[i][p].0 == I::narrowed(t[r] as usize));
    assert(I::narrowed(t[s] as usize).as_int() == t[s]);
    assert(I::narrowed(t[r] as usize).as_int() == t[r]);
    lemma_touched_in_order(us, s, r);
}

} // verus!
