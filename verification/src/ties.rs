//! Which of several sums that tie stay, and how values compare and add up.
//!
//! Where sums tie at the boundary of the top n, the one that the kernel comes to
//! first stays. It goes through the chunks from left to right; within a chunk the
//! dense accumulator goes by column, and the linked list starts with the column
//! that was reached last.
use vstd::prelude::*;

use crate::chunked::AccumMode;
use crate::csr;
use crate::csr::{CsrMatrix, CsrView};
use crate::index::Index;
use crate::laws;
use crate::matmul;
use crate::matmul_topn::SortMode;
use crate::maxheap;
use crate::maxheap::{admits, sentinel, HeapState, Score};
use crate::permutation;
use crate::product;
use crate::product::Update;
use crate::scalar::Scalar;
use crate::selection;
use crate::sorting;
use crate::tiled;
use crate::topn;

verus! {

/// A value is acceptable under a threshold if it exceeds it, and without one if
/// it compares at all.
pub proof fn law_thresholds_are_exceeded<V: Scalar>(t: V, x: V)
    ensures
        admits(Some(t), x) <==> t.spec_less(x),
        admits(None, x) <==> x.ordered(),
{
}

/// What the sorts go by: the order of insertion; for slots that were filled, the
/// value; and the column.
pub proof fn law_sorts_go_by<V: Scalar, I: Index>(
    x: Score<V, I>,
    y: Score<V, I>,
    e: (I, V),
    f: (I, V),
)
    ensures
        maxheap::earlier::<V, I>()(x, y) <==> x.order < y.order,
        x.order < u32::MAX && y.order < u32::MAX ==> (maxheap::larger::<V, I>()(x, y)
            <==> y.val.spec_less(x.val)),
        sorting::order_of::<(I, V), sorting::ByColumn>()(e, f) <==> e.0.as_int() < f.0.as_int(),
{
}

/// How sums come about: from zero, one update at a time. The plain product rounds
/// each product before it adds it, the top-n product fuses the two steps.
pub proof fn law_sums_come_about<V: Scalar>(us: Seq<Update<V>>, u: Update<V>, k: int)
    ensures
        product::accumulate(Seq::<Update<V>>::empty(), k, true) == V::spec_zero(),
        product::accumulate(Seq::<Update<V>>::empty(), k, false) == V::spec_zero(),
        u.col != k ==> product::accumulate(us.push(u), k, true) == product::accumulate(us, k, true),
        u.col != k ==> product::accumulate(us.push(u), k, false) == product::accumulate(
            us,
            k,
            false,
        ),
        u.col == k ==> product::accumulate(us.push(u), k, true) == u.left.spec_mul_add(
            u.right,
            product::accumulate(us, k, true),
        ),
        u.col == k ==> product::accumulate(us.push(u), k, false) == product::accumulate(
            us,
            k,
            false,
        ).spec_plus(u.left.spec_times(u.right)),
{
    product::lemma_push_update(us, u);
}

/// The updates of a row: for each entry of the row of `a`, in order, its value
/// times each entry of the row of `b` that it points to, in order.
pub proof fn law_updates_of_a_row<V: Scalar, I: Index>(
    left: Seq<(int, V)>,
    e: (int, V),
    b: CsrView<'_, V, I>,
    q: int,
)
    requires
        0 <= q < b.row(e.0).len(),
    ensures
        product::row_updates(Seq::<(int, V)>::empty(), b).len() == 0,
        product::row_updates(left.push(e), b).len() == product::row_updates(left, b).len() + b.row(
            e.0,
        ).len(),
        product::row_updates(left.push(e), b).take(
            product::row_updates(left, b).len() as int,
        ) == product::row_updates(left, b),
        product::row_updates(left.push(e), b)[product::row_updates(left, b).len() + q] == (Update {
            col: b.row(e.0)[q].0,
            left: e.1,
            right: b.row(e.0)[q].1,
        }),
{
    assert(left.push(e).drop_last() =~= left);
    assert(product::row_updates(left.push(e), b).take(
        product::row_updates(left, b).len() as int,
    ) =~= product::row_updates(left, b));
}

/// Every entry of the plain product is the sum of its column, rounded step by
/// step.
pub proof fn law_product_values<V: Scalar, I: Index>(
    a: CsrView<'_, V, I>,
    b: CsrView<'_, V, I>,
    c: CsrMatrix<V, I>,
    i: int,
    p: int,
)
    requires
        product::multipliable(a, b),
        b.ncols - 1 <= I::spec_max_usize(),
        c.holds(b.ncols, matmul::product_rows(a, b)),
        0 <= i < a.nrows,
        0 <= p < c.row(i).len(),
    ensures
        c.row(i)[p].1 == product::accumulate(
            product::updates_of(a, b, i),
            c.row(i)[p].0.as_int(),
            false,
        ),
{
    let us = product::updates_of(a, b, i);
    let t = product::touched(us);
    csr::lemma_row_of_matrix(c, b.ncols, matmul::product_rows(a, b), i);
    product::lemma_product_in_bounds(a, b, i);
    product::lemma_touched_in_bounds(us, b.ncols as int);
    I::lemma_index_laws();
    let k = t[t.len() - 1 - p];
    assert(I::narrowed(k as usize).as_int() == k);
}

/// Is column `k` reached later than column `l`: does an update of `l` come before
/// any of `k`?
pub open spec fn is_reached_later<V>(us: Seq<Update<V>>, k: int, l: int) -> bool {
    exists|y: int|
        0 <= y < us.len() && (#[trigger] us[y]).col == l && forall|x: int|
            0 <= x <= y ==> (#[trigger] us[x]).col != k
}

proof fn lemma_reached_longer<V>(us: Seq<Update<V>>, k: int, l: int)
    requires
        us.len() > 0,
        is_reached_later(us.drop_last(), k, l),
    ensures
        is_reached_later(us, k, l),
{
    let prev = us.drop_last();
    let y = choose|y: int|
        0 <= y < prev.len() && (#[trigger] prev[y]).col == l && forall|x: int|
            0 <= x <= y ==> (#[trigger] prev[x]).col != k;
    assert(us[y].col == l);
    assert forall|x: int| 0 <= x <= y implies (#[trigger] us[x]).col != k by {
        assert(prev[x].col != k);
    }
}

/// Of two touched columns of a range the one listed first was reached first.
proof fn lemma_listed_as_reached<V>(us: Seq<Update<V>>, lo: int, hi: int, s: int, t: int)
    requires
        0 <= s < t < product::touched(product::within(us, lo, hi)).len(),
    ensures
        is_reached_later(
            us,
            product::touched(product::within(us, lo, hi))[t],
            product::touched(product::within(us, lo, hi))[s],
        ),
    decreases us.len(),
{
    reveal(Seq::filter);
    let ws = product::within(us, lo, hi);
    if us.len() == 0 {
        assert(ws.len() == 0);
    } else {
        let prev = us.drop_last();
        let wprev = product::within(prev, lo, hi);
        let before = product::touched(wprev);
        let u = us.last();
        if lo <= u.col < hi {
            assert(ws == wprev.push(u));
            assert(ws.drop_last() =~= wprev);
        }
        if t < before.len() {
            assert(product::touched(ws)[t] == before[t] && product::touched(ws)[s] == before[s]);
            lemma_listed_as_reached(prev, lo, hi, s, t);
            lemma_reached_longer(us, before[t], before[s]);
        } else {
            assert(lo <= u.col < hi);
            let k = u.col;
            let l = before[s];
            assert(product::touched(ws)[t] == k && product::touched(ws)[s] == l);
            assert(before.contains(l));
            product::lemma_touched(wprev);
            let w = choose|w: int| 0 <= w < wprev.len() && (#[trigger] wprev[w]).col == l;
            prev.lemma_filter_pred(|u: Update<V>| lo <= u.col < hi, w);
            laws::lemma_touched_within(prev, lo, hi, l);
            laws::lemma_touched_within(prev, lo, hi, k);
            product::lemma_touched(prev);
            let y = choose|y: int| 0 <= y < prev.len() && (#[trigger] prev[y]).col == l;
            assert(us[y].col == l);
            assert forall|x: int| 0 <= x <= y implies (#[trigger] us[x]).col != k by {
                assert(us[x] == prev[x]);
                if prev[x].col == k {
                    assert(product::touched(prev).contains(k));
                }
            }
        }
    }
}

/// The columns of a range ascend, and lie in it.
proof fn lemma_nonzero_sums_ascend<V: Scalar>(us: Seq<Update<V>>, lo: int, hi: int)
    ensures
        forall|p: int|
            0 <= p < topn::nonzero_sums(us, lo, hi).len() ==> lo <= (#[trigger] topn::nonzero_sums(
                us,
                lo,
                hi,
            )[p]).0 < hi,
        forall|p: int, q: int|
            0 <= p < q < topn::nonzero_sums(us, lo, hi).len() ==> (#[trigger] topn::nonzero_sums(
                us,
                lo,
                hi,
            )[p]).0 < (#[trigger] topn::nonzero_sums(us, lo, hi)[q]).0,
    decreases hi - lo,
{
    if lo < hi {
        lemma_nonzero_sums_ascend(us, lo, hi - 1);
        let front = topn::nonzero_sums(us, lo, hi - 1);
        let all = topn::nonzero_sums(us, lo, hi);
        assert forall|p: int| 0 <= p < all.len() implies lo <= (#[trigger] all[p]).0 < hi by {
            if p < front.len() {
                assert(all[p] == front[p]);
            }
        }
        assert forall|p: int, q: int| 0 <= p < q < all.len() implies (#[trigger] all[p]).0 < (
        #[trigger] all[q]).0 by {
            assert(all[p] == front[p]);
            if q < front.len() {
                assert(all[q] == front[q]);
            }
        }
    }
}

/// In which order is the candidate of column `k` followed by that of column `l`?
pub open spec fn is_offered_before<V: Scalar>(
    us: Seq<Update<V>>,
    cc: int,
    dense: bool,
    k: int,
    l: int,
) -> bool {
    if dense {
        k < l
    } else {
        k / cc < l / cc || (k / cc == l / cc && is_reached_later(us, k, l))
    }
}

/// The candidates of one chunk.
proof fn lemma_chunk_in_order<V: Scalar>(
    us: Seq<Update<V>>,
    lo: int,
    hi: int,
    dense: bool,
    p: int,
    q: int,
)
    requires
        0 <= p < q < topn::chunk_candidates(us, lo, hi, dense).len(),
    ensures
        ({
            let cs = topn::chunk_candidates(us, lo, hi, dense);
            if dense {
                cs[p].0 < cs[q].0
            } else {
                is_reached_later(us, cs[p].0, cs[q].0)
            }
        }),
{
    if dense {
        lemma_nonzero_sums_ascend(us, lo, hi);
    } else {
        let t = product::touched(product::within(us, lo, hi));
        lemma_listed_as_reached(us, lo, hi, t.len() - 1 - q, t.len() - 1 - p);
    }
}

proof fn lemma_chunk_within<V: Scalar>(us: Seq<Update<V>>, lo: int, hi: int, dense: bool, p: int)
    requires
        0 <= p < topn::chunk_candidates(us, lo, hi, dense).len(),
    ensures
        lo <= topn::chunk_candidates(us, lo, hi, dense)[p].0 < hi,
{
    if dense {
        lemma_nonzero_sums_ascend(us, lo, hi);
    } else {
        let ws = product::within(us, lo, hi);
        let t = product::touched(ws);
        let k = t[t.len() - 1 - p];
        assert(t.contains(k));
        product::lemma_touched(ws);
        let i = choose|i: int| 0 <= i < ws.len() && (#[trigger] ws[i]).col == k;
        us.lemma_filter_pred(|u: Update<V>| lo <= u.col < hi, i);
    }
}

proof fn lemma_upto_in_order<V: Scalar>(
    us: Seq<Update<V>>,
    ncols: int,
    cc: int,
    dense: bool,
    m: int,
    p: int,
    q: int,
)
    requires
        ncols >= 0,
        cc > 0,
        m >= 0,
        0 <= p <= q < topn::candidates_upto(us, ncols, cc, dense, m).len(),
    ensures
        0 <= topn::candidates_upto(us, ncols, cc, dense, m)[q].0 < topn::chunk_start(ncols, cc, m),
        p < q ==> is_offered_before(
            us,
            cc,
            dense,
            topn::candidates_upto(us, ncols, cc, dense, m)[p].0,
            topn::candidates_upto(us, ncols, cc, dense, m)[q].0,
        ),
    decreases m,
{
    if m > 0 {
        let cs = topn::candidates_upto(us, ncols, cc, dense, m);
        let before = topn::candidates_upto(us, ncols, cc, dense, m - 1);
        let lo = topn::chunk_start(ncols, cc, m - 1);
        let hi = topn::chunk_start(ncols, cc, m);
        let own = topn::chunk_candidates(us, lo, hi, dense);
        topn::lemma_chunk_start(ncols, cc, m - 1);
        topn::lemma_chunk_start(ncols, cc, m);
        if q < before.len() {
            lemma_upto_in_order(us, ncols, cc, dense, m - 1, p, q);
            assert(cs[p] == before[p] && cs[q] == before[q]);
        } else {
            let y = q - before.len();
            assert(cs[q] == own[y]);
            lemma_chunk_within(us, lo, hi, dense, y);
            let l = cs[q].0;
            assert(lo == (m - 1) * cc);
            assert(l / cc == m - 1) by (nonlinear_arith)
                requires
                    (m - 1) * cc <= l < (m - 1) * cc + cc,
                    cc > 0,
            ;
            if p < before.len() {
                lemma_upto_in_order(us, ncols, cc, dense, m - 1, p, p);
                let k = cs[p].0;
                assert(k == before[p].0);
                assert(k / cc < m - 1) by (nonlinear_arith)
                    requires
                        0 <= k < (m - 1) * cc,
                        cc > 0,
                ;
            } else if p < q {
                let x = p - before.len();
                assert(cs[p] == own[x]);
                lemma_chunk_within(us, lo, hi, dense, x);
                lemma_chunk_in_order(us, lo, hi, dense, x, y);
                let k = cs[p].0;
                assert(k / cc == m - 1) by (nonlinear_arith)
                    requires
                        (m - 1) * cc <= k < (m - 1) * cc + cc,
                        cc > 0,
                ;
            }
        }
    }
}

/// The order of the candidates of a row: chunk by chunk from left to right, and
/// within a chunk by column or, on the linked list, those reached last first.
pub proof fn law_candidates_in_order<V: Scalar>(
    us: Seq<Update<V>>,
    ncols: int,
    cc: int,
    dense: bool,
    p: int,
    q: int,
)
    requires
        ncols >= 0,
        cc > 0,
        0 <= p < q < topn::candidates(us, ncols, cc, dense).len(),
    ensures
        is_offered_before(
            us,
            cc,
            dense,
            topn::candidates(us, ncols, cc, dense)[p].0,
            topn::candidates(us, ncols, cc, dense)[q].0,
        ),
{
    let n = tiled::chunk_count(ncols, cc);
    if ncols > 0 {
        assert(0 <= (ncols - 1) / cc) by (nonlinear_arith)
            requires
                ncols >= 1,
                cc >= 1,
        ;
    }
    lemma_upto_in_order(us, ncols, cc, dense, n, p, q);
}

/// First come, first served in every row of a top-n product: of columns that tie,
/// one that is offered later can stay in place of an earlier one only if a larger
/// one, offered after both, drove that out. `positions` tells which candidate each
/// entry is.
pub proof fn law_row_is_first_come<V: Scalar, I: Index>(
    a: CsrView<'_, V, I>,
    b: CsrView<'_, V, I>,
    top_n: nat,
    floor: Option<V>,
    sort: SortMode,
    accum: AccumMode,
    cc: int,
    i: int,
) -> (positions: Seq<int>)
    requires
        product::multipliable(a, b),
        0 <= i < a.nrows,
        cc > 0,
        top_n > 0,
        top_n <= u32::MAX || b.ncols <= u32::MAX,
        sentinel(floor).ordered(),
    ensures
        ({
            let cs = topn::candidates(
                product::updates_of(a, b, i),
                b.ncols as int,
                cc,
                topn::uses_dense(a, b, i, accum),
            );
            &&& selection::lists(
                topn::topn_row::<V, I>(a, b, top_n, floor, sort, accum, cc, i),
                cs,
                positions,
            )
            &&& selection::is_first_come(positions.to_set(), cs, floor)
        }),
{
    let us = product::updates_of(a, b, i);
    let dense = topn::uses_dense(a, b, i, accum);
    let cs = topn::candidates(us, b.ncols as int, cc, dense);
    product::lemma_product_in_bounds(a, b, i);
    laws::law_candidates(us, b.ncols as int, cc, dense);
    lemma_selected_first_come::<V, I>(cs, top_n, floor, sort)
}

proof fn lemma_selected_first_come<V: Scalar, I: Index>(
    cs: Seq<(int, V)>,
    top_n: nat,
    floor: Option<V>,
    sort: SortMode,
) -> (positions: Seq<int>)
    requires
        top_n > 0,
        top_n <= u32::MAX || cs.len() <= u32::MAX,
        sentinel(floor).ordered(),
    ensures
        selection::lists(topn::selected::<V, I>(cs, top_n, floor, sort), cs, positions),
        selection::is_first_come(positions.to_set(), cs, floor),
{
    let (p0, q) = selection::law_first_come_stays::<V, I>(top_n, floor, cs);
    match sort {
        SortMode::ByValueDesc => q,
        SortMode::ByColumn => {
            let rows = HeapState::<V, I>::fresh(top_n, floor).offer_all(
                cs,
            ).by_insertion().entries();
            let order = sorting::order_of::<(I, V), sorting::ByColumn>();
            let perm = sorting::lemma_stable_sorted(rows, order);
            let p = permutation::permuted(p0, perm);
            let by_col = topn::selected::<V, I>(cs, top_n, floor, sort);
            assert(selection::lists(by_col, cs, p)) by {
                assert forall|k: int| 0 <= k < p.len() implies 0 <= #[trigger] p[k] < cs.len()
                    && by_col[k] == (I::narrowed(cs[p[k]].0 as usize), cs[p[k]].1) by {
                    assert(by_col[k] == rows[perm[k]]);
                    assert(p[k] == p0[perm[k]]);
                }
                assert forall|x: int, y: int|
                    0 <= x < p.len() && 0 <= y < p.len() && x != y implies p[x] != p[y] by {
                    assert(perm[x] != perm[y]);
                }
            }
            assert(p.to_set() =~= p0.to_set()) by {
                assert forall|x: int| p.to_set().contains(x) == p0.to_set().contains(x) by {
                    if p.contains(x) {
                        let k = choose|k: int| 0 <= k < p.len() && p[k] == x;
                        assert(p0[perm[k]] == x);
                    }
                    if p0.contains(x) {
                        let m = choose|m: int| 0 <= m < p0.len() && p0[m] == x;
                        assert(perm.contains(m));
                        let k = choose|k: int| 0 <= k < perm.len() && perm[k] == m;
                        assert(p[k] == x);
                    }
                }
            }
            p
        },
    }
}

} // verus!
