//! The mathematical model of a sparse product: which updates a row of `A · B`
//! consists of, what they sum to and which columns they touch.
use vstd::prelude::*;

use crate::csr::CsrView;
use crate::index::Index;
use crate::scalar::Scalar;

verus! {

/// One elementary step of a row product: `left * right` is added to column `col`.
pub struct Update<V> {
    pub col: int,
    pub left: V,
    pub right: V,
}

/// The updates that one entry of the left row causes: its value `v` times each
/// entry of the matching row of `B`.
pub open spec fn scaled<V>(v: V, row: Seq<(int, V)>) -> Seq<Update<V>> {
    row.map_values(|e: (int, V)| Update { col: e.0, left: v, right: e.1 })
}

/// The updates of the product of the row `left` with `b`, in the order in
/// which Gustavson's algorithm makes them.
pub open spec fn row_updates<V: Scalar, I: Index>(
    left: Seq<(int, V)>,
    b: CsrView<'_, V, I>,
) -> Seq<Update<V>>
    decreases left.len(),
{
    if left.len() == 0 {
        Seq::empty()
    } else {
        row_updates(left.drop_last(), b) + scaled(left.last().1, b.row(left.last().0))
    }
}

/// One accumulation step: fused is `left * right + acc` in a single
/// operation, otherwise the product is rounded before it is added.
pub open spec fn step<V: Scalar>(acc: V, u: Update<V>, fused: bool) -> V {
    if fused {
        u.left.spec_mul_add(u.right, acc)
    } else {
        acc.spec_plus(u.left.spec_times(u.right))
    }
}

/// The sum in column `k` after the updates `us`, accumulated from zero in order.
pub open spec fn accumulate<V: Scalar>(us: Seq<Update<V>>, k: int, fused: bool) -> V
    decreases us.len(),
{
    if us.len() == 0 {
        V::spec_zero()
    } else {
        let acc = accumulate(us.drop_last(), k, fused);
        if us.last().col == k {
            step(acc, us.last(), fused)
        } else {
            acc
        }
    }
}

/// The columns that `us` touches, each once, in the order of their first touch.
pub open spec fn touched<V>(us: Seq<Update<V>>) -> Seq<int>
    decreases us.len(),
{
    if us.len() == 0 {
        Seq::empty()
    } else {
        let before = touched(us.drop_last());
        if before.contains(us.last().col) {
            before
        } else {
            before.push(us.last().col)
        }
    }
}

/// The updates of `us` whose column lies in `lo..hi`.
pub open spec fn within<V>(us: Seq<Update<V>>, lo: int, hi: int) -> Seq<Update<V>> {
    us.filter(|u: Update<V>| lo <= u.col < hi)
}

/// The entries of a row whose column lies in `lo..hi`.
pub open spec fn segment<V>(row: Seq<(int, V)>, lo: int, hi: int) -> Seq<(int, V)> {
    row.filter(|e: (int, V)| lo <= e.0 < hi)
}

/// The touched columns with their sums, most recently first touched column first.
pub open spec fn touched_sums<V: Scalar>(us: Seq<Update<V>>, fused: bool) -> Seq<(int, V)> {
    touched(us).reverse().map_values(|k: int| (k, accumulate(us, k, fused)))
}

/// Every update touches a column in `0..ncols`.
pub open spec fn in_bounds<V>(us: Seq<Update<V>>, ncols: int) -> bool {
    forall|i: int| 0 <= i < us.len() ==> 0 <= (#[trigger] us[i]).col < ncols
}

/// What one more update changes.
pub proof fn lemma_push_update<V: Scalar>(us: Seq<Update<V>>, u: Update<V>)
    ensures
        forall|k: int, fused: bool|
            #[trigger] accumulate(us.push(u), k, fused) == if u.col == k {
                step(accumulate(us, k, fused), u, fused)
            } else {
                accumulate(us, k, fused)
            },
        touched(us.push(u)) == if touched(us).contains(u.col) {
            touched(us)
        } else {
            touched(us).push(u.col)
        },
{
    assert(us.push(u).drop_last() =~= us);
}

/// The touched columns are those of the updates, without repetition.
pub proof fn lemma_touched<V>(us: Seq<Update<V>>)
    ensures
        touched(us).no_duplicates(),
        forall|k: int|
            #[trigger] touched(us).contains(k) <==> exists|i: int|
                0 <= i < us.len() && (#[trigger] us[i]).col == k,
    decreases us.len(),
{
    if us.len() > 0 {
        let prev = us.drop_last();
        lemma_touched(prev);
        let before = touched(prev);
        assert forall|k: int| #[trigger] touched(us).contains(k) implies exists|i: int|
            0 <= i < us.len() && (#[trigger] us[i]).col == k by {
            if before.contains(k) {
                let i = choose|i: int| 0 <= i < prev.len() && (#[trigger] prev[i]).col == k;
                assert(us[i].col == k);
            } else {
                assert(us[us.len() - 1].col == k);
            }
        }
        assert forall|k: int|
            (exists|i: int|
                0 <= i < us.len() && (#[trigger] us[i]).col == k) implies #[trigger] touched(
            us,
        ).contains(k) by {
            let i = choose|i: int| 0 <= i < us.len() && (#[trigger] us[i]).col == k;
            if i < prev.len() {
                assert(prev[i].col == k);
                assert(before.contains(k));
                let q = choose|q: int| 0 <= q < before.len() && before[q] == k;
                assert(touched(us)[q] == k);
            } else if !before.contains(k) {
                assert(touched(us)[before.len() as int] == k);
            }
        }
    }
}

/// No touched column leaves the bounds of the updates, and there are at most
/// as many as columns.
pub proof fn lemma_touched_in_bounds<V>(us: Seq<Update<V>>, ncols: int)
    requires
        in_bounds(us, ncols),
        ncols >= 0,
    ensures
        forall|q: int| 0 <= q < touched(us).len() ==> 0 <= #[trigger] touched(us)[q] < ncols,
        touched(us).len() <= ncols,
        touched(us).len() <= us.len(),
    decreases us.len(),
{
    lemma_touched(us);
    assert forall|q: int| 0 <= q < touched(us).len() implies 0 <= #[trigger] touched(us)[q]
        < ncols by {
        assert(touched(us).contains(touched(us)[q]));
        let i = choose|i: int| 0 <= i < us.len() && (#[trigger] us[i]).col == touched(us)[q];
        assert(0 <= us[i].col < ncols);
    }
    touched(us).unique_seq_to_set();
    let all = vstd::set_lib::set_int_range(0, ncols);
    vstd::set_lib::lemma_int_range(0, ncols);
    assert(touched(us).to_set().subset_of(all));
    vstd::set_lib::lemma_len_subset(touched(us).to_set(), all);
    lemma_touched_len(us);
}

/// At most one column per update is touched.
pub proof fn lemma_touched_len<V>(us: Seq<Update<V>>)
    ensures
        touched(us).len() <= us.len(),
    decreases us.len(),
{
    if us.len() > 0 {
        lemma_touched_len(us.drop_last());
    }
}

/// A column that is not touched keeps the zero it started from.
pub proof fn lemma_untouched_is_zero<V: Scalar>(us: Seq<Update<V>>, k: int, fused: bool)
    requires
        !touched(us).contains(k),
    ensures
        accumulate(us, k, fused) == V::spec_zero(),
    decreases us.len(),
{
    if us.len() > 0 {
        let prev = us.drop_last();
        lemma_touched(us);
        lemma_touched(prev);
        assert(us[us.len() - 1].col != k);
        assert forall|i: int| 0 <= i < prev.len() implies (#[trigger] prev[i]).col != k by {
            assert(us[i].col != k);
        }
        lemma_untouched_is_zero(prev, k, fused);
    }
}

/// Restricting the updates to a column range does not change the sums in it.
pub proof fn lemma_accumulate_within<V: Scalar>(
    us: Seq<Update<V>>,
    lo: int,
    hi: int,
    k: int,
    fused: bool,
)
    requires
        lo <= k < hi,
    ensures
        accumulate(within(us, lo, hi), k, fused) == accumulate(us, k, fused),
    decreases us.len(),
{
    reveal(Seq::filter);
    if us.len() > 0 {
        let prev = us.drop_last();
        lemma_accumulate_within(prev, lo, hi, k, fused);
        if lo <= us.last().col < hi {
            assert(within(us, lo, hi) == within(prev, lo, hi).push(us.last()));
            assert(within(us, lo, hi).drop_last() =~= within(prev, lo, hi));
        }
    }
}

/// The updates made once the first `m` entries of `left` are done and `p` of
/// those of the next entry.
pub open spec fn updates_at<V: Scalar, I: Index>(
    left: Seq<(int, V)>,
    b: CsrView<'_, V, I>,
    m: int,
    p: int,
) -> Seq<Update<V>> {
    row_updates(left.take(m), b) + scaled(left[m].1, b.row(left[m].0)).take(p)
}

/// How [`updates_at`] grows, update by update and entry by entry.
pub proof fn lemma_updates_at<V: Scalar, I: Index>(
    left: Seq<(int, V)>,
    b: CsrView<'_, V, I>,
    m: int,
)
    requires
        0 <= m < left.len(),
    ensures
        updates_at(left, b, m, 0) == row_updates(left.take(m), b),
        updates_at(left, b, m, b.row(left[m].0).len() as int) == row_updates(left.take(m + 1), b),
        forall|p: int|
            0 <= p < b.row(left[m].0).len() ==> #[trigger] updates_at(left, b, m, p + 1)
                == updates_at(left, b, m, p).push(
                (Update {
                    col: b.row(left[m].0)[p].0,
                    left: left[m].1,
                    right: b.row(left[m].0)[p].1,
                }),
            ),
{
    let row = b.row(left[m].0);
    let us = scaled(left[m].1, row);
    assert(updates_at(left, b, m, 0) =~= row_updates(left.take(m), b));
    assert(left.take(m + 1).drop_last() =~= left.take(m));
    assert(us.take(row.len() as int) =~= us);
    assert forall|p: int| 0 <= p < row.len() implies #[trigger] updates_at(left, b, m, p + 1)
        == updates_at(left, b, m, p).push(
        (Update { col: row[p].0, left: left[m].1, right: row[p].1 }),
    ) by {
        assert(us.take(p + 1) =~= us.take(p).push(us[p]));
        assert(updates_at(left, b, m, p + 1) =~= updates_at(left, b, m, p).push(us[p]));
    }
}

/// Every entry of a row of a valid matrix lies in its columns.
pub proof fn lemma_row_in_bounds<V: Scalar, I: Index>(m: CsrView<'_, V, I>, i: int)
    requires
        m.valid(),
        0 <= i < m.nrows,
    ensures
        forall|p: int| 0 <= p < m.row(i).len() ==> 0 <= (#[trigger] m.row(i)[p]).0 < m.ncols,
        m.row(i).len() == m.start(i + 1) - m.start(i),
        forall|p: int|
            0 <= p < m.row(i).len() ==> #[trigger] m.row(i)[p] == (
                m.col(m.start(i) + p),
                m.data@[m.start(i) + p],
            ),
{
    assert(m.start(i) <= m.start(i + 1));
    assert(m.start(0) <= m.start(i));
    assert(m.start(i + 1) <= m.start(m.nrows as int));
    assert forall|p: int| 0 <= p < m.row(i).len() implies 0 <= (#[trigger] m.row(i)[p]).0
        < m.ncols by {
        assert(0 <= m.col(m.start(i) + p) < m.ncols);
    }
}

/// The updates of a row product stay within the columns of `b`.
pub proof fn lemma_updates_in_bounds<V: Scalar, I: Index>(
    left: Seq<(int, V)>,
    b: CsrView<'_, V, I>,
)
    requires
        b.valid(),
        forall|p: int| 0 <= p < left.len() ==> 0 <= (#[trigger] left[p]).0 < b.nrows,
    ensures
        in_bounds(row_updates(left, b), b.ncols as int),
    decreases left.len(),
{
    if left.len() > 0 {
        let front = left.drop_last();
        assert forall|p: int| 0 <= p < front.len() implies 0 <= (#[trigger] front[p]).0
            < b.nrows by {
            assert(front[p] == left[p]);
        }
        lemma_updates_in_bounds(front, b);
        let j = left.last().0;
        assert(left[left.len() - 1].0 == j);
        lemma_row_in_bounds(b, j);
        let us = row_updates(left, b);
        assert forall|i: int| 0 <= i < us.len() implies 0 <= (#[trigger] us[i]).col < b.ncols by {
            let n = row_updates(front, b).len();
            if i < n {
                assert(us[i] == row_updates(front, b)[i]);
            } else {
                assert(us[i] == scaled(left.last().1, b.row(j))[i - n]);
                assert(us[i].col == b.row(j)[i - n].0);
            }
        }
    }
}

/// The updates of row `i` of `a · b`.
pub open spec fn updates_of<V: Scalar, I: Index>(
    a: CsrView<'_, V, I>,
    b: CsrView<'_, V, I>,
    i: int,
) -> Seq<Update<V>> {
    row_updates(a.row(i), b)
}

/// Can `a · b` be formed?
pub open spec fn multipliable<V: Scalar, I: Index>(
    a: CsrView<'_, V, I>,
    b: CsrView<'_, V, I>,
) -> bool {
    a.valid() && b.valid() && a.ncols == b.nrows
}

/// The updates of every row of a product stay within its columns.
pub proof fn lemma_product_in_bounds<V: Scalar, I: Index>(
    a: CsrView<'_, V, I>,
    b: CsrView<'_, V, I>,
    i: int,
)
    requires
        multipliable(a, b),
        0 <= i < a.nrows,
    ensures
        in_bounds(updates_of(a, b, i), b.ncols as int),
{
    lemma_row_in_bounds(a, i);
    lemma_updates_in_bounds(a.row(i), b);
}

/// Without entries on one side there are no updates.
pub proof fn lemma_no_entries_no_updates<V: Scalar, I: Index>(
    left: Seq<(int, V)>,
    b: CsrView<'_, V, I>,
)
    requires
        b.valid(),
        forall|p: int| 0 <= p < left.len() ==> 0 <= (#[trigger] left[p]).0 < b.nrows,
        left.len() == 0 || b.data@.len() == 0,
    ensures
        row_updates(left, b) == Seq::<Update<V>>::empty(),
    decreases left.len(),
{
    if left.len() > 0 {
        let front = left.drop_last();
        assert forall|p: int| 0 <= p < front.len() implies 0 <= (#[trigger] front[p]).0
            < b.nrows by {
            assert(front[p] == left[p]);
        }
        lemma_no_entries_no_updates(front, b);
        let j = left.last().0;
        assert(left[left.len() - 1].0 == j);
        lemma_row_in_bounds(b, j);
        assert(b.start(j) <= b.data@.len() && b.start(j + 1) <= b.data@.len());
        assert(row_updates(left, b) =~= Seq::<Update<V>>::empty());
    }
}

/// A product of which one factor has no entries has no updates.
pub proof fn lemma_empty_product<V: Scalar, I: Index>(
    a: CsrView<'_, V, I>,
    b: CsrView<'_, V, I>,
    i: int,
)
    requires
        multipliable(a, b),
        0 <= i < a.nrows,
        a.data@.len() == 0 || b.data@.len() == 0,
    ensures
        updates_of(a, b, i) == Seq::<Update<V>>::empty(),
{
    lemma_row_in_bounds(a, i);
    assert(a.start(i) <= a.data@.len() && a.start(i + 1) <= a.data@.len());
    lemma_no_entries_no_updates(a.row(i), b);
}

} // verus!
