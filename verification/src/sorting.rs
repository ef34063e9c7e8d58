//! Stable sorting: what it yields, and the one sort that the library calls.
use core::cmp::Ordering;
use vstd::prelude::*;

use crate::index::Index;
use crate::permutation;
use crate::scalar::Scalar;

verus! {

/// `x` inserted behind the last element of `s` that it does not precede.
pub open spec fn inserted<T>(s: Seq<T>, x: T, precedes: spec_fn(T, T) -> bool) -> Seq<T>
    decreases s.len(),
{
    if s.len() == 0 || !precedes(x, s.last()) {
        s.push(x)
    } else {
        inserted(s.drop_last(), x, precedes).push(s.last())
    }
}

/// The elements of `s` in the order of `precedes`, where those of which
/// neither precedes the other keep their order: the stable sort.
pub open spec fn stable_sorted<T>(s: Seq<T>, precedes: spec_fn(T, T) -> bool) -> Seq<T>
    decreases s.len(),
{
    if s.len() == 0 {
        s
    } else {
        inserted(stable_sorted(s.drop_last(), precedes), s.last(), precedes)
    }
}

/// A way to order elements.
pub trait Precedence<T> {
    /// Does `x` come before `y`?
    spec fn precedes(x: T, y: T) -> bool;

    /// Compare two elements; of those that tie, neither comes first.
    fn compare(x: &T, y: &T) -> (r: Ordering)
        ensures
            r == if Self::precedes(*x, *y) {
                Ordering::Less
            } else if Self::precedes(*y, *x) {
                Ordering::Greater
            } else {
                Ordering::Equal
            },
    ;
}

/// The order of a [`Precedence`].
pub open spec fn order_of<T, P: Precedence<T>>() -> spec_fn(T, T) -> bool {
    |x: T, y: T| P::precedes(x, y)
}

/// `slice::sort_by` with the comparison of `P`: the stable sort by that order.
/// The order must be a weak one on the elements at hand, which `sort_by` asks
/// of its comparison.
#[verifier::external_body]
pub(crate) fn sort_stable<T, P: Precedence<T>>(v: &mut Vec<T>)
    requires
        weakly_orders(order_of::<T, P>(), old(v)@),
    ensures
        final(v)@ == stable_sorted(old(v)@, order_of::<T, P>()),
{
    v.sort_by(|x, y| P::compare(x, y));
}

/// Entries by ascending column.
pub struct ByColumn;

impl<V: Scalar, I: Index> Precedence<(I, V)> for ByColumn {
    open spec fn precedes(x: (I, V), y: (I, V)) -> bool {
        x.0.as_int() < y.0.as_int()
    }

    fn compare(x: &(I, V), y: &(I, V)) -> (r: Ordering) {
        if x.0.before(y.0) {
            Ordering::Less
        } else if y.0.before(x.0) {
            Ordering::Greater
        } else {
            Ordering::Equal
        }
    }
}

/// The entries of a row in the order of their columns.
pub open spec fn by_column<V: Scalar, I: Index>(entries: Seq<(I, V)>) -> Seq<(I, V)> {
    stable_sorted(entries, order_of::<(I, V), ByColumn>())
}

/// Columns are ordered weakly.
pub proof fn lemma_columns_are_weak<V: Scalar, I: Index>(entries: Seq<(I, V)>)
    ensures
        weakly_orders(order_of::<(I, V), ByColumn>(), entries),
{
}

/// Put the entries of a row in the order of their columns.
pub(crate) fn sort_by_column<V: Scalar, I: Index>(entries: &mut Vec<(I, V)>)
    ensures
        final(entries)@ == by_column(old(entries)@),
        final(entries)@.len() == old(entries)@.len(),
{
    proof {
        lemma_columns_are_weak(entries@);
        lemma_stable_sorted_len(entries@, order_of::<(I, V), ByColumn>());
    }
    sort_stable::<(I, V), ByColumn>(entries);
}

/// Sorting keeps the number of elements.
pub proof fn lemma_stable_sorted_len<T>(s: Seq<T>, precedes: spec_fn(T, T) -> bool)
    ensures
        stable_sorted(s, precedes).len() == s.len(),
    decreases s.len(),
{
    if s.len() > 0 {
        lemma_stable_sorted_len(s.drop_last(), precedes);
        lemma_inserted_len(stable_sorted(s.drop_last(), precedes), s.last(), precedes);
    }
}

proof fn lemma_inserted_len<T>(s: Seq<T>, x: T, precedes: spec_fn(T, T) -> bool)
    ensures
        inserted(s, x, precedes).len() == s.len() + 1,
    decreases s.len(),
{
    if s.len() > 0 && precedes(x, s.last()) {
        lemma_inserted_len(s.drop_last(), x, precedes);
    }
}

/// Does `precedes` order the elements of `s` weakly: it is asymmetric, and
/// "does not precede" is transitive?
pub open spec fn weakly_orders<T>(precedes: spec_fn(T, T) -> bool, s: Seq<T>) -> bool {
    &&& forall|i: int, j: int|
        0 <= i < s.len() && 0 <= j < s.len() && precedes(#[trigger] s[i], #[trigger] s[j])
            ==> !precedes(s[j], s[i])
    &&& forall|i: int, j: int, k: int|
        0 <= i < s.len() && 0 <= j < s.len() && 0 <= k < s.len() && !precedes(
            #[trigger] s[i],
            #[trigger] s[j],
        ) && !precedes(s[j], #[trigger] s[k]) ==> !precedes(s[i], s[k])
}

/// Does no element of `s` precede an earlier one?
pub open spec fn is_sorted<T>(s: Seq<T>, precedes: spec_fn(T, T) -> bool) -> bool {
    forall|i: int, j: int| 0 <= i < j < s.len() ==> !precedes(#[trigger] s[j], #[trigger] s[i])
}

proof fn lemma_inserted<T>(s: Seq<T>, x: T, precedes: spec_fn(T, T) -> bool) -> (p: Seq<int>)
    ensures
        permutation::is_permutation(p, s.len() + 1),
        permutation::permuted(s.push(x), p) == inserted(s, x, precedes),
        is_sorted(s, precedes) && weakly_orders(precedes, s.push(x)) ==> is_sorted(
            inserted(s, x, precedes),
            precedes,
        ),
    decreases s.len(),
{
    let all = s.push(x);
    let n = s.len();
    if n == 0 || !precedes(x, s.last()) {
        permutation::lemma_identity(all);
        if is_sorted(s, precedes) && weakly_orders(precedes, all) {
            assert forall|i: int, j: int| 0 <= i < j < all.len() implies !precedes(
                #[trigger] all[j],
                #[trigger] all[i],
            ) by {
                if j == n {
                    assert(all[n as int] == x);
                    assert(all[n - 1] == s.last());
                    assert(all[i] == s[i]);
                    if i < n - 1 {
                        assert(!precedes(s[n - 1], s[i]));
                        assert(!precedes(all[n as int], all[n - 1]));
                        assert(!precedes(all[n - 1], all[i]));
                    }
                } else {
                    assert(all[i] == s[i] && all[j] == s[j]);
                }
            }
        }
        permutation::identity(n + 1)
    } else {
        let front = s.drop_last();
        let q = lemma_inserted(front, x, precedes);
        // Positions of `front.push(x)` as positions of `s.push(x)`, then the old last element.
        let lift = |k: int| if k == n - 1 { n as int } else { k };
        let p = Seq::new(n + 1, |k: int| if k < n { lift(q[k]) } else { n - 1 });
        let fx = front.push(x);
        let res = inserted(s, x, precedes);
        let inner = inserted(front, x, precedes);
        assert(res == inner.push(s.last()));
        assert(inner == permutation::permuted(fx, q));
        assert forall|k: int| 0 <= k < n implies #[trigger] inner[k] == all[p[k]] by {
            assert(inner[k] == fx[q[k]]);
        }
        assert(permutation::permuted(all, p) =~= res);
        assert forall|i: int| 0 <= i < n + 1 implies #[trigger] p.contains(i) by {
            if i == n - 1 {
                assert(p[n as int] == i);
            } else {
                let want = if i == n { n - 1 } else { i };
                assert(q.contains(want));
                let k = choose|k: int| 0 <= k < q.len() && q[k] == want;
                assert(p[k] == i);
            }
        }
        assert(p.no_duplicates()) by {
            assert forall|a: int, b: int| 0 <= a < p.len() && 0 <= b < p.len() && a != b implies p[a]
                != p[b] by {
                if a < n && b < n {
                    assert(q[a] != q[b]);
                }
            }
        }
        if is_sorted(s, precedes) && weakly_orders(precedes, all) {
            assert(weakly_orders(precedes, fx)) by {
                assert forall|i: int| 0 <= i < fx.len() implies
                    #[trigger] fx[i] == all[lift(i)] by {
                }
            }
            assert forall|i: int, j: int| 0 <= i < j < res.len() implies !precedes(
                #[trigger] res[j],
                #[trigger] res[i],
            ) by {
                assert(res[i] == inner[i]);
                if j == n {
                    let k = p[i];
                    assert(res[i] == all[k]);
                    if k == n {
                        assert(precedes(all[n as int], all[n - 1]));
                    } else {
                        assert(all[k] == s[k]);
                        assert(k != n - 1);
                    }
                } else {
                    assert(res[j] == inner[j]);
                }
            }
        }
        p
    }
}

/// The stable sort rearranges the elements, and sorts them where the order is
/// a weak one on them.
pub proof fn lemma_stable_sorted<T>(s: Seq<T>, precedes: spec_fn(T, T) -> bool) -> (p: Seq<int>)
    ensures
        permutation::is_permutation(p, s.len()),
        permutation::permuted(s, p) == stable_sorted(s, precedes),
        weakly_orders(precedes, s) ==> is_sorted(
            stable_sorted(s, precedes),
            precedes,
        ),
    decreases s.len(),
{
    if s.len() == 0 {
        permutation::lemma_identity(s);
        permutation::identity(0)
    } else {
        let front = s.drop_last();
        let x = s.last();
        let n = front.len();
        let q = lemma_stable_sorted(front, precedes);
        let sorted = stable_sorted(front, precedes);
        let r = lemma_inserted(sorted, x, precedes);
        // `q` with the last position kept in place.
        let qx = q.push(n as int);
        assert(permutation::is_permutation(qx, s.len())) by {
            assert forall|i: int| 0 <= i < s.len() implies #[trigger] qx.contains(i) by {
                if i == n {
                    assert(qx[n as int] == i);
                } else {
                    assert(q.contains(i));
                    let k = choose|k: int| 0 <= k < q.len() && q[k] == i;
                    assert(qx[k] == i);
                }
            }
        }
        assert(permutation::permuted(s, qx) =~= sorted.push(x));
        permutation::lemma_compose(s, qx, r);
        if weakly_orders(precedes, s) {
            assert(weakly_orders(precedes, front)) by {
                assert forall|i: int| 0 <= i < front.len() implies #[trigger] front[i] == s[i] by {}
            }
            assert(weakly_orders(precedes, sorted.push(x))) by {
                assert forall|i: int| 0 <= i < s.len() implies #[trigger] sorted.push(x)[i]
                    == s[qx[i]] by {
                    assert(sorted.push(x) == permutation::permuted(s, qx));
                }
            }
        }
        permutation::permuted(qx, r)
    }
}

} // verus!
