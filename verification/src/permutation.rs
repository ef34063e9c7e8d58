//! Permutations of sequences, used to follow elements through swaps and sorts.
use vstd::prelude::*;

verus! {

/// Is `p` a permutation of the positions `0..n`?
pub open spec fn is_permutation(p: Seq<int>, n: nat) -> bool {
    &&& p.len() == n
    &&& forall|k: int| 0 <= k < n ==> 0 <= #[trigger] p[k] < n
    &&& p.no_duplicates()
    &&& forall|i: int| 0 <= i < n ==> #[trigger] p.contains(i)
}

/// The elements of `s` in the order of the positions `p`.
pub open spec fn permuted<T>(s: Seq<T>, p: Seq<int>) -> Seq<T> {
    Seq::new(p.len(), |k: int| s[p[k]])
}

/// The positions in their own order.
pub open spec fn identity(n: nat) -> Seq<int> {
    Seq::new(n, |k: int| k)
}

/// The identity is a permutation.
pub proof fn lemma_identity<T>(s: Seq<T>)
    ensures
        is_permutation(identity(s.len()), s.len()),
        permuted(s, identity(s.len())) == s,
{
    let p = identity(s.len());
    assert forall|i: int| 0 <= i < s.len() implies #[trigger] p.contains(i) by {
        assert(p[i] == i);
    }
    assert(permuted(s, p) =~= s);
}

/// Permutations compose.
pub proof fn lemma_compose<T>(s: Seq<T>, p: Seq<int>, q: Seq<int>)
    requires
        is_permutation(p, s.len()),
        is_permutation(q, s.len()),
    ensures
        is_permutation(permuted(p, q), s.len()),
        permuted(s, permuted(p, q)) == permuted(permuted(s, p), q),
{
    let r = permuted(p, q);
    assert forall|i: int| 0 <= i < s.len() implies #[trigger] r.contains(i) by {
        assert(p.contains(i));
        let a = choose|a: int| 0 <= a < p.len() && p[a] == i;
        assert(q.contains(a));
        let k = choose|k: int| 0 <= k < q.len() && q[k] == a;
        assert(r[k] == i);
    }
    assert(permuted(s, r) =~= permuted(permuted(s, p), q));
}

/// The exchange of two positions is a permutation.
pub proof fn lemma_swap<T>(s: Seq<T>, i: int, j: int) -> (p: Seq<int>)
    requires
        0 <= i < s.len(),
        0 <= j < s.len(),
    ensures
        is_permutation(p, s.len()),
        permuted(s, p) == crate::maxheap::swapped(s, i, j),
        p == crate::maxheap::swapped(identity(s.len()), i, j),
{
    let p = crate::maxheap::swapped(identity(s.len()), i, j);
    assert forall|x: int| 0 <= x < s.len() implies #[trigger] p.contains(x) by {
        if x == i {
            assert(p[j] == x);
        } else if x == j {
            assert(p[i] == x);
        } else {
            assert(p[x] == x);
        }
    }
    assert(permuted(s, p) =~= crate::maxheap::swapped(s, i, j));
    p
}

/// Permuting keeps the elements, with their multiplicities.
pub proof fn lemma_permuted_multiset<T>(s: Seq<T>, p: Seq<int>)
    requires
        is_permutation(p, s.len()),
    ensures
        permuted(s, p).to_multiset() == s.to_multiset(),
    decreases s.len(),
{
    broadcast use vstd::seq_lib::group_to_multiset_ensures;

    if s.len() == 0 {
        assert(permuted(s, p) =~= s);
    } else {
        let n = s.len();
        let last = n - 1;
        assert(p.contains(last as int));
        let k = choose|k: int| 0 <= k < p.len() && p[k] == last;
        let q = p.remove(k);
        let rest = s.drop_last();
        assert forall|i: int| 0 <= i < last implies 0 <= #[trigger] q[i] < last by {
            let from = if i < k { i } else { i + 1 };
            assert(q[i] == p[from]);
            assert(p[from] != p[k]);
        }
        assert forall|i: int| 0 <= i < last implies #[trigger] q.contains(i) by {
            assert(p.contains(i));
            let a = choose|a: int| 0 <= a < p.len() && p[a] == i;
            if a < k {
                assert(q[a] == i);
            } else {
                assert(q[a - 1] == i);
            }
        }
        assert(q.no_duplicates()) by {
            assert forall|a: int, b: int| 0 <= a < q.len() && 0 <= b < q.len() && a != b implies q[a]
                != q[b] by {
                let fa = if a < k { a } else { a + 1 };
                let fb = if b < k { b } else { b + 1 };
                assert(q[a] == p[fa] && q[b] == p[fb]);
            }
        }
        lemma_permuted_multiset(rest, q);
        let t = permuted(s, p);
        assert(t.remove(k) =~= permuted(rest, q)) by {
            assert forall|i: int| 0 <= i < last implies t.remove(k)[i] == permuted(rest, q)[i] by {
                let from = if i < k { i } else { i + 1 };
                assert(q[i] == p[from]);
            }
        }
        vstd::seq_lib::to_multiset_remove(t, k);
        assert(t =~= t.remove(k).insert(k, t[k]));
        vstd::seq_lib::to_multiset_insert(t.remove(k), k, t[k]);
        assert(t[k] == s.last());
        assert(s =~= rest.push(s.last()));
        vstd::seq_lib::to_multiset_build(rest, s.last());
    }
}

} // verus!
