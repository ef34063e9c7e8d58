//! What a bounded heap keeps of the candidates offered to it.
//!
//! The results here hold for every candidate sequence: the heap property, and
//! from it the top-n law [`lemma_top_n`]. Guarded pushes, without offers, are in
//! [`crate::pushes`].
use vstd::prelude::*;

use crate::index::Index;
use crate::maxheap::{admits, below, sentinel, HeapState, Score};
use crate::permutation;
use crate::scalar::Scalar;
use crate::sorting;

verus! {

/// Of two slots at most one gives way before the other, and none before itself.
proof fn lemma_below_asymmetric<V: Scalar, I: Index>(x: Score<V, I>, y: Score<V, I>)
    ensures
        below(x, y) ==> !below(y, x),
        !below(x, x),
{
    V::lemma_less_ordered(x.val, x.val);
    if x.val.spec_less(y.val) && y.val.spec_less(x.val) {
        V::lemma_less_transitive(x.val, y.val, x.val);
    }
}

/// On ordered slots "does not give way before" is transitive.
proof fn lemma_not_below_transitive<V: Scalar, I: Index>(
    x: Score<V, I>,
    y: Score<V, I>,
    z: Score<V, I>,
)
    requires
        x.val.ordered(),
        y.val.ordered(),
        z.val.ordered(),
        !below(x, y),
        !below(y, z),
    ensures
        !below(x, z),
{
    V::lemma_not_less_transitive(x.val, y.val, z.val);
    if x.order == u32::MAX && z.order != u32::MAX && !z.val.spec_less(x.val) {
        if y.order != u32::MAX {
            V::lemma_not_less_transitive(y.val, z.val, x.val);
        } else {
            V::lemma_not_less_transitive(z.val, x.val, y.val);
        }
    }
}

/// On ordered slots giving way is transitive.
proof fn lemma_below_transitive<V: Scalar, I: Index>(
    x: Score<V, I>,
    y: Score<V, I>,
    z: Score<V, I>,
)
    requires
        x.val.ordered(),
        y.val.ordered(),
        z.val.ordered(),
        below(x, y),
        below(y, z),
    ensures
        below(x, z),
{
    lemma_below_asymmetric(y, z);
    if !below(x, z) {
        lemma_not_below_transitive(x, z, y);
    }
}

/// No slot gives way before its parent, among the first `len`.
pub open spec fn is_heap<V: Scalar, I: Index>(s: Seq<Score<V, I>>, len: int) -> bool {
    forall|c: int| 0 < c < len ==> !below(#[trigger] s[c], s[(c - 1) / 2])
}

/// Every slot's value compares with the others.
pub open spec fn all_ordered<V: Scalar, I: Index>(s: Seq<Score<V, I>>) -> bool {
    forall|i: int| 0 <= i < s.len() ==> (#[trigger] s[i]).val.ordered()
}

/// A heap but for the children of `i`, which still do not undercut `i`'s parent.
spec fn heap_but_below<V: Scalar, I: Index>(s: Seq<Score<V, I>>, i: int, len: int) -> bool {
    &&& forall|c: int|
        0 < c < len && (c - 1) / 2 != i ==> !below(#[trigger] s[c], s[(c - 1) / 2])
    &&& forall|c: int|
        0 < c < len && (c - 1) / 2 == i && i > 0 ==> !below(#[trigger] s[c], s[(i - 1) / 2])
}

/// A heap but for `i` itself, whose children still do not undercut `i`'s parent.
spec fn heap_but_above<V: Scalar, I: Index>(s: Seq<Score<V, I>>, i: int) -> bool {
    &&& forall|c: int|
        0 < c < s.len() && c != i ==> !below(#[trigger] s[c], s[(c - 1) / 2])
    &&& forall|c: int|
        0 < c < s.len() && (c - 1) / 2 == i && i > 0 ==> !below(#[trigger] s[c], s[(i - 1) / 2])
}

/// Sinking a value restores the heap below it.
proof fn lemma_sift_down_heap<V: Scalar, I: Index>(s: Seq<Score<V, I>>, i: int, len: int)
    requires
        0 <= i,
        len <= s.len(),
        all_ordered(s),
        heap_but_below(s, i, len),
    ensures
        is_heap(crate::maxheap::sifted_down(s, i, len), len),
    decreases len - i,
{
    let m = crate::maxheap::smallest_of_family(s, i, len);
    let left = 2 * i + 1;
    let right = 2 * i + 2;
    if m <= i {
        assert forall|c: int| 0 < c < len implies !below(#[trigger] s[c], s[(c - 1) / 2]) by {
            if (c - 1) / 2 == i {
                assert(c == left || c == right);
            }
        }
    } else {
        let t = crate::maxheap::swapped(s, i, m);
        assert(m == left || m == right);
        assert(below(s[m], s[i])) by {
            if m == right && left < len && below(s[left], s[i]) {
                lemma_below_transitive(s[right], s[left], s[i]);
            }
        }
        assert forall|c: int| 0 < c < len && (c - 1) / 2 == i implies
            !below(#[trigger] s[c], s[m]) by {
            lemma_below_asymmetric(s[c], s[c]);
            if c == left && m == right && below(s[left], s[right]) {
                lemma_below_transitive(s[left], s[right], s[i]);
                lemma_below_transitive(s[left], s[right], s[left]);
            }
        }
        assert forall|c: int| 0 < c < len && (c - 1) / 2 != m implies
            !below(#[trigger] t[c], t[(c - 1) / 2]) by {
            let p = (c - 1) / 2;
            if p == i {
                if c == m {
                    if below(s[i], s[m]) {
                        lemma_below_transitive(s[i], s[m], s[i]);
                        lemma_below_asymmetric(s[i], s[i]);
                    }
                } else {
                    assert(t[c] == s[c]);
                }
            } else if c == i {
                assert(!below(s[m], s[(i - 1) / 2]));
            } else {
                assert(t[c] == s[c] && t[p] == s[p]);
            }
        }
        assert forall|c: int| 0 < c < len && (c - 1) / 2 == m && m > 0 implies
            !below(#[trigger] t[c], t[(m - 1) / 2]) by {
            assert((m - 1) / 2 == i);
            assert(t[c] == s[c]);
            assert(!below(s[c], s[m]));
        }
        lemma_sift_down_heap(t, m, len);
    }
}

/// Raising a value restores the heap above it.
proof fn lemma_sift_up_heap<V: Scalar, I: Index>(s: Seq<Score<V, I>>, i: int)
    requires
        0 <= i < s.len(),
        all_ordered(s),
        heap_but_above(s, i),
    ensures
        is_heap(crate::maxheap::sifted_up(s, i), s.len() as int),
    decreases i,
{
    if i > 0 {
        let parent = (i - 1) / 2;
        if below(s[i], s[parent]) {
            let t = crate::maxheap::swapped(s, i, parent);
            assert forall|c: int| 0 < c < t.len() && c != parent implies
                !below(#[trigger] t[c], t[(c - 1) / 2]) by {
                let p = (c - 1) / 2;
                if c == i {
                    if below(s[parent], s[i]) {
                        lemma_below_transitive(s[i], s[parent], s[i]);
                        lemma_below_asymmetric(s[i], s[i]);
                    }
                } else if p == parent {
                    assert(t[c] == s[c]);
                    if below(s[c], s[i]) {
                        lemma_below_transitive(s[c], s[i], s[parent]);
                    }
                } else if p == i {
                    assert(t[c] == s[c]);
                } else {
                    assert(t[c] == s[c] && t[p] == s[p]);
                }
            }
            assert forall|c: int| 0 < c < t.len() && (c - 1) / 2 == parent && parent > 0 implies
                !below(#[trigger] t[c], t[(parent - 1) / 2]) by {
                let pp = (parent - 1) / 2;
                assert(t[pp] == s[pp]);
                assert(!below(s[parent], s[pp]));
                if c != i {
                    assert(t[c] == s[c]);
                    assert(!below(s[c], s[parent]));
                    lemma_not_below_transitive(s[c], s[parent], s[pp]);
                }
            }
            lemma_sift_up_heap(t, parent);
        } else {
            assert(is_heap(s, s.len() as int));
        }
    }
}

/// The root of a heap is a smallest value.
pub proof fn lemma_root_is_smallest<V: Scalar, I: Index>(s: Seq<Score<V, I>>, i: int)
    requires
        is_heap(s, s.len() as int),
        all_ordered(s),
        0 <= i < s.len(),
    ensures
        !below(s[i], s[0]),
    decreases i,
{
    lemma_below_asymmetric(s[0], s[0]);
    if i > 0 {
        let parent = (i - 1) / 2;
        lemma_root_is_smallest(s, parent);
        assert(!below(s[i], s[parent]));
        lemma_not_below_transitive(s[i], s[parent], s[0]);
    }
}

/// Sinking only rearranges the first `len` slots.
proof fn lemma_sift_down_permutes<V: Scalar, I: Index>(
    s: Seq<Score<V, I>>,
    i: int,
    len: int,
) -> (p: Seq<int>)
    requires
        0 <= i <= len <= s.len(),
    ensures
        permutation::is_permutation(p, s.len()),
        permutation::permuted(s, p) == crate::maxheap::sifted_down(s, i, len),
        forall|k: int| len <= k < s.len() ==> #[trigger] p[k] == k,
    decreases len - i,
{
    let m = crate::maxheap::smallest_of_family(s, i, len);
    if m <= i {
        permutation::lemma_identity(s);
        permutation::identity(s.len())
    } else {
        let t = crate::maxheap::swapped(s, i, m);
        let first = permutation::lemma_swap(s, i, m);
        let rest = lemma_sift_down_permutes(t, m, len);
        permutation::lemma_compose(s, first, rest);
        permutation::permuted(first, rest)
    }
}

/// Raising only rearranges the slots.
proof fn lemma_sift_up_permutes<V: Scalar, I: Index>(s: Seq<Score<V, I>>, i: int) -> (p: Seq<int>)
    requires
        0 <= i < s.len(),
    ensures
        permutation::is_permutation(p, s.len()),
        permutation::permuted(s, p) == crate::maxheap::sifted_up(s, i),
    decreases i,
{
    let parent = (i - 1) / 2;
    if i > 0 && below(s[i], s[parent]) {
        let t = crate::maxheap::swapped(s, i, parent);
        let first = permutation::lemma_swap(s, i, parent);
        let rest = lemma_sift_up_permutes(t, parent);
        permutation::lemma_compose(s, first, rest);
        permutation::permuted(first, rest)
    } else {
        permutation::lemma_identity(s);
        permutation::identity(s.len())
    }
}

/// A push replaces the root and rearranges the slots.
pub proof fn lemma_push_pop_permutes<V: Scalar, I: Index>(
    h: HeapState<V, I>,
    idx: I,
    val: V,
) -> (p: Seq<int>)
    requires
        h.slots.len() > 0,
    ensures
        permutation::is_permutation(p, h.slots.len()),
        h.push_pop(idx, val).slots == permutation::permuted(
            h.slots.update(0, Score { order: h.n_set, idx, val }),
            p,
        ),
{
    let last = h.slots.len() - 1;
    let new = Score { order: h.n_set, idx, val };
    let exchanged = crate::maxheap::swapped(h.slots, 0, last);
    let popped = crate::maxheap::sifted_down(exchanged, 0, last);
    let first = permutation::lemma_swap(h.slots, 0, last);
    let down = lemma_sift_down_permutes(exchanged, 0, last);
    permutation::lemma_compose(h.slots, first, down);
    let q = permutation::permuted(first, down);
    assert(permutation::permuted(h.slots, q) == popped);
    // The slot at `last` is the old root.
    assert(q[last] == 0) by {
        assert(down[last] == last);
        assert(first[last] == 0);
    }
    let pushed = popped.update(last, new);
    assert(pushed =~= permutation::permuted(h.slots.update(0, new), q)) by {
        assert forall|k: int| 0 <= k < pushed.len() implies pushed[k] == permutation::permuted(
            h.slots.update(0, new),
            q,
        )[k] by {
            if k != last {
                assert(q[k] != q[last]);
            }
        }
    }
    let up = lemma_sift_up_permutes(pushed, last);
    permutation::lemma_compose(h.slots.update(0, new), q, up);
    permutation::permuted(q, up)
}

/// A push keeps the heap property, takes out the root and puts in the new
/// score, and leaves every other slot as it was.
pub proof fn lemma_push_pop<V: Scalar, I: Index>(h: HeapState<V, I>, idx: I, val: V)
    requires
        h.slots.len() > 0,
        is_heap(h.slots, h.slots.len() as int),
        all_ordered(h.slots),
        val.ordered(),
    ensures
        ({
            let after = h.push_pop(idx, val);
            &&& after.floor == h.floor
            &&& after.slots.len() == h.slots.len()
            &&& is_heap(after.slots, after.slots.len() as int)
            &&& all_ordered(after.slots)
            &&& after.slots.to_multiset() == h.slots.to_multiset().remove(h.slots[0]).insert(
                (Score { order: h.n_set, idx, val }),
            )
        }),
{
    let n = h.slots.len();
    let last = n - 1;
    let new = Score { order: h.n_set, idx, val };
    let p = lemma_push_pop_permutes(h, idx, val);
    let after = h.push_pop(idx, val);
    let replaced = h.slots.update(0, new);
    permutation::lemma_permuted_multiset(replaced, p);
    broadcast use vstd::seq_lib::group_to_multiset_ensures;

    assert(h.slots.to_multiset().contains(h.slots[0])) by {
        assert(h.slots.contains(h.slots[0]));
    }
    vstd::seq_lib::to_multiset_update(h.slots, 0, new);
    assert(replaced.to_multiset() =~= h.slots.to_multiset().remove(h.slots[0]).insert(new));

    let exchanged = crate::maxheap::swapped(h.slots, 0, last);
    let popped = crate::maxheap::sifted_down(exchanged, 0, last);
    let pushed = popped.update(last, new);
    assert(heap_but_below(exchanged, 0, last)) by {
        assert forall|c: int| 0 < c < last && (c - 1) / 2 != 0 implies
            !below(#[trigger] exchanged[c], exchanged[(c - 1) / 2]) by {
            assert(exchanged[c] == h.slots[c]);
            assert(exchanged[(c - 1) / 2] == h.slots[(c - 1) / 2]);
        }
    }
    lemma_sift_down_heap(exchanged, 0, last);
    let down = lemma_sift_down_permutes(exchanged, 0, last);
    assert(all_ordered(pushed)) by {
        assert forall|k: int| 0 <= k < pushed.len() implies
            (#[trigger] pushed[k]).val.ordered() by {
            if k != last {
                assert(popped[k] == exchanged[down[k]]);
            }
        }
    }
    assert(heap_but_above(pushed, last)) by {
        assert forall|c: int| 0 < c < n && c != last implies
            !below(#[trigger] pushed[c], pushed[(c - 1) / 2]) by {
            assert(pushed[c] == popped[c]);
            assert(pushed[(c - 1) / 2] == popped[(c - 1) / 2]);
        }
    }
    lemma_sift_up_heap(pushed, last);
    assert(all_ordered(after.slots)) by {
        assert forall|k: int| 0 <= k < n implies (#[trigger] after.slots[k]).val.ordered() by {
            assert(after.slots[k] == replaced[p[k]]);
        }
    }
}

/// Which candidate sits in which slot: `tag[q]` is the position of the
/// candidate in slot `q`, or -1 for a slot that was never filled.
spec fn tracks<V: Scalar, I: Index>(
    h: HeapState<V, I>,
    candidates: Seq<(int, V)>,
    tag: Seq<int>,
    pushes: nat,
) -> bool {
    &&& tag.len() == h.slots.len()
    &&& forall|q: int|
        0 <= q < tag.len() ==> {
            ||| #[trigger] tag[q] == -1 && h.slots[q] == HeapState::<V, I>::unfilled(sentinel(h.floor))
            ||| {
                &&& 0 <= tag[q] < candidates.len()
                &&& h.slots[q].idx == I::narrowed(candidates[tag[q]].0 as usize)
                &&& h.slots[q].val == candidates[tag[q]].1
                &&& admits(h.floor, h.slots[q].val)
                &&& pushes <= u32::MAX ==> h.slots[q].order < pushes
            }
        }
    &&& forall|q: int, r: int|
        0 <= q < r < tag.len() && tag[q] >= 0 ==> #[trigger] tag[q] != #[trigger] tag[r]
    &&& forall|q: int, r: int|
        0 <= q < tag.len() && 0 <= r < tag.len() && 0 <= #[trigger] tag[q] < #[trigger] tag[r]
            && pushes <= u32::MAX ==> h.slots[q].order < h.slots[r].order
    &&& h.n_set == if pushes <= u32::MAX {
        pushes as int
    } else {
        u32::MAX as int
    }
    &&& pushes <= candidates.len()
}

/// The candidates that `tag` places in slots.
spec fn tagged(tag: Seq<int>) -> Set<int> {
    tag.to_set().remove(-1)
}

/// Is `kept` the choice of the `n` largest among the candidates above `floor`?
/// Everything kept exceeds the floor, at most `n` are kept, and where an
/// eligible candidate is left out, `n` others are kept and none of them is
/// smaller.
pub open spec fn is_top_n<V: Scalar>(
    kept: Set<int>,
    candidates: Seq<(int, V)>,
    floor: Option<V>,
    n: nat,
) -> bool {
    &&& kept.finite()
    &&& kept.len() <= n
    &&& forall|p: int| #[trigger]
        kept.contains(p) ==> 0 <= p < candidates.len() && admits(floor, candidates[p].1)
    &&& forall|p: int|
        0 <= p < candidates.len() && admits(floor, (#[trigger] candidates[p]).1)
            && !kept.contains(p) ==> kept.len() == n
    &&& forall|p: int, q: int|
        0 <= p < candidates.len() && admits(floor, (#[trigger] candidates[p]).1)
            && !kept.contains(p) && #[trigger] kept.contains(q)
            ==> !candidates[q].1.spec_less(candidates[p].1)
}

/// Are `entries` the candidates at `positions`, one for one?
pub open spec fn lists<V: Scalar, I: Index>(
    entries: Seq<(I, V)>,
    candidates: Seq<(int, V)>,
    positions: Seq<int>,
) -> bool {
    &&& entries.len() == positions.len()
    &&& positions.no_duplicates()
    &&& forall|q: int|
        0 <= q < positions.len() ==> 0 <= #[trigger] positions[q] < candidates.len() && entries[q]
            == (I::narrowed(candidates[positions[q]].0 as usize), candidates[positions[q]].1)
}

/// There are no more tagged candidates than slots, and exactly as many if and
/// only if no slot is unfilled.
proof fn lemma_tagged_len(tag: Seq<int>)
    requires
        forall|q: int, r: int|
            0 <= q < r < tag.len() && tag[q] >= 0 ==> #[trigger] tag[q] != #[trigger] tag[r],
        forall|q: int| 0 <= q < tag.len() ==> #[trigger] tag[q] >= -1,
    ensures
        tagged(tag).finite(),
        tagged(tag).len() <= tag.len(),
        tagged(tag).len() == tag.len() <==> !tag.contains(-1),
{
    vstd::seq_lib::seq_to_set_is_finite(tag);
    tag.lemma_cardinality_of_set();
    if tag.contains(-1) {
        assert(tag.to_set().contains(-1));
    } else {
        assert(!tag.to_set().contains(-1));
        assert(tag.no_duplicates()) by {
            assert forall|q: int, r: int| 0 <= q < tag.len() && 0 <= r < tag.len() && q != r implies tag[q]
                != tag[r] by {
                assert(tag.contains(tag[q]));
                assert(tag.contains(tag[r]));
                if q < r {
                } else {
                    assert(tag[r] != tag[q]);
                }
            }
        }
        tag.unique_seq_to_set();
        assert(tagged(tag) =~= tag.to_set());
    }
}

/// Everything that holds of a heap between two candidates.
spec fn invariant_holds<V: Scalar, I: Index>(
    h: HeapState<V, I>,
    candidates: Seq<(int, V)>,
    tag: Seq<int>,
    pushes: nat,
) -> bool {
    &&& h.slots.len() > 0
    &&& h.slots.len() <= u32::MAX || pushes <= u32::MAX
    &&& sentinel(h.floor).ordered()
    &&& is_heap(h.slots, h.slots.len() as int)
    &&& all_ordered(h.slots)
    &&& tracks(h, candidates, tag, pushes)
    &&& is_top_n(tagged(tag), candidates, h.floor, h.slots.len())
    &&& tagged(tag).len() == if pushes <= h.slots.len() {
        pushes
    } else {
        h.slots.len()
    }
}

/// A slot that was never filled gives way before one that was.
proof fn lemma_unfilled_is_below<V: Scalar, I: Index>(
    h: HeapState<V, I>,
    candidates: Seq<(int, V)>,
    tag: Seq<int>,
    pushes: nat,
    q: int,
    r: int,
)
    requires
        invariant_holds(h, candidates, tag, pushes),
        0 <= q < tag.len(),
        0 <= r < tag.len(),
        tag[q] == -1,
        tag[r] >= 0,
    ensures
        below(h.slots[q], h.slots[r]),
        h.slots[r].order != u32::MAX,
        pushes <= u32::MAX,
{
    assert(tag.contains(-1));
    lemma_tagged_len(tag);
    V::lemma_constants();
}

/// While a slot is unfilled, the root is.
proof fn lemma_root_unfilled<V: Scalar, I: Index>(
    h: HeapState<V, I>,
    candidates: Seq<(int, V)>,
    tag: Seq<int>,
    pushes: nat,
)
    requires
        invariant_holds(h, candidates, tag, pushes),
        tag[0] >= 0,
    ensures
        !tag.contains(-1),
        tagged(tag).len() == h.slots.len(),
        !h.has_room(),
{
    if tag.contains(-1) {
        let q = choose|q: int| 0 <= q < tag.len() && tag[q] == -1;
        lemma_root_is_smallest(h.slots, q);
        lemma_unfilled_is_below(h, candidates, tag, pushes, q, 0);
    }
    lemma_tagged_len(tag);
}

/// A refused candidate changes nothing.
proof fn lemma_step_refused<V: Scalar, I: Index>(
    h: HeapState<V, I>,
    candidates: Seq<(int, V)>,
    c: (int, V),
    tag: Seq<int>,
    pushes: nat,
)
    requires
        invariant_holds(h, candidates, tag, pushes),
        !h.takes(c.1),
    ensures
        invariant_holds(h, candidates.push(c), tag, pushes),
{
    let more = candidates.push(c);
    let kept = tagged(tag);
    let new = candidates.len() as int;
    assert forall|q: int| kept.contains(q) implies exists|k: int|
        0 <= k < tag.len() && #[trigger] tag[k] == q by {
        assert(tag.contains(q));
    }
    assert forall|p: int| #[trigger] kept.contains(p) implies 0 <= p < more.len()
        && admits(h.floor, more[p].1) by {
        assert(more[p] == candidates[p]);
    }
    assert forall|p: int|
        0 <= p < more.len() && admits(h.floor, (#[trigger] more[p]).1) && !kept.contains(
            p,
        ) implies kept.len() == h.slots.len() by {
        if p == new {
            // Had the root been unfilled, the candidate would have been taken.
            assert(tag[0] >= 0) by {
                if tag[0] == -1 {
                    assert(tag.contains(-1));
                    lemma_tagged_len(tag);
                }
            }
            lemma_root_unfilled(h, candidates, tag, pushes);
        } else {
            assert(more[p] == candidates[p]);
        }
    }
    assert forall|p: int, q: int|
        0 <= p < more.len() && admits(h.floor, (#[trigger] more[p]).1) && !kept.contains(p)
            && #[trigger] kept.contains(q) implies !more[q].1.spec_less(more[p].1) by {
        assert(more[q] == candidates[q]);
        if p == new {
            let k = choose|k: int| 0 <= k < tag.len() && #[trigger] tag[k] == q;
            lemma_root_is_smallest(h.slots, k);
            V::lemma_less_ordered(sentinel(h.floor), c.1);
            V::lemma_not_less_transitive(h.slots[k].val, h.slots[0].val, c.1);
        } else {
            assert(more[p] == candidates[p]);
        }
    }
    assert forall|q: int| 0 <= q < tag.len() && tag[q] >= 0 implies more[#[trigger] tag[q]]
        == candidates[tag[q]] by {}
}

/// An accepted candidate replaces the root.
proof fn lemma_step_pushed<V: Scalar, I: Index>(
    h: HeapState<V, I>,
    candidates: Seq<(int, V)>,
    c: (int, V),
    tag: Seq<int>,
    pushes: nat,
) -> (tag2: Seq<int>)
    requires
        invariant_holds(h, candidates, tag, pushes),
        h.takes(c.1),
        h.slots.len() <= u32::MAX || candidates.len() < u32::MAX,
    ensures
        invariant_holds(
            h.push_pop(I::narrowed(c.0 as usize), c.1),
            candidates.push(c),
            tag2,
            pushes + 1,
        ),
        tagged(tag2) == tagged(tag).remove(tag[0]).insert(candidates.len() as int),
{
    let more = candidates.push(c);
    let new = candidates.len() as int;
    let idx = I::narrowed(c.0 as usize);
    let kept = tagged(tag);
    let score = Score { order: h.n_set, idx, val: c.1 };
    let replaced = h.slots.update(0, score);
    let tag1 = tag.update(0, new);
    let p = lemma_push_pop_permutes(h, idx, c.1);
    let tag2 = permutation::permuted(tag1, p);
    let after = h.push_pop(idx, c.1);
    let kept2 = tagged(tag2);
    V::lemma_less_ordered(h.min(), c.1);
    lemma_push_pop(h, idx, c.1);
    if tag[0] >= 0 {
        lemma_root_unfilled(h, candidates, tag, pushes);
        assert(h.min().spec_less(c.1));
    }
    // The candidate is acceptable.
    assert(admits(h.floor, c.1)) by {
        if tag[0] >= 0 && h.floor is Some {
            V::lemma_less_transitive(h.floor->0, h.slots[0].val, c.1);
        }
    }
    assert forall|q: int| 0 <= q < tag2.len() implies {
        ||| #[trigger] tag2[q] == -1 && after.slots[q] == HeapState::<V, I>::unfilled(sentinel(after.floor))
        ||| {
            &&& 0 <= tag2[q] < more.len()
            &&& after.slots[q].idx == I::narrowed(more[tag2[q]].0 as usize)
            &&& after.slots[q].val == more[tag2[q]].1
            &&& admits(after.floor, after.slots[q].val)
            &&& pushes + 1 <= u32::MAX ==> after.slots[q].order < pushes + 1
        }
    } by {
        let k = p[q];
        assert(after.slots[q] == replaced[k]);
        assert(tag2[q] == tag1[k]);
        if k != 0 {
            assert(tag1[k] == tag[k]);
            if tag[k] >= 0 {
                assert(more[tag[k]] == candidates[tag[k]]);
            }
        }
    }
    assert forall|q: int, r: int| 0 <= q < r < tag2.len() && tag2[q] >= 0 implies #[trigger] tag2[q]
        != #[trigger] tag2[r] by {
        let k = p[q];
        let l = p[r];
        assert(k != l);
        assert(tag2[q] == tag1[k] && tag2[r] == tag1[l]);
        if k == 0 {
            assert(tag1[l] == tag[l]);
        } else if l == 0 {
            assert(tag1[k] == tag[k]);
        } else {
            assert(tag1[k] == tag[k] && tag1[l] == tag[l]);
            if k < l {
            } else {
                if tag[l] >= 0 {
                    assert(tag[l] != tag[k]);
                }
            }
        }
    }
    assert forall|q: int, r: int|
        0 <= q < tag2.len() && 0 <= r < tag2.len() && 0 <= #[trigger] tag2[q] < #[trigger] tag2[r]
            && pushes + 1 <= u32::MAX implies after.slots[q].order < after.slots[r].order by {
        let k = p[q];
        let l = p[r];
        assert(tag2[q] == tag1[k] && tag2[r] == tag1[l]);
        assert(after.slots[q] == replaced[k] && after.slots[r] == replaced[l]);
        if k != 0 {
            assert(tag1[k] == tag[k]);
        }
        if l != 0 {
            assert(tag1[l] == tag[l]);
        }
    }
    assert(tracks(after, more, tag2, pushes + 1));

    // What is kept now.
    assert(kept2 =~= kept.remove(tag[0]).insert(new)) by {
        assert forall|x: int| kept2.contains(x) implies kept.remove(tag[0]).insert(new).contains(
            x,
        ) by {
            assert(tag2.contains(x));
            let q = choose|q: int| 0 <= q < tag2.len() && tag2[q] == x;
            let k = p[q];
            assert(tag2[q] == tag1[k]);
            if k != 0 {
                assert(tag[k] == x);
                assert(tag.contains(x));
                assert(tag[0] != x) by {
                    if tag[0] == x {
                        assert(tag[0] >= 0);
                    }
                }
            }
        }
        assert forall|x: int| kept.remove(tag[0]).insert(new).contains(x) implies kept2.contains(
            x,
        ) by {
            let k = if x == new {
                0
            } else {
                assert(tag.contains(x));
                choose|k: int| 0 <= k < tag.len() && tag[k] == x
            };
            assert(tag1[k] == x);
            assert(p.contains(k));
            let q = choose|q: int| 0 <= q < p.len() && p[q] == k;
            assert(tag2[q] == x);
            assert(tag2.contains(x));
        }
    }
    lemma_tagged_len(tag);
    lemma_tagged_len(tag2);
    assert(!kept.contains(new));
    if tag[0] >= 0 {
        lemma_root_unfilled(h, candidates, tag, pushes);
        assert(tag.contains(tag[0]));
        assert(kept.contains(tag[0]));
        assert(kept2.len() == kept.len());
    } else {
        assert(tag.contains(-1)) by {
            assert(tag[0] == -1);
        }
        assert(kept.remove(tag[0]) =~= kept);
        assert(kept2.len() == kept.len() + 1);
    }
    assert forall|x: int| #[trigger] kept2.contains(x) implies 0 <= x < more.len()
        && admits(after.floor, more[x].1) by {
        if x != new {
            assert(kept.contains(x));
            assert(more[x] == candidates[x]);
        }
    }
    assert forall|x: int|
        0 <= x < more.len() && admits(after.floor, (#[trigger] more[x]).1) && !kept2.contains(
            x,
        ) implies kept2.len() == after.slots.len() by {
        assert(x != new);
        assert(more[x] == candidates[x]);
        if kept.contains(x) {
            assert(x == tag[0]);
        } else {
            assert(kept.len() == h.slots.len());
            assert(tag[0] >= 0) by {
                if tag[0] == -1 {
                    assert(tag.contains(-1));
                }
            }
        }
    }
    assert forall|x: int, q: int|
        0 <= x < more.len() && admits(after.floor, (#[trigger] more[x]).1) && !kept2.contains(x)
            && #[trigger] kept2.contains(q) implies !more[q].1.spec_less(more[x].1) by {
        assert(x != new);
        assert(more[x] == candidates[x]);
        let root = h.slots[0].val;
        if kept.contains(x) {
            // The old root has just left.
            assert(x == tag[0]);
            assert(candidates[x].1 == root);
            if q == new {
                if c.1.spec_less(root) {
                    V::lemma_less_transitive(c.1, root, c.1);
                    V::lemma_less_ordered(c.1, c.1);
                }
            } else {
                assert(kept.contains(q));
                assert(tag.contains(q));
                let k = choose|k: int| 0 <= k < tag.len() && tag[k] == q;
                lemma_root_is_smallest(h.slots, k);
                assert(more[q] == candidates[q]);
            }
        } else {
            assert(kept.len() == h.slots.len());
            assert(tag[0] >= 0) by {
                if tag[0] == -1 {
                    assert(tag.contains(-1));
                }
            }
            if q == new {
                assert(tag.contains(tag[0]));
                assert(kept.contains(tag[0]));
                assert(!candidates[tag[0]].1.spec_less(candidates[x].1));
                if c.1.spec_less(candidates[x].1) {
                    V::lemma_less_transitive(root, c.1, candidates[x].1);
                }
            } else {
                assert(kept.contains(q));
                assert(more[q] == candidates[q]);
            }
        }
    }
    tag2
}

/// The invariant holds after any candidates.
proof fn lemma_invariant<V: Scalar, I: Index>(
    capacity: nat,
    floor: Option<V>,
    candidates: Seq<(int, V)>,
) -> (r: (Seq<int>, nat))
    requires
        capacity > 0,
        capacity <= u32::MAX || candidates.len() <= u32::MAX,
        sentinel(floor).ordered(),
    ensures
        invariant_holds(
            HeapState::<V, I>::fresh(capacity, floor).offer_all(candidates),
            candidates,
            r.0,
            r.1,
        ),
    decreases candidates.len(),
{
    let h0 = HeapState::<V, I>::fresh(capacity, floor);
    if candidates.len() == 0 {
        let tag = Seq::new(capacity, |q: int| -1int);
        lemma_below_asymmetric(h0.slots[0], h0.slots[0]);
        assert(tagged(tag) =~= Set::empty()) by {
            assert forall|x: int| !tagged(tag).contains(x) by {
                if tag.contains(x) {
                    let q = choose|q: int| 0 <= q < tag.len() && tag[q] == x;
                }
            }
        }
        (tag, 0)
    } else {
        let before = candidates.drop_last();
        let c = candidates.last();
        let (tag, pushes) = lemma_invariant::<V, I>(capacity, floor, before);
        let h = h0.offer_all(before);
        assert(before.push(c) =~= candidates);
        lemma_offer_all_shape(h0, before);
        if h.takes(c.1) {
            let tag2 = lemma_step_pushed(h, before, c, tag, pushes);
            (tag2, pushes + 1)
        } else {
            lemma_step_refused(h, before, c, tag, pushes);
            (tag, pushes)
        }
    }
}

/// A floor that compares with nothing admits nothing.
proof fn lemma_unordered_floor<V: Scalar, I: Index>(
    capacity: nat,
    floor: Option<V>,
    candidates: Seq<(int, V)>,
)
    requires
        capacity > 0,
        !sentinel(floor).ordered(),
    ensures
        HeapState::<V, I>::fresh(capacity, floor).offer_all(candidates) == HeapState::<
            V,
            I,
        >::fresh(capacity, floor),
    decreases candidates.len(),
{
    if candidates.len() > 0 {
        lemma_unordered_floor::<V, I>(capacity, floor, candidates.drop_last());
        V::lemma_less_ordered(sentinel(floor), candidates.last().1);
        V::lemma_constants();
    }
}

/// Only values that compare are taken.
proof fn lemma_all_ordered<V: Scalar, I: Index>(
    capacity: nat,
    floor: Option<V>,
    candidates: Seq<(int, V)>,
)
    requires
        capacity > 0,
        sentinel(floor).ordered(),
    ensures
        all_ordered(HeapState::<V, I>::fresh(capacity, floor).offer_all(candidates).slots),
    decreases candidates.len(),
{
    if candidates.len() > 0 {
        let h = HeapState::<V, I>::fresh(capacity, floor).offer_all(candidates.drop_last());
        let c = candidates.last();
        lemma_all_ordered::<V, I>(capacity, floor, candidates.drop_last());
        lemma_offer_all_shape(HeapState::<V, I>::fresh(capacity, floor), candidates.drop_last());
        if h.takes(c.1) {
            let idx = I::narrowed(c.0 as usize);
            V::lemma_less_ordered(h.min(), c.1);
            let p = lemma_push_pop_permutes(h, idx, c.1);
            let replaced = h.slots.update(0, Score { order: h.n_set, idx, val: c.1 });
            assert forall|k: int| 0 <= k < replaced.len() implies (#[trigger] h.push_pop(
                idx,
                c.1,
            ).slots[k]).val.ordered() by {
                assert(h.push_pop(idx, c.1).slots[k] == replaced[p[k]]);
            }
        }
    }
}

/// A heap that only ever took candidates above its threshold can be sorted by
/// value: its slots compare with each other, or were never filled.
pub proof fn lemma_sortable<V: Scalar, I: Index>(
    capacity: nat,
    floor: Option<V>,
    candidates: Seq<(int, V)>,
)
    requires
        capacity > 0,
    ensures
        crate::maxheap::sortable(
            HeapState::<V, I>::fresh(capacity, floor).offer_all(candidates).slots,
        ),
        HeapState::<V, I>::fresh(capacity, floor).offer_all(candidates).slots.len() == capacity,
        HeapState::<V, I>::fresh(capacity, floor).offer_all(candidates).floor == floor,
{
    let h = HeapState::<V, I>::fresh(capacity, floor).offer_all(candidates);
    lemma_offer_all_shape(HeapState::<V, I>::fresh(capacity, floor), candidates);
    if sentinel(floor).ordered() {
        lemma_all_ordered::<V, I>(capacity, floor, candidates);
        lemma_larger_is_weak(h.slots);
    } else {
        lemma_unordered_floor::<V, I>(capacity, floor, candidates);
        lemma_below_asymmetric(h.slots[0], h.slots[0]);
    }
}

/// Candidates change neither the capacity nor the threshold.
pub proof fn lemma_offer_all_shape<V: Scalar, I: Index>(
    h: HeapState<V, I>,
    candidates: Seq<(int, V)>,
)
    requires
        h.slots.len() > 0,
    ensures
        h.offer_all(candidates).slots.len() == h.slots.len(),
        h.offer_all(candidates).floor == h.floor,
    decreases candidates.len(),
{
    if candidates.len() > 0 {
        lemma_offer_all_shape(h, candidates.drop_last());
        let before = h.offer_all(candidates.drop_last());
        let c = candidates.last();
        if before.takes(c.1) {
            let p = lemma_push_pop_permutes(before, I::narrowed(c.0 as usize), c.1);
        }
    }
}

/// Offering two sequences one after the other is offering them as one.
pub proof fn lemma_offer_all_concat<V: Scalar, I: Index>(
    h: HeapState<V, I>,
    first: Seq<(int, V)>,
    second: Seq<(int, V)>,
)
    ensures
        h.offer_all(first + second) == h.offer_all(first).offer_all(second),
    decreases second.len(),
{
    if second.len() == 0 {
        assert(first + second =~= first);
    } else {
        assert((first + second).drop_last() =~= first + second.drop_last());
        lemma_offer_all_concat(h, first, second.drop_last());
    }
}

/// Descending value is a weak order where all values compare.
proof fn lemma_larger_is_weak<V: Scalar, I: Index>(s: Seq<Score<V, I>>)
    requires
        all_ordered(s),
    ensures
        sorting::weakly_orders(crate::maxheap::larger(), s),
{
    let precedes = crate::maxheap::larger::<V, I>();
    assert forall|i: int, j: int|
        0 <= i < s.len() && 0 <= j < s.len() && precedes(
            #[trigger] s[i],
            #[trigger] s[j],
        ) implies !precedes(s[j], s[i]) by {
        lemma_below_asymmetric(s[j], s[i]);
    }
    assert forall|i: int, j: int, k: int|
        0 <= i < s.len() && 0 <= j < s.len() && 0 <= k < s.len() && !precedes(
            #[trigger] s[i],
            #[trigger] s[j],
        ) && !precedes(s[j], #[trigger] s[k]) implies !precedes(s[i], s[k]) by {
        lemma_not_below_transitive(s[k], s[j], s[i]);
    }
}

/// Is `slot` one of `slots`, tagged with `position`?
spec fn comes_from<V: Scalar, I: Index>(
    slot: Score<V, I>,
    position: int,
    slots: Seq<Score<V, I>>,
    tag: Seq<int>,
) -> bool {
    exists|q: int| 0 <= q < tag.len() && #[trigger] tag[q] == position && slot == slots[q]
}

/// Once the slots are sorted so that filled ones come first, the entries to
/// read are exactly the candidates kept.
proof fn lemma_entries<V: Scalar, I: Index>(
    h: HeapState<V, I>,
    candidates: Seq<(int, V)>,
    tag: Seq<int>,
    pushes: nat,
    precedes: spec_fn(Score<V, I>, Score<V, I>) -> bool,
) -> (positions: Seq<int>)
    requires
        invariant_holds(h, candidates, tag, pushes),
        h.slots.len() <= u32::MAX || pushes <= u32::MAX,
        sorting::weakly_orders(precedes, h.slots),
        forall|q: int, r: int|
            0 <= q < tag.len() && 0 <= r < tag.len() && #[trigger] tag[q] >= 0 && #[trigger] tag[r]
                == -1 ==> precedes(h.slots[q], h.slots[r]),
    ensures
        ({
            let sorted = HeapState {
                slots: sorting::stable_sorted(h.slots, precedes),
                ..h
            };
            &&& lists(sorted.entries(), candidates, positions)
            &&& positions.to_set() == tagged(tag)
            &&& sorting::is_sorted(sorted.slots, precedes)
            &&& forall|k: int|
                0 <= k < positions.len() ==> #[trigger] comes_from(
                    sorted.slots[k],
                    positions[k],
                    h.slots,
                    tag,
                )
        }),
{
    let sorted = HeapState { slots: sorting::stable_sorted(h.slots, precedes), ..h };
    let p = sorting::lemma_stable_sorted(h.slots, precedes);
    let stag = permutation::permuted(tag, p);
    let count = sorted.count() as int;
    let kept = tagged(tag);
    assert(count == kept.len());
    assert forall|k: int| 0 <= k < stag.len() implies #[trigger] stag[k] == tag[p[k]]
        && sorted.slots[k] == h.slots[p[k]] by {}
    assert forall|a: int, b: int| 0 <= a < b < stag.len() && stag[a] >= 0 implies #[trigger] stag[a]
        != #[trigger] stag[b] by {
        assert(p[a] != p[b]);
        if p[a] < p[b] {
            assert(tag[p[a]] != tag[p[b]]);
        } else if tag[p[b]] >= 0 {
            assert(tag[p[b]] != tag[p[a]]);
        }
    }
    // Filled slots come first.
    assert forall|a: int, b: int| 0 <= a < b < stag.len() && stag[b] >= 0 implies #[trigger] stag[a]
        >= 0 && #[trigger] stag[b] >= 0 by {
        if stag[a] < 0 {
            assert(tag[p[a]] == -1 && tag[p[b]] >= 0);
            assert(precedes(h.slots[p[b]], h.slots[p[a]]));
            assert(!precedes(sorted.slots[b], sorted.slots[a]));
        }
    }
    assert(tagged(stag) =~= kept) by {
        assert forall|x: int| tagged(stag).contains(x) == kept.contains(x) by {
            if stag.contains(x) {
                let k = choose|k: int| 0 <= k < stag.len() && stag[k] == x;
                assert(tag[p[k]] == x);
                assert(tag.contains(x));
            }
            if tag.contains(x) {
                let i = choose|i: int| 0 <= i < tag.len() && tag[i] == x;
                assert(p.contains(i));
                let k = choose|k: int| 0 <= k < p.len() && p[k] == i;
                assert(stag[k] == x);
                assert(stag.contains(x));
            }
        }
    }
    // The first `count` slots are the filled ones.
    lemma_filled_prefix(stag);
    let positions = stag.take(count);
    assert(positions.no_duplicates()) by {
        assert forall|a: int, b: int|
            0 <= a < positions.len() && 0 <= b < positions.len() && a != b implies positions[a]
            != positions[b] by {
            assert(positions[a] == stag[a] && positions[b] == stag[b]);
            if a > b {
                assert(stag[b] != stag[a]);
            }
        }
    }
    assert(positions.to_set() =~= kept) by {
        assert forall|x: int| positions.to_set().contains(x) == kept.contains(x) by {
            if positions.contains(x) {
                let k = choose|k: int| 0 <= k < positions.len() && positions[k] == x;
                assert(stag[k] == x);
                assert(stag.contains(x));
            }
            if kept.contains(x) {
                assert(stag.contains(x));
                let k = choose|k: int| 0 <= k < stag.len() && stag[k] == x;
                assert(k < count);
                assert(positions[k] == x);
            }
        }
    }
    let entries = sorted.entries();
    assert forall|k: int| 0 <= k < positions.len() implies 0 <= #[trigger] positions[k]
        < candidates.len() && entries[k] == (
        I::narrowed(candidates[positions[k]].0 as usize),
        candidates[positions[k]].1,
    ) by {
        assert(positions[k] == stag[k]);
        assert(stag[k] == tag[p[k]]);
        assert(entries[k] == (sorted.slots[k].idx, sorted.slots[k].val));
    }
    assert forall|k: int| 0 <= k < positions.len() implies #[trigger] comes_from(
        sorted.slots[k],
        positions[k],
        h.slots,
        tag,
    ) by {
        assert(positions[k] == stag[k]);
        assert(tag[p[k]] == positions[k]);
    }
    positions
}

/// Where the filled slots come first, they are as many as there are candidates.
proof fn lemma_filled_prefix(tag: Seq<int>)
    requires
        forall|q: int, r: int|
            0 <= q < r < tag.len() && tag[q] >= 0 ==> #[trigger] tag[q] != #[trigger] tag[r],
        forall|q: int| 0 <= q < tag.len() ==> #[trigger] tag[q] >= -1,
        forall|a: int, b: int|
            0 <= a < b < tag.len() && tag[b] >= 0 ==> #[trigger] tag[a] >= 0 && #[trigger] tag[b]
                >= 0,
    ensures
        forall|k: int| 0 <= k < tag.len() ==> (#[trigger] tag[k] >= 0 <==> k < tagged(tag).len()),
    decreases tag.len(),
{
    if tag.len() > 0 {
        let front = tag.drop_last();
        let n = tag.len() - 1;
        lemma_tagged_len(tag);
        lemma_tagged_len(front);
        assert forall|k: int| 0 <= k < front.len() implies #[trigger] front[k] == tag[k] by {}
        lemma_filled_prefix(front);
        if tag[n] >= 0 {
            assert(!tag.contains(-1)) by {
                if tag.contains(-1) {
                    let q = choose|q: int| 0 <= q < tag.len() && tag[q] == -1;
                    assert(q < n);
                }
            }
        } else {
            assert(tagged(tag) =~= tagged(front)) by {
                assert forall|x: int| tagged(tag).contains(x) == tagged(front).contains(x) by {
                    if tag.contains(x) && x != -1 {
                        let q = choose|q: int| 0 <= q < tag.len() && tag[q] == x;
                        assert(front[q] == x);
                        assert(front.contains(x));
                    }
                    if front.contains(x) {
                        let q = choose|q: int| 0 <= q < front.len() && front[q] == x;
                        assert(tag[q] == x);
                        assert(tag.contains(x));
                    }
                }
            }
        }
        assert forall|k: int| 0 <= k < tag.len() implies (#[trigger] tag[k] >= 0 <==> k < tagged(
            tag,
        ).len()) by {
            if k < n {
                assert(front[k] == tag[k]);
                if tag[n] >= 0 {
                    assert(tag[k] >= 0);
                }
            }
        }
    }
}

/// Do two rows list the same top-n choice among the candidates above `floor`,
/// the first in the order of the candidates, the second by descending value?
pub open spec fn list_the_top_n<V: Scalar, I: Index>(
    in_order: Seq<(I, V)>,
    by_value: Seq<(I, V)>,
    candidates: Seq<(int, V)>,
    floor: Option<V>,
    n: nat,
) -> bool {
    exists|kept: Set<int>, p: Seq<int>, q: Seq<int>|
        {
            &&& #[trigger] is_top_n(kept, candidates, floor, n)
            &&& #[trigger] lists(in_order, candidates, p)
            &&& p.to_set() == kept
            &&& candidates.len() <= u32::MAX ==> forall|i: int, j: int|
                0 <= i < j < p.len() ==> p[i] < p[j]
            &&& #[trigger] lists(by_value, candidates, q)
            &&& q.to_set() == kept
            &&& forall|i: int, j: int|
                0 <= i < j < by_value.len() ==> !(#[trigger] by_value[i]).1.spec_less(
                    (#[trigger] by_value[j]).1,
                )
        }
}

/// The top-n law. Of any candidates, a heap of capacity `n` with threshold
/// `floor` keeps the `n` largest above the floor. Sorted by insertion, its
/// entries are those candidates in the order they came; sorted by value, the
/// same candidates with the largest first.
///
/// Entries are counted in a `u32`, so either `n` or the number of candidates
/// has to fit one.
pub proof fn lemma_top_n<V: Scalar, I: Index>(n: nat, floor: Option<V>, candidates: Seq<(int, V)>)
    requires
        n > 0,
        n <= u32::MAX || candidates.len() <= u32::MAX,
    ensures
        ({
            let h = HeapState::<V, I>::fresh(n, floor).offer_all(candidates);
            list_the_top_n(
                h.by_insertion().entries(),
                h.by_value_desc().entries(),
                candidates,
                floor,
                n,
            )
        }),
{
    let h0 = HeapState::<V, I>::fresh(n, floor);
    let h = h0.offer_all(candidates);
    let in_order = h.by_insertion().entries();
    let by_value = h.by_value_desc().entries();
    if sentinel(floor).ordered() {
        let (tag, pushes) = lemma_invariant::<V, I>(n, floor, candidates);
        let earlier = crate::maxheap::earlier::<V, I>();
        let larger = crate::maxheap::larger::<V, I>();
        lemma_offer_all_shape(h0, candidates);
        lemma_tagged_len(tag);
        lemma_larger_is_weak(h.slots);
        assert forall|q: int, r: int|
            0 <= q < tag.len() && 0 <= r < tag.len() && #[trigger] tag[q] >= 0 && #[trigger] tag[r]
                == -1 implies earlier(h.slots[q], h.slots[r]) by {
            lemma_unfilled_is_below(h, candidates, tag, pushes, r, q);
        }
        assert forall|q: int, r: int|
            0 <= q < tag.len() && 0 <= r < tag.len() && #[trigger] tag[q] >= 0 && #[trigger] tag[r]
                == -1 implies larger(h.slots[q], h.slots[r]) by {
            lemma_unfilled_is_below(h, candidates, tag, pushes, r, q);
        }
        assert(sorting::weakly_orders(earlier, h.slots));
        let p = lemma_entries(h, candidates, tag, pushes, earlier);
        let q = lemma_entries(h, candidates, tag, pushes, larger);
        let kept = tagged(tag);
        assert(lists(in_order, candidates, p));
        assert(lists(by_value, candidates, q));
        if candidates.len() <= u32::MAX {
            let slots = h.by_insertion().slots;
            assert forall|i: int, j: int| 0 <= i < j < p.len() implies p[i] < p[j] by {
                assert(comes_from(slots[i], p[i], h.slots, tag));
                assert(comes_from(slots[j], p[j], h.slots, tag));
                let a = choose|a: int|
                    0 <= a < tag.len() && #[trigger] tag[a] == p[i] && slots[i] == h.slots[a];
                let b = choose|b: int|
                    0 <= b < tag.len() && #[trigger] tag[b] == p[j] && slots[j] == h.slots[b];
                assert(!earlier(slots[j], slots[i]));
                assert(p[i] != p[j]);
                if p[j] < p[i] {
                    assert(0 <= tag[b] < tag[a]);
                }
            }
        }
        let sorted = h.by_value_desc();
        assert forall|i: int, j: int| 0 <= i < j < by_value.len() implies !(
        #[trigger] by_value[i]).1.spec_less((#[trigger] by_value[j]).1) by {
            assert(!larger(sorted.slots[j], sorted.slots[i]));
            assert(by_value[i].1 == sorted.slots[i].val);
            assert(by_value[j].1 == sorted.slots[j].val);
        }
        assert(is_top_n(kept, candidates, floor, n));
    } else {
        lemma_unordered_floor::<V, I>(n, floor, candidates);
        let none = Seq::<int>::empty();
        assert(h.by_insertion().count() == 0 && h.by_value_desc().count() == 0);
        assert(in_order =~= Seq::empty());
        assert(by_value =~= Seq::empty());
        assert(lists(in_order, candidates, none));
        assert(lists(by_value, candidates, none));
        assert(none.to_set() =~= Set::empty());
        assert forall|p: int| 0 <= p < candidates.len() implies !admits(floor, (#[trigger] candidates[p]).1,
        ) by {
            V::lemma_constants();
            V::lemma_less_ordered(sentinel(floor), candidates[p].1);
        }
        assert(is_top_n(Set::<int>::empty(), candidates, floor, n));
    }
}

/// Does the earlier of two candidates that tie stay? The later one can outlast it
/// only if a larger candidate, coming after both, drove the earlier one out.
pub open spec fn is_first_come<V: Scalar>(
    kept: Set<int>,
    candidates: Seq<(int, V)>,
    floor: Option<V>,
) -> bool {
    forall|p: int, q: int|
        0 <= p < q < candidates.len() && #[trigger] kept.contains(q) && !#[trigger] kept.contains(p)
            && admits(floor, candidates[p].1) && !candidates[p].1.spec_less(candidates[q].1)
            ==> exists|r: int|
            q < r < candidates.len() && candidates[q].1.spec_less((#[trigger] candidates[r]).1)
}

proof fn lemma_first_come<V: Scalar, I: Index>(
    capacity: nat,
    floor: Option<V>,
    candidates: Seq<(int, V)>,
) -> (r: (Seq<int>, nat))
    requires
        capacity > 0,
        capacity <= u32::MAX || candidates.len() <= u32::MAX,
        sentinel(floor).ordered(),
    ensures
        invariant_holds(
            HeapState::<V, I>::fresh(capacity, floor).offer_all(candidates),
            candidates,
            r.0,
            r.1,
        ),
        is_first_come(tagged(r.0), candidates, floor),
    decreases candidates.len(),
{
    let h0 = HeapState::<V, I>::fresh(capacity, floor);
    if candidates.len() == 0 {
        lemma_invariant::<V, I>(capacity, floor, candidates)
    } else {
        let before = candidates.drop_last();
        let c = candidates.last();
        let new = before.len() as int;
        let (tag, pushes) = lemma_first_come::<V, I>(capacity, floor, before);
        let kept = tagged(tag);
        let h = h0.offer_all(before);
        assert(before.push(c) =~= candidates);
        lemma_offer_all_shape(h0, before);
        if h.takes(c.1) {
            let tag2 = lemma_step_pushed(h, before, c, tag, pushes);
            let kept2 = tagged(tag2);
            assert forall|p: int, q: int|
                0 <= p < q < candidates.len() && #[trigger] kept2.contains(q)
                    && !#[trigger] kept2.contains(p) && admits(floor, candidates[p].1)
                    && !candidates[p].1.spec_less(candidates[q].1) implies exists|r: int|
                q < r < candidates.len() && candidates[q].1.spec_less(
                    (#[trigger] candidates[r]).1,
                ) by {
                lemma_later_tie(h, before, c, tag, pushes, p, q);
            }
            (tag2, pushes + 1)
        } else {
            lemma_step_refused(h, before, c, tag, pushes);
            assert forall|p: int, q: int|
                0 <= p < q < candidates.len() && #[trigger] kept.contains(q)
                    && !#[trigger] kept.contains(p) && admits(floor, candidates[p].1)
                    && !candidates[p].1.spec_less(candidates[q].1) implies exists|r: int|
                q < r < candidates.len() && candidates[q].1.spec_less(
                    (#[trigger] candidates[r]).1,
                ) by {
                assert(q < new);
                assert(before[p] == candidates[p] && before[q] == candidates[q]);
                let r = choose|r: int|
                    q < r < before.len() && before[q].1.spec_less((#[trigger] before[r]).1);
                assert(candidates[r] == before[r]);
            }
            (tag, pushes)
        }
    }
}

/// A push can leave a later candidate in place of one that ties with it only if
/// the pushed one is larger.
proof fn lemma_later_tie<V: Scalar, I: Index>(
    h: HeapState<V, I>,
    before: Seq<(int, V)>,
    c: (int, V),
    tag: Seq<int>,
    pushes: nat,
    p: int,
    q: int,
)
    requires
        invariant_holds(h, before, tag, pushes),
        is_first_come(tagged(tag), before, h.floor),
        h.takes(c.1),
        0 <= p < q <= before.len(),
        tagged(tag).remove(tag[0]).insert(before.len() as int).contains(q),
        !tagged(tag).remove(tag[0]).insert(before.len() as int).contains(p),
        admits(h.floor, before[p].1),
        !before[p].1.spec_less(before.push(c)[q].1),
    ensures
        exists|r: int|
            q < r <= before.len() && before.push(c)[q].1.spec_less(
                (#[trigger] before.push(c)[r]).1,
            ),
{
    let all = before.push(c);
    let kept = tagged(tag);
    let new = before.len() as int;
    let root = h.slots[0].val;
    lemma_tagged_len(tag);
    if kept.contains(p) {
        // The old root has just been driven out.
        assert(p == tag[0]);
        lemma_root_unfilled(h, before, tag, pushes);
        assert(root.spec_less(c.1));
        assert(before[p].1 == root);
        V::lemma_less_ordered(root, c.1);
        if q < new {
            assert(kept.contains(q));
            assert(tag.contains(q));
            let k = choose|k: int| 0 <= k < tag.len() && tag[k] == q;
            assert(h.slots[k].val == before[q].1);
            assert(h.slots[k].val.ordered());
            if !before[q].1.spec_less(c.1) {
                V::lemma_not_less_transitive(root, before[q].1, c.1);
            }
            assert(all[q].1.spec_less(all[new].1));
        }
    } else {
        assert(kept.len() == h.slots.len());
        assert(tag[0] >= 0) by {
            if tag[0] == -1 {
                assert(tag.contains(-1));
            }
        }
        lemma_root_unfilled(h, before, tag, pushes);
        assert(root.spec_less(c.1));
        V::lemma_less_ordered(root, c.1);
        assert(tag.contains(tag[0]));
        assert(kept.contains(tag[0]));
        if q == new {
            // It would not have been taken.
            assert(!before[tag[0]].1.spec_less(before[p].1));
            crate::laws::lemma_admitted(h.floor, before[p].1);
            V::lemma_not_less_transitive(root, before[p].1, c.1);
        } else {
            assert(kept.contains(q));
            assert(all[q] == before[q]);
            let r = choose|r: int|
                q < r < before.len() && before[q].1.spec_less((#[trigger] before[r]).1);
            assert(all[r] == before[r]);
        }
    }
}

/// First come, first served: of candidates that tie at the boundary of the top n
/// the earlier ones stay, unless a larger one drives them out. Both orders list
/// the same such choice, `r.0` by insertion and `r.1` by value.
pub proof fn law_first_come_stays<V: Scalar, I: Index>(
    n: nat,
    floor: Option<V>,
    candidates: Seq<(int, V)>,
) -> (r: (Seq<int>, Seq<int>))
    requires
        n > 0,
        n <= u32::MAX || candidates.len() <= u32::MAX,
        sentinel(floor).ordered(),
    ensures
        lists(
            HeapState::<V, I>::fresh(n, floor).offer_all(candidates).by_insertion().entries(),
            candidates,
            r.0,
        ),
        lists(
            HeapState::<V, I>::fresh(n, floor).offer_all(candidates).by_value_desc().entries(),
            candidates,
            r.1,
        ),
        r.0.to_set() == r.1.to_set(),
        is_first_come(r.0.to_set(), candidates, floor),
        is_top_n(r.0.to_set(), candidates, floor, n),
{
    let h0 = HeapState::<V, I>::fresh(n, floor);
    let h = h0.offer_all(candidates);
    let (tag, pushes) = lemma_first_come::<V, I>(n, floor, candidates);
    let earlier = crate::maxheap::earlier::<V, I>();
    let larger = crate::maxheap::larger::<V, I>();
    lemma_offer_all_shape(h0, candidates);
    lemma_larger_is_weak(h.slots);
    assert forall|q: int, r: int|
        0 <= q < tag.len() && 0 <= r < tag.len() && #[trigger] tag[q] >= 0 && #[trigger] tag[r]
            == -1 implies larger(h.slots[q], h.slots[r]) && earlier(h.slots[q], h.slots[r]) by {
        lemma_unfilled_is_below(h, candidates, tag, pushes, r, q);
    }
    assert(sorting::weakly_orders(earlier, h.slots));
    let p = lemma_entries(h, candidates, tag, pushes, earlier);
    let q = lemma_entries(h, candidates, tag, pushes, larger);
    (p, q)
}

/// The candidates above the floor.
pub open spec fn eligible<V: Scalar>(candidates: Seq<(int, V)>, floor: Option<V>) -> Set<int> {
    Set::new(|p: int| 0 <= p < candidates.len() && admits(floor, candidates[p].1))
}

/// A top-n choice has `n` members, or all the eligible candidates if they are fewer.
pub proof fn lemma_top_n_len<V: Scalar>(
    kept: Set<int>,
    candidates: Seq<(int, V)>,
    floor: Option<V>,
    n: nat,
)
    requires
        is_top_n(kept, candidates, floor, n),
    ensures
        eligible(candidates, floor).finite(),
        kept.subset_of(eligible(candidates, floor)),
        kept.len() == if eligible(candidates, floor).len() <= n {
            eligible(candidates, floor).len()
        } else {
            n
        },
{
    let all = eligible(candidates, floor);
    let range = vstd::set_lib::set_int_range(0, candidates.len() as int);
    vstd::set_lib::lemma_int_range(0, candidates.len() as int);
    assert(all.subset_of(range));
    vstd::set_lib::lemma_len_subset(all, range);
    assert(kept.subset_of(all));
    vstd::set_lib::lemma_len_subset(kept, all);
    if kept.len() < n {
        assert(all =~= kept) by {
            assert forall|p: int| all.contains(p) implies kept.contains(p) by {
                assert(admits(floor, candidates[p].1));
            }
        }
    }
}

} // verus!
