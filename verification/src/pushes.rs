//! What a bounded heap holds after a sequence of guarded pushes.
//!
//! Whoever pushes to a [`crate::maxheap::MaxHeap`] guards each push with
//! `val > min`, where `min` is the value that the last push returned. Under
//! that guard the returned value is the smallest of the current top n.
use vstd::prelude::*;

use crate::index::Index;
use crate::maxheap::{HeapState, Score};
use crate::permutation;
use crate::scalar::Scalar;
use crate::selection;

verus! {

/// The state after the pushes, in order.
pub open spec fn push_all<V: Scalar, I: Index>(
    h: HeapState<V, I>,
    pushes: Seq<(I, V)>,
) -> HeapState<V, I>
    decreases pushes.len(),
{
    if pushes.len() == 0 {
        h
    } else {
        push_all(h, pushes.drop_last()).push_pop(pushes.last().0, pushes.last().1)
    }
}

/// Does every push exceed the root that it finds?
pub open spec fn is_guarded<V: Scalar, I: Index>(
    h: HeapState<V, I>,
    pushes: Seq<(I, V)>,
) -> bool {
    forall|k: int|
        0 <= k < pushes.len() ==> push_all(h, pushes.take(k)).min().spec_less(
            (#[trigger] pushes[k]).1,
        )
}

/// The values that compete for the slots: `cap` copies of the threshold, then
/// the pushed values.
pub open spec fn contenders<V: Scalar, I: Index>(
    cap: nat,
    threshold: V,
    pushes: Seq<(I, V)>,
) -> Seq<V> {
    Seq::new(cap, |k: int| threshold) + crate::csr::values(pushes)
}

/// Are the values at these positions the largest? None left out exceeds one of
/// them.
pub open spec fn are_largest<V: Scalar>(positions: Seq<int>, vals: Seq<V>) -> bool {
    &&& positions.no_duplicates()
    &&& forall|q: int|
        0 <= q < positions.len() ==> 0 <= #[trigger] positions[q] < vals.len()
    &&& forall|k: int, q: int|
        0 <= k < vals.len() && !positions.contains(k) && 0 <= q < positions.len() ==> !vals[
        #[trigger] positions[q]].spec_less(#[trigger] vals[k])
}

/// Is `x` the smallest of the values at these positions?
pub open spec fn is_smallest<V: Scalar>(x: V, positions: Seq<int>, vals: Seq<V>) -> bool {
    &&& exists|q: int| 0 <= q < positions.len() && x == vals[#[trigger] positions[q]]
    &&& forall|q: int|
        0 <= q < positions.len() ==> !vals[#[trigger] positions[q]].spec_less(x)
}

/// Do the slots hold what is at these positions among the contenders: a slot
/// that was never filled, or a pushed value with the index it came with?
pub open spec fn slots_hold<V: Scalar, I: Index>(
    h: HeapState<V, I>,
    positions: Seq<int>,
    cap: nat,
    threshold: V,
    pushes: Seq<(I, V)>,
) -> bool {
    &&& positions.len() == h.slots.len()
    &&& forall|q: int|
        0 <= q < positions.len() ==> if #[trigger] positions[q] < cap {
            h.slots[q] == HeapState::<V, I>::unfilled(threshold)
        } else {
            (h.slots[q].idx, h.slots[q].val) == pushes[positions[q] - cap]
        }
}

/// Does the heap hold the largest of the contenders, with the smallest of them
/// at its root?
spec fn in_order<V: Scalar, I: Index>(
    h: HeapState<V, I>,
    positions: Seq<int>,
    cap: nat,
    threshold: V,
    pushes: Seq<(I, V)>,
) -> bool {
    let vals = contenders(cap, threshold, pushes);
    &&& h.floor == Some(threshold)
    &&& h.slots.len() == cap
    &&& selection::is_heap(h.slots, cap as int)
    &&& selection::all_ordered(h.slots)
    &&& h.n_set == if pushes.len() <= u32::MAX {
        pushes.len() as int
    } else {
        u32::MAX as int
    }
    &&& slots_hold(h, positions, cap, threshold, pushes)
    &&& are_largest(positions, vals)
    &&& is_smallest(h.min(), positions, vals)
    &&& !h.min().spec_less(threshold)
    &&& forall|k: int| 0 <= k < pushes.len() ==> threshold.spec_less((#[trigger] pushes[k]).1)
}

/// What a slot holds is the contender at its position.
proof fn lemma_slot_value<V: Scalar, I: Index>(
    h: HeapState<V, I>,
    positions: Seq<int>,
    cap: nat,
    threshold: V,
    pushes: Seq<(I, V)>,
    q: int,
)
    requires
        slots_hold(h, positions, cap, threshold, pushes),
        0 <= q < positions.len(),
        0 <= positions[q] < cap + pushes.len(),
    ensures
        h.slots[q].val == contenders(cap, threshold, pushes)[positions[q]],
{
}

/// One more push.
proof fn lemma_push<V: Scalar, I: Index>(
    h: HeapState<V, I>,
    positions: Seq<int>,
    cap: nat,
    threshold: V,
    before: Seq<(I, V)>,
    push: (I, V),
) -> (moved: Seq<int>)
    requires
        cap > 0,
        threshold.ordered(),
        in_order(h, positions, cap, threshold, before),
        h.min().spec_less(push.1),
    ensures
        in_order(h.push_pop(push.0, push.1), moved, cap, threshold, before.push(push)),
        !h.push_pop(push.0, push.1).min().spec_less(h.min()),
{
    let pushes = before.push(push);
    let old_vals = contenders(cap, threshold, before);
    let vals = contenders(cap, threshold, pushes);
    let new = cap + before.len();
    let score = Score { order: h.n_set, idx: push.0, val: push.1 };
    let replaced = h.slots.update(0, score);
    let after = h.push_pop(push.0, push.1);
    let p = selection::lemma_push_pop_permutes(h, push.0, push.1);
    let put = positions.update(0, new as int);
    let moved = permutation::permuted(put, p);
    let root = h.min();
    V::lemma_less_ordered(root, push.1);
    selection::lemma_push_pop(h, push.0, push.1);
    assert(vals =~= old_vals.push(push.1));
    assert(threshold.spec_less(push.1)) by {
        if !threshold.spec_less(push.1) {
            V::lemma_not_less_transitive(root, threshold, push.1);
        }
    }
    assert forall|k: int| 0 <= k < pushes.len() implies threshold.spec_less(
        (#[trigger] pushes[k]).1,
    ) by {
        if k < before.len() {
            assert(pushes[k] == before[k]);
        }
    }
    assert forall|q: int| 0 <= q < moved.len() implies 0 <= #[trigger] moved[q] < vals.len()
        && after.slots[q] == replaced[p[q]] && moved[q] == put[p[q]] && (p[q] != 0 ==> moved[q]
        == positions[p[q]] && after.slots[q] == h.slots[p[q]] && 0 <= moved[q] < new) by {
        assert(0 <= p[q] < cap);
        if p[q] != 0 {
            assert(0 <= positions[p[q]] < old_vals.len());
        }
    }
    assert(slots_hold(after, moved, cap, threshold, pushes)) by {
        assert forall|q: int| 0 <= q < moved.len() implies if #[trigger] moved[q] < cap {
            after.slots[q] == HeapState::<V, I>::unfilled(threshold)
        } else {
            (after.slots[q].idx, after.slots[q].val) == pushes[moved[q] - cap]
        } by {
            if p[q] != 0 {
                assert(positions[p[q]] == moved[q]);
            }
        }
    }
    assert(moved.no_duplicates()) by {
        assert forall|x: int, y: int| 0 <= x < moved.len() && 0 <= y < moved.len() && x != y implies moved[x]
            != moved[y] by {
            assert(p[x] != p[y]);
            if p[x] != 0 && p[y] != 0 {
                assert(positions[p[x]] != positions[p[y]]);
            }
        }
    }
    // No slot is smaller than the old root, and none than the new one.
    assert forall|q: int| 0 <= q < moved.len() implies !vals[#[trigger] moved[q]].spec_less(root)
        && !vals[moved[q]].spec_less(after.min()) && vals[moved[q]] == after.slots[q].val by {
        lemma_slot_value(after, moved, cap, threshold, pushes, q);
        selection::lemma_root_is_smallest(after.slots, q);
        if p[q] == 0 {
            if push.1.spec_less(root) {
                V::lemma_less_transitive(root, push.1, root);
                V::lemma_less_ordered(root, root);
            }
        } else {
            selection::lemma_root_is_smallest(h.slots, p[q]);
        }
    }
    assert(vals[moved[0]] == after.min());
    assert(is_smallest(after.min(), moved, vals));
    assert(!after.min().spec_less(threshold)) by {
        V::lemma_not_less_transitive(after.min(), root, threshold);
    }
    assert(are_largest(moved, vals)) by {
        assert forall|k: int, q: int|
            0 <= k < vals.len() && !moved.contains(k) && 0 <= q < moved.len() implies !vals[
        #[trigger] moved[q]].spec_less(#[trigger] vals[k]) by {
            assert(k != new) by {
                assert(p.contains(0));
                let x = choose|x: int| 0 <= x < p.len() && p[x] == 0;
                assert(moved[x] == new);
            }
            assert(vals[k] == old_vals[k]);
            assert(!root.spec_less(vals[k])) by {
                lemma_slot_value(h, positions, cap, threshold, before, 0);
                if positions.contains(k) {
                    let y = choose|y: int| 0 <= y < positions.len() && positions[y] == k;
                    if y != 0 {
                        assert(p.contains(y));
                        let x = choose|x: int| 0 <= x < p.len() && p[x] == y;
                        assert(moved[x] == k);
                    }
                    V::lemma_less_ordered(root, root);
                } else {
                    assert(!old_vals[positions[0]].spec_less(old_vals[k]));
                }
            }
            if vals[moved[q]].spec_less(vals[k]) {
                V::lemma_less_ordered(vals[moved[q]], vals[k]);
                V::lemma_not_less_transitive(vals[moved[q]], root, vals[k]);
            }
        }
    }
    moved
}

/// The pushes so far were guarded too.
proof fn lemma_guarded_front<V: Scalar, I: Index>(h: HeapState<V, I>, pushes: Seq<(I, V)>)
    requires
        pushes.len() > 0,
        is_guarded(h, pushes),
    ensures
        is_guarded(h, pushes.drop_last()),
        push_all(h, pushes.drop_last()).min().spec_less(pushes.last().1),
{
    let front = pushes.drop_last();
    let last = pushes.len() - 1;
    assert(pushes.take(last) =~= front);
    assert(push_all(h, pushes.take(last)).min().spec_less(pushes[last].1));
    assert forall|k: int| 0 <= k < front.len() implies push_all(h, front.take(k)).min().spec_less(
        (#[trigger] front[k]).1,
    ) by {
        assert(front.take(k) =~= pushes.take(k));
        assert(front[k] == pushes[k]);
    }
}

proof fn lemma_pushes<V: Scalar, I: Index>(
    cap: nat,
    threshold: V,
    pushes: Seq<(I, V)>,
) -> (positions: Seq<int>)
    requires
        cap > 0,
        threshold.ordered(),
        is_guarded(HeapState::<V, I>::fresh(cap, Some(threshold)), pushes),
    ensures
        in_order(
            push_all(HeapState::<V, I>::fresh(cap, Some(threshold)), pushes),
            positions,
            cap,
            threshold,
            pushes,
        ),
    decreases pushes.len(),
{
    let h0 = HeapState::<V, I>::fresh(cap, Some(threshold));
    if pushes.len() == 0 {
        let positions = permutation::identity(cap);
        let vals = contenders(cap, threshold, pushes);
        V::lemma_less_ordered(threshold, threshold);
        assert forall|k: int| 0 <= k < vals.len() implies vals[k] == threshold
            && positions.contains(k) by {
            assert(positions[k] == k);
        }
        assert(h0.min() == vals[positions[0]]);
        positions
    } else {
        let front = pushes.drop_last();
        lemma_guarded_front(h0, pushes);
        let positions = lemma_pushes(cap, threshold, front);
        assert(front.push(pushes.last()) =~= pushes);
        lemma_push(push_all(h0, front), positions, cap, threshold, front, pushes.last())
    }
}

/// The sequence law of guarded pushes. After any pushes to a fresh heap of
/// `cap` slots, each of a value above the root it finds, the root is the
/// smallest of the `cap` largest among the pushed values and `cap` copies of the
/// threshold. Every slot holds one of those largest, a pushed value still with
/// its index, and as long as a slot is unfilled no pushed value has left. The
/// entries to read are as many as the pushes, up to the capacity.
///
/// Pushes are counted in a `u32`, so for that last clause either the capacity
/// or the number of pushes has to fit one.
pub proof fn law_guarded_pushes<V: Scalar, I: Index>(
    cap: nat,
    threshold: V,
    pushes: Seq<(I, V)>,
) -> (positions: Seq<int>)
    requires
        cap > 0,
        threshold.ordered(),
        is_guarded(HeapState::<V, I>::fresh(cap, Some(threshold)), pushes),
    ensures
        ({
            let h = push_all(HeapState::<V, I>::fresh(cap, Some(threshold)), pushes);
            let vals = contenders(cap, threshold, pushes);
            &&& positions.len() == cap
            &&& are_largest(positions, vals)
            &&& is_smallest(h.min(), positions, vals)
            &&& slots_hold(h, positions, cap, threshold, pushes)
            &&& (exists|q: int| 0 <= q < cap && #[trigger] positions[q] < cap) ==> forall|k: int|
                cap <= k < cap + pushes.len() ==> #[trigger] positions.contains(k)
            &&& cap <= u32::MAX || pushes.len() <= u32::MAX ==> h.count() == if pushes.len()
                <= cap {
                pushes.len()
            } else {
                cap
            }
        }),
{
    let h = push_all(HeapState::<V, I>::fresh(cap, Some(threshold)), pushes);
    let vals = contenders(cap, threshold, pushes);
    let positions = lemma_pushes(cap, threshold, pushes);
    if exists|q: int| 0 <= q < cap && #[trigger] positions[q] < cap {
        let q = choose|q: int| 0 <= q < cap && #[trigger] positions[q] < cap;
        assert forall|k: int| cap <= k < cap + pushes.len() implies #[trigger] positions.contains(
            k,
        ) by {
            if !positions.contains(k) {
                assert(vals[k] == pushes[k - cap].1);
                assert(vals[positions[q]] == threshold);
                assert(!vals[positions[q]].spec_less(vals[k]));
            }
        }
    }
    positions
}

/// The root never decreases from one guarded push to a later one.
pub proof fn law_roots_never_decrease<V: Scalar, I: Index>(
    cap: nat,
    threshold: V,
    pushes: Seq<(I, V)>,
    x: int,
    y: int,
)
    requires
        cap > 0,
        threshold.ordered(),
        is_guarded(HeapState::<V, I>::fresh(cap, Some(threshold)), pushes),
        0 <= x <= y <= pushes.len(),
    ensures
        ({
            let h0 = HeapState::<V, I>::fresh(cap, Some(threshold));
            !push_all(h0, pushes.take(y)).min().spec_less(push_all(h0, pushes.take(x)).min())
        }),
    decreases pushes.len() + y,
{
    let h0 = HeapState::<V, I>::fresh(cap, Some(threshold));
    let later = push_all(h0, pushes.take(y)).min();
    let earlier = push_all(h0, pushes.take(x)).min();
    if x == y {
        V::lemma_less_ordered(later, later);
    } else if y < pushes.len() {
        lemma_guarded_front(h0, pushes);
        law_roots_never_decrease(cap, threshold, pushes.drop_last(), x, y);
        assert(pushes.drop_last().take(x) =~= pushes.take(x));
        assert(pushes.drop_last().take(y) =~= pushes.take(y));
    } else {
        let front = pushes.drop_last();
        assert(pushes.take(y) =~= pushes);
        assert(pushes.take(y - 1) =~= front);
        assert(front.push(pushes.last()) =~= pushes);
        lemma_guarded_front(h0, pushes);
        let positions = lemma_pushes(cap, threshold, front);
        let before = push_all(h0, front);
        let moved = lemma_push(before, positions, cap, threshold, front, pushes.last());
        law_roots_never_decrease(cap, threshold, front, x, y - 1);
        assert(front.take(x) =~= pushes.take(x));
        assert(front.take(y - 1) =~= front);
        if later.spec_less(earlier) {
            V::lemma_less_ordered(later, earlier);
            assert(before.slots[0].val.ordered());
            V::lemma_not_less_transitive(later, before.min(), earlier);
        }
    }
}

/// The candidates that the pushes amount to.
pub open spec fn pushed_candidates<V: Scalar, I: Index>(pushes: Seq<(I, V)>) -> Seq<(int, V)> {
    pushes.map_values(|e: (I, V)| (e.0.as_int(), e.1))
}

/// Guarded pushes of columns keep the `cap` largest pushed values, each with its
/// column: sorted by insertion in the order they came, sorted by value with the
/// largest first.
pub proof fn law_guarded_pushes_keep_the_largest<V: Scalar, I: Index>(
    cap: nat,
    threshold: V,
    pushes: Seq<(I, V)>,
)
    requires
        cap > 0,
        cap <= u32::MAX || pushes.len() <= u32::MAX,
        threshold.ordered(),
        is_guarded(HeapState::<V, I>::fresh(cap, Some(threshold)), pushes),
        forall|k: int|
            0 <= k < pushes.len() ==> 0 <= (#[trigger] pushes[k]).0.as_int() <= usize::MAX,
    ensures
        ({
            let h = push_all(HeapState::<V, I>::fresh(cap, Some(threshold)), pushes);
            selection::list_the_top_n(
                h.by_insertion().entries(),
                h.by_value_desc().entries(),
                pushed_candidates(pushes),
                Some(threshold),
                cap,
            )
        }),
{
    lemma_pushes_are_offers(HeapState::<V, I>::fresh(cap, Some(threshold)), pushes);
    selection::lemma_top_n::<V, I>(cap, Some(threshold), pushed_candidates(pushes));
}

/// A guarded push is an offer that is taken.
proof fn lemma_pushes_are_offers<V: Scalar, I: Index>(h: HeapState<V, I>, pushes: Seq<(I, V)>)
    requires
        is_guarded(h, pushes),
        forall|k: int|
            0 <= k < pushes.len() ==> 0 <= (#[trigger] pushes[k]).0.as_int() <= usize::MAX,
    ensures
        push_all(h, pushes) == h.offer_all(pushed_candidates(pushes)),
    decreases pushes.len(),
{
    if pushes.len() > 0 {
        let front = pushes.drop_last();
        let (idx, val) = pushes.last();
        lemma_guarded_front(h, pushes);
        assert forall|k: int| 0 <= k < front.len() implies 0 <= (#[trigger] front[k]).0.as_int()
            <= usize::MAX by {
            assert(front[k] == pushes[k]);
        }
        lemma_pushes_are_offers(h, front);
        assert(pushed_candidates(pushes).drop_last() =~= pushed_candidates(front));
        assert(pushed_candidates(pushes).last() == (idx.as_int(), val));
        assert(0 <= pushes[pushes.len() - 1].0.as_int() <= usize::MAX);
        I::lemma_index_laws();
        assert(I::narrowed(idx.as_int() as usize).as_int() == idx.as_int());
    }
}

} // verus!
