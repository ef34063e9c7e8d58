//! Draining the accumulator of one column chunk into the heap of a row.
use vstd::prelude::*;

use crate::chunked::UNVISITED;
use crate::index::Index;
use crate::maxheap::{HeapState, MaxHeap};
use crate::product;
use crate::product::Update;
use crate::scalar::Scalar;
use crate::scatter;
use crate::topn;

verus! {

/// One more candidate.
pub proof fn lemma_offer_push<V: Scalar, I: Index>(
    h: HeapState<V, I>,
    offered: Seq<(int, V)>,
    c: (int, V),
)
    ensures
        h.offer_all(offered.push(c)) == h.offer_all(offered).offer(c),
{
    assert(offered.push(c).drop_last() =~= offered);
}

/// Offer the non-zero sums of the columns `from..to` of the chunk at `c0`.
fn drain_range<V: Scalar, I: Index>(
    heap: &mut MaxHeap<V, I>,
    sums: &Vec<V>,
    root: V,
    c0: usize,
    from: usize,
    to: usize,
    Ghost(h0): Ghost<HeapState<V, I>>,
    Ghost(ws): Ghost<Seq<Update<V>>>,
    Ghost(width): Ghost<int>,
) -> (r: V)
    requires
        from <= to <= width <= sums@.len(),
        c0 + to <= usize::MAX,
        scatter::holds_sums(sums@.take(width), ws, c0 as int),
        old(heap)@.slots.len() > 0,
        root == old(heap)@.min(),
        old(heap)@ == h0.offer_all(topn::nonzero_sums(ws, c0 as int, c0 + from)),
    ensures
        final(heap)@.slots.len() == old(heap)@.slots.len(),
        r == final(heap)@.min(),
        final(heap)@ == h0.offer_all(topn::nonzero_sums(ws, c0 as int, c0 + to)),
{
    let mut min = root;
    let zero = V::zero();
    let mut k: usize = from;
    while k < to
        invariant
            from <= k <= to <= width <= sums@.len(),
            c0 + to <= usize::MAX,
            zero == V::spec_zero(),
            scatter::holds_sums(sums@.take(width), ws, c0 as int),
            heap@.slots.len() == old(heap)@.slots.len(),
            heap@.slots.len() > 0,
            min == heap@.min(),
            heap@ == h0.offer_all(topn::nonzero_sums(ws, c0 as int, c0 + k)),
        decreases to - k,
    {
        let s = sums[k];
        proof {
            assert(s == sums@.take(width)[k as int]);
            lemma_offer_push(
                h0,
                topn::nonzero_sums(ws, c0 as int, c0 + k),
                (c0 + k, s),
            );
            assert(topn::nonzero_sums(ws, c0 as int, c0 + k + 1)
                == if s.spec_equals(zero) {
                topn::nonzero_sums(ws, c0 as int, c0 + k)
            } else {
                topn::nonzero_sums(ws, c0 as int, c0 + k).push((c0 + k, s))
            });
        }
        if !s.equals(zero) {
            min = heap.offer(c0 + k, s, min);
        }
        k = k + 1;
    }
    min
}

/// Four slots whose maximum does not beat the root change nothing.
proof fn lemma_group_refused<V: Scalar, I: Index>(
    h0: HeapState<V, I>,
    ws: Seq<Update<V>>,
    sums: Seq<V>,
    c0: int,
    k: int,
    m: V,
)
    requires
        0 <= k <= sums.len() - 4,
        scatter::holds_sums(sums, ws, c0),
        m == sums[k].spec_max(sums[k + 1]).spec_max(sums[k + 2].spec_max(sums[k + 3])),
        !h0.offer_all(topn::nonzero_sums(ws, c0, c0 + k)).min().spec_less(m),
        !h0.offer_all(topn::nonzero_sums(ws, c0, c0 + k)).has_room(),
    ensures
        h0.offer_all(topn::nonzero_sums(ws, c0, c0 + k + 4)) == h0.offer_all(
            topn::nonzero_sums(ws, c0, c0 + k),
        ),
{
    let h = h0.offer_all(topn::nonzero_sums(ws, c0, c0 + k));
    let min = h.min();
    let left = sums[k].spec_max(sums[k + 1]);
    let right = sums[k + 2].spec_max(sums[k + 3]);
    if min.spec_less(sums[k]) {
        V::lemma_max_exceeds(min, sums[k], sums[k + 1]);
        V::lemma_max_exceeds(min, left, right);
    }
    if min.spec_less(sums[k + 1]) {
        V::lemma_max_exceeds(min, sums[k + 1], sums[k]);
        V::lemma_max_exceeds(min, left, right);
    }
    if min.spec_less(sums[k + 2]) {
        V::lemma_max_exceeds(min, sums[k + 2], sums[k + 3]);
        V::lemma_max_exceeds(min, right, left);
    }
    if min.spec_less(sums[k + 3]) {
        V::lemma_max_exceeds(min, sums[k + 3], sums[k + 2]);
        V::lemma_max_exceeds(min, right, left);
    }
    lemma_slot_refused(h0, ws, sums, c0, k);
    lemma_slot_refused(h0, ws, sums, c0, k + 1);
    lemma_slot_refused(h0, ws, sums, c0, k + 2);
    lemma_slot_refused(h0, ws, sums, c0, k + 3);
}

/// A slot that does not beat the root changes nothing.
proof fn lemma_slot_refused<V: Scalar, I: Index>(
    h0: HeapState<V, I>,
    ws: Seq<Update<V>>,
    sums: Seq<V>,
    c0: int,
    k: int,
)
    requires
        0 <= k < sums.len(),
        scatter::holds_sums(sums, ws, c0),
        !h0.offer_all(topn::nonzero_sums(ws, c0, c0 + k)).takes(sums[k]),
    ensures
        h0.offer_all(topn::nonzero_sums(ws, c0, c0 + k + 1)) == h0.offer_all(
            topn::nonzero_sums(ws, c0, c0 + k),
        ),
{
    lemma_offer_push(h0, topn::nonzero_sums(ws, c0, c0 + k), (c0 + k, sums[k]));
    assert(sums[k] == product::accumulate(ws, c0 + k, true));
}

/// Where the bound on all sums does not beat the root, no column does.
proof fn lemma_chunk_refused<V: Scalar, I: Index>(
    h: HeapState<V, I>,
    ws: Seq<Update<V>>,
    c0: int,
    hi: int,
    chunk_max: V,
)
    requires
        scatter::bounds_sums(chunk_max, ws),
        !h.min().spec_less(chunk_max),
        !h.has_room(),
    ensures
        h.offer_all(topn::nonzero_sums(ws, c0, hi)) == h,
    decreases hi - c0,
{
    if c0 < hi {
        lemma_chunk_refused(h, ws, c0, hi - 1, chunk_max);
        let sum = product::accumulate(ws, hi - 1, true);
        lemma_offer_push(h, topn::nonzero_sums(ws, c0, hi - 1), (hi - 1, sum));
        if !sum.spec_equals(V::spec_zero()) {
            V::lemma_constants();
            if !product::touched(ws).contains(hi - 1) {
                product::lemma_untouched_is_zero(ws, hi - 1, true);
            }
            assert(!h.min().spec_less(sum));
        }
    }
}

/// Drain the dense accumulator for one chunk into `heap` and reset the first
/// `chunk_width` slots of `sums`; what lies behind them is left alone.
///
/// Grouped four-wide via `max()` so the common "nothing beats the heap minimum"
/// case costs one branch per four slots instead of four; the whole scan is
/// skipped when `chunk_max` (the scatter's running maximum) cannot beat `min`.
/// Neither shortcut is taken while the heap has room for any value.
/// Exact-zero sums are treated as untouched, see
/// [`crate::chunked::AccumMode::Dense`]. NaN sums never pass either comparison.
/// Returns the new heap minimum.
pub(crate) fn drain_dense_chunk<V: Scalar, I: Index>(
    heap: &mut MaxHeap<V, I>,
    sums: &mut Vec<V>,
    root: V,
    chunk_max: V,
    c0: usize,
    chunk_width: usize,
    Ghost(ws): Ghost<Seq<Update<V>>>,
) -> (r: V)
    requires
        chunk_width <= old(sums)@.len(),
        c0 + chunk_width <= usize::MAX,
        scatter::holds_sums(old(sums)@.take(chunk_width as int), ws, c0 as int),
        scatter::bounds_sums(chunk_max, ws),
        old(heap)@.slots.len() > 0,
        root == old(heap)@.min(),
    ensures
        final(heap)@.slots.len() == old(heap)@.slots.len(),
        r == final(heap)@.min(),
        final(heap)@ == old(heap)@.offer_all(
            topn::nonzero_sums(ws, c0 as int, c0 + chunk_width),
        ),
        final(sums)@.len() == old(sums)@.len(),
        scatter::all_zero(final(sums)@.take(chunk_width as int)),
        final(sums)@.skip(chunk_width as int) == old(sums)@.skip(chunk_width as int),
{
    let mut min = root;
    let ghost h0 = heap@;
    if min.less(chunk_max) || heap.has_room() {
        let w4: usize = chunk_width - chunk_width % 4;
        let mut k: usize = 0;
        while k < w4
            invariant
                w4 % 4 == 0,
                k % 4 == 0,
                k <= w4 <= chunk_width <= sums@.len(),
                sums@ == old(sums)@,
                c0 + chunk_width <= usize::MAX,
                scatter::holds_sums(sums@.take(chunk_width as int), ws, c0 as int),
                heap@.slots.len() == old(heap)@.slots.len(),
                heap@.slots.len() > 0,
                min == heap@.min(),
                heap@ == h0.offer_all(topn::nonzero_sums(ws, c0 as int, c0 + k)),
            decreases w4 - k,
        {
            let m = sums[k].max(sums[k + 1]).max(sums[k + 2].max(sums[k + 3]));
            if min.less(m) || heap.has_room() {
                min = drain_range(
                    heap,
                    sums,
                    min,
                    c0,
                    k,
                    k + 4,
                    Ghost(h0),
                    Ghost(ws),
                    Ghost(chunk_width as int),
                );
            } else {
                proof {
                    lemma_group_refused(
                        h0,
                        ws,
                        sums@.take(chunk_width as int),
                        c0 as int,
                        k as int,
                        m,
                    );
                }
            }
            k = k + 4;
        }
        min = drain_range(
            heap,
            sums,
            min,
            c0,
            w4,
            chunk_width,
            Ghost(h0),
            Ghost(ws),
            Ghost(chunk_width as int),
        );
    } else {
        proof {
            lemma_chunk_refused(h0, ws, c0 as int, c0 + chunk_width, chunk_max);
        }
    }
    let zero = V::zero();
    let mut k: usize = 0;
    while k < chunk_width
        invariant
            k <= chunk_width <= sums@.len(),
            sums@.len() == old(sums)@.len(),
            zero == V::spec_zero(),
            forall|x: int| 0 <= x < k ==> #[trigger] sums@[x] == V::spec_zero(),
            forall|x: int|
                chunk_width <= x < sums@.len() ==> #[trigger] sums@[x] == old(sums)@[x],
        decreases chunk_width - k,
    {
        sums[k] = zero;
        k = k + 1;
    }
    assert(sums@.skip(chunk_width as int) =~= old(sums)@.skip(chunk_width as int));
    min
}

/// Drain the linked list of touched columns into `heap`, resetting `sums` and
/// `next` as we go. Returns the new heap minimum.
pub(crate) fn drain_linked_chunk<V: Scalar, I: Index>(
    heap: &mut MaxHeap<V, I>,
    sums: &mut Vec<V>,
    next: &mut Vec<u32>,
    start: u32,
    length: usize,
    root: V,
    c0: usize,
    Ghost(ws): Ghost<Seq<Update<V>>>,
) -> (r: V)
    requires
        c0 + old(sums)@.len() <= usize::MAX || product::in_bounds(ws, usize::MAX as int),
        scatter::accounts_for(old(sums)@, old(next)@, start, length, ws, c0 as int),
        old(heap)@.slots.len() > 0,
        root == old(heap)@.min(),
    ensures
        final(heap)@.slots.len() == old(heap)@.slots.len(),
        r == final(heap)@.min(),
        final(heap)@ == old(heap)@.offer_all(product::touched_sums(ws, true)),
        final(sums)@.len() == old(sums)@.len(),
        final(next)@.len() == old(next)@.len(),
        scatter::all_zero(final(sums)@),
        scatter::none_visited(final(next)@),
{
    let ghost t = product::touched(ws);
    let ghost cs = product::touched_sums(ws, true);
    let ghost h0 = heap@;
    let ghost width = sums@.len() as int;
    proof {
        reveal(scatter::accounts_for);
        product::lemma_touched(ws);
        scatter::lemma_touched_in_chunk(ws, c0 as int, width);
        assert(cs.take(0) =~= Seq::empty());
        assert(t.take(length as int) =~= t);
        assert forall|k: int| 0 <= k < sums@.len() && !t.contains(c0 + k) implies #[trigger] sums@[k]
            == V::spec_zero() by {
            product::lemma_untouched_is_zero(ws, c0 + k, true);
        }
        assert forall|q: int| 0 <= q < t.len() implies sums@[(#[trigger] t[q]) - c0]
            == product::accumulate(ws, t[q], true) by {
            assert(sums@[t[q] - c0] == product::accumulate(ws, c0 + (t[q] - c0), true));
        }
        if product::in_bounds(ws, usize::MAX as int) {
            product::lemma_touched_in_bounds(ws, usize::MAX as int);
        }
    }
    let mut min = root;
    let mut head: u32 = start;
    let mut left: usize = length;
    while left > 0
        invariant
            left <= length,
            length == t.len(),
            t == product::touched(ws),
            cs == product::touched_sums(ws, true),
            t.no_duplicates(),
            width == sums@.len(),
            sums@.len() == old(sums)@.len(),
            next@.len() == old(next)@.len(),
            next@.len() == sums@.len(),
            forall|q: int| 0 <= q < t.len() ==> c0 <= #[trigger] t[q] < c0 + width,
            forall|q: int| 0 <= q < t.len() ==> #[trigger] t[q] <= usize::MAX,
            head == scatter::link(t, c0 as int, left as int),
            forall|q: int|
                0 <= q < left ==> next@[(#[trigger] t[q]) - c0] == scatter::link(t, c0 as int, q),
            forall|q: int|
                0 <= q < left ==> sums@[(#[trigger] t[q]) - c0] == product::accumulate(
                    ws,
                    t[q],
                    true,
                ),
            forall|k: int|
                0 <= k < next@.len() && !t.take(left as int).contains(c0 + k)
                    ==> #[trigger] next@[k] == UNVISITED,
            forall|k: int|
                0 <= k < sums@.len() && !t.take(left as int).contains(c0 + k)
                    ==> #[trigger] sums@[k] == V::spec_zero(),
            heap@.slots.len() == old(heap)@.slots.len(),
            heap@.slots.len() > 0,
            min == heap@.min(),
            heap@ == h0.offer_all(cs.take(length - left)),
        decreases left,
    {
        let temp: usize = head as usize;
        let ghost done = length - left;
        let ghost next0 = next@;
        let ghost sums0 = sums@;
        proof {
            assert(t[left - 1] == c0 + temp);
            assert(cs[done] == (c0 + temp, product::accumulate(ws, c0 + temp, true)));
            assert(cs.take(done + 1) =~= cs.take(done).push(cs[done]));
            lemma_offer_push(h0, cs.take(done), cs[done]);
        }
        let s = sums[temp];
        min = heap.offer(c0 + temp, s, min);
        head = next[temp];
        next[temp] = UNVISITED;
        sums[temp] = V::zero();
        left = left - 1;
        proof {
            assert forall|q: int| 0 <= q < left implies #[trigger] t[q] != c0 + temp by {}
            assert forall|k: int| 0 <= k < next@.len() && !t.take(left as int).contains(
                c0 + k,
            ) implies #[trigger] next@[k] == UNVISITED && #[trigger] sums@[k]
                == V::spec_zero() by {
                if k != temp {
                    let longer = t.take(left + 1);
                    if longer.contains(c0 + k) {
                        let q = choose|q: int| 0 <= q < longer.len() && longer[q] == c0 + k;
                        assert(t.take(left as int)[q] == c0 + k);
                    }
                    assert(next0[k] == next@[k] && sums0[k] == sums@[k]);
                }
            }
        }
    }
    assert(cs.take(length as int) =~= cs);
    assert forall|k: int| 0 <= k < sums@.len() implies #[trigger] sums@[k] == V::spec_zero()
        && #[trigger] next@[k] == UNVISITED by {
        assert(!t.take(0).contains(c0 + k));
    }
    min
}

} // verus!
