//! Bounded max-heap for top-n selection per row.
//!
//! A fixed-capacity heap keyed by score (`V`), tagged with the source column
//! index (`I`) and an insertion-order field that also tells unfilled slots.
//!
//! The heap is structurally a *min*-heap by `val`: the root is the smallest of
//! the current top-n, which is what makes `push_pop` cheap (drop the smallest,
//! insert the new candidate, return the new minimum). One heap is reused across
//! all column chunks of a single row.
use core::cmp::Ordering;
use vstd::prelude::*;

use crate::index::Index;
use crate::scalar::Scalar;
use crate::sorting;
use crate::sorting::Precedence;

verus! {

/// One heap slot: a value, the column it belongs to and when it came in.
/// A slot that was never filled has the order `u32::MAX`.
#[derive(Debug, Clone, Copy)]
pub struct Score<V: Scalar, I: Index> {
    pub order: u32,
    pub idx: I,
    pub val: V,
}

/// Bounded heap that keeps the largest values offered to it.
#[derive(Debug)]
pub struct MaxHeap<V: Scalar, I: Index> {
    floor: Option<V>,
    n_set: u32,
    heap: Vec<Score<V, I>>,
}

/// The mathematical state of a [`MaxHeap`]: the threshold, if there is one, the
/// number of pushes so far (saturating) and the slots in heap order.
#[verifier::ext_equal]
pub struct HeapState<V: Scalar, I: Index> {
    pub floor: Option<V>,
    pub n_set: u32,
    pub slots: Seq<Score<V, I>>,
}

/// Is a value acceptable under the threshold? It has to exceed it; where there
/// is none, every value that compares is.
pub open spec fn admits<V: Scalar>(floor: Option<V>, val: V) -> bool {
    match floor {
        Some(t) => t.spec_less(val),
        None => val.ordered(),
    }
}

/// The value that marks an unfilled slot.
pub open spec fn sentinel<V: Scalar>(floor: Option<V>) -> V {
    match floor {
        Some(t) => t,
        None => V::spec_min_value(),
    }
}

/// Does slot `x` give way before slot `y`: a smaller value, or, of two that tie,
/// the one that was never filled?
pub open spec fn below<V: Scalar, I: Index>(x: Score<V, I>, y: Score<V, I>) -> bool {
    x.val.spec_less(y.val) || (x.order == u32::MAX && y.order != u32::MAX && !y.val.spec_less(
        x.val,
    ))
}

/// Does slot `x` give way before slot `y`?
fn is_below<V: Scalar, I: Index>(x: Score<V, I>, y: Score<V, I>) -> (r: bool)
    ensures
        r == below(x, y),
{
    x.val.less(y.val) || (x.order == u32::MAX && y.order != u32::MAX && !y.val.less(x.val))
}

/// `s` with the elements at `i` and `j` exchanged.
pub open spec fn swapped<T>(s: Seq<T>, i: int, j: int) -> Seq<T> {
    s.update(i, s[j]).update(j, s[i])
}

/// Which of slot `i` and its children below `len` gives way first?
/// Ties go to the parent, then to the left child.
pub open spec fn smallest_of_family<V: Scalar, I: Index>(
    s: Seq<Score<V, I>>,
    i: int,
    len: int,
) -> int {
    let left = 2 * i + 1;
    let right = 2 * i + 2;
    let m = if left < len && below(s[left], s[i]) {
        left
    } else {
        i
    };
    if right < len && below(s[right], s[m]) {
        right
    } else {
        m
    }
}

/// The slots once the value at `i` has sunk to its place within `..len`.
pub open spec fn sifted_down<V: Scalar, I: Index>(
    s: Seq<Score<V, I>>,
    i: int,
    len: int,
) -> Seq<Score<V, I>>
    decreases len - i,
{
    let m = smallest_of_family(s, i, len);
    if m <= i {
        s
    } else {
        sifted_down(swapped(s, i, m), m, len)
    }
}

/// The slots once the value at `i` has risen to its place.
pub open spec fn sifted_up<V: Scalar, I: Index>(s: Seq<Score<V, I>>, i: int) -> Seq<Score<V, I>>
    decreases i,
{
    if i <= 0 {
        s
    } else {
        let parent = (i - 1) / 2;
        if below(s[i], s[parent]) {
            sifted_up(swapped(s, i, parent), parent)
        } else {
            s
        }
    }
}

/// Slots by the order of insertion.
pub struct ByOrder;

impl<V: Scalar, I: Index> Precedence<Score<V, I>> for ByOrder {
    open spec fn precedes(x: Score<V, I>, y: Score<V, I>) -> bool {
        x.order < y.order
    }

    fn compare(x: &Score<V, I>, y: &Score<V, I>) -> (r: Ordering) {
        if x.order < y.order {
            Ordering::Less
        } else if y.order < x.order {
            Ordering::Greater
        } else {
            Ordering::Equal
        }
    }
}

/// Slots by descending value, those that were never filled behind their ties.
/// Values that do not compare count as equal.
pub struct ByValue;

impl<V: Scalar, I: Index> Precedence<Score<V, I>> for ByValue {
    open spec fn precedes(x: Score<V, I>, y: Score<V, I>) -> bool {
        below(y, x)
    }

    fn compare(x: &Score<V, I>, y: &Score<V, I>) -> (r: Ordering) {
        if is_below(*y, *x) {
            Ordering::Less
        } else if is_below(*x, *y) {
            Ordering::Greater
        } else {
            Ordering::Equal
        }
    }
}

/// The order of insertion.
pub open spec fn earlier<V: Scalar, I: Index>() -> spec_fn(Score<V, I>, Score<V, I>) -> bool {
    sorting::order_of::<Score<V, I>, ByOrder>()
}

/// The order of descending values.
pub open spec fn larger<V: Scalar, I: Index>() -> spec_fn(Score<V, I>, Score<V, I>) -> bool {
    sorting::order_of::<Score<V, I>, ByValue>()
}

/// Do the values of these slots form a weak order, so that a sort by value is
/// meaningful? A NaN next to two distinct values would break it.
pub open spec fn sortable<V: Scalar, I: Index>(s: Seq<Score<V, I>>) -> bool {
    sorting::weakly_orders(larger::<V, I>(), s)
}

impl<V: Scalar, I: Index> HeapState<V, I> {
    /// The slot that was never filled.
    pub open spec fn unfilled(init: V) -> Score<V, I> {
        Score { order: u32::MAX, idx: I::narrowed(0), val: init }
    }

    /// A heap of `capacity` unfilled slots.
    pub open spec fn fresh(capacity: nat, floor: Option<V>) -> Self {
        HeapState {
            floor,
            n_set: 0,
            slots: Seq::new(capacity, |i: int| Self::unfilled(sentinel(floor))),
        }
    }

    /// Is there no threshold, and a slot left to fill?
    pub open spec fn has_room(self) -> bool {
        self.floor is None && self.n_set < self.slots.len()
    }

    /// Is a value taken? It is if it beats the smallest value held, or if
    /// there is room for any value that compares.
    pub open spec fn takes(self, val: V) -> bool {
        self.min().spec_less(val) || (self.has_room() && val.ordered())
    }

    /// The running threshold: the smallest value held.
    pub open spec fn min(self) -> V {
        self.slots[0].val
    }

    /// The state after the smallest slot gave way to `(idx, val)`.
    pub open spec fn push_pop(self, idx: I, val: V) -> Self {
        let last = self.slots.len() - 1;
        let popped = sifted_down(swapped(self.slots, 0, last), 0, last);
        let pushed = popped.update(last, Score { order: self.n_set, idx, val });
        HeapState {
            floor: self.floor,
            n_set: self.n_set.saturating_add(1),
            slots: sifted_up(pushed, last),
        }
    }

    /// The state after one candidate: it is pushed if it is taken.
    pub open spec fn offer(self, candidate: (int, V)) -> Self {
        if self.takes(candidate.1) {
            self.push_pop(I::narrowed(candidate.0 as usize), candidate.1)
        } else {
            self
        }
    }

    /// The state after a sequence of candidates.
    pub open spec fn offer_all(self, candidates: Seq<(int, V)>) -> Self
        decreases candidates.len(),
    {
        if candidates.len() == 0 {
            self
        } else {
            self.offer_all(candidates.drop_last()).offer(candidates.last())
        }
    }

    /// Number of entries to read: pushes so far, capped at the capacity.
    pub open spec fn count(self) -> nat {
        if self.n_set <= self.slots.len() {
            self.n_set as nat
        } else {
            self.slots.len()
        }
    }

    /// The state with its slots in the order of insertion.
    pub open spec fn by_insertion(self) -> Self {
        HeapState { slots: sorting::stable_sorted(self.slots, earlier()), ..self }
    }

    /// The state with its slots in descending order of value.
    pub open spec fn by_value_desc(self) -> Self {
        HeapState { slots: sorting::stable_sorted(self.slots, larger()), ..self }
    }

    /// The entries to read, as pairs of column and value.
    pub open spec fn entries(self) -> Seq<(I, V)> {
        self.slots.take(self.count() as int).map_values(|s: Score<V, I>| (s.idx, s.val))
    }
}

impl<V: Scalar, I: Index> MaxHeap<V, I> {
    /// The mathematical state.
    pub closed spec fn view(&self) -> HeapState<V, I> {
        HeapState { floor: self.floor, n_set: self.n_set, slots: self.heap@ }
    }

    /// A heap of `capacity` slots that accepts values above `threshold`.
    pub fn new(capacity: usize, threshold: V) -> (r: Self)
        ensures
            r@ == HeapState::<V, I>::fresh(capacity as nat, Some(threshold)),
    {
        Self::with_floor(capacity, Some(threshold))
    }

    /// A heap of `capacity` slots that accepts values above the threshold, or
    /// every value that compares where there is none.
    pub fn with_floor(capacity: usize, floor: Option<V>) -> (r: Self)
        ensures
            r@ == HeapState::<V, I>::fresh(capacity as nat, floor),
    {
        let init: V = Self::sentinel_of(floor);
        let mut heap: Vec<Score<V, I>> = Vec::with_capacity(capacity);
        for i in 0..capacity
            invariant
                init == sentinel(floor),
                heap@.len() == i,
                forall|k: int| 0 <= k < i ==> heap@[k] == HeapState::<V, I>::unfilled(init),
        {
            proof {
                I::lemma_index_laws();
            }
            heap.push(Score { order: u32::MAX, idx: I::zero(), val: init });
        }
        // All-equal values trivially satisfy the heap property.
        assert(heap@ =~= HeapState::<V, I>::fresh(capacity as nat, floor).slots);
        Self { floor, n_set: 0, heap }
    }

    /// The value that marks an unfilled slot.
    fn sentinel_of(floor: Option<V>) -> (r: V)
        ensures
            r == sentinel(floor),
    {
        match floor {
            Some(t) => t,
            None => V::min_value(),
        }
    }

    /// Reset between rows. Returns the current threshold (root value).
    pub fn reset(&mut self) -> (r: V)
        ensures
            final(self)@ == HeapState::<V, I>::fresh(old(self)@.slots.len(), old(self)@.floor),
            r == sentinel(old(self)@.floor),
    {
        let init: V = Self::sentinel_of(self.floor);
        self.n_set = 0;
        let slots: usize = self.heap.len();
        for i in 0..slots
            invariant
                self.n_set == 0,
                self.floor == old(self).floor,
                init == sentinel(self.floor),
                self.heap@.len() == slots,
                old(self).heap@.len() == slots,
                forall|k: int| 0 <= k < i ==> self.heap@[k] == HeapState::<V, I>::unfilled(init),
        {
            proof {
                I::lemma_index_laws();
            }
            self.heap[i] = Score { order: u32::MAX, idx: I::zero(), val: init };
        }
        assert(self.heap@ =~= HeapState::<V, I>::fresh(
            old(self)@.slots.len(),
            old(self)@.floor,
        ).slots);
        init
    }

    /// Is there no threshold, and a slot left to fill?
    pub(crate) fn has_room(&self) -> (r: bool)
        ensures
            r == self@.has_room(),
    {
        self.floor.is_none() && (self.n_set as u64) < self.heap.len() as u64
    }

    /// Number of real entries, capped at `capacity`. Counts `push_pop` calls:
    /// the caller is responsible for only calling `push_pop` when `val > min`,
    /// which is what keeps this equal to the count of real entries.
    pub fn n_set(&self) -> (r: usize)
        ensures
            r == self@.count(),
            r <= u32::MAX,
    {
        if self.n_set as u64 <= self.heap.len() as u64 {
            self.n_set as usize
        } else {
            self.heap.len()
        }
    }

    /// Push `(idx, val)`, pop the smallest. Returns the new root (== running
    /// threshold).
    ///
    /// Callers must guard with `val > current_min`: pushing values that would
    /// not displace the root corrupts the `n_set` accounting.
    pub fn push_pop(&mut self, idx: I, val: V) -> (r: V)
        requires
            old(self)@.slots.len() > 0,
        ensures
            final(self)@ == old(self)@.push_pop(idx, val),
            final(self)@.slots.len() == old(self)@.slots.len(),
            r == final(self)@.min(),
    {
        let last: usize = self.heap.len() - 1;
        // Move the minimum to `last`, then restore the heap over [0..last].
        swap(&mut self.heap, 0, last);
        sift_down(&mut self.heap, 0, last);
        // Overwrite the back slot with the new entry.
        self.heap[last] = Score { order: self.n_set, idx, val };
        self.n_set = self.n_set.saturating_add(1);
        // Restore the heap over the full [0..capacity] range.
        sift_up(&mut self.heap, last);
        self.heap[0].val
    }

    /// Push `(idx, val)` if `val` exceeds `min`, the current root, or if there is
    /// room for any value. Returns the new root.
    pub(crate) fn offer(&mut self, col: usize, val: V, min: V) -> (r: V)
        requires
            old(self)@.slots.len() > 0,
            min == old(self)@.min(),
        ensures
            final(self)@ == old(self)@.offer((col as int, val)),
            final(self)@.slots.len() == old(self)@.slots.len(),
            r == final(self)@.min(),
    {
        proof {
            V::lemma_constants();
        }
        if min.less(val) || (self.has_room() && val.equals(val)) {
            self.push_pop(I::from_usize(col), val)
        } else {
            min
        }
    }

    /// Sort by insertion order: the entries as they came in.
    /// Invalidates the heap; caller must `reset` before reuse.
    pub fn sort_by_insertion_order(&mut self)
        ensures
            final(self)@ == old(self)@.by_insertion(),
            final(self)@.slots.len() == old(self)@.slots.len(),
    {
        proof {
            sorting::lemma_stable_sorted_len(self.heap@, earlier());
        }
        sorting::sort_stable::<Score<V, I>, ByOrder>(&mut self.heap);
    }

    /// Sort by value descending: largest score first in the output row.
    /// Invalidates the heap; caller must `reset` before reuse.
    pub fn sort_by_value_desc(&mut self)
        requires
            sortable(old(self)@.slots),
        ensures
            final(self)@ == old(self)@.by_value_desc(),
            final(self)@.slots.len() == old(self)@.slots.len(),
    {
        proof {
            sorting::lemma_stable_sorted_len(self.heap@, larger());
        }
        sorting::sort_stable::<Score<V, I>, ByValue>(&mut self.heap);
    }

    /// The real entries.
    pub fn entries(&self) -> (r: &[Score<V, I>])
        ensures
            r@ == self@.slots.take(self@.count() as int),
    {
        let n: usize = self.n_set();
        vstd::slice::slice_subrange(self.heap.as_slice(), 0, n)
    }
}

/// Exchange two slots.
fn swap<T: Copy>(heap: &mut Vec<T>, i: usize, j: usize)
    requires
        i < old(heap)@.len(),
        j < old(heap)@.len(),
    ensures
        final(heap)@ == swapped(old(heap)@, i as int, j as int),
{
    let x = heap[i];
    let y = heap[j];
    heap[i] = y;
    heap[j] = x;
}

/// Min-heap sift-down at index `i` over `heap[0..len]`.
fn sift_down<V: Scalar, I: Index>(heap: &mut Vec<Score<V, I>>, start: usize, len: usize)
    requires
        len <= old(heap)@.len(),
        start <= len,
    ensures
        final(heap)@ == sifted_down(old(heap)@, start as int, len as int),
        final(heap)@.len() == old(heap)@.len(),
{
    let mut i: usize = start;
    loop
        invariant
            i <= len <= heap@.len(),
            heap@.len() == old(heap)@.len(),
            sifted_down(heap@, i as int, len as int) == sifted_down(
                old(heap)@,
                start as int,
                len as int,
            ),
        decreases len - i,
    {
        if i >= len / 2 {
            return;
        }
        let left: usize = 2 * i + 1;
        let right: usize = left + 1;
        let mut smallest: usize = i;
        if is_below(heap[left], heap[smallest]) {
            smallest = left;
        }
        if right < len && is_below(heap[right], heap[smallest]) {
            smallest = right;
        }
        if smallest == i {
            return;
        }
        swap(heap, i, smallest);
        i = smallest;
    }
}

/// Min-heap sift-up at index `i`.
fn sift_up<V: Scalar, I: Index>(heap: &mut Vec<Score<V, I>>, start: usize)
    requires
        start < old(heap)@.len(),
    ensures
        final(heap)@ == sifted_up(old(heap)@, start as int),
        final(heap)@.len() == old(heap)@.len(),
{
    let mut i: usize = start;
    while i > 0
        invariant
            i < heap@.len(),
            heap@.len() == old(heap)@.len(),
            sifted_up(heap@, i as int) == sifted_up(old(heap)@, start as int),
        decreases i,
    {
        let parent: usize = (i - 1) / 2;
        if is_below(heap[i], heap[parent]) {
            swap(heap, i, parent);
            i = parent;
        } else {
            return;
        }
    }
}

} // verus!
