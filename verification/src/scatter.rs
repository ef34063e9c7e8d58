//! Scattering B-row segments into the accumulator of one column chunk.
//!
//! The accumulator `sums` holds one sum per column of the chunk. The linked-list
//! mode also threads the touched columns through `next`, most recent first.
use vstd::prelude::*;

use crate::chunked::{HEAD_NIL, UNVISITED};
use crate::csr::CsrView;
use crate::index::Index;
use crate::product;
use crate::product::Update;
use crate::scalar::Scalar;

verus! {

/// What the list node of the `q`-th touched column points to, relative to `c0`.
pub open spec fn link(t: Seq<int>, c0: int, q: int) -> int {
    if q <= 0 {
        HEAD_NIL as int
    } else {
        t[q - 1] - c0
    }
}

/// Does the list starting at `head` hold the columns `t`, last one first, as
/// offsets from `c0`?
pub open spec fn is_list(t: Seq<int>, c0: int, next: Seq<u32>, head: u32) -> bool {
    &&& head == link(t, c0, t.len() as int)
    &&& forall|q: int| 0 <= q < t.len() ==> next[(#[trigger] t[q]) - c0] == link(t, c0, q)
    &&& forall|k: int|
        0 <= k < next.len() ==> (#[trigger] next[k] == UNVISITED <==> !t.contains(c0 + k))
}

/// Does every accumulator slot hold the sum of its column, counted from `c0`?
pub open spec fn holds_sums<V: Scalar>(sums: Seq<V>, ws: Seq<Update<V>>, c0: int) -> bool {
    forall|k: int|
        0 <= k < sums.len() ==> #[trigger] sums[k] == product::accumulate(ws, c0 + k, true)
}

/// Is the accumulator all zero?
pub open spec fn all_zero<V: Scalar>(sums: Seq<V>) -> bool {
    forall|k: int| 0 <= k < sums.len() ==> #[trigger] sums[k] == V::spec_zero()
}

/// Is the list scratch clean?
pub open spec fn none_visited(next: Seq<u32>) -> bool {
    forall|k: int| 0 <= k < next.len() ==> #[trigger] next[k] == UNVISITED
}

/// Does every update touch a column in `c0..c0 + width`?
pub open spec fn in_chunk<V>(ws: Seq<Update<V>>, c0: int, width: int) -> bool {
    forall|i: int| 0 <= i < ws.len() ==> c0 <= (#[trigger] ws[i]).col < c0 + width
}

/// Do accumulator and list account for exactly the updates `ws`, with the list
/// starting at `head` and `length` columns long?
#[verifier::opaque]
pub open spec fn accounts_for<V: Scalar>(
    sums: Seq<V>,
    next: Seq<u32>,
    head: u32,
    length: usize,
    ws: Seq<Update<V>>,
    c0: int,
) -> bool {
    &&& sums.len() == next.len()
    &&& sums.len() < HEAD_NIL
    &&& in_chunk(ws, c0, sums.len() as int)
    &&& holds_sums(sums, ws, c0)
    &&& is_list(product::touched(ws), c0, next, head)
    &&& length == product::touched(ws).len()
}

/// Is `x` an upper bound of the sums of the touched columns, in the sense that
/// whatever one of them exceeds, `x` exceeds too?
pub open spec fn bounds_sums<V: Scalar>(x: V, ws: Seq<Update<V>>) -> bool {
    forall|k: int, bound: V|
        product::touched(ws).contains(k) && #[trigger] bound.spec_less(
            product::accumulate(ws, k, true),
        ) ==> bound.spec_less(x)
}

/// Add one update to the accumulator and record its column in the list.
/// Returns the new head and length of the list.
fn add_linked<V: Scalar>(
    k_local: usize,
    v: V,
    w: V,
    sums: &mut Vec<V>,
    next: &mut Vec<u32>,
    head: u32,
    length: usize,
    Ghost(c0): Ghost<int>,
    Ghost(ws): Ghost<Seq<Update<V>>>,
) -> (r: (u32, usize))
    requires
        k_local < old(sums)@.len(),
        accounts_for(old(sums)@, old(next)@, head, length, ws, c0),
    ensures
        final(sums)@.len() == old(sums)@.len(),
        final(next)@.len() == old(next)@.len(),
        accounts_for(
            final(sums)@,
            final(next)@,
            r.0,
            r.1,
            ws.push((Update { col: c0 + k_local, left: v, right: w })),
            c0,
        ),
{
    reveal(accounts_for);
    let ghost u = Update { col: c0 + k_local, left: v, right: w };
    let ghost ws2 = ws.push(u);
    let ghost t = product::touched(ws);
    let ghost t2 = product::touched(ws2);
    let ghost next0 = next@;
    proof {
        product::lemma_push_update(ws, u);
        product::lemma_touched(ws);
        product::lemma_touched(ws2);
        lemma_touched_in_chunk(ws, c0, sums@.len() as int);
        lemma_touched_in_chunk(ws2, c0, sums@.len() as int);
    }
    let sum = sums[k_local];
    sums[k_local] = v.mul_add(w, sum);
    proof {
        assert forall|k: int| 0 <= k < sums@.len() implies #[trigger] sums@[k]
            == product::accumulate(ws2, c0 + k, true) by {}
    }
    if next[k_local] == UNVISITED {
        next[k_local] = head;
        proof {
            assert(!t.contains(c0 + k_local));
            assert(t2 == t.push(c0 + k_local));
            assert forall|q: int| 0 <= q < t2.len() implies next@[(#[trigger] t2[q]) - c0] == link(
                t2,
                c0,
                q,
            ) by {
                if q < t.len() {
                    assert(t2[q] == t[q]);
                    assert(t.contains(t[q]));
                    assert(next0[t[q] - c0] == link(t, c0, q));
                }
            }
            assert forall|x: int| 0 <= x < next@.len() implies (#[trigger] next@[x] == UNVISITED
                <==> !t2.contains(c0 + x)) by {
                if x == k_local {
                    assert(t2[t.len() as int] == c0 + x);
                    if t.len() > 0 {
                        assert(t[t.len() - 1] - c0 < sums@.len());
                    }
                } else {
                    assert(next0[x] == next@[x]);
                    if t.contains(c0 + x) {
                        let q = choose|q: int| 0 <= q < t.len() && t[q] == c0 + x;
                        assert(t2[q] == c0 + x);
                    }
                    if t2.contains(c0 + x) {
                        let q = choose|q: int| 0 <= q < t2.len() && t2[q] == c0 + x;
                        assert(t[q] == c0 + x);
                    }
                }
            }
        }
        (k_local as u32, length + 1)
    } else {
        (head, length)
    }
}

/// No touched column leaves the chunk, and there are at most as many as columns.
pub proof fn lemma_touched_in_chunk<V>(ws: Seq<Update<V>>, c0: int, width: int)
    requires
        in_chunk(ws, c0, width),
        width >= 0,
    ensures
        forall|q: int|
            0 <= q < product::touched(ws).len() ==> c0 <= #[trigger] product::touched(ws)[q] < c0
                + width,
        product::touched(ws).len() <= width,
{
    let t = product::touched(ws);
    product::lemma_touched(ws);
    assert forall|q: int| 0 <= q < t.len() implies c0 <= #[trigger] t[q] < c0 + width by {
        assert(t.contains(t[q]));
        let i = choose|i: int| 0 <= i < ws.len() && (#[trigger] ws[i]).col == t[q];
        assert(c0 <= ws[i].col < c0 + width);
    }
    t.unique_seq_to_set();
    let all = vstd::set_lib::set_int_range(c0, c0 + width);
    vstd::set_lib::lemma_int_range(c0, c0 + width);
    assert(t.to_set().subset_of(all));
    vstd::set_lib::lemma_len_subset(t.to_set(), all);
}

/// The entries of `b` stored at positions `lo..hi`.
pub open spec fn stored<V: Scalar, I: Index>(b: CsrView<'_, V, I>, lo: int, hi: int) -> Seq<
    (int, V),
> {
    Seq::new((hi - lo) as nat, |p: int| (b.col(lo + p), b.data@[lo + p]))
}

/// Scatter the entries of `b` from position `lo` on, scaled by `v`, until
/// `stop` or the end of the chunk. Returns the new list and where it stopped.
pub(crate) fn scatter_linked<V: Scalar, I: Index>(
    b: CsrView<'_, V, I>,
    lo: usize,
    stop: usize,
    v: V,
    c0: usize,
    chunk_end: usize,
    sums: &mut Vec<V>,
    next: &mut Vec<u32>,
    start: u32,
    listed: usize,
    Ghost(ws): Ghost<Seq<Update<V>>>,
) -> (r: (u32, usize, usize))
    requires
        b.valid(),
        b.start(0) <= lo <= stop <= b.start(b.nrows as int),
        forall|p: int| lo <= p < stop ==> c0 <= #[trigger] b.col(p),
        chunk_end - c0 <= old(sums)@.len(),
        accounts_for(old(sums)@, old(next)@, start, listed, ws, c0 as int),
    ensures
        lo <= r.2 <= stop,
        forall|p: int| lo <= p < r.2 ==> #[trigger] b.col(p) < chunk_end,
        r.2 < stop ==> b.col(r.2 as int) >= chunk_end,
        final(sums)@.len() == old(sums)@.len(),
        final(next)@.len() == old(next)@.len(),
        accounts_for(
            final(sums)@,
            final(next)@,
            r.0,
            r.1,
            ws + product::scaled(v, stored(b, lo as int, r.2 as int)),
            c0 as int,
        ),
{
    let mut cur: usize = lo;
    let mut head: u32 = start;
    let mut length: usize = listed;
    assert(b.start(b.nrows as int) <= b.data@.len());
    assert(ws + product::scaled(v, stored(b, lo as int, lo as int)) =~= ws);
    while cur < stop
        invariant
            b.valid(),
            b.start(0) <= lo <= cur <= stop <= b.start(b.nrows as int),
            b.start(b.nrows as int) <= b.data@.len(),
            forall|p: int| lo <= p < stop ==> c0 <= #[trigger] b.col(p),
            forall|p: int| lo <= p < cur ==> #[trigger] b.col(p) < chunk_end,
            chunk_end - c0 <= sums@.len(),
            sums@.len() == old(sums)@.len(),
            next@.len() == old(next)@.len(),
            accounts_for(
                sums@,
                next@,
                head,
                length,
                ws + product::scaled(v, stored(b, lo as int, cur as int)),
                c0 as int,
            ),
        ensures
            lo <= cur <= stop,
            forall|p: int| lo <= p < cur ==> #[trigger] b.col(p) < chunk_end,
            cur < stop ==> b.col(cur as int) >= chunk_end,
            sums@.len() == old(sums)@.len(),
            next@.len() == old(next)@.len(),
            accounts_for(
                sums@,
                next@,
                head,
                length,
                ws + product::scaled(v, stored(b, lo as int, cur as int)),
                c0 as int,
            ),
        decreases stop - cur,
    {
        let k: usize = b.column_at(cur);
        if k >= chunk_end {
            break;
        }
        let ghost ws1 = ws + product::scaled(v, stored(b, lo as int, cur as int));
        let w = b.data[cur];
        let (h, l): (u32, usize) = add_linked(
            k - c0,
            v,
            w,
            sums,
            next,
            head,
            length,
            Ghost(c0 as int),
            Ghost(ws1),
        );
        head = h;
        length = l;
        proof {
            assert(ws1.push(Update { col: k as int, left: v, right: w }) =~= ws + product::scaled(
                v,
                stored(b, lo as int, cur + 1),
            ));
        }
        cur = cur + 1;
    }
    (head, length, cur)
}

/// Scatter a tiled segment: chunk-local `u16` indices, no rebase.
pub(crate) fn scatter_linked_local<V: Scalar>(
    seg_idx: &[u16],
    seg_dat: &[V],
    v: V,
    sums: &mut Vec<V>,
    next: &mut Vec<u32>,
    start: u32,
    listed: usize,
    Ghost(c0): Ghost<int>,
    Ghost(seg): Ghost<Seq<(int, V)>>,
    Ghost(ws): Ghost<Seq<Update<V>>>,
) -> (r: (u32, usize))
    requires
        seg_idx@.len() == seg.len(),
        seg_dat@.len() == seg.len(),
        forall|p: int|
            0 <= p < seg.len() ==> #[trigger] seg[p] == (c0 + seg_idx@[p], seg_dat@[p]),
        forall|p: int| 0 <= p < seg.len() ==> c0 <= (#[trigger] seg[p]).0 < c0 + old(sums)@.len(),
        accounts_for(old(sums)@, old(next)@, start, listed, ws, c0),
    ensures
        final(sums)@.len() == old(sums)@.len(),
        final(next)@.len() == old(next)@.len(),
        accounts_for(
            final(sums)@,
            final(next)@,
            r.0,
            r.1,
            ws + product::scaled(v, seg),
            c0,
        ),
{
    let mut head: u32 = start;
    let mut length: usize = listed;
    let mut p: usize = 0;
    assert(ws + product::scaled(v, seg.take(0)) =~= ws);
    while p < seg_idx.len()
        invariant
            p <= seg_idx@.len(),
            seg_idx@.len() == seg.len(),
            seg_dat@.len() == seg.len(),
            forall|p: int|
                0 <= p < seg.len() ==> #[trigger] seg[p] == (c0 + seg_idx@[p], seg_dat@[p]),
            forall|p: int| 0 <= p < seg.len() ==> c0 <= (#[trigger] seg[p]).0 < c0 + sums@.len(),
            sums@.len() == old(sums)@.len(),
            next@.len() == old(next)@.len(),
            accounts_for(
                sums@,
                next@,
                head,
                length,
                ws + product::scaled(v, seg.take(p as int)),
                c0,
            ),
        decreases seg_idx@.len() - p,
    {
        let k_local: usize = seg_idx[p] as usize;
        let w = seg_dat[p];
        let ghost ws1 = ws + product::scaled(v, seg.take(p as int));
        assert(seg[p as int] == (c0 + k_local, w));
        let (h, l): (u32, usize) = add_linked(
            k_local,
            v,
            w,
            sums,
            next,
            head,
            length,
            Ghost(c0),
            Ghost(ws1),
        );
        head = h;
        length = l;
        proof {
            assert(ws1.push(Update { col: c0 + k_local, left: v, right: w }) =~= ws
                + product::scaled(v, seg.take(p + 1)));
        }
        p = p + 1;
    }
    assert(seg.take(seg.len() as int) =~= seg);
    (head, length)
}

/// Does no column occur twice?
pub open spec fn distinct<V>(seg: Seq<(int, V)>) -> bool {
    forall|p: int, q: int|
        0 <= p < q < seg.len() ==> (#[trigger] seg[p]).0 != (#[trigger] seg[q]).0
}

/// Does `x` exceed whatever the sum of one of the columns of `seg` exceeds?
pub open spec fn bounds_written<V: Scalar>(
    x: V,
    ws: Seq<Update<V>>,
    seg: Seq<(int, V)>,
) -> bool {
    forall|q: int, bound: V|
        0 <= q < seg.len() && #[trigger] bound.spec_less(
            product::accumulate(ws, (#[trigger] seg[q]).0, true),
        ) ==> bound.spec_less(x)
}

/// The entries of a segment with their slots: columns counted from `c0`.
pub open spec fn slots_of<V: Scalar, I: Index>(
    seg_idx: Seq<I>,
    seg_dat: Seq<V>,
    c0: int,
) -> Seq<(int, V)> {
    Seq::new(seg_idx.len(), |p: int| (seg_idx[p].as_int() - c0, seg_dat[p]))
}

/// The entries of a tiled segment, whose indices are slots already.
pub open spec fn local_slots_of<V: Scalar>(
    seg_idx: Seq<u16>,
    seg_dat: Seq<V>,
) -> Seq<(int, V)> {
    Seq::new(seg_idx.len(), |p: int| (seg_idx[p] as int, seg_dat[p]))
}

/// Does every entry have a slot of its own among `len`?
pub open spec fn fits_slots<V>(seg: Seq<(int, V)>, len: int) -> bool {
    &&& distinct(seg)
    &&& forall|p: int| 0 <= p < seg.len() ==> 0 <= (#[trigger] seg[p]).0 < len
}

/// The values that scattering `v` times the entries of `seg` writes, in order.
pub open spec fn written<V: Scalar>(sums: Seq<V>, v: V, seg: Seq<(int, V)>) -> Seq<V> {
    Seq::new(seg.len(), |q: int| v.spec_mul_add(seg[q].1, sums[seg[q].0]))
}

/// The accumulator once `v` times the entries of `seg` has been added to it.
pub open spec fn scattered<V: Scalar>(sums: Seq<V>, v: V, seg: Seq<(int, V)>) -> Seq<V>
    decreases seg.len(),
{
    if seg.len() == 0 {
        sums
    } else {
        let (slot, x) = seg.last();
        scattered(sums, v, seg.drop_last()).update(slot, v.spec_mul_add(x, sums[slot]))
    }
}

/// The running maximum in register `j` of four: the first `full` values go round
/// the registers, the rest into the first.
pub open spec fn register<V: Scalar>(vals: Seq<V>, full: int, j: int) -> V
    decreases vals.len(),
{
    if vals.len() == 0 {
        V::spec_min_value()
    } else {
        let p = vals.len() - 1;
        let before = register(vals.drop_last(), full, j);
        if j == if p < full {
            p % 4
        } else {
            0
        } {
            before.spec_max(vals.last())
        } else {
            before
        }
    }
}

/// The maximum of the values, tracked in four registers.
pub open spec fn written_max<V: Scalar>(vals: Seq<V>) -> V {
    let full = vals.len() - vals.len() % 4;
    register(vals, full, 0).spec_max(register(vals, full, 1)).spec_max(
        register(vals, full, 2).spec_max(register(vals, full, 3)),
    )
}

/// A register exceeds what the values that went into it exceed, and holds one of
/// the values or the smallest of the type.
proof fn lemma_register<V: Scalar>(vals: Seq<V>, full: int, j: int)
    ensures
        forall|p: int, bound: V|
            0 <= p < vals.len() && j == (if p < full {
                p % 4
            } else {
                0
            }) && #[trigger] bound.spec_less(#[trigger] vals[p]) ==> bound.spec_less(
                register(vals, full, j),
            ),
        crate::scalar::max_picks::<V>() ==> register(vals, full, j) == V::spec_min_value()
            || vals.contains(register(vals, full, j)),
    decreases vals.len(),
{
    if vals.len() > 0 {
        let front = vals.drop_last();
        let n = vals.len() - 1;
        let before = register(front, full, j);
        let r = register(vals, full, j);
        lemma_register(front, full, j);
        assert forall|p: int, bound: V|
            0 <= p < vals.len() && j == (if p < full {
                p % 4
            } else {
                0
            }) && #[trigger] bound.spec_less(#[trigger] vals[p]) implies bound.spec_less(r) by {
            if p == n {
                V::lemma_max_exceeds(bound, vals[p], before);
            } else {
                assert(front[p] == vals[p]);
                assert(bound.spec_less(front[p]));
                assert(bound.spec_less(before));
                V::lemma_max_exceeds(bound, before, vals.last());
            }
        }
        if crate::scalar::max_picks::<V>() {
            if front.contains(before) {
                let q = choose|q: int| 0 <= q < front.len() && front[q] == before;
                assert(vals[q] == before);
            }
            assert(vals[n] == vals.last());
        }
    }
}

/// The maximum exceeds what the values exceed. Where `max` picks one of its
/// operands it is one of the values, or the smallest of the type; and where
/// values that tie are equal, it is one of the values if there are any.
pub proof fn lemma_written_max<V: Scalar>(vals: Seq<V>)
    ensures
        forall|p: int, bound: V|
            0 <= p < vals.len() && #[trigger] bound.spec_less(#[trigger] vals[p])
                ==> bound.spec_less(written_max(vals)),
        vals.len() == 0 ==> written_max(vals) == V::spec_min_value(),
        crate::scalar::max_picks::<V>() ==> written_max(vals) == V::spec_min_value()
            || vals.contains(written_max(vals)),
        crate::scalar::max_picks::<V>() && crate::scalar::ties_are_equal::<V>() && vals.len() > 0
            ==> vals.contains(written_max(vals)),
{
    let full = vals.len() - vals.len() % 4;
    let m0 = register(vals, full, 0);
    let m1 = register(vals, full, 1);
    let m2 = register(vals, full, 2);
    let m3 = register(vals, full, 3);
    let a = m0.spec_max(m1);
    let b = m2.spec_max(m3);
    V::lemma_constants();
    lemma_register(vals, full, 0);
    lemma_register(vals, full, 1);
    lemma_register(vals, full, 2);
    lemma_register(vals, full, 3);
    assert forall|p: int, bound: V|
        0 <= p < vals.len() && #[trigger] bound.spec_less(
            #[trigger] vals[p],
        ) implies bound.spec_less(written_max(vals)) by {
        if bound.spec_less(m0) {
            V::lemma_max_exceeds(bound, m0, m1);
            V::lemma_max_exceeds(bound, a, b);
        } else if bound.spec_less(m1) {
            V::lemma_max_exceeds(bound, m1, m0);
            V::lemma_max_exceeds(bound, a, b);
        } else if bound.spec_less(m2) {
            V::lemma_max_exceeds(bound, m2, m3);
            V::lemma_max_exceeds(bound, b, a);
        } else {
            V::lemma_max_exceeds(bound, m3, m2);
            V::lemma_max_exceeds(bound, b, a);
        }
    }
    if crate::scalar::max_picks::<V>() && crate::scalar::ties_are_equal::<V>() && vals.len() > 0
        && written_max(vals) == V::spec_min_value() {
        V::lemma_less_ordered(V::spec_min_value(), V::spec_min_value());
        assert(!V::spec_min_value().spec_less(vals[0]));
        assert(!vals[0].spec_less(V::spec_min_value()));
        assert(vals[0] == written_max(vals));
    }
}

/// One more value goes into its register.
proof fn lemma_register_step<V: Scalar>(vals: Seq<V>, full: int, s: int, j: int)
    requires
        0 <= s < vals.len(),
    ensures
        register(vals.take(s + 1), full, j) == if j == (if s < full {
            s % 4
        } else {
            0
        }) {
            register(vals.take(s), full, j).spec_max(vals[s])
        } else {
            register(vals.take(s), full, j)
        },
{
    assert(vals.take(s + 1).drop_last() =~= vals.take(s));
}

/// A slot that no entry has is left as it was, and one that has an entry holds
/// what that entry wrote.
pub proof fn lemma_scattered<V: Scalar>(sums: Seq<V>, v: V, seg: Seq<(int, V)>)
    requires
        fits_slots(seg, sums.len() as int),
    ensures
        scattered(sums, v, seg).len() == sums.len(),
        forall|k: int|
            0 <= k < sums.len() && (forall|q: int|
                0 <= q < seg.len() ==> (#[trigger] seg[q]).0 != k) ==> #[trigger] scattered(
                sums,
                v,
                seg,
            )[k] == sums[k],
        forall|q: int|
            0 <= q < seg.len() ==> scattered(sums, v, seg)[(#[trigger] seg[q]).0] == written(
                sums,
                v,
                seg,
            )[q],
    decreases seg.len(),
{
    if seg.len() > 0 {
        let front = seg.drop_last();
        let last = seg.len() - 1;
        assert forall|p: int| 0 <= p < front.len() implies 0 <= (#[trigger] front[p]).0
            < sums.len() by {
            assert(front[p] == seg[p]);
        }
        assert forall|p: int, q: int| 0 <= p < q < front.len() implies (#[trigger] front[p]).0 != (
        #[trigger] front[q]).0 by {
            assert(front[p] == seg[p] && front[q] == seg[q]);
        }
        lemma_scattered(sums, v, front);
        let after = scattered(sums, v, seg);
        assert(0 <= seg[last].0 < sums.len());
        assert forall|k: int|
            0 <= k < sums.len() && (forall|q: int|
                0 <= q < seg.len() ==> (#[trigger] seg[q]).0 != k) implies #[trigger] after[k]
            == sums[k] by {
            assert(seg[last].0 != k);
            assert forall|q: int| 0 <= q < front.len() implies (#[trigger] front[q]).0 != k by {
                assert(front[q] == seg[q]);
            }
        }
        assert forall|q: int| 0 <= q < seg.len() implies after[(#[trigger] seg[q]).0] == written(
            sums,
            v,
            seg,
        )[q] by {
            if q < last {
                assert(front[q] == seg[q]);
                assert(seg[q].0 != seg[last].0);
                assert(written(sums, v, front)[q] == written(sums, v, seg)[q]);
            }
        }
    }
}

/// Before its entry is reached, a slot is as it was.
proof fn lemma_not_yet<V: Scalar>(sums: Seq<V>, v: V, seg: Seq<(int, V)>, s: int, q: int)
    requires
        fits_slots(seg, sums.len() as int),
        0 <= s <= q < seg.len(),
    ensures
        scattered(sums, v, seg.take(s)).len() == sums.len(),
        scattered(sums, v, seg.take(s))[seg[q].0] == sums[seg[q].0],
{
    let done = seg.take(s);
    assert forall|p: int| 0 <= p < done.len() implies 0 <= (#[trigger] done[p]).0 < sums.len()
        && done[p].0 != seg[q].0 by {
        assert(done[p] == seg[p]);
    }
    assert forall|p: int, r: int| 0 <= p < r < done.len() implies (#[trigger] done[p]).0 != (
    #[trigger] done[r]).0 by {
        assert(done[p] == seg[p] && done[r] == seg[r]);
    }
    lemma_scattered(sums, v, done);
}

/// One more entry.
proof fn lemma_one_more<V: Scalar>(sums: Seq<V>, v: V, seg: Seq<(int, V)>, s: int)
    requires
        fits_slots(seg, sums.len() as int),
        0 <= s < seg.len(),
    ensures
        ({
            let now = scattered(sums, v, seg.take(s));
            let vals = written(sums, v, seg);
            let full = seg.len() - seg.len() % 4;
            let j = if s < full {
                s % 4
            } else {
                0
            };
            &&& now.len() == sums.len()
            &&& vals[s] == v.spec_mul_add(seg[s].1, now[seg[s].0])
            &&& scattered(sums, v, seg.take(s + 1)) == now.update(seg[s].0, vals[s])
            &&& forall|x: int|
                0 <= x < 4 ==> #[trigger] register(vals.take(s + 1), full, x) == if x == j {
                    register(vals.take(s), full, x).spec_max(vals[s])
                } else {
                    register(vals.take(s), full, x)
                }
        }),
{
    let vals = written(sums, v, seg);
    let full = seg.len() - seg.len() % 4;
    lemma_not_yet(sums, v, seg, s, s);
    assert(seg.take(s + 1).drop_last() =~= seg.take(s));
    lemma_register_step(vals, full, s, 0);
    lemma_register_step(vals, full, s, 1);
    lemma_register_step(vals, full, s, 2);
    lemma_register_step(vals, full, s, 3);
}

/// Four more entries, whose slots are independent of each other.
proof fn lemma_four_more<V: Scalar>(sums: Seq<V>, v: V, seg: Seq<(int, V)>, s: int)
    requires
        fits_slots(seg, sums.len() as int),
        0 <= s <= seg.len() - 4,
        s % 4 == 0,
    ensures
        ({
            let now = scattered(sums, v, seg.take(s));
            let vals = written(sums, v, seg);
            let full = seg.len() - seg.len() % 4;
            &&& now.len() == sums.len()
            &&& forall|x: int|
                0 <= x < 4 ==> #[trigger] vals[s + x] == v.spec_mul_add(
                    seg[s + x].1,
                    now[seg[s + x].0],
                )
            &&& scattered(sums, v, seg.take(s + 4)) == now.update(seg[s].0, vals[s]).update(
                seg[s + 1].0,
                vals[s + 1],
            ).update(seg[s + 2].0, vals[s + 2]).update(seg[s + 3].0, vals[s + 3])
            &&& forall|x: int|
                0 <= x < 4 ==> #[trigger] register(vals.take(s + 4), full, x) == register(
                    vals.take(s),
                    full,
                    x,
                ).spec_max(vals[s + x])
        }),
{
    let vals = written(sums, v, seg);
    let full = seg.len() - seg.len() % 4;
    assert forall|x: int| 0 <= x < 4 implies #[trigger] vals[s + x] == v.spec_mul_add(
        seg[s + x].1,
        scattered(sums, v, seg.take(s))[seg[s + x].0],
    ) by {
        lemma_not_yet(sums, v, seg, s, s + x);
    }
    lemma_one_more(sums, v, seg, s);
    lemma_one_more(sums, v, seg, s + 1);
    lemma_one_more(sums, v, seg, s + 2);
    lemma_one_more(sums, v, seg, s + 3);
    assert forall|x: int| 0 <= x < 4 implies #[trigger] register(vals.take(s + 4), full, x)
        == register(vals.take(s), full, x).spec_max(vals[s + x]) by {
        assert(register(vals.take(s + 1), full, x) == if x == 0 {
            register(vals.take(s), full, x).spec_max(vals[s])
        } else {
            register(vals.take(s), full, x)
        });
        assert(register(vals.take(s + 2), full, x) == if x == 1 {
            register(vals.take(s + 1), full, x).spec_max(vals[s + 1])
        } else {
            register(vals.take(s + 1), full, x)
        });
        assert(register(vals.take(s + 3), full, x) == if x == 2 {
            register(vals.take(s + 2), full, x).spec_max(vals[s + 2])
        } else {
            register(vals.take(s + 2), full, x)
        });
    }
}

/// Scatter one B-row segment into `sums`, manually unrolled four times. Column
/// indices within a segment are distinct, so the four load/fma/store groups are
/// independent: the loads issue before the stores.
///
/// Returns the maximum of the values written, tracked in four independent
/// registers. Accumulated per chunk it is an upper bound on the final sums, so
/// the drain may be skipped entirely when the bound cannot beat the heap
/// minimum. Float `max` ignores NaN, which matches the drain: NaN sums never
/// push.
#[verifier::spinoff_prover]
pub(crate) fn scatter_dense_unrolled<V: Scalar, I: Index>(
    seg_idx: &[I],
    seg_dat: &[V],
    v: V,
    c0: usize,
    sums: &mut Vec<V>,
) -> (r: V)
    requires
        seg_idx@.len() == seg_dat@.len(),
        forall|p: int|
            0 <= p < seg_idx@.len() ==> (#[trigger] seg_idx@[p]).as_int() <= usize::MAX,
        fits_slots(slots_of(seg_idx@, seg_dat@, c0 as int), old(sums)@.len() as int),
    ensures
        final(sums)@ == scattered(old(sums)@, v, slots_of(seg_idx@, seg_dat@, c0 as int)),
        r == written_max(written(old(sums)@, v, slots_of(seg_idx@, seg_dat@, c0 as int))),
        final(sums)@.len() == old(sums)@.len(),
{
    let ghost seg = slots_of(seg_idx@, seg_dat@, c0 as int);
    let ghost before = sums@;
    let ghost vals = written(before, v, seg);
    let ghost full = seg.len() - seg.len() % 4;
    let n: usize = seg_idx.len();
    let mut s: usize = 0;
    let mut m0 = V::min_value();
    let mut m1 = V::min_value();
    let mut m2 = V::min_value();
    let mut m3 = V::min_value();
    assert(seg.take(0) =~= Seq::empty());
    assert(vals.take(0) =~= Seq::empty());
    while n - s >= 4
        invariant
            s <= n,
            n == seg_idx@.len(),
            n == seg_dat@.len(),
            forall|p: int|
                0 <= p < seg_idx@.len() ==> (#[trigger] seg_idx@[p]).as_int() <= usize::MAX,
            seg == slots_of(seg_idx@, seg_dat@, c0 as int),
            fits_slots(seg, before.len() as int),
            sums@.len() == before.len(),
            sums@ == scattered(before, v, seg.take(s as int)),
            vals == written(before, v, seg),
            full == seg.len() - seg.len() % 4,
            m0 == register(vals.take(s as int), full, 0),
            m1 == register(vals.take(s as int), full, 1),
            m2 == register(vals.take(s as int), full, 2),
            m3 == register(vals.take(s as int), full, 3),
            s % 4 == 0,
        decreases n - s,
    {
        proof {
            lemma_four_more(before, v, seg, s as int);
            assert(0 <= seg[s + 0].0 && 0 <= seg[s + 1].0 && 0 <= seg[s + 2].0 && 0 <= seg[s
                + 3].0);
            assert(vals[s + 0] == vals[s as int]);
        }
        let k0: usize = seg_idx[s].to_usize() - c0;
        let k1: usize = seg_idx[s + 1].to_usize() - c0;
        let k2: usize = seg_idx[s + 2].to_usize() - c0;
        let k3: usize = seg_idx[s + 3].to_usize() - c0;
        let n0 = v.mul_add(seg_dat[s], sums[k0]);
        let n1 = v.mul_add(seg_dat[s + 1], sums[k1]);
        let n2 = v.mul_add(seg_dat[s + 2], sums[k2]);
        let n3 = v.mul_add(seg_dat[s + 3], sums[k3]);
        sums[k0] = n0;
        sums[k1] = n1;
        sums[k2] = n2;
        sums[k3] = n3;
        m0 = m0.max(n0);
        m1 = m1.max(n1);
        m2 = m2.max(n2);
        m3 = m3.max(n3);
        s = s + 4;
    }
    while s < n
        invariant
            s <= n,
            n == seg_idx@.len(),
            n == seg_dat@.len(),
            forall|p: int|
                0 <= p < seg_idx@.len() ==> (#[trigger] seg_idx@[p]).as_int() <= usize::MAX,
            seg == slots_of(seg_idx@, seg_dat@, c0 as int),
            fits_slots(seg, before.len() as int),
            sums@.len() == before.len(),
            sums@ == scattered(before, v, seg.take(s as int)),
            vals == written(before, v, seg),
            full == seg.len() - seg.len() % 4,
            m0 == register(vals.take(s as int), full, 0),
            m1 == register(vals.take(s as int), full, 1),
            m2 == register(vals.take(s as int), full, 2),
            m3 == register(vals.take(s as int), full, 3),
            s >= full,
        decreases n - s,
    {
        proof {
            lemma_one_more(before, v, seg, s as int);
            assert(0 <= seg[s as int].0);
        }
        let k_local: usize = seg_idx[s].to_usize() - c0;
        let nv = v.mul_add(seg_dat[s], sums[k_local]);
        sums[k_local] = nv;
        m0 = m0.max(nv);
        s = s + 1;
    }
    assert(seg.take(n as int) =~= seg);
    assert(vals.take(n as int) =~= vals);
    m0.max(m1).max(m2.max(m3))
}

/// [`scatter_dense_unrolled`] for tiled segments: chunk-local `u16` indices, no
/// `c0` rebase. Same independence argument, and the same returned maximum.
#[verifier::spinoff_prover]
pub(crate) fn scatter_dense_unrolled_local<V: Scalar>(
    seg_idx: &[u16],
    seg_dat: &[V],
    v: V,
    sums: &mut Vec<V>,
) -> (r: V)
    requires
        seg_idx@.len() == seg_dat@.len(),
        fits_slots(local_slots_of(seg_idx@, seg_dat@), old(sums)@.len() as int),
    ensures
        final(sums)@ == scattered(old(sums)@, v, local_slots_of(seg_idx@, seg_dat@)),
        r == written_max(written(old(sums)@, v, local_slots_of(seg_idx@, seg_dat@))),
        final(sums)@.len() == old(sums)@.len(),
{
    let ghost seg = local_slots_of(seg_idx@, seg_dat@);
    let ghost before = sums@;
    let ghost vals = written(before, v, seg);
    let ghost full = seg.len() - seg.len() % 4;
    let n: usize = seg_idx.len();
    let mut s: usize = 0;
    let mut m0 = V::min_value();
    let mut m1 = V::min_value();
    let mut m2 = V::min_value();
    let mut m3 = V::min_value();
    assert(seg.take(0) =~= Seq::empty());
    assert(vals.take(0) =~= Seq::empty());
    while n - s >= 4
        invariant
            s <= n,
            n == seg_idx@.len(),
            n == seg_dat@.len(),
            seg == local_slots_of(seg_idx@, seg_dat@),
            fits_slots(seg, before.len() as int),
            sums@.len() == before.len(),
            sums@ == scattered(before, v, seg.take(s as int)),
            vals == written(before, v, seg),
            full == seg.len() - seg.len() % 4,
            m0 == register(vals.take(s as int), full, 0),
            m1 == register(vals.take(s as int), full, 1),
            m2 == register(vals.take(s as int), full, 2),
            m3 == register(vals.take(s as int), full, 3),
            s % 4 == 0,
        decreases n - s,
    {
        proof {
            lemma_four_more(before, v, seg, s as int);
            assert(0 <= seg[s + 0].0 && 0 <= seg[s + 1].0 && 0 <= seg[s + 2].0 && 0 <= seg[s
                + 3].0);
            assert(vals[s + 0] == vals[s as int]);
        }
        let k0: usize = seg_idx[s] as usize;
        let k1: usize = seg_idx[s + 1] as usize;
        let k2: usize = seg_idx[s + 2] as usize;
        let k3: usize = seg_idx[s + 3] as usize;
        let n0 = v.mul_add(seg_dat[s], sums[k0]);
        let n1 = v.mul_add(seg_dat[s + 1], sums[k1]);
        let n2 = v.mul_add(seg_dat[s + 2], sums[k2]);
        let n3 = v.mul_add(seg_dat[s + 3], sums[k3]);
        sums[k0] = n0;
        sums[k1] = n1;
        sums[k2] = n2;
        sums[k3] = n3;
        m0 = m0.max(n0);
        m1 = m1.max(n1);
        m2 = m2.max(n2);
        m3 = m3.max(n3);
        s = s + 4;
    }
    while s < n
        invariant
            s <= n,
            n == seg_idx@.len(),
            n == seg_dat@.len(),
            seg == local_slots_of(seg_idx@, seg_dat@),
            fits_slots(seg, before.len() as int),
            sums@.len() == before.len(),
            sums@ == scattered(before, v, seg.take(s as int)),
            vals == written(before, v, seg),
            full == seg.len() - seg.len() % 4,
            m0 == register(vals.take(s as int), full, 0),
            m1 == register(vals.take(s as int), full, 1),
            m2 == register(vals.take(s as int), full, 2),
            m3 == register(vals.take(s as int), full, 3),
            s >= full,
        decreases n - s,
    {
        proof {
            lemma_one_more(before, v, seg, s as int);
            assert(0 <= seg[s as int].0);
        }
        let k_local: usize = seg_idx[s] as usize;
        let nv = v.mul_add(seg_dat[s], sums[k_local]);
        sums[k_local] = nv;
        m0 = m0.max(nv);
        s = s + 1;
    }
    assert(seg.take(n as int) =~= seg);
    assert(vals.take(n as int) =~= vals);
    m0.max(m1).max(m2.max(m3))
}

/// The two dense scatters agree on any accumulator: with the same slots and
/// values they leave the same sums and return the same maximum. Slots without an
/// entry keep their value; an empty segment changes nothing and returns the
/// smallest value of the type.
pub proof fn law_dense_scatters_agree<V: Scalar, I: Index>(
    sums: Seq<V>,
    local_idx: Seq<u16>,
    seg_idx: Seq<I>,
    seg_dat: Seq<V>,
    v: V,
    c0: int,
)
    requires
        local_idx.len() == seg_dat.len(),
        seg_idx.len() == seg_dat.len(),
        forall|p: int|
            0 <= p < seg_dat.len() ==> (#[trigger] seg_idx[p]).as_int() == c0 + local_idx[p],
        fits_slots(local_slots_of(local_idx, seg_dat), sums.len() as int),
    ensures
        ({
            let local = local_slots_of(local_idx, seg_dat);
            let seg = slots_of(seg_idx, seg_dat, c0);
            &&& fits_slots(seg, sums.len() as int)
            &&& scattered(sums, v, local) == scattered(sums, v, seg)
            &&& written_max(written(sums, v, local)) == written_max(written(sums, v, seg))
            &&& forall|k: int|
                0 <= k < sums.len() && (forall|p: int|
                    0 <= p < local_idx.len() ==> #[trigger] local_idx[p] != k)
                    ==> #[trigger] scattered(sums, v, local)[k] == sums[k]
            &&& seg_dat.len() == 0 ==> scattered(sums, v, local) == sums && written_max(
                written(sums, v, local),
            ) == V::spec_min_value()
        }),
{
    let local = local_slots_of(local_idx, seg_dat);
    assert(slots_of(seg_idx, seg_dat, c0) =~= local);
    lemma_scattered(sums, v, local);
    lemma_written_max(written(sums, v, local));
    assert forall|k: int|
        0 <= k < sums.len() && (forall|p: int|
            0 <= p < local_idx.len() ==> #[trigger] local_idx[p] != k) implies #[trigger] scattered(
        sums,
        v,
        local,
    )[k] == sums[k] by {
        assert forall|q: int| 0 <= q < local.len() implies (#[trigger] local[q]).0 != k by {
            assert(local_idx[q] != k);
        }
    }
}

/// An accumulator that holds the sums of some updates holds those of the
/// segment too once it has been scattered, and the maximum of what was written
/// bounds the sums of its columns.
pub(crate) proof fn lemma_scattered_sums<V: Scalar>(
    sums: Seq<V>,
    ws: Seq<Update<V>>,
    v: V,
    seg: Seq<(int, V)>,
    slots: Seq<(int, V)>,
    c0: int,
)
    requires
        in_chunk(ws, c0, sums.len() as int),
        holds_sums(sums, ws, c0),
        fits_slots(slots, sums.len() as int),
        slots.len() == seg.len(),
        forall|p: int|
            0 <= p < seg.len() ==> #[trigger] seg[p] == (c0 + slots[p].0, slots[p].1),
    ensures
        scattered(sums, v, slots).len() == sums.len(),
        in_chunk(ws + product::scaled(v, seg), c0, sums.len() as int),
        holds_sums(scattered(sums, v, slots), ws + product::scaled(v, seg), c0),
        bounds_written(
            written_max(written(sums, v, slots)),
            ws + product::scaled(v, seg),
            seg,
        ),
    decreases seg.len(),
{
    let all = ws + product::scaled(v, seg);
    let after = scattered(sums, v, slots);
    lemma_scattered(sums, v, slots);
    if seg.len() == 0 {
        assert(all =~= ws);
    } else {
        let front = seg.drop_last();
        let before = slots.drop_last();
        let last = seg.len() - 1;
        assert forall|p: int| 0 <= p < front.len() implies #[trigger] front[p] == (
            c0 + before[p].0,
            before[p].1,
        ) && 0 <= before[p].0 < sums.len() by {
            assert(front[p] == seg[p] && before[p] == slots[p]);
        }
        assert forall|p: int| 0 <= p < before.len() implies 0 <= (#[trigger] before[p]).0
            < sums.len() by {
            assert(before[p] == slots[p]);
        }
        assert forall|p: int, q: int| 0 <= p < q < before.len() implies (#[trigger] before[p]).0
            != (#[trigger] before[q]).0 by {
            assert(before[p] == slots[p] && before[q] == slots[q]);
        }
        lemma_scattered_sums(sums, ws, v, front, before, c0);
        let u = Update { col: seg[last].0, left: v, right: seg[last].1 };
        let most = ws + product::scaled(v, front);
        assert(all =~= most.push(u));
        product::lemma_push_update(most, u);
        assert(0 <= slots[last].0 < sums.len());
        lemma_scattered(sums, v, before);
        assert(scattered(sums, v, before)[slots[last].0] == sums[slots[last].0]) by {
            assert forall|q: int| 0 <= q < before.len() implies (#[trigger] before[q]).0
                != slots[last].0 by {
                assert(before[q] == slots[q]);
            }
        }
    }
    let vals = written(sums, v, slots);
    lemma_written_max(vals);
    assert forall|q: int, bound: V|
        0 <= q < seg.len() && #[trigger] bound.spec_less(
            product::accumulate(all, (#[trigger] seg[q]).0, true),
        ) implies bound.spec_less(written_max(vals)) by {
        assert(seg[q] == (c0 + slots[q].0, slots[q].1));
        assert(after[slots[q].0] == vals[q]);
        assert(0 <= slots[q].0 < sums.len());
        assert(after[slots[q].0] == product::accumulate(all, c0 + slots[q].0, true));
    }
}

} // verus!
