//! Column-chunked driver: the cache-blocking pillar.
//!
//! Splits B's column dimension into tiles sized to fit L1d and processes one
//! row of A across all column chunks while keeping a single per-row
//! [`crate::maxheap::MaxHeap`] of size `top_n`. Per-row scratch (`sums`,
//! `next`) is sized to `chunk_cols`, not `ncols`.
//!
//! Two B-row projection strategies are implemented. Both produce identical
//! output and are selected internally via [`pick_projection`]:
//!
//! - [`BProjection::BinarySearch`]: a binary search per (A-entry × chunk).
//!   Cheap preprocessing, log factor per chunk. Wins on dense B rows.
//! - [`BProjection::Cursor`]: a per-A-entry cursor advanced across chunks. No
//!   log factor; each B-entry is touched exactly once over the chunk sweep.
//!   Wins on sparse B rows and many chunks.
use vstd::prelude::*;

use crate::blocked::run_blocked;
use crate::csr::{
    filled, matmul_topn_short_circuit, try_narrow_indptr, CsrError, CsrMatrix, CsrView,
};
use crate::drain::{drain_dense_chunk, drain_linked_chunk};
use crate::index::Index;
use crate::matmul_topn::{SortMode, TopNOptions};
use crate::maxheap::{HeapState, MaxHeap, Score};
use crate::product;
use crate::product::Update;
use crate::scalar::Scalar;
use crate::scatter;
use crate::selection;
use crate::sorting::sort_by_column;
use crate::tiled;
use crate::tiled::TiledB;
use crate::topn;

verus! {

// `u32` linked-list nodes keep the per-row scatter/drain working set half the
// size of `usize` nodes. Local column offsets are < chunk_cols, which
// `resolve_chunk_cols` caps below the sentinels.
/// Marks a column that is not in the linked list.
pub const UNVISITED: u32 = u32::MAX;

/// Marks the end of the linked list.
pub const HEAD_NIL: u32 = u32::MAX - 1;

/// Which B-row projection strategy to use inside the chunked kernel.
/// Picked automatically via [`pick_projection`]; overridable through
/// [`crate::matmul_topn::TopNOptions::projection`].
#[derive(Debug, Clone, Copy, PartialEq, Eq, Structural)]
pub enum BProjection {
    BinarySearch,
    Cursor,
}

/// Accumulator bookkeeping mode for the chunked kernel.
///
/// - `LinkedList`: a `next[]` intrusive list records which chunk columns were
///   touched; the drain walks only those.
/// - `Dense`: no bookkeeping: the scatter is a bare multiply-add and the drain
///   linearly scans the whole chunk, treating an exact-zero sum as "untouched".
///   Wins when a large fraction of each chunk is touched. Float-only: integer
///   types silently fall back to `LinkedList` because a genuine zero result
///   (e.g. `2 - 2`) would otherwise be dropped. For floats, dropping an
///   exact-zero sum is the documented trade-off.
/// - `Adaptive` (default): per A-row choice based on the update density.
#[derive(Debug, Clone, Copy, PartialEq, Eq, Structural, Default)]
pub enum AccumMode {
    #[default]
    Adaptive,
    LinkedList,
    Dense,
}

/// Is `x` the position in row `j` of `b` where the columns reach `bound`?
pub open spec fn is_split<V: Scalar, I: Index>(
    b: CsrView<'_, V, I>,
    j: int,
    x: int,
    bound: int,
) -> bool {
    &&& b.start(j) <= x <= b.start(j + 1)
    &&& forall|p: int| b.start(j) <= p < x ==> #[trigger] b.col(p) < bound
    &&& forall|p: int| x <= p < b.start(j + 1) ==> #[trigger] b.col(p) >= bound
}

/// Do the cursors from `base` on stand where the B-rows of row `i` of `a`
/// reach `bound`?
pub open spec fn cursors_at<V: Scalar, I: Index>(
    cursors: Seq<usize>,
    base: int,
    a: CsrView<'_, V, I>,
    b: CsrView<'_, V, I>,
    i: int,
    bound: int,
) -> bool {
    &&& base + a.row(i).len() <= cursors.len()
    &&& forall|m: int|
        0 <= m < a.row(i).len() ==> is_split(
            b,
            (#[trigger] a.row(i)[m]).0,
            cursors[base + m] as int,
            bound,
        )
}

/// Binary search: the first position in `lo..hi` whose column reaches `bound`.
fn partition_point<V: Scalar, I: Index>(
    b: CsrView<'_, V, I>,
    lo: usize,
    hi: usize,
    bound: usize,
) -> (r: usize)
    requires
        b.valid(),
        b.start(0) <= lo <= hi <= b.start(b.nrows as int),
        forall|p: int, q: int|
            lo <= p <= q < hi && #[trigger] b.col(q) < bound ==> #[trigger] b.col(p) < bound,
    ensures
        lo <= r <= hi,
        forall|p: int| lo <= p < r ==> #[trigger] b.col(p) < bound,
        forall|p: int| r <= p < hi ==> #[trigger] b.col(p) >= bound,
{
    let mut left: usize = lo;
    let mut right: usize = hi;
    while left < right
        invariant
            b.valid(),
            b.start(0) <= lo <= left <= right <= hi <= b.start(b.nrows as int),
            forall|p: int, q: int|
                lo <= p <= q < hi && #[trigger] b.col(q) < bound ==> #[trigger] b.col(p) < bound,
            forall|p: int| lo <= p < left ==> #[trigger] b.col(p) < bound,
            forall|p: int| right <= p < hi ==> #[trigger] b.col(p) >= bound,
        decreases right - left,
    {
        let mid: usize = left + (right - left) / 2;
        if b.column_at(mid) < bound {
            left = mid + 1;
        } else {
            right = mid;
        }
    }
    left
}

/// Within a row, the entries before a chunk boundary come first.
proof fn lemma_boundary_splits<V: Scalar, I: Index>(b: CsrView<'_, V, I>, cc: int, j: int, m: int)
    requires
        b.valid(),
        cc > 0,
        m >= 0,
        topn::chunk_ordered(b, cc),
        0 <= j < b.nrows,
    ensures
        ({
            let bound = topn::chunk_start(b.ncols as int, cc, m);
            forall|p: int, q: int|
                b.start(j) <= p <= q < b.start(j + 1) && #[trigger] b.col(q) < bound
                    ==> #[trigger] b.col(p) < bound
        }),
{
    let bound = topn::chunk_start(b.ncols as int, cc, m);
    let s = b.start(j);
    product::lemma_row_in_bounds(b, j);
    assert forall|p: int, q: int|
        s <= p <= q < b.start(j + 1) && #[trigger] b.col(q) < bound implies #[trigger] b.col(p)
        < bound by {
        let x = b.row(j)[p - s];
        let y = b.row(j)[q - s];
        assert(x.0 == b.col(p) && y.0 == b.col(q));
        assert(x.0 / cc <= y.0 / cc);
        if m * cc < b.ncols {
            vstd::arithmetic::div_mod::lemma_fundamental_div_mod(x.0, cc);
            vstd::arithmetic::div_mod::lemma_fundamental_div_mod(y.0, cc);
            let dx = x.0 / cc;
            let dy = y.0 / cc;
            assert(dy < m) by (nonlinear_arith)
                requires
                    y.0 == cc * dy + y.0 % cc,
                    0 <= y.0 % cc,
                    y.0 < m * cc,
                    cc > 0,
            ;
            assert(x.0 < m * cc) by (nonlinear_arith)
                requires
                    x.0 == cc * dx + x.0 % cc,
                    x.0 % cc < cc,
                    dx + 1 <= m,
                    cc > 0,
            ;
        }
    }
}

/// Between two splits lies exactly the segment of the row between the bounds.
proof fn lemma_split_segment<V: Scalar, I: Index>(
    b: CsrView<'_, V, I>,
    j: int,
    x: int,
    lo: int,
    y: int,
    hi: int,
)
    requires
        b.valid(),
        0 <= j < b.nrows,
        lo <= hi,
        is_split(b, j, x, lo),
        is_split(b, j, y, hi),
    ensures
        x <= y,
        product::segment(b.row(j), lo, hi) == scatter::stored(b, x, y),
        b.start(0) <= b.start(j) <= x,
        y <= b.start(j + 1) <= b.start(b.nrows as int),
{
    let s = b.start(j);
    let row = b.row(j);
    product::lemma_row_in_bounds(b, j);
    assert(b.start(0) <= b.start(j));
    assert(b.start(j + 1) <= b.start(b.nrows as int));
    if x > y {
        assert(b.col(y) < lo);
    }
    assert forall|p: int| 0 <= p < row.len() implies #[trigger] row[p].0 == b.col(s + p) by {}
    topn::lemma_segment_is_subrange(row, lo, hi, x - s, y - s);
    assert(row.subrange(x - s, y - s) =~= scatter::stored(b, x, y));
}

/// Filtering keeps distinct columns distinct.
proof fn lemma_segment_distinct<V>(row: Seq<(int, V)>, lo: int, hi: int)
    requires
        scatter::distinct(row),
    ensures
        scatter::distinct(product::segment(row, lo, hi)),
    decreases row.len(),
{
    reveal(Seq::filter);
    let inside = |e: (int, V)| lo <= e.0 < hi;
    if row.len() > 0 {
        let front = row.drop_last();
        lemma_segment_distinct(front, lo, hi);
        let seg = product::segment(front, lo, hi);
        assert forall|p: int| 0 <= p < seg.len() implies (#[trigger] seg[p]).0 != row.last().0 by {
            front.lemma_filter_contains_rev(inside, seg[p]);
            let q = choose|q: int| 0 <= q < front.len() && front[q] == seg[p];
            assert(row[q].0 != row[row.len() - 1].0);
        }
    }
}

/// No column lies beyond the last one, so a chunk may be cut off there.
proof fn lemma_segment_clipped<V>(row: Seq<(int, V)>, lo: int, hi: int, ncols: int)
    requires
        forall|p: int| 0 <= p < row.len() ==> (#[trigger] row[p]).0 < ncols,
        ncols <= hi,
    ensures
        product::segment(row, lo, hi) == product::segment(row, lo, ncols),
    decreases row.len(),
{
    reveal(Seq::filter);
    if row.len() > 0 {
        let front = row.drop_last();
        assert forall|p: int| 0 <= p < front.len() implies (#[trigger] front[p]).0 < ncols by {
            assert(front[p] == row[p]);
        }
        lemma_segment_clipped(front, lo, hi, ncols);
        assert(row[row.len() - 1].0 < ncols);
    }
}

/// The updates of a chunk lie in it.
proof fn lemma_within_in_chunk<V>(us: Seq<Update<V>>, lo: int, hi: int, width: int)
    requires
        hi - lo <= width,
    ensures
        scatter::in_chunk(product::within(us, lo, hi), lo, width),
{
    let ws = product::within(us, lo, hi);
    let inside = |u: Update<V>| lo <= u.col < hi;
    assert forall|i: int| 0 <= i < ws.len() implies lo <= (#[trigger] ws[i]).col < lo
        + width by {
        us.lemma_filter_pred(inside, i);
    }
}

/// Updates to other columns leave a sum and the membership of a column as they are.
proof fn lemma_other_columns<V: Scalar>(ws: Seq<Update<V>>, v: V, seg: Seq<(int, V)>, k: int)
    requires
        forall|q: int| 0 <= q < seg.len() ==> (#[trigger] seg[q]).0 != k,
    ensures
        product::accumulate(ws + product::scaled(v, seg), k, true) == product::accumulate(
            ws,
            k,
            true,
        ),
        product::touched(ws + product::scaled(v, seg)).contains(k) == product::touched(
            ws,
        ).contains(k),
    decreases seg.len(),
{
    if seg.len() == 0 {
        assert(ws + product::scaled(v, seg) =~= ws);
    } else {
        let front = seg.drop_last();
        let u = Update { col: seg.last().0, left: v, right: seg.last().1 };
        assert(seg[seg.len() - 1].0 != k);
        assert forall|q: int| 0 <= q < front.len() implies (#[trigger] front[q]).0 != k by {
            assert(front[q] == seg[q]);
        }
        lemma_other_columns(ws, v, front, k);
        let before = ws + product::scaled(v, front);
        assert(ws + product::scaled(v, seg) =~= before.push(u));
        product::lemma_push_update(before, u);
        product::lemma_touched(before);
        product::lemma_touched(before.push(u));
        let t = product::touched(before);
        let t2 = product::touched(before.push(u));
        if t.contains(k) && !t.contains(u.col) {
            let q = choose|q: int| 0 <= q < t.len() && t[q] == k;
            assert(t2[q] == k);
        }
        if t2.contains(k) && !t.contains(u.col) {
            let q = choose|q: int| 0 <= q < t2.len() && t2[q] == k;
            assert(t[q] == k);
        }
    }
}

/// The running maximum keeps bounding all sums of the chunk.
proof fn lemma_bound_grows<V: Scalar>(
    ws: Seq<Update<V>>,
    v: V,
    seg: Seq<(int, V)>,
    before: V,
    m: V,
)
    requires
        scatter::bounds_sums(before, ws),
        scatter::bounds_written(m, ws + product::scaled(v, seg), seg),
    ensures
        scatter::bounds_sums(before.spec_max(m), ws + product::scaled(v, seg)),
{
    let ws2 = ws + product::scaled(v, seg);
    assert forall|k: int, bound: V|
        product::touched(ws2).contains(k) && #[trigger] bound.spec_less(
            product::accumulate(ws2, k, true),
        ) implies bound.spec_less(before.spec_max(m)) by {
        if exists|q: int| 0 <= q < seg.len() && (#[trigger] seg[q]).0 == k {
            let q = choose|q: int| 0 <= q < seg.len() && (#[trigger] seg[q]).0 == k;
            assert(bound.spec_less(product::accumulate(ws2, seg[q].0, true)));
            V::lemma_max_exceeds(bound, m, before);
        } else {
            lemma_other_columns(ws, v, seg, k);
            assert(bound.spec_less(product::accumulate(ws, k, true)));
            V::lemma_max_exceeds(bound, before, m);
        }
    }
}

/// Is `c0..chunk_end` chunk number `m` of width `cc`, and can B-rows be read
/// by it: from tiles, or by projection, which takes rows that come chunk by
/// chunk?
pub open spec fn is_chunk<V: Scalar, I: Index>(
    b: CsrView<'_, V, I>,
    tiled: bool,
    cc: int,
    m: int,
    c0: int,
    chunk_end: int,
) -> bool {
    &&& b.valid()
    &&& cc > 0
    &&& m >= 0
    &&& !tiled ==> topn::chunk_ordered(b, cc)
    &&& c0 == topn::chunk_start(b.ncols as int, cc, m)
    &&& chunk_end == topn::chunk_start(b.ncols as int, cc, m + 1)
    &&& c0 < b.ncols
}

/// Does this way of reading B need cursors?
pub open spec fn uses_cursors<V>(tiled: Option<&TiledB<V>>, projection: BProjection) -> bool {
    tiled is None && projection == BProjection::Cursor
}

/// Have the cursors of row `i` moved on to `bound`, and all others stayed?
pub open spec fn cursors_moved<V: Scalar, I: Index>(
    used: bool,
    before: Seq<usize>,
    after: Seq<usize>,
    base: int,
    a: CsrView<'_, V, I>,
    b: CsrView<'_, V, I>,
    i: int,
    bound: int,
) -> bool {
    if used {
        &&& after.len() == before.len()
        &&& cursors_at(after, base, a, b, i, bound)
        &&& forall|x: int|
            0 <= x < after.len() && !(base <= x < base + a.row(i).len()) ==> #[trigger] after[x]
                == before[x]
    } else {
        after == before
    }
}

/// The entries of a segment lie in it.
proof fn lemma_segment_bounds<V>(row: Seq<(int, V)>, lo: int, hi: int)
    ensures
        forall|p: int|
            0 <= p < product::segment(row, lo, hi).len() ==> lo <= (#[trigger] product::segment(
                row,
                lo,
                hi,
            )[p]).0 < hi,
{
    let inside = |e: (int, V)| lo <= e.0 < hi;
    assert forall|p: int| 0 <= p < product::segment(row, lo, hi).len() implies lo <= (
    #[trigger] product::segment(row, lo, hi)[p]).0 < hi by {
        row.lemma_filter_pred(inside, p);
    }
}

/// Where the cursor of the entry at `jj` is kept.
fn base_pos(base: usize, jj: usize, jj_start: usize, len: usize, used: bool) -> (r: usize)
    requires
        jj_start <= jj,
        used ==> base + (jj - jj_start) < len,
    ensures
        used ==> r == base + (jj - jj_start),
{
    if used {
        base + (jj - jj_start)
    } else {
        0
    }
}

/// Scatter the part of B-row `j` that lies in the chunk into the accumulator
/// and the list of touched columns. Returns the new list.
fn scatter_entry_linked<V: Scalar, I: Index>(
    b: CsrView<'_, V, I>,
    j: usize,
    v: V,
    c0: usize,
    chunk_end: usize,
    chunk_id: usize,
    projection: BProjection,
    tiled: Option<&TiledB<V>>,
    cursors: &mut Vec<usize>,
    pos: usize,
    sums: &mut Vec<V>,
    next: &mut Vec<u32>,
    head: u32,
    length: usize,
    Ghost(ws): Ghost<Seq<Update<V>>>,
) -> (r: (u32, usize))
    requires
        is_chunk(
            b,
            tiled is Some,
            old(sums)@.len() as int,
            chunk_id as int,
            c0 as int,
            chunk_end as int,
        ),
        j < b.nrows,
        tiled matches Some(t) ==> t.tiles(b, old(sums)@.len() as usize),
        uses_cursors(tiled, projection) ==> pos < old(cursors)@.len() && is_split(
            b,
            j as int,
            old(cursors)@[pos as int] as int,
            c0 as int,
        ),
        scatter::accounts_for(old(sums)@, old(next)@, head, length, ws, c0 as int),
    ensures
        final(sums)@.len() == old(sums)@.len(),
        final(next)@.len() == old(next)@.len(),
        scatter::accounts_for(
            final(sums)@,
            final(next)@,
            r.0,
            r.1,
            ws + product::scaled(
                v,
                product::segment(b.row(j as int), c0 as int, chunk_end as int),
            ),
            c0 as int,
        ),
        if uses_cursors(tiled, projection) {
            &&& final(cursors)@ == old(cursors)@.update(pos as int, final(cursors)@[pos as int])
            &&& is_split(b, j as int, final(cursors)@[pos as int] as int, chunk_end as int)
        } else {
            final(cursors)@ == old(cursors)@
        },
{
    let ghost cc = sums@.len() as int;
    assert(sums@.len() == sums.len());
    let ghost seg = product::segment(b.row(j as int), c0 as int, chunk_end as int);
    proof {
        topn::lemma_chunk_start(b.ncols as int, cc, chunk_id as int);
        topn::lemma_chunk_start(b.ncols as int, cc, chunk_id + 1);
        product::lemma_row_in_bounds(b, j as int);
        if tiled is None {
            lemma_boundary_splits(b, cc, j as int, chunk_id as int);
            lemma_boundary_splits(b, cc, j as int, chunk_id + 1);
        }
        lemma_segment_bounds(b.row(j as int), c0 as int, chunk_end as int);
        assert(b.start(0) <= b.start(j as int) <= b.start(j + 1) <= b.start(b.nrows as int));
    }
    match tiled {
        Some(t) => {
            let (si, sd): (&[u16], &[V]) = t.segment(chunk_id, j);
            proof {
                if chunk_end < c0 + cc {
                    lemma_segment_clipped(b.row(j as int), c0 as int, c0 + cc, b.ncols as int);
                }
                let tile = t.tile(chunk_id as int, j as int);
                assert(tile == tiled::local_segment(b.row(j as int), cc, chunk_id as int));
                assert forall|p: int| 0 <= p < seg.len() implies #[trigger] seg[p] == (
                    c0 + si@[p],
                    sd@[p],
                ) by {
                    assert(tile[p] == (seg[p].0 - c0, seg[p].1));
                    assert(tile[p] == (si@[p] as int, sd@[p]));
                }
            }
            scatter::scatter_linked_local(
                si,
                sd,
                v,
                sums,
                next,
                head,
                length,
                Ghost(c0 as int),
                Ghost(seg),
                Ghost(ws),
            )
        },
        None => {
            let row_end: usize = b.row_start(j + 1);
            match projection {
                BProjection::BinarySearch => {
                    let row_start: usize = b.row_start(j);
                    let lo: usize = partition_point(b, row_start, row_end, c0);
                    let hi: usize = partition_point(b, row_start, row_end, chunk_end);
                    proof {
                        lemma_split_segment(
                            b,
                            j as int,
                            lo as int,
                            c0 as int,
                            hi as int,
                            chunk_end as int,
                        );
                    }
                    let (h, l, cur): (u32, usize, usize) = scatter::scatter_linked(
                        b,
                        lo,
                        hi,
                        v,
                        c0,
                        chunk_end,
                        sums,
                        next,
                        head,
                        length,
                        Ghost(ws),
                    );
                    assert(cur == hi);
                    (h, l)
                },
                BProjection::Cursor => {
                    let lo: usize = cursors[pos];
                    let (h, l, cur): (u32, usize, usize) = scatter::scatter_linked(
                        b,
                        lo,
                        row_end,
                        v,
                        c0,
                        chunk_end,
                        sums,
                        next,
                        head,
                        length,
                        Ghost(ws),
                    );
                    proof {
                        assert forall|p: int| cur <= p < b.start(j + 1) implies #[trigger] b.col(p)
                            >= chunk_end by {
                            assert(b.col(cur as int) >= chunk_end);
                        }
                        assert(is_split(b, j as int, cur as int, chunk_end as int));
                        lemma_split_segment(
                            b,
                            j as int,
                            lo as int,
                            c0 as int,
                            cur as int,
                            chunk_end as int,
                        );
                    }
                    cursors[pos] = cur;
                    (h, l)
                },
            }
        },
    }
}

/// Scatter the part of B-row `j` that lies in the chunk into the dense
/// accumulator. Returns the maximum of the sums written.
fn scatter_entry_dense<V: Scalar, I: Index>(
    b: CsrView<'_, V, I>,
    j: usize,
    v: V,
    c0: usize,
    chunk_end: usize,
    chunk_id: usize,
    projection: BProjection,
    tiled: Option<&TiledB<V>>,
    cursors: &mut Vec<usize>,
    pos: usize,
    sums: &mut Vec<V>,
    Ghost(ws): Ghost<Seq<Update<V>>>,
) -> (r: V)
    requires
        is_chunk(
            b,
            tiled is Some,
            old(sums)@.len() as int,
            chunk_id as int,
            c0 as int,
            chunk_end as int,
        ),
        j < b.nrows,
        tiled matches Some(t) ==> t.tiles(b, old(sums)@.len() as usize),
        uses_cursors(tiled, projection) ==> pos < old(cursors)@.len() && is_split(
            b,
            j as int,
            old(cursors)@[pos as int] as int,
            c0 as int,
        ),
        scatter::in_chunk(ws, c0 as int, old(sums)@.len() as int),
        scatter::holds_sums(old(sums)@, ws, c0 as int),
        topn::distinct_columns(b),
    ensures
        final(sums)@.len() == old(sums)@.len(),
        ({
            let seg = product::segment(b.row(j as int), c0 as int, chunk_end as int);
            let ws2 = ws + product::scaled(v, seg);
            &&& scatter::in_chunk(ws2, c0 as int, final(sums)@.len() as int)
            &&& scatter::holds_sums(final(sums)@, ws2, c0 as int)
            &&& scatter::bounds_written(r, ws2, seg)
        }),
        if uses_cursors(tiled, projection) {
            &&& final(cursors)@ == old(cursors)@.update(pos as int, final(cursors)@[pos as int])
            &&& is_split(b, j as int, final(cursors)@[pos as int] as int, chunk_end as int)
        } else {
            final(cursors)@ == old(cursors)@
        },
{
    let ghost cc = sums@.len() as int;
    assert(sums@.len() == sums.len());
    let ghost seg = product::segment(b.row(j as int), c0 as int, chunk_end as int);
    proof {
        topn::lemma_chunk_start(b.ncols as int, cc, chunk_id as int);
        topn::lemma_chunk_start(b.ncols as int, cc, chunk_id + 1);
        product::lemma_row_in_bounds(b, j as int);
        if tiled is None {
            lemma_boundary_splits(b, cc, j as int, chunk_id as int);
            lemma_boundary_splits(b, cc, j as int, chunk_id + 1);
        }
        lemma_segment_bounds(b.row(j as int), c0 as int, chunk_end as int);
        assert(b.start(0) <= b.start(j as int) <= b.start(j + 1) <= b.start(b.nrows as int));
        lemma_segment_distinct(b.row(j as int), c0 as int, chunk_end as int);
    }
    match tiled {
        Some(t) => {
            let (si, sd): (&[u16], &[V]) = t.segment(chunk_id, j);
            proof {
                if chunk_end < c0 + cc {
                    lemma_segment_clipped(b.row(j as int), c0 as int, c0 + cc, b.ncols as int);
                }
                let tile = t.tile(chunk_id as int, j as int);
                assert(tile == tiled::local_segment(b.row(j as int), cc, chunk_id as int));
                assert forall|p: int| 0 <= p < seg.len() implies #[trigger] seg[p] == (
                    c0 + si@[p],
                    sd@[p],
                ) by {
                    assert(tile[p] == (seg[p].0 - c0, seg[p].1));
                    assert(tile[p] == (si@[p] as int, sd@[p]));
                }
            }
            proof {
                let slots = scatter::local_slots_of(si@, sd@);
                assert forall|p: int| 0 <= p < slots.len() implies 0 <= (#[trigger] slots[p]).0
                    < sums@.len() && seg[p] == (c0 + slots[p].0, slots[p].1) by {
                    assert(c0 <= seg[p].0 < chunk_end);
                }
                assert forall|p: int, q: int| 0 <= p < q < slots.len() implies (
                #[trigger] slots[p]).0 != (#[trigger] slots[q]).0 by {
                    assert(seg[p].0 != seg[q].0);
                }
                scatter::lemma_scattered_sums(sums@, ws, v, seg, slots, c0 as int);
            }
            scatter::scatter_dense_unrolled_local(si, sd, v, sums)
        },
        None => {
            let row_end: usize = b.row_start(j + 1);
            let lo: usize = match projection {
                BProjection::BinarySearch => {
                    let row_start: usize = b.row_start(j);
                    partition_point(b, row_start, row_end, c0)
                },
                BProjection::Cursor => cursors[pos],
            };
            let hi: usize = partition_point(b, lo, row_end, chunk_end);
            proof {
                assert(is_split(b, j as int, hi as int, chunk_end as int));
                lemma_split_segment(b, j as int, lo as int, c0 as int, hi as int, chunk_end as int);
                assert(b.start(b.nrows as int) <= b.data@.len());
            }
            if let BProjection::Cursor = projection {
                cursors[pos] = hi;
            }
            let si: &[I] = vstd::slice::slice_subrange(b.indices, lo, hi);
            let sd: &[V] = vstd::slice::slice_subrange(b.data, lo, hi);
            proof {
                let slots = scatter::slots_of(si@, sd@, c0 as int);
                assert forall|p: int| 0 <= p < slots.len() implies 0 <= (#[trigger] slots[p]).0
                    < sums@.len() && seg[p] == (c0 + slots[p].0, slots[p].1) by {
                    assert(c0 <= seg[p].0 < chunk_end);
                }
                assert forall|p: int, q: int| 0 <= p < q < slots.len() implies (
                #[trigger] slots[p]).0 != (#[trigger] slots[q]).0 by {
                    assert(seg[p].0 != seg[q].0);
                }
                assert forall|p: int| 0 <= p < si@.len() implies (#[trigger] si@[p]).as_int()
                    <= usize::MAX by {
                    assert(c0 <= seg[p].0 < chunk_end);
                }
                scatter::lemma_scattered_sums(sums@, ws, v, seg, slots, c0 as int);
            }
            scatter::scatter_dense_unrolled(si, sd, v, c0, sums)
        },
    }
}

/// Scatter the part of row `i` of the product that lies in the chunk into the
/// accumulator and the list of touched columns. Returns the list.
fn scatter_row_linked<V: Scalar, I: Index>(
    a: CsrView<'_, V, I>,
    b: CsrView<'_, V, I>,
    i: usize,
    c0: usize,
    chunk_end: usize,
    chunk_id: usize,
    projection: BProjection,
    tiled: Option<&TiledB<V>>,
    cursors: &mut Vec<usize>,
    base: usize,
    sums: &mut Vec<V>,
    next: &mut Vec<u32>,
) -> (r: (u32, usize))
    requires
        product::multipliable(a, b),
        i < a.nrows,
        is_chunk(
            b,
            tiled is Some,
            old(sums)@.len() as int,
            chunk_id as int,
            c0 as int,
            chunk_end as int,
        ),
        tiled matches Some(t) ==> t.tiles(b, old(sums)@.len() as usize),
        uses_cursors(tiled, projection) ==> cursors_at(
            old(cursors)@,
            base as int,
            a,
            b,
            i as int,
            c0 as int,
        ),
        scatter::all_zero(old(sums)@),
        scatter::none_visited(old(next)@),
        old(sums)@.len() == old(next)@.len(),
        old(sums)@.len() < HEAD_NIL,
    ensures
        final(sums)@.len() == old(sums)@.len(),
        final(next)@.len() == old(next)@.len(),
        scatter::accounts_for(
            final(sums)@,
            final(next)@,
            r.0,
            r.1,
            product::within(product::updates_of(a, b, i as int), c0 as int, chunk_end as int),
            c0 as int,
        ),
        cursors_moved(
            uses_cursors(tiled, projection),
            old(cursors)@,
            final(cursors)@,
            base as int,
            a,
            b,
            i as int,
            chunk_end as int,
        ),
{
    let mut head: u32 = HEAD_NIL;
    let mut length: usize = 0;
    let ghost left = a.row(i as int);
    let ghost mut ws = Seq::<Update<V>>::empty();
    proof {
        reveal(scatter::accounts_for);
        reveal(Seq::filter);
        product::lemma_row_in_bounds(a, i as int);
        assert(left.take(0) =~= Seq::empty());
        assert(a.start(0) <= a.start(i as int) <= a.start(i + 1) <= a.start(a.nrows as int));
    }
    let use_cursors: bool = tiled.is_none() && projection == BProjection::Cursor;
    let jj_start: usize = a.row_start(i);
    let jj_end: usize = a.row_start(i + 1);
    let mut jj: usize = jj_start;
    while jj < jj_end
        invariant
            product::multipliable(a, b),
            i < a.nrows,
            left == a.row(i as int),
            is_chunk(
                b,
                tiled is Some,
                sums@.len() as int,
                chunk_id as int,
                c0 as int,
                chunk_end as int,
            ),
            tiled matches Some(t) ==> t.tiles(b, sums@.len() as usize),
            use_cursors == uses_cursors(tiled, projection),
            jj_start == a.start(i as int),
            jj_end == a.start(i + 1),
            left.len() == jj_end - jj_start,
            a.start(0) <= jj_start <= jj <= jj_end <= a.start(a.nrows as int),
            jj_end <= a.data@.len(),
            sums@.len() == old(sums)@.len(),
            ws == product::within(
                product::row_updates(left.take(jj - jj_start), b),
                c0 as int,
                chunk_end as int,
            ),
            next@.len() == old(next)@.len(),
            scatter::accounts_for(sums@, next@, head, length, ws, c0 as int),
            cursors@.len() == old(cursors)@.len(),
            use_cursors ==> base + left.len() <= cursors@.len(),
            !use_cursors ==> cursors@ == old(cursors)@,
            forall|x: int|
                0 <= x < cursors@.len() && !(base <= x < base + left.len())
                    ==> #[trigger] cursors@[x] == old(cursors)@[x],
            use_cursors ==> forall|m: int|
                0 <= m < left.len() ==> is_split(
                    b,
                    (#[trigger] left[m]).0,
                    cursors@[base + m] as int,
                    if m < jj - jj_start {
                        chunk_end as int
                    } else {
                        c0 as int
                    },
                ),
        decreases jj_end - jj,
    {
        let ghost m0 = jj - jj_start;
        let ghost cursors0 = cursors@;
        proof {
            product::lemma_row_in_bounds(a, i as int);
            assert(left[m0] == (a.col(jj as int), a.data@[jj as int]));
            topn::lemma_within_step(left, b, m0, c0 as int, chunk_end as int);
        }
        let j: usize = a.column_at(jj);
        let v = a.data[jj];
        let (h, l): (u32, usize) = scatter_entry_linked(
            b,
            j,
            v,
            c0,
            chunk_end,
            chunk_id,
            projection,
            tiled,
            cursors,
            base_pos(base, jj, jj_start, cursors.len(), use_cursors),
            sums,
            next,
            head,
            length,
            Ghost(ws),
        );
        head = h;
        length = l;
        proof {
            ws =
            ws + product::scaled(
                v,
                product::segment(b.row(j as int), c0 as int, chunk_end as int),
            );
            if use_cursors {
                assert forall|m: int| 0 <= m < left.len() implies is_split(
                    b,
                    (#[trigger] left[m]).0,
                    cursors@[base + m] as int,
                    if m < m0 + 1 {
                        chunk_end as int
                    } else {
                        c0 as int
                    },
                ) by {
                    if m != m0 {
                        assert(cursors@[base + m] == cursors0[base + m]);
                    }
                }
            }
        }
        jj = jj + 1;
    }
    assert(left.take(left.len() as int) =~= left);
    (head, length)
}

/// Scatter the part of row `i` of the product that lies in the chunk into the
/// dense accumulator. Returns an upper bound on the sums.
fn scatter_row_dense<V: Scalar, I: Index>(
    a: CsrView<'_, V, I>,
    b: CsrView<'_, V, I>,
    i: usize,
    c0: usize,
    chunk_end: usize,
    chunk_id: usize,
    projection: BProjection,
    tiled: Option<&TiledB<V>>,
    cursors: &mut Vec<usize>,
    base: usize,
    sums: &mut Vec<V>,
) -> (r: V)
    requires
        product::multipliable(a, b),
        i < a.nrows,
        is_chunk(
            b,
            tiled is Some,
            old(sums)@.len() as int,
            chunk_id as int,
            c0 as int,
            chunk_end as int,
        ),
        tiled matches Some(t) ==> t.tiles(b, old(sums)@.len() as usize),
        uses_cursors(tiled, projection) ==> cursors_at(
            old(cursors)@,
            base as int,
            a,
            b,
            i as int,
            c0 as int,
        ),
        scatter::all_zero(old(sums)@),
        topn::distinct_columns(b),
    ensures
        final(sums)@.len() == old(sums)@.len(),
        ({
            let ws = product::within(
                product::updates_of(a, b, i as int),
                c0 as int,
                chunk_end as int,
            );
            &&& scatter::holds_sums(final(sums)@, ws, c0 as int)
            &&& scatter::bounds_sums(r, ws)
        }),
        cursors_moved(
            uses_cursors(tiled, projection),
            old(cursors)@,
            final(cursors)@,
            base as int,
            a,
            b,
            i as int,
            chunk_end as int,
        ),
{
    let mut chunk_max = V::min_value();
    let ghost left = a.row(i as int);
    let ghost mut ws = Seq::<Update<V>>::empty();
    proof {
        reveal(scatter::accounts_for);
        reveal(Seq::filter);
        product::lemma_row_in_bounds(a, i as int);
        assert(left.take(0) =~= Seq::empty());
        assert(a.start(0) <= a.start(i as int) <= a.start(i + 1) <= a.start(a.nrows as int));
    }
    let use_cursors: bool = tiled.is_none() && projection == BProjection::Cursor;
    let jj_start: usize = a.row_start(i);
    let jj_end: usize = a.row_start(i + 1);
    let mut jj: usize = jj_start;
    while jj < jj_end
        invariant
            product::multipliable(a, b),
            i < a.nrows,
            left == a.row(i as int),
            is_chunk(
                b,
                tiled is Some,
                sums@.len() as int,
                chunk_id as int,
                c0 as int,
                chunk_end as int,
            ),
            tiled matches Some(t) ==> t.tiles(b, sums@.len() as usize),
            use_cursors == uses_cursors(tiled, projection),
            jj_start == a.start(i as int),
            jj_end == a.start(i + 1),
            left.len() == jj_end - jj_start,
            a.start(0) <= jj_start <= jj <= jj_end <= a.start(a.nrows as int),
            jj_end <= a.data@.len(),
            sums@.len() == old(sums)@.len(),
            ws == product::within(
                product::row_updates(left.take(jj - jj_start), b),
                c0 as int,
                chunk_end as int,
            ),
            scatter::in_chunk(ws, c0 as int, sums@.len() as int),
            scatter::holds_sums(sums@, ws, c0 as int),
            scatter::bounds_sums(chunk_max, ws),
            topn::distinct_columns(b),
            cursors@.len() == old(cursors)@.len(),
            use_cursors ==> base + left.len() <= cursors@.len(),
            !use_cursors ==> cursors@ == old(cursors)@,
            forall|x: int|
                0 <= x < cursors@.len() && !(base <= x < base + left.len())
                    ==> #[trigger] cursors@[x] == old(cursors)@[x],
            use_cursors ==> forall|m: int|
                0 <= m < left.len() ==> is_split(
                    b,
                    (#[trigger] left[m]).0,
                    cursors@[base + m] as int,
                    if m < jj - jj_start {
                        chunk_end as int
                    } else {
                        c0 as int
                    },
                ),
        decreases jj_end - jj,
    {
        let ghost m0 = jj - jj_start;
        let ghost cursors0 = cursors@;
        proof {
            product::lemma_row_in_bounds(a, i as int);
            assert(left[m0] == (a.col(jj as int), a.data@[jj as int]));
            topn::lemma_within_step(left, b, m0, c0 as int, chunk_end as int);
        }
        let j: usize = a.column_at(jj);
        let v = a.data[jj];
        let m = scatter_entry_dense(
            b,
            j,
            v,
            c0,
            chunk_end,
            chunk_id,
            projection,
            tiled,
            cursors,
            base_pos(base, jj, jj_start, cursors.len(), use_cursors),
            sums,
            Ghost(ws),
        );
        proof {
            lemma_bound_grows(
                ws,
                v,
                product::segment(b.row(j as int), c0 as int, chunk_end as int),
                chunk_max,
                m,
            );
        }
        chunk_max = chunk_max.max(m);
        proof {
            ws =
            ws + product::scaled(
                v,
                product::segment(b.row(j as int), c0 as int, chunk_end as int),
            );
            if use_cursors {
                assert forall|m: int| 0 <= m < left.len() implies is_split(
                    b,
                    (#[trigger] left[m]).0,
                    cursors@[base + m] as int,
                    if m < m0 + 1 {
                        chunk_end as int
                    } else {
                        c0 as int
                    },
                ) by {
                    if m != m0 {
                        assert(cursors@[base + m] == cursors0[base + m]);
                    }
                }
            }
        }
        jj = jj + 1;
    }
    assert(left.take(left.len() as int) =~= left);
    chunk_max
}

/// Push one b-cursor per nonzero of A-row `i`, used by both the per-row and the
/// blocked kernels to seed the [`BProjection::Cursor`] scratch.
pub(crate) fn push_row_cursors<V: Scalar, I: Index>(
    a: CsrView<'_, V, I>,
    b: CsrView<'_, V, I>,
    i: usize,
    cursors: &mut Vec<usize>,
)
    requires
        product::multipliable(a, b),
        i < a.nrows,
    ensures
        final(cursors)@.len() == old(cursors)@.len() + a.row(i as int).len(),
        forall|x: int|
            0 <= x < old(cursors)@.len() ==> #[trigger] final(cursors)@[x] == old(cursors)@[x],
        cursors_at(final(cursors)@, old(cursors)@.len() as int, a, b, i as int, 0),
{
    let ghost base = cursors@.len() as int;
    let ghost left = a.row(i as int);
    proof {
        product::lemma_row_in_bounds(a, i as int);
        assert(a.start(0) <= a.start(i as int) <= a.start(i + 1) <= a.start(a.nrows as int));
    }
    let jj_start: usize = a.row_start(i);
    let jj_end: usize = a.row_start(i + 1);
    let mut jj: usize = jj_start;
    while jj < jj_end
        invariant
            product::multipliable(a, b),
            i < a.nrows,
            left == a.row(i as int),
            jj_start == a.start(i as int),
            jj_end == a.start(i + 1),
            left.len() == jj_end - jj_start,
            a.start(0) <= jj_start <= jj <= jj_end <= a.start(a.nrows as int),
            base == old(cursors)@.len(),
            cursors@.len() == base + (jj - jj_start),
            forall|x: int| 0 <= x < base ==> #[trigger] cursors@[x] == old(cursors)@[x],
            forall|m: int|
                0 <= m < jj - jj_start ==> is_split(
                    b,
                    (#[trigger] left[m]).0,
                    cursors@[base + m] as int,
                    0,
                ),
        decreases jj_end - jj,
    {
        let ghost cursors0 = cursors@;
        let j: usize = a.column_at(jj);
        cursors.push(b.row_start(j));
        proof {
            product::lemma_row_in_bounds(a, i as int);
            assert(left[jj - jj_start].0 == j);
            assert(b.start(j as int) <= b.start(j + 1));
            assert(b.start(0) <= b.start(j as int));
            assert(b.start(j + 1) <= b.start(b.nrows as int));
            assert(is_split(b, j as int, b.start(j as int), 0));
            assert forall|m: int| 0 <= m < jj - jj_start implies is_split(
                b,
                (#[trigger] left[m]).0,
                cursors@[base + m] as int,
                0,
            ) by {
                assert(cursors@[base + m] == cursors0[base + m]);
            }
        }
        jj = jj + 1;
    }
}

/// Expected updates per output column for row `i`, as a fraction: the exact
/// update count (the sum of B-row nnz over the row's entries, saturating) over
/// the number of columns. `O(nnz(A-row))`; the same reads happen again in the
/// scatter, so this pre-pass is cache-warm by construction.
pub fn row_update_density<V: Scalar, I: Index>(
    a: CsrView<'_, V, I>,
    b: CsrView<'_, V, I>,
    i: usize,
) -> (r: (usize, usize))
    requires
        product::multipliable(a, b),
        i < a.nrows,
    ensures
        r.0 == if product::updates_of(a, b, i as int).len() <= usize::MAX {
            product::updates_of(a, b, i as int).len() as int
        } else {
            usize::MAX as int
        },
        r.1 == if b.ncols == 0 {
            1
        } else {
            b.ncols
        },
{
    let ghost left = a.row(i as int);
    proof {
        product::lemma_row_in_bounds(a, i as int);
        assert(left.take(0) =~= Seq::empty());
        assert(a.start(0) <= a.start(i as int) <= a.start(i + 1) <= a.start(a.nrows as int));
    }
    let jj_start: usize = a.row_start(i);
    let jj_end: usize = a.row_start(i + 1);
    let mut updates: usize = 0;
    let mut jj: usize = jj_start;
    while jj < jj_end
        invariant
            product::multipliable(a, b),
            i < a.nrows,
            left == a.row(i as int),
            jj_start == a.start(i as int),
            jj_end == a.start(i + 1),
            left.len() == jj_end - jj_start,
            a.start(0) <= jj_start <= jj <= jj_end <= a.start(a.nrows as int),
            ({
                let n = product::row_updates(left.take(jj - jj_start), b).len();
                updates == if n <= usize::MAX {
                    n as int
                } else {
                    usize::MAX as int
                }
            }),
        decreases jj_end - jj,
    {
        let j: usize = a.column_at(jj);
        proof {
            product::lemma_row_in_bounds(a, i as int);
            assert(left[jj - jj_start].0 == j);
            assert(left.take(jj - jj_start + 1).drop_last() =~= left.take(jj - jj_start));
            product::lemma_row_in_bounds(b, j as int);
            assert(b.start(j as int) <= b.start(j + 1));
        }
        updates = updates.saturating_add(b.row_start(j + 1) - b.row_start(j));
        jj = jj + 1;
    }
    assert(left.take(left.len() as int) =~= left);
    let columns: usize = if b.ncols == 0 {
        1
    } else {
        b.ncols
    };
    (updates, columns)
}

/// Should row `i` use the dense accumulator? `Adaptive` compares the updates
/// per column with a threshold of one fifth, in integers. Measured, dense wins
/// from about 0.13 updates per column on; the threshold is deliberately
/// conservative.
pub(crate) fn row_uses_dense<V: Scalar, I: Index>(
    a: CsrView<'_, V, I>,
    b: CsrView<'_, V, I>,
    i: usize,
    accum: AccumMode,
) -> (r: bool)
    requires
        product::multipliable(a, b),
        i < a.nrows,
    ensures
        r == topn::uses_dense(a, b, i as int, accum),
{
    V::IS_FLOAT && match accum {
        AccumMode::LinkedList => false,
        AccumMode::Dense => true,
        AccumMode::Adaptive => {
            let (updates, columns) = row_update_density(a, b, i);
            updates as u128 * 5 >= columns as u128
        },
    }
}

/// The non-zero sums of a column range depend only on the updates in it.
proof fn lemma_nonzero_within<V: Scalar>(us: Seq<Update<V>>, lo: int, hi: int, end: int)
    requires
        hi <= end,
    ensures
        topn::nonzero_sums(product::within(us, lo, end), lo, hi) == topn::nonzero_sums(us, lo, hi),
    decreases hi - lo,
{
    if lo < hi {
        lemma_nonzero_within(us, lo, hi - 1, end);
        product::lemma_accumulate_within(us, lo, end, hi - 1, true);
    }
}

/// One step of the chunk sweep: accumulate the part of row `i` that lies in the
/// chunk, offer the sums to the heap and leave the scratch clean. Returns the
/// new heap minimum.
pub(crate) fn process_chunk<V: Scalar, I: Index>(
    a: CsrView<'_, V, I>,
    b: CsrView<'_, V, I>,
    i: usize,
    c0: usize,
    chunk_end: usize,
    chunk_id: usize,
    projection: BProjection,
    tiled: Option<&TiledB<V>>,
    use_dense: bool,
    sums: &mut Vec<V>,
    next: &mut Vec<u32>,
    heap: &mut MaxHeap<V, I>,
    min: V,
    cursors: &mut Vec<usize>,
    base: usize,
) -> (r: V)
    requires
        product::multipliable(a, b),
        i < a.nrows,
        is_chunk(
            b,
            tiled is Some,
            old(sums)@.len() as int,
            chunk_id as int,
            c0 as int,
            chunk_end as int,
        ),
        use_dense ==> topn::distinct_columns(b),
        tiled matches Some(t) ==> t.tiles(b, old(sums)@.len() as usize),
        uses_cursors(tiled, projection) ==> cursors_at(
            old(cursors)@,
            base as int,
            a,
            b,
            i as int,
            c0 as int,
        ),
        is_clean(old(sums)@, old(next)@),
        old(heap)@.slots.len() > 0,
        min == old(heap)@.min(),
    ensures
        final(sums)@.len() == old(sums)@.len(),
        is_clean(final(sums)@, final(next)@),
        final(heap)@.slots.len() == old(heap)@.slots.len(),
        r == final(heap)@.min(),
        final(heap)@ == old(heap)@.offer_all(
            topn::chunk_candidates(
                product::updates_of(a, b, i as int),
                c0 as int,
                chunk_end as int,
                use_dense,
            ),
        ),
        cursors_moved(
            uses_cursors(tiled, projection),
            old(cursors)@,
            final(cursors)@,
            base as int,
            a,
            b,
            i as int,
            chunk_end as int,
        ),
{
    let ghost us = product::updates_of(a, b, i as int);
    let ghost ws = product::within(us, c0 as int, chunk_end as int);
    proof {
        topn::lemma_chunk_start(b.ncols as int, sums@.len() as int, chunk_id as int);
        topn::lemma_chunk_start(b.ncols as int, sums@.len() as int, chunk_id + 1);
        lemma_within_in_chunk(us, c0 as int, chunk_end as int, chunk_end - c0);
    }
    if use_dense {
        let chunk_max = scatter_row_dense(
            a,
            b,
            i,
            c0,
            chunk_end,
            chunk_id,
            projection,
            tiled,
            cursors,
            base,
            sums,
        );
        proof {
            lemma_nonzero_within(us, c0 as int, chunk_end as int, chunk_end as int);
        }
        let ghost sums1 = sums@;
        let width: usize = chunk_end - c0;
        let m = drain_dense_chunk(heap, sums, min, chunk_max, c0, width, Ghost(ws));
        proof {
            // Slots behind a short last chunk were never written.
            assert forall|x: int| 0 <= x < sums@.len() implies #[trigger] sums@[x]
                == V::spec_zero() by {
                if x < width {
                    assert(sums@.take(width as int)[x] == V::spec_zero());
                } else {
                    assert(sums@.skip(width as int)[x - width] == sums1.skip(width as int)[x
                        - width]);
                    product::lemma_touched(ws);
                    if product::touched(ws).contains(c0 + x) {
                        let k = choose|k: int| 0 <= k < ws.len() && (#[trigger] ws[k]).col == c0
                            + x;
                    }
                    product::lemma_untouched_is_zero(ws, c0 + x, true);
                    assert(sums1[x] == product::accumulate(ws, c0 + x, true));
                }
            }
        }
        m
    } else {
        let (head, length): (u32, usize) = scatter_row_linked(
            a,
            b,
            i,
            c0,
            chunk_end,
            chunk_id,
            projection,
            tiled,
            cursors,
            base,
            sums,
            next,
        );
        drain_linked_chunk(heap, sums, next, head, length, min, c0, Ghost(ws))
    }
}

/// Is the scratch space of the chunk kernel clean, and small enough for its
/// list nodes?
pub open spec fn is_clean<V: Scalar>(sums: Seq<V>, next: Seq<u32>) -> bool {
    &&& sums.len() == next.len()
    &&& sums.len() < HEAD_NIL
    &&& scatter::all_zero(sums)
    &&& scatter::none_visited(next)
}

/// Sort the entries of a row as asked and append them to the output. Returns
/// their number.
pub(crate) fn finish_row<V: Scalar, I: Index>(
    sort: SortMode,
    heap: &mut MaxHeap<V, I>,
    out_indices: &mut Vec<I>,
    out_data: &mut Vec<V>,
    Ghost(offered): Ghost<Seq<(int, V)>>,
) -> (r: usize)
    requires
        old(heap)@.slots.len() > 0,
        old(heap)@ == HeapState::<V, I>::fresh(
            old(heap)@.slots.len(),
            old(heap)@.floor,
        ).offer_all(offered),
    ensures
        final(heap)@.slots.len() == old(heap)@.slots.len(),
        final(heap)@.floor == old(heap)@.floor,
        ({
            let row = topn::selected::<V, I>(
                offered,
                old(heap)@.slots.len(),
                old(heap)@.floor,
                sort,
            );
            &&& r == row.len()
            &&& r <= u32::MAX
            &&& final(out_indices)@ == old(out_indices)@ + crate::csr::columns(row)
            &&& final(out_data)@ == old(out_data)@ + crate::csr::values(row)
        }),
{
    let ghost row = topn::selected::<V, I>(offered, heap@.slots.len(), heap@.floor, sort);
    proof {
        selection::lemma_sortable::<V, I>(heap@.slots.len(), heap@.floor, offered);
    }
    match sort {
        SortMode::ByColumn => heap.sort_by_insertion_order(),
        SortMode::ByValueDesc => heap.sort_by_value_desc(),
    }
    let n_set: usize = heap.n_set();
    let ghost held = heap@.entries();
    let entries = heap.entries();
    let mut picked: Vec<(I, V)> = Vec::with_capacity(n_set);
    let mut x: usize = 0;
    while x < entries.len()
        invariant
            x <= entries@.len(),
            held == entries@.map_values(|s: Score<V, I>| (s.idx, s.val)),
            picked@ == held.take(x as int),
        decreases entries@.len() - x,
    {
        picked.push((entries[x].idx, entries[x].val));
        proof {
            assert(held[x as int] == (entries@[x as int].idx, entries@[x as int].val));
            assert(picked@ =~= held.take(x + 1));
        }
        x = x + 1;
    }
    assert(held.take(held.len() as int) =~= held);
    if let SortMode::ByColumn = sort {
        sort_by_column(&mut picked);
    }
    assert(row == picked@);
    proof {
        assert(out_indices@ =~= old(out_indices)@ + crate::csr::columns(row.take(0)));
        assert(out_data@ =~= old(out_data)@ + crate::csr::values(row.take(0)));
    }
    let mut k: usize = 0;
    while k < picked.len()
        invariant
            k <= picked@.len(),
            picked@ == row,
            out_indices@ == old(out_indices)@ + crate::csr::columns(row.take(k as int)),
            out_data@ == old(out_data)@ + crate::csr::values(row.take(k as int)),
        decreases picked@.len() - k,
    {
        out_indices.push(picked[k].0);
        out_data.push(picked[k].1);
        proof {
            assert(row.take(k + 1) =~= row.take(k as int).push(row[k as int]));
            assert(out_indices@ =~= old(out_indices)@ + crate::csr::columns(row.take(k + 1)));
            assert(out_data@ =~= old(out_data)@ + crate::csr::values(row.take(k + 1)));
        }
        k = k + 1;
    }
    assert(row.take(row.len() as int) =~= row);
    n_set
}

/// Per-row body of the chunked driver. Walks the column chunks of B for row
/// `i` of A, fills `heap`, then appends the row's entries to `out_indices` /
/// `out_data`. Returns the number of entries appended.
///
/// Shared between [`run`] (sequential) and the parallel driver.
pub(crate) fn process_row<V: Scalar, I: Index>(
    a: CsrView<'_, V, I>,
    b: CsrView<'_, V, I>,
    i: usize,
    sort: SortMode,
    chunk_cols: usize,
    projection: BProjection,
    accum: AccumMode,
    sums: &mut Vec<V>,
    next: &mut Vec<u32>,
    heap: &mut MaxHeap<V, I>,
    cursors: &mut Vec<usize>,
    out_indices: &mut Vec<I>,
    out_data: &mut Vec<V>,
) -> (r: usize)
    requires
        i < a.nrows,
        chunk_cols > 0,
        topn::kernel_ready(a, b, accum, chunk_cols as int, false),
        old(sums)@.len() == chunk_cols,
        is_clean(old(sums)@, old(next)@),
        old(heap)@.slots.len() > 0,
    ensures
        final(sums)@.len() == chunk_cols,
        is_clean(final(sums)@, final(next)@),
        final(heap)@.slots.len() == old(heap)@.slots.len(),
        final(heap)@.floor == old(heap)@.floor,
        ({
            let row = topn::topn_row(
                a,
                b,
                old(heap)@.slots.len(),
                old(heap)@.floor,
                sort,
                accum,
                chunk_cols as int,
                i as int,
            );
            &&& r == row.len()
            &&& r <= u32::MAX
            &&& final(out_indices)@ == old(out_indices)@ + crate::csr::columns(row)
            &&& final(out_data)@ == old(out_data)@ + crate::csr::values(row)
        }),
{
    let ncols: usize = b.ncols;
    let ghost cc = chunk_cols as int;
    let ghost us = product::updates_of(a, b, i as int);
    let mut min = heap.reset();
    let ghost h0 = heap@;
    let use_dense: bool = row_uses_dense(a, b, i, accum);
    if projection == BProjection::Cursor {
        cursors.clear();
        push_row_cursors(a, b, i, cursors);
    }
    let tiled: Option<&TiledB<V>> = None;
    let mut c0: usize = 0;
    let mut chunk_id: usize = 0;
    proof {
        topn::lemma_chunk_start(ncols as int, cc, 0);
    }
    while c0 < ncols
        invariant
            i < a.nrows,
            ncols == b.ncols,
            cc == chunk_cols,
            cc > 0,
            tiled is None,
            topn::kernel_ready(a, b, accum, cc, false),
            us == product::updates_of(a, b, i as int),
            use_dense == topn::uses_dense(a, b, i as int, accum),
            sums@.len() == chunk_cols,
            is_clean(sums@, next@),
            h0 == HeapState::<V, I>::fresh(old(heap)@.slots.len(), old(heap)@.floor),
            h0.slots.len() > 0,
            heap@.slots.len() == h0.slots.len(),
            min == heap@.min(),
            c0 == topn::chunk_start(ncols as int, cc, chunk_id as int),
            0 <= chunk_id <= c0,
            chunk_id > 0 ==> topn::chunk_start(ncols as int, cc, chunk_id - 1) < ncols,
            heap@ == h0.offer_all(
                topn::candidates_upto(us, ncols as int, cc, use_dense, chunk_id as int),
            ),
            projection == BProjection::Cursor ==> cursors_at(
                cursors@,
                0,
                a,
                b,
                i as int,
                c0 as int,
            ),
        decreases ncols - c0,
    {
        let chunk_width: usize = if ncols - c0 < chunk_cols {
            ncols - c0
        } else {
            chunk_cols
        };
        let chunk_end: usize = c0 + chunk_width;
        proof {
            topn::lemma_chunk_start(ncols as int, cc, chunk_id as int);
            topn::lemma_chunk_start(ncols as int, cc, chunk_id + 1);
        }
        min =
        process_chunk(
            a,
            b,
            i,
            c0,
            chunk_end,
            chunk_id,
            projection,
            tiled,
            use_dense,
            sums,
            next,
            heap,
            min,
            cursors,
            0,
        );
        proof {
            selection::lemma_offer_all_concat(
                h0,
                topn::candidates_upto(us, ncols as int, cc, use_dense, chunk_id as int),
                topn::chunk_candidates(us, c0 as int, chunk_end as int, use_dense),
            );
        }
        c0 = chunk_end;
        chunk_id = chunk_id + 1;
    }
    proof {
        lemma_all_chunks(us, ncols as int, cc, use_dense, chunk_id as int);
        selection::lemma_offer_all_shape(
            h0,
            topn::candidates(us, ncols as int, cc, use_dense),
        );
    }
    finish_row(
        sort,
        heap,
        out_indices,
        out_data,
        Ghost(topn::row_candidates(a, b, accum, cc, i as int)),
    )
}

/// The sweep ends with the last chunk.
pub proof fn lemma_all_chunks<V: Scalar>(
    us: Seq<Update<V>>,
    ncols: int,
    cc: int,
    dense: bool,
    m: int,
)
    requires
        ncols >= 0,
        cc > 0,
        m >= 0,
        topn::chunk_start(ncols, cc, m) == ncols,
        m > 0 ==> topn::chunk_start(ncols, cc, m - 1) < ncols,
    ensures
        topn::candidates_upto(us, ncols, cc, dense, m) == topn::candidates(us, ncols, cc, dense),
{
    topn::lemma_chunk_start(ncols, cc, m);
    if m > 0 {
        topn::lemma_chunk_start(ncols, cc, m - 1);
    }
    if ncols == 0 {
        assert(m == 0) by {
            if m > 0 {
                topn::lemma_chunk_start(ncols, cc, m - 1);
            }
        }
        topn::lemma_chunk_start(ncols, cc, 1);
        let ws = product::within(us, 0, 0);
        topn::lemma_filter_none(us, |u: Update<V>| 0 <= u.col < 0);
        assert(topn::chunk_candidates(us, 0, 0, dense) =~= Seq::empty());
        reveal_with_fuel(topn::candidates_upto, 2);
        assert(topn::candidates(us, ncols, cc, dense) =~= Seq::empty());
    }
}

/// How much output to allocate for up front: the hint, or room for full rows,
/// and never more than full rows.
pub(crate) fn output_capacity(
    nrows: usize,
    ncols: usize,
    top_n: usize,
    hint: Option<usize>,
) -> (r: usize)
    ensures
        ({
            let full = nrows * if top_n < ncols {
                top_n as int
            } else {
                ncols as int
            };
            r == match hint {
                Some(h) => if h < full {
                    h as int
                } else if full <= usize::MAX {
                    full
                } else {
                    0
                },
                None => if full <= usize::MAX {
                    full
                } else {
                    0
                },
            }
        }),
{
    let per_row: usize = if top_n < ncols {
        top_n
    } else {
        ncols
    };
    match (nrows.checked_mul(per_row), hint) {
        (Some(full), Some(h)) => if h < full {
            h
        } else {
            full
        },
        (Some(full), None) => full,
        (None, Some(h)) => h,
        (None, None) => 0,
    }
}

/// The rows that `opts` asks for, computed with chunks of `cc` columns.
pub open spec fn requested_rows<V: Scalar, I: Index>(
    a: CsrView<'_, V, I>,
    b: CsrView<'_, V, I>,
    top_n: usize,
    opts: TopNOptions<V>,
    cc: int,
) -> Seq<Seq<(I, V)>> {
    topn::topn_rows(
        a,
        b,
        top_n as nat,
        opts.threshold,
        opts.sort,
        opts.accum_mode,
        cc,
    )
}

/// Classic row-at-a-time driver with chunk width and projection given.
pub fn run<V: Scalar, I: Index>(
    a: CsrView<'_, V, I>,
    b: CsrView<'_, V, I>,
    top_n: usize,
    opts: TopNOptions<V>,
    chunk_cols: usize,
    projection: BProjection,
) -> (r: Result<CsrMatrix<V, I>, CsrError>)
    requires
        top_n > 0,
        0 < chunk_cols < HEAD_NIL,
        topn::kernel_ready(a, b, opts.accum_mode, chunk_cols as int, false),
    ensures
        crate::csr::is_outcome(r, b.ncols, requested_rows(a, b, top_n, opts, chunk_cols as int)),
{
    let nrows: usize = a.nrows;
    let ncols: usize = b.ncols;
    let cap_hint: usize = output_capacity(nrows, ncols, top_n, opts.capacity_hint);
    let ghost rows = requested_rows(a, b, top_n, opts, chunk_cols as int);
    let ghost max = I::spec_max_usize() as int;
    assert(a.indptr@.len() == a.indptr.len());

    let mut sums: Vec<V> = filled(chunk_cols, V::zero());
    let mut next: Vec<u32> = filled(chunk_cols, UNVISITED);
    let mut heap = MaxHeap::<V, I>::with_floor(top_n, opts.threshold);
    let mut c_indptr: Vec<I> = Vec::with_capacity(nrows + 1);
    let mut c_indices: Vec<I> = Vec::with_capacity(cap_hint);
    let mut c_data: Vec<V> = Vec::with_capacity(cap_hint);
    c_indptr.push(I::zero());
    let mut cursors: Vec<usize> = Vec::new();
    proof {
        assert(rows.take(0) =~= Seq::empty());
        assert(c_indices@ =~= crate::csr::columns(crate::csr::flat(rows.take(0))));
        assert(c_data@ =~= crate::csr::values(crate::csr::flat(rows.take(0))));
        assert(rows.take(0).take(0) =~= rows.take(0));
        assert(crate::csr::arrays_hold(c_indptr@, c_indices@, c_data@, rows.take(0)));
    }
    let mut i: usize = 0;
    while i < nrows
        invariant
            top_n > 0,
            0 < chunk_cols < HEAD_NIL,
            topn::kernel_ready(a, b, opts.accum_mode, chunk_cols as int, false),
            nrows == a.nrows,
            i <= nrows,
            max == I::spec_max_usize(),
            rows == requested_rows(a, b, top_n, opts, chunk_cols as int),
            sums@.len() == chunk_cols,
            is_clean(sums@, next@),
            heap@.slots.len() == top_n,
            heap@.floor == opts.threshold,
            crate::csr::arrays_hold(c_indptr@, c_indices@, c_data@, rows.take(i as int)),
            crate::csr::first_total_over(rows.take(i as int), max) is None,
        decreases nrows - i,
    {
        let ghost indices0 = c_indices@;
        let ghost data0 = c_data@;
        let n_set: usize = process_row(
            a,
            b,
            i,
            opts.sort,
            chunk_cols,
            projection,
            opts.accum_mode,
            &mut sums,
            &mut next,
            &mut heap,
            &mut cursors,
            &mut c_indices,
            &mut c_data,
        );
        let nnz_total: usize = c_indices.len();
        proof {
            let before = rows.take(i as int);
            let row = rows[i as int];
            assert(rows.take(i + 1) =~= before.push(row));
            assert(rows.take(i + 1).drop_last() =~= before);
            crate::csr::lemma_flat_push(before, row);
            crate::csr::lemma_first_total_over_prefix(rows, max, i + 1);
            assert(nnz_total == crate::csr::flat(before).len() + row.len());
        }
        match try_narrow_indptr::<I>(nnz_total) {
            Ok(total) => {
                proof {
                    crate::csr::lemma_arrays_hold_push(
                        c_indptr@,
                        indices0,
                        data0,
                        rows.take(i as int),
                        rows[i as int],
                        total,
                    );
                }
                c_indptr.push(total);
            },
            Err(e) => {
                return Err(e);
            },
        }
        i = i + 1;
    }
    assert(rows.take(nrows as int) =~= rows);
    Ok(CsrMatrix { nrows, ncols, indptr: c_indptr, indices: c_indices, data: c_data })
}

/// L1d budget assumed when no cache size can be detected.
pub const FALLBACK_L1D_BYTES: usize = 65536;

/// Row-block size for the auto-enabled tiled kernel. Gains flatten past 2048
/// rows sequentially, and 2048 was the multi-thread optimum.
pub const DEFAULT_ROW_BLOCK: usize = 2048;

/// Is `p` the smallest power of two that is at least `n`?
pub open spec fn is_next_pow2(p: int, n: int) -> bool {
    &&& vstd::arithmetic::power2::is_pow2(p)
    &&& p >= n
    &&& p == 1 || p / 2 < n
}

/// How many columns' scratch fits an L1d cache of the given size, at `elem`
/// bytes per element; at least one.
pub open spec fn fitting_columns(l1d: Option<usize>, elem: nat) -> int {
    let bytes = match l1d {
        Some(n) => n as int,
        None => FALLBACK_L1D_BYTES as int,
    };
    let fitting = bytes / (elem as int + 4);
    if fitting < 1 {
        1
    } else {
        fitting
    }
}

/// Is `w` the chunk width for an L1d cache of the given size: half the power of
/// two next to the number of fitting columns, within `64..=2^20`?
pub open spec fn is_width_for(l1d: Option<usize>, elem: nat, w: usize) -> bool {
    exists|p: int|
        #[trigger] is_next_pow2(p, fitting_columns(l1d, elem)) && w == if p / 2 < 64 {
            64
        } else if p / 2 > 0x10_0000 {
            0x10_0000
        } else {
            p / 2
        }
}

/// Is `w` the default chunk width: that for a cache size that
/// `cache_size::l1_cache_size` reports?
pub open spec fn is_default_width<V>(w: usize) -> bool {
    exists|l1d: Option<usize>| #[trigger]
        call_ensures(cache_size::l1_cache_size, (), l1d) && is_width_for(
            l1d,
            vstd::layout::size_of::<V>(),
            w,
        )
}

/// `cache_size::l1_cache_size`: the size of the L1 data cache, if the machine
/// tells. Nothing is claimed of the value.
pub assume_specification [cache_size::l1_cache_size]() -> (r: Option<usize>)
;

/// Column-chunk width for an L1d cache of the given size.
///
/// Sizes the per-row scratch (`sums` + `next[]`) to roughly the L1d budget;
/// streamed B fragments, the heap, and cursors need little residency. Returns a
/// power of two within `[64, 1 << 20]`.
pub fn chunk_cols_for<V: Scalar>(l1d: Option<usize>) -> (r: usize)
    ensures
        is_width_for(l1d, vstd::layout::size_of::<V>(), r),
        vstd::arithmetic::power2::is_pow2(r as int),
        64 <= r <= 0x10_0000,
{
    let bytes: usize = match l1d {
        Some(n) => n,
        None => FALLBACK_L1D_BYTES,
    };
    let per_col_bytes: usize = core::mem::size_of::<V>().saturating_add(4);
    let fitting: usize = bytes / per_col_bytes;
    let raw: usize = if fitting < 1 {
        1
    } else {
        fitting
    };
    proof {
        let d = vstd::layout::size_of::<V>() + 4;
        assert(raw <= usize::MAX / 4) by {
            assert(bytes as int / (per_col_bytes as int) <= bytes as int / 4)
                by (nonlinear_arith)
                requires
                    per_col_bytes >= 4,
                    bytes >= 0,
            ;
        }
        if d > usize::MAX {
            assert(bytes as int / (d as int) == 0) by (nonlinear_arith)
                requires
                    0 <= bytes < d,
            ;
            assert(bytes as int / (usize::MAX as int) <= 1) by (nonlinear_arith)
                requires
                    0 <= bytes <= usize::MAX,
            ;
        }
    }
    let mut p: usize = 1;
    assert(vstd::arithmetic::power2::is_pow2(1)) by {
        reveal(vstd::arithmetic::power2::is_pow2);
    }
    while p < raw
        invariant
            1 <= raw <= usize::MAX / 4,
            vstd::arithmetic::power2::is_pow2(p as int),
            p == 1 || p / 2 < raw,
            1 <= p < 2 * raw,
        decreases 2 * raw - p,
    {
        assert(vstd::arithmetic::power2::is_pow2(2 * p as int)) by {
            reveal(vstd::arithmetic::power2::is_pow2);
            assert((2 * p as int) / 2 == p);
        }
        p = 2 * p;
    }
    assert(raw == fitting_columns(l1d, vstd::layout::size_of::<V>()));
    assert(is_next_pow2(p as int, fitting_columns(l1d, vstd::layout::size_of::<V>())));
    let half: usize = p / 2;
    proof {
        if p > 1 {
            assert(vstd::arithmetic::power2::is_pow2(half as int)) by {
                reveal(vstd::arithmetic::power2::is_pow2);
            }
        }
        reveal_with_fuel(vstd::arithmetic::power2::is_pow2, 22);
        assert(vstd::arithmetic::power2::is_pow2(64));
        assert(vstd::arithmetic::power2::is_pow2(0x10_0000));
    }
    if half < 64 {
        64
    } else if half > 0x10_0000 {
        0x10_0000
    } else {
        half
    }
}

/// Detected L1d size in bytes, if available. Machine dependent: `cache_size` asks
/// CPUID, which tells nothing on Apple Silicon. A caller that knows the size
/// there hands it to [`chunk_cols_for`] or to
/// [`crate::matmul_topn::suited_options`].
fn detect_l1d_bytes() -> (r: Option<usize>)
    ensures
        call_ensures(cache_size::l1_cache_size, (), r),
{
    let ask = cache_size::l1_cache_size;
    ask()
}

/// Default column-chunk width derived from the L1d cache size: a power of two
/// within `[64, 1 << 20]`, or the width for 64 KiB if the cache size cannot be
/// detected. Callers can always override via [`TopNOptions::chunk_cols`].
pub fn default_chunk_cols<V: Scalar>() -> (r: usize)
    ensures
        is_default_width::<V>(r),
        vstd::arithmetic::power2::is_pow2(r as int),
        64 <= r <= 0x10_0000,
{
    chunk_cols_for::<V>(detect_l1d_bytes())
}

/// The width in force where `w` is asked for: no wider than the matrix, and
/// narrow enough for the list nodes.
pub open spec fn capped_width(w: int, ncols: int) -> int {
    let clipped = if ncols < 1 {
        if w < 1 {
            w
        } else {
            1
        }
    } else if w < ncols {
        w
    } else {
        ncols
    };
    if clipped < u32::MAX - 2 {
        clipped
    } else {
        u32::MAX - 2
    }
}

/// Is `cc` a chunk width in force for what is requested? A given width
/// determines it; otherwise it follows the machine.
pub open spec fn admissible<V: Scalar>(requested: Option<usize>, ncols: usize, cc: int) -> bool {
    match requested {
        Some(w) => cc == capped_width(w as int, ncols as int),
        None => exists|w: usize|
            #[trigger] is_default_width::<V>(w) && cc == capped_width(w as int, ncols as int),
    }
}

/// Resolve a requested `chunk_cols` against `ncols` and the type default.
/// Capped below the `u32` sentinels so local column offsets fit the `next[]`
/// node type for any chunk width.
pub fn resolve_chunk_cols<V: Scalar>(requested: Option<usize>, ncols: usize) -> (r: usize)
    requires
        requested != Some(0usize),
    ensures
        admissible::<V>(requested, ncols, r as int),
        0 < r < HEAD_NIL,
{
    let raw: usize = match requested {
        Some(w) => w,
        None => default_chunk_cols::<V>(),
    };
    let widest: usize = if ncols < 1 {
        1
    } else {
        ncols
    };
    let clipped: usize = if raw < widest {
        raw
    } else {
        widest
    };
    let limit: usize = (u32::MAX - 2) as usize;
    if clipped < limit {
        clipped
    } else {
        limit
    }
}

/// The width that the heuristics take `chunk_cols` for: at least one.
pub open spec fn effective_width(chunk_cols: usize) -> int {
    if chunk_cols == 0 {
        1
    } else {
        chunk_cols as int
    }
}

/// Number of chunks that a row is swept in, at least one.
fn sweep_count(ncols: usize, chunk_cols: usize) -> (r: usize)
    ensures
        r == tiled::chunk_count(ncols as int, effective_width(chunk_cols)),
{
    let width: usize = if chunk_cols == 0 {
        1
    } else {
        chunk_cols
    };
    tiled::count_chunks(ncols, width)
}

/// The cheaper B-row projection: binary search where the average B-row has at
/// least four times as many entries as there are chunks, cursors elsewhere.
pub open spec fn cheaper_projection<V: Scalar, I: Index>(
    b: CsrView<'_, V, I>,
    chunk_cols: usize,
) -> BProjection {
    if b.nrows > 0 && b.data@.len() >= 4 * (tiled::chunk_count(
        b.ncols as int,
        effective_width(chunk_cols),
    ) * b.nrows) {
        BProjection::BinarySearch
    } else {
        BProjection::Cursor
    }
}

/// Pick the cheaper B-row projection strategy for the (A, B, chunk_cols) shape.
///
/// Cursors win when the average B-row nnz is small relative to the number of
/// chunks; binary search wins when it is at least four times that number.
pub fn pick_projection<V: Scalar, I: Index>(
    _a: CsrView<'_, V, I>,
    b: CsrView<'_, V, I>,
    chunk_cols: usize,
) -> (r: BProjection)
    ensures
        r == cheaper_projection(b, chunk_cols),
{
    let num_chunks: usize = sweep_count(b.ncols, chunk_cols);
    let segments: u128 = count_segments(num_chunks, b.nrows);
    if b.nrows > 0 && (b.nnz() / 4) as u128 >= segments {
        BProjection::BinarySearch
    } else {
        BProjection::Cursor
    }
}

/// The number of (chunk, row) pairs.
fn count_segments(num_chunks: usize, nrows: usize) -> (r: u128)
    ensures
        r == num_chunks * nrows,
{
    assert(0 <= num_chunks * nrows <= 0xffff_ffff_ffff_ffff * 0xffff_ffff_ffff_ffff)
        by (nonlinear_arith)
        requires
            0 <= num_chunks <= 0xffff_ffff_ffff_ffff,
            0 <= nrows <= 0xffff_ffff_ffff_ffff,
    ;
    num_chunks as u128 * nrows as u128
}

/// Does the auto path use the tiled and blocked kernel?
pub open spec fn auto_tiles<V: Scalar, I: Index>(
    a: CsrView<'_, V, I>,
    b: CsrView<'_, V, I>,
    cc: usize,
) -> bool {
    let n = tiled::chunk_count(b.ncols as int, effective_width(cc));
    &&& n >= 2
    &&& tiled::tileable(b, cc)
    &&& a.data@.len() >= 2 * b.nrows
    &&& n * b.nrows <= 4 * b.data@.len()
}

/// Should the auto path use the tiled and blocked kernel? Gates:
/// - at least two chunks: with a single chunk there is no cross-chunk reuse to
///   win and no projection overhead to remove;
/// - [`TiledB`] shape support (chunk-local `u16`, `u32` entry offsets);
/// - amortisation: the `O(nnz(B))` build must be small against the kernel work,
///   i.e. every B-row is re-walked often enough (`a.nnz() >= 2 * nrows(B)`);
/// - the segment table stays proportional to B itself (`nseg <= 4 * nnz(B)`),
///   which also rejects shapes whose mostly-empty segments would drag the
///   kernel.
pub fn auto_tile<V: Scalar, I: Index>(
    a: CsrView<'_, V, I>,
    b: CsrView<'_, V, I>,
    chunk_cols: usize,
) -> (r: bool)
    ensures
        r == auto_tiles(a, b, chunk_cols),
{
    let n_chunks: usize = sweep_count(b.ncols, chunk_cols);
    let segments: u128 = count_segments(n_chunks, b.nrows);
    n_chunks >= 2 && TiledB::supports(&b, chunk_cols) && a.nnz() / 2 >= b.nrows && segments
        <= b.nnz() as u128 * 4
}

/// Can the segment table of a tiling be addressed?
pub open spec fn addressable<V: Scalar, I: Index>(b: CsrView<'_, V, I>, cc: usize) -> bool {
    tiled::chunk_count(b.ncols as int, effective_width(cc)) * b.nrows < usize::MAX
}

/// The effective (build tiled?, row block) pair.
pub open spec fn blocking<V: Scalar, I: Index>(
    a: CsrView<'_, V, I>,
    b: CsrView<'_, V, I>,
    cc: usize,
    opts: TopNOptions<V>,
) -> (bool, Option<usize>) {
    if opts.row_block == Some(0usize) {
        (false, None)
    } else if opts.tile_b || opts.row_block is Some {
        (opts.tile_b && tiled::tileable(b, cc) && addressable(b, cc), opts.row_block)
    } else if auto_tiles(a, b, cc) {
        (addressable(b, cc), Some(DEFAULT_ROW_BLOCK))
    } else {
        (false, None)
    }
}

/// Effective (build tiled?, row_block) pair. Explicit `tile_b`/`row_block`
/// options win; otherwise [`auto_tile`] decides. Shared by the sequential
/// dispatch and the parallel driver so both make the same choice.
pub fn resolve_blocking<V: Scalar, I: Index>(
    a: CsrView<'_, V, I>,
    b: CsrView<'_, V, I>,
    chunk_cols: usize,
    opts: &TopNOptions<V>,
) -> (r: (bool, Option<usize>))
    ensures
        r == blocking(a, b, chunk_cols, *opts),
        r.0 ==> tiled::tileable(b, chunk_cols) && addressable(b, chunk_cols),
{
    let n_chunks: usize = sweep_count(b.ncols, chunk_cols);
    let fits: bool = count_segments(n_chunks, b.nrows) < usize::MAX as u128;
    if let Some(0) = opts.row_block {
        // Explicit escape hatch: force the classic row-at-a-time kernel.
        (false, None)
    } else if opts.tile_b || opts.row_block.is_some() {
        (opts.tile_b && TiledB::supports(&b, chunk_cols) && fits, opts.row_block)
    } else if auto_tile(a, b, chunk_cols) {
        (fits, Some(DEFAULT_ROW_BLOCK))
    } else {
        (false, None)
    }
}

/// Route to the classic per-row driver or the blocked/tiled driver, based on
/// [`resolve_blocking`]. Shared by the sequential entry point and the parallel
/// driver's single-thread short-circuit.
pub fn dispatch<V: Scalar, I: Index>(
    a: CsrView<'_, V, I>,
    b: CsrView<'_, V, I>,
    top_n: usize,
    opts: TopNOptions<V>,
    chunk_cols: usize,
    projection: BProjection,
) -> (r: Result<CsrMatrix<V, I>, CsrError>)
    requires
        top_n > 0,
        0 < chunk_cols < HEAD_NIL,
        topn::kernel_ready(
            a,
            b,
            opts.accum_mode,
            chunk_cols as int,
            blocking(a, b, chunk_cols, opts).0,
        ),
    ensures
        crate::csr::is_outcome(r, b.ncols, requested_rows(a, b, top_n, opts, chunk_cols as int)),
{
    let (tile, row_block): (bool, Option<usize>) = resolve_blocking(a, b, chunk_cols, &opts);
    if tile {
        let built = TiledB::build(b, chunk_cols);
        let opts = TopNOptions { row_block, ..opts };
        run_blocked(a, b, top_n, opts, chunk_cols, projection, Some(&built))
    } else if row_block.is_some() {
        let opts = TopNOptions { row_block, ..opts };
        run_blocked(a, b, top_n, opts, chunk_cols, projection, None)
    } else {
        run(a, b, top_n, opts, chunk_cols, projection)
    }
}

/// The chunk width and the projection that `opts` asks for.
pub(crate) fn resolve_plan<V: Scalar, I: Index>(
    a: CsrView<'_, V, I>,
    b: CsrView<'_, V, I>,
    opts: &TopNOptions<V>,
) -> (r: (usize, BProjection))
    requires
        opts.chunk_cols != Some(0usize),
    ensures
        admissible::<V>(opts.chunk_cols, b.ncols, r.0 as int),
        0 < r.0 < HEAD_NIL,
        r.1 == match opts.projection {
            Some(p) => p,
            None => cheaper_projection(b, r.0),
        },
{
    let chunk_cols: usize = resolve_chunk_cols::<V>(opts.chunk_cols, b.ncols);
    let projection = match opts.projection {
        Some(p) => p,
        None => pick_projection(a, b, chunk_cols),
    };
    (chunk_cols, projection)
}

/// What the chunked drivers need of their inputs: factors that fit together,
/// and, unless the product is empty anyway, a chunk width other than zero and
/// rows of `b` that suit the width in force.
pub open spec fn chunked_ready<V: Scalar, I: Index>(
    a: CsrView<'_, V, I>,
    b: CsrView<'_, V, I>,
    top_n: usize,
    opts: TopNOptions<V>,
) -> bool {
    &&& product::multipliable(a, b)
    &&& !crate::csr::short_circuits(a, b, top_n) ==> {
        &&& opts.chunk_cols != Some(0usize)
        &&& forall|cc: int| #[trigger]
            admissible::<V>(opts.chunk_cols, b.ncols, cc) ==> topn::kernel_ready(
                a,
                b,
                opts.accum_mode,
                cc,
                blocking(a, b, cc as usize, opts).0,
            )
    }
}

/// Does the entry count of the result fit the index type?
pub open spec fn result_fits<V: Scalar, I: Index>(
    a: CsrView<'_, V, I>,
    b: CsrView<'_, V, I>,
    top_n: usize,
    opts: TopNOptions<V>,
) -> bool {
    !crate::csr::short_circuits(a, b, top_n) ==> forall|cc: int| #[trigger]
        admissible::<V>(opts.chunk_cols, b.ncols, cc) ==> crate::csr::flat(
            requested_rows(a, b, top_n, opts, cc),
        ).len() <= I::spec_max_usize()
}

/// Is `r` what the chunked drivers owe: the empty matrix where the product is
/// empty anyway, and otherwise the top-n rows at an admissible chunk width?
pub open spec fn is_chunked_outcome<V: Scalar, I: Index>(
    r: Result<CsrMatrix<V, I>, CsrError>,
    a: CsrView<'_, V, I>,
    b: CsrView<'_, V, I>,
    top_n: usize,
    opts: TopNOptions<V>,
) -> bool {
    if crate::csr::short_circuits(a, b, top_n) {
        r matches Ok(c) && c.holds(
            b.ncols,
            Seq::new(a.nrows as nat, |i: int| Seq::<(I, V)>::empty()),
        )
    } else {
        exists|cc: int| #[trigger]
            admissible::<V>(opts.chunk_cols, b.ncols, cc) && crate::csr::is_outcome(
                r,
                b.ncols,
                requested_rows(a, b, top_n, opts, cc),
            )
    }
}

/// Column-chunked sequential top-n product, or the overflow of the index type
/// by the number of entries.
pub fn try_sp_matmul_topn_chunked<V: Scalar, I: Index>(
    a: CsrView<'_, V, I>,
    b: CsrView<'_, V, I>,
    top_n: usize,
    opts: TopNOptions<V>,
) -> (r: Result<CsrMatrix<V, I>, CsrError>)
    requires
        chunked_ready(a, b, top_n, opts),
    ensures
        is_chunked_outcome(r, a, b, top_n, opts),
{
    assert(a.indptr@.len() == a.indptr.len());
    if let Some(out) = matmul_topn_short_circuit(a, b, top_n) {
        return Ok(out);
    }
    let (chunk_cols, projection): (usize, BProjection) = resolve_plan(a, b, &opts);
    dispatch(a, b, top_n, opts, chunk_cols, projection)
}

/// Column-chunked sequential `sp_matmul_topn`, for a result whose entry count
/// the index type can represent.
pub fn sp_matmul_topn_chunked<V: Scalar, I: Index>(
    a: CsrView<'_, V, I>,
    b: CsrView<'_, V, I>,
    top_n: usize,
    opts: TopNOptions<V>,
) -> (r: CsrMatrix<V, I>)
    requires
        chunked_ready(a, b, top_n, opts),
        result_fits(a, b, top_n, opts),
    ensures
        is_chunked_outcome(Ok(r), a, b, top_n, opts),
{
    let outcome = try_sp_matmul_topn_chunked(a, b, top_n, opts);
    proof {
        lemma_outcome_fits(outcome, a, b, top_n, opts);
    }
    match outcome {
        Ok(c) => c,
        Err(_) => vstd::pervasive::unreached(),
    }
}

/// A result that fits comes without error.
pub proof fn lemma_outcome_fits<V: Scalar, I: Index>(
    r: Result<CsrMatrix<V, I>, CsrError>,
    a: CsrView<'_, V, I>,
    b: CsrView<'_, V, I>,
    top_n: usize,
    opts: TopNOptions<V>,
)
    requires
        is_chunked_outcome(r, a, b, top_n, opts),
        result_fits(a, b, top_n, opts),
    ensures
        r is Ok,
{
    if !crate::csr::short_circuits(a, b, top_n) {
        let cc = choose|cc: int| #[trigger]
            admissible::<V>(opts.chunk_cols, b.ncols, cc) && crate::csr::is_outcome(
                r,
                b.ncols,
                requested_rows(a, b, top_n, opts, cc),
            );
        crate::csr::lemma_total_within(
            requested_rows(a, b, top_n, opts, cc),
            I::spec_max_usize() as int,
        );
    }
}

} // verus!
