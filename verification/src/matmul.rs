//! `sp_matmul`: sparse CSR × CSR multiplication without top-n selection.
//!
//! Two-pass: pass 1 sizes `indptr` and the total nnz via a per-row mask, pass 2
//! fills `indices` / `data` using a dense accumulator plus a linked list of
//! touched columns. The column order within an output row is the reverse
//! linked-list walk order, *not* sorted.
use vstd::prelude::*;

use crate::csr::{filled, try_narrow_indptr, CsrError, CsrMatrix, CsrView};
use crate::index::Index;
use crate::product;
use crate::product::Update;
use crate::scalar::Scalar;

verus! {

/// Marks a column that is not in the linked list.
pub(crate) const UNVISITED: usize = usize::MAX;

/// Marks the end of the linked list.
pub(crate) const HEAD_NIL: usize = usize::MAX - 1;

/// Entries with their columns narrowed to the index type.
pub open spec fn narrowed<V: Scalar, I: Index>(entries: Seq<(int, V)>) -> Seq<(I, V)> {
    entries.map_values(|e: (int, V)| (I::narrowed(e.0 as usize), e.1))
}

/// The rows of `a · b`: the touched columns with their sums, the most recently
/// first-touched column first. A sum that cancels to zero stays as an explicit
/// zero.
pub open spec fn product_rows<V: Scalar, I: Index>(
    a: CsrView<'_, V, I>,
    b: CsrView<'_, V, I>,
) -> Seq<Seq<(I, V)>> {
    Seq::new(
        a.nrows as nat,
        |i: int| narrowed(product::touched_sums(product::updates_of(a, b, i), false)),
    )
}

/// What the list node of the `q`-th touched column points to: the column
/// touched before it.
pub(crate) open spec fn link(t: Seq<int>, q: int) -> int {
    if q <= 0 {
        HEAD_NIL as int
    } else {
        t[q - 1]
    }
}

/// Does the list starting at `head` hold the columns `t`, last one first?
pub(crate) open spec fn is_list(t: Seq<int>, next: Seq<usize>, head: usize) -> bool {
    &&& head == link(t, t.len() as int)
    &&& forall|q: int| 0 <= q < t.len() ==> next[#[trigger] t[q]] == link(t, q)
    &&& forall|k: int|
        0 <= k < next.len() ==> (#[trigger] next[k] == UNVISITED <==> !t.contains(k))
}

/// Does every accumulator slot hold the sum of its column?
pub(crate) open spec fn holds_sums<V: Scalar>(sums: Seq<V>, us: Seq<Update<V>>) -> bool {
    forall|k: int|
        0 <= k < sums.len() ==> #[trigger] sums[k] == product::accumulate(us, k, false)
}

/// Is the scratch space clean: all sums zero, no column in the list?
pub(crate) open spec fn is_clean<V: Scalar>(sums: Seq<V>, next: Seq<usize>) -> bool {
    &&& forall|k: int| 0 <= k < sums.len() ==> #[trigger] sums[k] == V::spec_zero()
    &&& forall|k: int| 0 <= k < next.len() ==> #[trigger] next[k] == UNVISITED
}

/// Add row `i` of `a · b` into the accumulator `sums` and record the touched
/// columns in the list `next`. Returns the head of the list and its length.
pub(crate) fn scatter_row<V: Scalar, I: Index>(
    a: CsrView<'_, V, I>,
    b: CsrView<'_, V, I>,
    i: usize,
    sums: &mut Vec<V>,
    next: &mut Vec<usize>,
) -> (r: (usize, usize))
    requires
        product::multipliable(a, b),
        i < a.nrows,
        old(sums)@.len() == b.ncols,
        old(next)@.len() == b.ncols,
        is_clean(old(sums)@, old(next)@),
    ensures
        final(sums)@.len() == b.ncols,
        final(next)@.len() == b.ncols,
        holds_sums(final(sums)@, product::updates_of(a, b, i as int)),
        is_list(product::touched(product::updates_of(a, b, i as int)), final(next)@, r.0),
        r.1 == product::touched(product::updates_of(a, b, i as int)).len(),
{
    let mut head: usize = HEAD_NIL;
    let mut length: usize = 0;
    let ghost left = a.row(i as int);
    let ghost mut us = Seq::<Update<V>>::empty();
    proof {
        product::lemma_row_in_bounds(a, i as int);
        assert(left.take(0) =~= Seq::empty());
        assert(a.start(0) <= a.start(i as int) <= a.start(i + 1) <= a.start(a.nrows as int));
    }
    let jj_start: usize = a.row_start(i);
    let jj_end: usize = a.row_start(i + 1);
    let mut jj: usize = jj_start;
    while jj < jj_end
        invariant
            product::multipliable(a, b),
            i < a.nrows,
            left == a.row(i as int),
            jj_start == a.start(i as int),
            jj_end == a.start(i + 1),
            a.start(0) <= jj_start <= jj <= jj_end <= a.start(a.nrows as int),
            jj_end <= a.data@.len(),
            us == product::row_updates(left.take(jj - jj_start), b),
            product::in_bounds(us, b.ncols as int),
            sums@.len() == b.ncols,
            next@.len() == b.ncols,
            holds_sums(sums@, us),
            is_list(product::touched(us), next@, head),
            length == product::touched(us).len(),
        decreases jj_end - jj,
    {
        let ghost m = jj - jj_start;
        proof {
            product::lemma_row_in_bounds(a, i as int);
            assert(left[m] == (a.col(jj as int), a.data@[jj as int]));
            product::lemma_updates_at(left, b, m);
        }
        let j: usize = a.column_at(jj);
        let v = a.data[jj];
        let kk_start: usize = b.row_start(j);
        let kk_end: usize = b.row_start(j + 1);
        let ghost row = b.row(j as int);
        proof {
            product::lemma_row_in_bounds(b, j as int);
            assert(b.start(0) <= b.start(j as int) <= b.start(j + 1) <= b.start(b.nrows as int));
        }
        let mut kk: usize = kk_start;
        while kk < kk_end
            invariant
                product::multipliable(a, b),
                0 <= m < left.len(),
                left[m] == (j as int, v),
                row == b.row(j as int),
                row.len() == kk_end - kk_start,
                j < b.nrows,
                kk_start == b.start(j as int),
                kk_end == b.start(j + 1),
                b.start(0) <= kk_start <= kk <= kk_end <= b.start(b.nrows as int),
                kk_end <= b.data@.len(),
                us == product::updates_at(left, b, m, kk - kk_start),
                product::in_bounds(us, b.ncols as int),
                sums@.len() == b.ncols,
                next@.len() == b.ncols,
                holds_sums(sums@, us),
                is_list(product::touched(us), next@, head),
                length == product::touched(us).len(),
            decreases kk_end - kk,
        {
            let k: usize = b.column_at(kk);
            let ghost t = product::touched(us);
            let ghost u = Update { col: k as int, left: v, right: b.data@[kk as int] };
            let ghost us2 = us.push(u);
            let ghost next0 = next@;
            proof {
                product::lemma_row_in_bounds(b, j as int);
                product::lemma_updates_at(left, b, m);
                assert(row[kk - kk_start] == (k as int, u.right));
                assert(us2 == product::updates_at(left, b, m, kk - kk_start + 1));
                product::lemma_push_update(us, u);
                product::lemma_touched(us);
                product::lemma_touched_in_bounds(us, b.ncols as int);
            }
            sums[k] = sums[k].plus(v.times(b.data[kk]));
            if next[k] == UNVISITED {
                next[k] = head;
                head = k;
                proof {
                    product::lemma_touched(us2);
                    product::lemma_touched_in_bounds(us2, b.ncols as int);
                }
                length = length + 1;
            }
            proof {
                let t2 = product::touched(us2);
                if !t.contains(k as int) {
                    assert forall|q: int| 0 <= q < t2.len() implies next@[#[trigger] t2[q]]
                        == link(t2, q) by {
                        if q < t.len() {
                            assert(t2[q] == t[q]);
                            assert(t.contains(t[q]));
                        }
                    }
                    assert forall|x: int| 0 <= x < next@.len() implies (#[trigger] next@[x]
                        == UNVISITED <==> !t2.contains(x)) by {
                        if x == k {
                            assert(t2[t.len() as int] == x);
                        } else {
                            assert(next0[x] == next@[x]);
                            if t.contains(x) {
                                let q = choose|q: int| 0 <= q < t.len() && t[q] == x;
                                assert(t2[q] == x);
                            }
                            if t2.contains(x) {
                                let q = choose|q: int| 0 <= q < t2.len() && t2[q] == x;
                                assert(t[q] == x);
                            }
                        }
                    }
                }
                us = us2;
            }
            kk = kk + 1;
        }
        jj = jj + 1;
    }
    assert(left.take(left.len() as int) =~= left);
    (head, length)
}

/// Mark the columns that row `i` of `a · b` touches with `i` and count them.
fn count_row<V: Scalar, I: Index>(
    a: CsrView<'_, V, I>,
    b: CsrView<'_, V, I>,
    i: usize,
    mask: &mut Vec<usize>,
) -> (row_nnz: usize)
    requires
        product::multipliable(a, b),
        i < a.nrows,
        old(mask)@.len() == b.ncols,
        forall|k: int| 0 <= k < b.ncols ==> #[trigger] old(mask)@[k] != i,
    ensures
        final(mask)@.len() == b.ncols,
        forall|k: int|
            0 <= k < b.ncols ==> #[trigger] final(mask)@[k] == i || final(mask)@[k] == old(
                mask,
            )@[k],
        row_nnz == product::touched(product::updates_of(a, b, i as int)).len(),
{
    let mut row_nnz: usize = 0;
    let ghost left = a.row(i as int);
    let ghost mut us = Seq::<Update<V>>::empty();
    proof {
        product::lemma_row_in_bounds(a, i as int);
        assert(left.take(0) =~= Seq::empty());
        assert(a.start(0) <= a.start(i as int) <= a.start(i + 1) <= a.start(a.nrows as int));
    }
    let jj_start: usize = a.row_start(i);
    let jj_end: usize = a.row_start(i + 1);
    let mut jj: usize = jj_start;
    while jj < jj_end
        invariant
            product::multipliable(a, b),
            i < a.nrows,
            left == a.row(i as int),
            jj_start == a.start(i as int),
            jj_end == a.start(i + 1),
            a.start(0) <= jj_start <= jj <= jj_end <= a.start(a.nrows as int),
            us == product::row_updates(left.take(jj - jj_start), b),
            product::in_bounds(us, b.ncols as int),
            mask@.len() == b.ncols,
            forall|k: int|
                0 <= k < b.ncols ==> #[trigger] mask@[k] == i || mask@[k] == old(mask)@[k],
            forall|k: int|
                0 <= k < b.ncols ==> (#[trigger] mask@[k] == i <==> product::touched(us).contains(
                    k,
                )),
            row_nnz == product::touched(us).len(),
        decreases jj_end - jj,
    {
        let ghost m = jj - jj_start;
        proof {
            product::lemma_row_in_bounds(a, i as int);
            assert(left[m] == (a.col(jj as int), a.data@[jj as int]));
            product::lemma_updates_at(left, b, m);
        }
        let j: usize = a.column_at(jj);
        let kk_start: usize = b.row_start(j);
        let kk_end: usize = b.row_start(j + 1);
        proof {
            product::lemma_row_in_bounds(b, j as int);
            assert(b.start(0) <= b.start(j as int) <= b.start(j + 1) <= b.start(b.nrows as int));
        }
        let mut kk: usize = kk_start;
        while kk < kk_end
            invariant
                product::multipliable(a, b),
                0 <= m < left.len(),
                left[m].0 == j,
                b.row(j as int).len() == kk_end - kk_start,
                j < b.nrows,
                kk_start == b.start(j as int),
                kk_end == b.start(j + 1),
                b.start(0) <= kk_start <= kk <= kk_end <= b.start(b.nrows as int),
                us == product::updates_at(left, b, m, kk - kk_start),
                product::in_bounds(us, b.ncols as int),
                mask@.len() == b.ncols,
                forall|k: int|
                    0 <= k < b.ncols ==> #[trigger] mask@[k] == i || mask@[k] == old(mask)@[k],
                forall|k: int|
                    0 <= k < b.ncols ==> (#[trigger] mask@[k] == i <==> product::touched(
                        us,
                    ).contains(k)),
                row_nnz == product::touched(us).len(),
            decreases kk_end - kk,
        {
            let k: usize = b.column_at(kk);
            let ghost t = product::touched(us);
            let ghost u = Update { col: k as int, left: left[m].1, right: b.data@[kk as int] };
            let ghost us2 = us.push(u);
            let ghost mask0 = mask@;
            proof {
                product::lemma_row_in_bounds(b, j as int);
                product::lemma_updates_at(left, b, m);
                assert(b.row(j as int)[kk - kk_start] == (k as int, u.right));
                assert(us2 == product::updates_at(left, b, m, kk - kk_start + 1));
                product::lemma_push_update(us, u);
                product::lemma_touched_in_bounds(us2, b.ncols as int);
            }
            if mask[k] != i {
                mask[k] = i;
                row_nnz = row_nnz + 1;
            }
            proof {
                let t2 = product::touched(us2);
                assert forall|x: int| 0 <= x < b.ncols implies (#[trigger] mask@[x] == i
                    <==> t2.contains(x)) by {
                    assert(t2.contains(x) <==> t.contains(x) || x == k) by {
                        if t.contains(x) && !t.contains(k as int) {
                            let q = choose|q: int| 0 <= q < t.len() && t[q] == x;
                            assert(t2[q] == x);
                        }
                        if x == k && !t.contains(x) {
                            assert(t2[t.len() as int] == x);
                        }
                        if t2.contains(x) && !t.contains(k as int) {
                            let q = choose|q: int| 0 <= q < t2.len() && t2[q] == x;
                            if q < t.len() {
                                assert(t[q] == x);
                            }
                        }
                    }
                    if x != k {
                        assert(mask@[x] == mask0[x]);
                    }
                }
                us = us2;
            }
            kk = kk + 1;
        }
        jj = jj + 1;
    }
    assert(left.take(left.len() as int) =~= left);
    row_nnz
}

/// Walk the list of touched columns, append their sums to the output and leave
/// the scratch space clean.
#[verifier::spinoff_prover]
#[verifier::rlimit(30)]
fn gather_row<V: Scalar, I: Index>(
    Ghost(us): Ghost<Seq<Update<V>>>,
    start: usize,
    length: usize,
    sums: &mut Vec<V>,
    next: &mut Vec<usize>,
    indices: &mut Vec<I>,
    data: &mut Vec<V>,
)
    requires
        old(sums)@.len() == old(next)@.len(),
        product::in_bounds(us, old(sums)@.len() as int),
        holds_sums(old(sums)@, us),
        is_list(product::touched(us), old(next)@, start),
        length == product::touched(us).len(),
    ensures
        final(sums)@.len() == old(sums)@.len(),
        final(next)@.len() == old(next)@.len(),
        is_clean(final(sums)@, final(next)@),
        final(indices)@ == old(indices)@ + crate::csr::columns(
            narrowed::<V, I>(product::touched_sums(us, false)),
        ),
        final(data)@ == old(data)@ + crate::csr::values(
            narrowed::<V, I>(product::touched_sums(us, false)),
        ),
{
    let ghost t = product::touched(us);
    let ghost row = narrowed::<V, I>(product::touched_sums(us, false));
    proof {
        product::lemma_touched(us);
        product::lemma_touched_in_bounds(us, sums@.len() as int);
        assert(indices@ =~= old(indices)@ + crate::csr::columns(row.take(0)));
        assert(data@ =~= old(data)@ + crate::csr::values(row.take(0)));
        assert forall|k: int|
            0 <= k < sums@.len() && !t.take(length as int).contains(k) implies #[trigger] sums@[k]
            == V::spec_zero() by {
            assert(t.take(length as int) =~= t);
            product::lemma_untouched_is_zero(us, k, false);
        }
        assert(t.take(length as int) =~= t);
    }
    let mut head: usize = start;
    let mut left: usize = length;
    while left > 0
        invariant
            left <= length,
            length == t.len(),
            t == product::touched(us),
            t.no_duplicates(),
            forall|q: int| 0 <= q < t.len() ==> 0 <= #[trigger] t[q] < sums@.len(),
            row == narrowed::<V, I>(product::touched_sums(us, false)),
            sums@.len() == old(sums)@.len(),
            next@.len() == sums@.len(),
            head == link(t, left as int),
            forall|q: int| 0 <= q < left ==> next@[#[trigger] t[q]] == link(t, q),
            forall|q: int|
                0 <= q < left ==> sums@[#[trigger] t[q]] == product::accumulate(us, t[q], false),
            forall|k: int|
                0 <= k < next@.len() && !t.take(left as int).contains(k) ==> #[trigger] next@[k]
                    == UNVISITED,
            forall|k: int|
                0 <= k < sums@.len() && !t.take(left as int).contains(k) ==> #[trigger] sums@[k]
                    == V::spec_zero(),
            indices@ == old(indices)@ + crate::csr::columns(row.take(length - left)),
            data@ == old(data)@ + crate::csr::values(row.take(length - left)),
        decreases left,
    {
        let ghost done = length - left;
        let ghost next0 = next@;
        let ghost sums0 = sums@;
        proof {
            assert(head == t[left - 1]);
            assert(row[done] == (I::narrowed(head), product::accumulate(us, head as int, false)));
            assert(crate::csr::columns(row.take(done + 1)) =~= crate::csr::columns(
                row.take(done),
            ).push(row[done].0));
            assert(crate::csr::values(row.take(done + 1)) =~= crate::csr::values(
                row.take(done),
            ).push(row[done].1));
        }
        indices.push(I::from_usize(head));
        data.push(sums[head]);
        let temp: usize = head;
        head = next[temp];
        next[temp] = UNVISITED;
        sums[temp] = V::zero();
        left = left - 1;
        proof {
            assert(indices@ =~= old(indices)@ + crate::csr::columns(row.take(length - left)));
            assert(data@ =~= old(data)@ + crate::csr::values(row.take(length - left)));
            assert forall|q: int| 0 <= q < left implies #[trigger] t[q] != temp by {}
            assert forall|k: int| 0 <= k < next@.len() && !t.take(left as int).contains(
                k,
            ) implies #[trigger] next@[k] == UNVISITED && #[trigger] sums@[k]
                == V::spec_zero() by {
                if k != temp {
                    assert(!t.take(left + 1).contains(k)) by {
                        let longer = t.take(left + 1);
                        if longer.contains(k) {
                            let q = choose|q: int| 0 <= q < longer.len() && longer[q] == k;
                            assert(t.take(left as int)[q] == k);
                        }
                    }
                    assert(next0[k] == next@[k] && sums0[k] == sums@[k]);
                }
            }
        }
    }
    assert(row.take(length as int) =~= row);
    assert forall|k: int| 0 <= k < sums@.len() implies #[trigger] sums@[k] == V::spec_zero()
        && #[trigger] next@[k] == UNVISITED by {
        assert(!t.take(0).contains(k));
    }
}

/// `a · b`, or the overflow of the index type by the number of entries.
pub fn try_sp_matmul<V: Scalar, I: Index>(
    a: CsrView<'_, V, I>,
    b: CsrView<'_, V, I>,
) -> (r: Result<CsrMatrix<V, I>, CsrError>)
    requires
        product::multipliable(a, b),
    ensures
        crate::csr::is_outcome(r, b.ncols, product_rows(a, b)),
{
    let nrows: usize = a.nrows;
    let ncols: usize = b.ncols;
    let ghost rows = product_rows(a, b);
    let ghost max = I::spec_max_usize() as int;
    assert(a.indptr@.len() == a.indptr.len());

    if nrows == 0 || a.nnz() == 0 || b.nnz() == 0 {
        proof {
            lemma_empty_product_rows(a, b);
        }
        return Ok(CsrMatrix::zeros(nrows, ncols));
    }
    // Pass 1: size the row pointers and the total nnz.

    let mut mask: Vec<usize> = filled(ncols, UNVISITED);
    let mut c_indptr: Vec<I> = Vec::with_capacity(nrows + 1);
    c_indptr.push(I::zero());
    let mut nnz_total: usize = 0;
    let mut i: usize = 0;
    proof {
        assert(rows.take(0) =~= Seq::empty());
    }
    while i < nrows
        invariant
            product::multipliable(a, b),
            nrows == a.nrows,
            ncols == b.ncols,
            nrows < usize::MAX,
            i <= nrows,
            rows == product_rows(a, b),
            max == I::spec_max_usize(),
            mask@.len() == ncols,
            forall|k: int| 0 <= k < ncols ==> #[trigger] mask@[k] < i || mask@[k] == UNVISITED,
            nnz_total == crate::csr::flat(rows.take(i as int)).len(),
            crate::csr::first_total_over(rows.take(i as int), max) is None,
            c_indptr@.len() == i + 1,
            forall|k: int|
                0 <= k <= i ==> (#[trigger] c_indptr@[k]).as_int() == crate::csr::flat(
                    rows.take(k),
                ).len(),
        decreases nrows - i,
    {
        let row_nnz: usize = count_row(a, b, i, &mut mask);
        proof {
            assert(rows[i as int].len() == row_nnz);
            assert(rows.take(i + 1) =~= rows.take(i as int).push(rows[i as int]));
            crate::csr::lemma_flat_push(rows.take(i as int), rows[i as int]);
            assert(rows.take(i + 1).drop_last() =~= rows.take(i as int));
            crate::csr::lemma_first_total_over_prefix(rows, max, i + 1);
        }
        nnz_total =
        match nnz_total.checked_add(row_nnz) {
            Some(total) => total,
            None => {
                return Err(
                    CsrError::IndexOverflow {
                        what: "non-zero count (nnz)",
                        value: usize::MAX,
                        max: I::max_usize(),
                    },
                );
            },
        };
        match try_narrow_indptr::<I>(nnz_total) {
            Ok(total) => c_indptr.push(total),
            Err(e) => {
                return Err(e);
            },
        }
        i = i + 1;
    }
    assert(rows.take(nrows as int) =~= rows);

    // Pass 2: fill indices and data via dense accumulator and linked list.
    let mut sums: Vec<V> = filled(ncols, V::zero());
    let mut next: Vec<usize> = filled(ncols, UNVISITED);
    let mut c_indices: Vec<I> = Vec::with_capacity(nnz_total);
    let mut c_data: Vec<V> = Vec::with_capacity(nnz_total);
    proof {
        assert(c_indices@ =~= crate::csr::columns(crate::csr::flat(rows.take(0))));
        assert(c_data@ =~= crate::csr::values(crate::csr::flat(rows.take(0))));
    }
    let mut i: usize = 0;
    while i < nrows
        invariant
            product::multipliable(a, b),
            nrows == a.nrows,
            ncols == b.ncols,
            i <= nrows,
            rows == product_rows(a, b),
            sums@.len() == ncols,
            next@.len() == ncols,
            is_clean(sums@, next@),
            c_indices@ == crate::csr::columns(crate::csr::flat(rows.take(i as int))),
            c_data@ == crate::csr::values(crate::csr::flat(rows.take(i as int))),
        decreases nrows - i,
    {
        let ghost us = product::updates_of(a, b, i as int);
        let (head, length): (usize, usize) = scatter_row(a, b, i, &mut sums, &mut next);
        proof {
            product::lemma_product_in_bounds(a, b, i as int);
            assert(rows.take(i + 1) =~= rows.take(i as int).push(rows[i as int]));
            crate::csr::lemma_flat_push(rows.take(i as int), rows[i as int]);
            let before = crate::csr::flat(rows.take(i as int));
            assert(crate::csr::columns(before + rows[i as int]) =~= crate::csr::columns(before)
                + crate::csr::columns(rows[i as int]));
            assert(crate::csr::values(before + rows[i as int]) =~= crate::csr::values(before)
                + crate::csr::values(rows[i as int]));
        }
        gather_row(
            Ghost(us),
            head,
            length,
            &mut sums,
            &mut next,
            &mut c_indices,
            &mut c_data,
        );
        i = i + 1;
    }
    assert(rows.take(nrows as int) =~= rows);
    Ok(CsrMatrix { nrows, ncols, indptr: c_indptr, indices: c_indices, data: c_data })
}

/// Where a factor has no entries, every row of the product is empty.
pub proof fn lemma_empty_product_rows<V: Scalar, I: Index>(
    a: CsrView<'_, V, I>,
    b: CsrView<'_, V, I>,
)
    requires
        product::multipliable(a, b),
        a.nrows == 0 || a.data@.len() == 0 || b.data@.len() == 0,
    ensures
        product_rows(a, b) == Seq::new(a.nrows as nat, |i: int| Seq::<(I, V)>::empty()),
        crate::csr::first_total_over(product_rows(a, b), I::spec_max_usize() as int) is None,
{
    let rows = product_rows(a, b);
    assert forall|i: int| 0 <= i < rows.len() implies #[trigger] rows[i] == Seq::<
        (I, V),
    >::empty() by {
        product::lemma_empty_product(a, b, i);
        assert(rows[i] =~= Seq::<(I, V)>::empty());
    }
    assert(rows =~= Seq::new(a.nrows as nat, |i: int| Seq::<(I, V)>::empty()));
    crate::csr::lemma_flat_of_empty_rows(rows);
    crate::csr::lemma_total_within(rows, I::spec_max_usize() as int);
}

/// `a · b`, for a product whose entry count the index type can represent.
pub fn sp_matmul<V: Scalar, I: Index>(a: CsrView<'_, V, I>, b: CsrView<'_, V, I>) -> (r: CsrMatrix<
    V,
    I,
>)
    requires
        product::multipliable(a, b),
        crate::csr::flat(product_rows(a, b)).len() <= I::spec_max_usize(),
    ensures
        r.holds(b.ncols, product_rows(a, b)),
{
    proof {
        crate::csr::lemma_total_within(product_rows(a, b), I::spec_max_usize() as int);
    }
    match try_sp_matmul(a, b) {
        Ok(c) => c,
        Err(_) => vstd::pervasive::unreached(),
    }
}

} // verus!
