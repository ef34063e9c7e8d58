//! What the checks find, what the errors say, and which kernels are taken.
use vstd::prelude::*;

use crate::csr;
use crate::csr::{CsrError, CsrMatrix, CsrView};
use crate::index::Index;
use crate::scalar::Scalar;
use crate::simd;
use crate::simd::{SimdFacts, SimdState};
use crate::topn;
use crate::zip;

verus! {

/// A view is a matrix if and only if its buffers have the right lengths, its row
/// pointers lie within them, none is less than the one before, and the columns
/// between the first and the last are columns of the matrix.
pub proof fn law_valid_views<V: Scalar, I: Index>(view: CsrView<'_, V, I>)
    ensures
        view.valid() <==> {
            &&& view.indptr@.len() == view.nrows + 1
            &&& view.indices@.len() == view.data@.len()
            &&& 0 <= view.indptr@[0].as_int()
            &&& view.indptr@[view.nrows as int].as_int() <= view.data@.len()
            &&& forall|i: int|
                0 < i <= view.nrows ==> view.indptr@[i - 1].as_int() <= (
                #[trigger] view.indptr@[i]).as_int()
            &&& forall|p: int|
                view.indptr@[0].as_int() <= p < view.indptr@[view.nrows as int].as_int() ==> 0 <= (
                #[trigger] view.indices@[p]).as_int() < view.ncols
        },
{
    let n = view.nrows as int;
    let ascends = forall|i: int|
        0 < i <= n ==> view.indptr@[i - 1].as_int() <= (#[trigger] view.indptr@[i]).as_int();
    if view.valid() {
        assert(0 <= view.start(0) && view.start(n) <= view.data@.len());
        assert forall|i: int| 0 < i <= n implies view.indptr@[i - 1].as_int() <= (
        #[trigger] view.indptr@[i]).as_int() by {
            assert(view.start(i - 1) <= view.start(i));
        }
        assert forall|p: int|
            view.indptr@[0].as_int() <= p < view.indptr@[n].as_int() implies 0 <= (
        #[trigger] view.indices@[p]).as_int() < view.ncols by {
            assert(view.start(0) <= p < view.start(n));
            assert(0 <= view.col(p) < view.ncols);
        }
    }
    if ascends && view.indptr@.len() == view.nrows + 1 && view.indices@.len()
        == view.data@.len() && 0 <= view.indptr@[0].as_int() && view.indptr@[n].as_int()
        <= view.data@.len() && (forall|p: int|
        view.indptr@[0].as_int() <= p < view.indptr@[n].as_int() ==> 0 <= (
        #[trigger] view.indices@[p]).as_int() < view.ncols) {
        assert forall|i: int, j: int| 0 <= i <= j <= n implies #[trigger] view.start(i)
            <= #[trigger] view.start(j) by {
            lemma_ascends(view, i, j);
        }
        assert forall|i: int| 0 <= i <= n implies 0 <= #[trigger] view.start(i)
            <= view.data@.len() by {
            lemma_ascends(view, 0, i);
            lemma_ascends(view, i, n);
        }
        assert forall|p: int| view.start(0) <= p < view.start(n) implies 0 <= #[trigger] view.col(p)
            < view.ncols by {
            assert(0 <= view.indices@[p].as_int() < view.ncols);
        }
    }
}

proof fn lemma_ascends<V: Scalar, I: Index>(view: CsrView<'_, V, I>, i: int, j: int)
    requires
        0 <= i <= j <= view.nrows,
        forall|i: int|
            0 < i <= view.nrows ==> view.indptr@[i - 1].as_int() <= (
            #[trigger] view.indptr@[i]).as_int(),
    ensures
        view.start(i) <= view.start(j),
    decreases j,
{
    if i < j {
        lemma_ascends(view, i, j - 1);
        assert(view.indptr@[j - 1].as_int() <= view.indptr@[j].as_int());
    }
}

/// Rows ascend if and only if every stored column exceeds the one before it in
/// its row.
pub proof fn law_ascending_rows<V: Scalar, I: Index>(view: CsrView<'_, V, I>)
    requires
        view.valid(),
    ensures
        topn::ascending_columns(view) <==> forall|j: int, p: int|
            #![trigger view.indptr@[j], view.indices@[p]]
            0 <= j < view.nrows && view.indptr@[j].as_int() < p < view.indptr@[j + 1].as_int()
                ==> view.indices@[p - 1].as_int() < view.indices@[p].as_int(),
{
    let plain = forall|j: int, p: int|
        #![trigger view.indptr@[j], view.indices@[p]]
        0 <= j < view.nrows && view.indptr@[j].as_int() < p < view.indptr@[j + 1].as_int()
            ==> view.indices@[p - 1].as_int() < view.indices@[p].as_int();
    if topn::ascending_columns(view) {
        assert forall|j: int, p: int|
            #![trigger view.indptr@[j], view.indices@[p]]
            0 <= j < view.nrows && view.indptr@[j].as_int() < p
                < view.indptr@[j + 1].as_int() implies view.indices@[p - 1].as_int()
            < view.indices@[p].as_int() by {
            crate::product::lemma_row_in_bounds(view, j);
            let x = p - view.start(j);
            assert(view.row(j)[x - 1].0 < view.row(j)[x].0);
        }
    }
    if plain {
        assert forall|j: int, p: int, q: int|
            0 <= j < view.nrows && 0 <= p < q < view.row(j).len() implies (
        #[trigger] view.row(j)[p]).0 < (#[trigger] view.row(j)[q]).0 by {
            lemma_ascending_row(view, j, p, q);
        }
    }
}

proof fn lemma_ascending_row<V: Scalar, I: Index>(
    view: CsrView<'_, V, I>,
    j: int,
    p: int,
    q: int,
)
    requires
        view.valid(),
        0 <= j < view.nrows,
        0 <= p < q < view.row(j).len(),
        forall|j: int, p: int|
            #![trigger view.indptr@[j], view.indices@[p]]
            0 <= j < view.nrows && view.indptr@[j].as_int() < p < view.indptr@[j + 1].as_int()
                ==> view.indices@[p - 1].as_int() < view.indices@[p].as_int(),
    ensures
        view.row(j)[p].0 < view.row(j)[q].0,
    decreases q,
{
    crate::product::lemma_row_in_bounds(view, j);
    let at = view.start(j) + q;
    assert(view.indptr@[j].as_int() < at < view.indptr@[j + 1].as_int());
    assert(view.indices@[at - 1].as_int() < view.indices@[at].as_int());
    if p < q - 1 {
        lemma_ascending_row(view, j, p, q - 1);
    }
}

/// Results that the index type can count are returned; of the others the first
/// running entry count that it cannot hold is reported, or `usize::MAX` where a
/// `usize` cannot hold it either, together with the largest index.
pub proof fn law_overflow_is_reported<V: Scalar, I: Index>(
    r: Result<CsrMatrix<V, I>, CsrError>,
    ncols: usize,
    rows: Seq<Seq<(I, V)>>,
)
    requires
        csr::is_outcome(r, ncols, rows),
    ensures
        r is Ok <==> csr::flat(rows).len() <= I::spec_max_usize(),
        r matches Ok(c) ==> c.nrows == rows.len() && c.ncols == ncols,
        r matches Err(e) ==> e matches CsrError::IndexOverflow { what, value, max } && {
            &&& what@ == "non-zero count (nnz)"@
            &&& max == I::spec_max_usize()
            &&& exists|i: int|
                0 < i <= rows.len() && is_first_over(rows, max as int, i) && (value == (
                #[trigger] csr::flat(rows.take(i))).len() || (value == usize::MAX && csr::flat(
                    rows.take(i),
                ).len() > usize::MAX))
        },
{
    let max = I::spec_max_usize() as int;
    lemma_first_over(rows, max);
    if csr::flat(rows).len() <= max {
        csr::lemma_total_within(rows, max);
    }
    if let Some(count) = csr::first_total_over(rows, max) {
        let i = choose|i: int|
            0 < i <= rows.len() && is_first_over(rows, max, i) && count == (
            #[trigger] csr::flat(rows.take(i))).len();
        csr::lemma_flat_len_monotone(rows, i);
    } else {
        assert(rows.take(rows.len() as int) =~= rows);
    }
}

/// Is the running entry count after `i` rows the first over `max`?
pub open spec fn is_first_over<T>(rows: Seq<Seq<T>>, max: int, i: int) -> bool {
    &&& csr::flat(rows.take(i)).len() > max
    &&& forall|j: int| 0 < j < i ==> (#[trigger] csr::flat(rows.take(j))).len() <= max
}

proof fn lemma_first_over<T>(rows: Seq<Seq<T>>, max: int)
    requires
        max >= 0,
    ensures
        match csr::first_total_over(rows, max) {
            Some(count) => exists|i: int|
                0 < i <= rows.len() && is_first_over(rows, max, i) && count == (
                #[trigger] csr::flat(rows.take(i))).len(),
            None => forall|i: int|
                0 <= i <= rows.len() ==> (#[trigger] csr::flat(rows.take(i))).len() <= max,
        },
    decreases rows.len(),
{
    if rows.len() > 0 {
        let front = rows.drop_last();
        lemma_first_over(front, max);
        assert forall|j: int| 0 <= j <= front.len() implies #[trigger] rows.take(j)
            == front.take(j) by {
            assert(rows.take(j) =~= front.take(j));
        }
        assert(rows.take(rows.len() as int) =~= rows);
        if let Some(count) = csr::first_total_over(front, max) {
            let i = choose|i: int|
                0 < i <= front.len() && is_first_over(front, max, i) && count == (
                #[trigger] csr::flat(front.take(i))).len();
            assert(rows.take(i) == front.take(i));
            assert(is_first_over(rows, max, i)) by {
                assert forall|j: int| 0 < j < i implies (#[trigger] csr::flat(rows.take(j))).len()
                    <= max by {
                    assert(rows.take(j) == front.take(j));
                    assert(csr::flat(front.take(j)).len() <= max);
                }
            }
            assert(count == csr::flat(rows.take(i)).len());
        } else {
            assert forall|j: int| 0 <= j < rows.len() implies (#[trigger] csr::flat(
                rows.take(j),
            )).len() <= max by {
                assert(rows.take(j) == front.take(j));
                assert(csr::flat(front.take(j)).len() <= max);
            }
            if csr::flat(rows).len() > max {
                assert(is_first_over(rows, max, rows.len() as int));
                assert(csr::flat(rows.take(rows.len() as int)).len() == csr::flat(rows).len());
            }
        }
    } else {
        assert forall|i: int| 0 <= i <= rows.len() implies (#[trigger] csr::flat(
            rows.take(i),
        )).len() <= max by {
            assert(rows.take(i) =~= rows);
        }
    }
}

/// A zip that is too wide reports its largest column.
pub proof fn law_width_is_reported(total: int, max: usize)
    requires
        0 < total <= usize::MAX,
    ensures
        zip::width_overflow(total, max) matches CsrError::IndexOverflow { what, value, max: m }
            && what@ == "largest column index"@ && value == total - 1 && m == max,
{
}

/// The number that a string of decimal digits spells.
pub open spec fn number(s: Seq<char>) -> int
    decreases s.len(),
{
    if s.len() == 0 {
        0
    } else {
        10 * number(s.drop_last()) + (s.last() as u32 - 48)
    }
}

/// Numbers in messages can be read back: they are spelled in decimal digits,
/// without leading zeros.
pub proof fn law_decimals_read_back(n: nat)
    ensures
        number(csr::decimal(n)) == n,
        csr::decimal(n).len() > 0,
        n > 0 ==> csr::decimal(n)[0] != '0',
        forall|i: int|
            0 <= i < csr::decimal(n).len() ==> '0' <= #[trigger] csr::decimal(n)[i] <= '9',
    decreases n,
{
    let s = csr::decimal(n);
    let d = n % 10;
    lemma_digit(d);
    assert(s.last() == csr::digit(d));
    if n >= 10 {
        law_decimals_read_back(n / 10);
        assert(s.drop_last() =~= csr::decimal(n / 10));
        assert(s[0] == csr::decimal(n / 10)[0]);
        assert forall|i: int| 0 <= i < s.len() implies '0' <= #[trigger] s[i] <= '9' by {
            if i < s.len() - 1 {
                assert(s[i] == csr::decimal(n / 10)[i]);
            }
        }
    } else {
        assert(s.drop_last() =~= Seq::empty());
        assert(number(s.drop_last()) == 0);
    }
}

proof fn lemma_digit(d: nat)
    requires
        d < 10,
    ensures
        csr::digit(d) as u32 == 48 + d,
        '0' <= csr::digit(d) <= '9',
        d > 0 ==> csr::digit(d) != '0',
{
}

/// Every overflow message carries the marker that the bindings look for, between
/// the value and the largest index.
pub proof fn law_overflow_is_marked(what: &'static str, value: usize, max: usize) -> (at: int)
    ensures
        ({
            let text = (CsrError::IndexOverflow { what, value, max }).spec_message();
            let marker = "exceeds the maximum value representable"@;
            &&& 0 <= at <= at + marker.len() <= text.len()
            &&& text.subrange(at, at + marker.len()) == marker
            &&& exists|x: int, y: int|
                0 <= x <= y < at && number(#[trigger] text.subrange(x, y)) == value
            &&& exists|x: int, y: int|
                at + marker.len() < x <= y <= text.len() && number(#[trigger] text.subrange(x, y))
                    == max
        }),
{
    let text = (CsrError::IndexOverflow { what, value, max }).spec_message();
    let marker = "exceeds the maximum value representable"@;
    let head = "output "@ + what@ + " ("@;
    let v = csr::decimal(value as nat);
    let mid = head + v + ") "@;
    let gap = " by the index type (max "@;
    let m = csr::decimal(max as nat);
    let tail = "); use a wider index type or reduce the problem size"@;
    reveal_strlit(") ");
    reveal_strlit(" by the index type (max ");
    law_decimals_read_back(value as nat);
    law_decimals_read_back(max as nat);
    let at = mid.len() as int;
    assert(text =~= mid + marker + gap + m + tail);
    assert(text.subrange(at, at + marker.len()) =~= marker);
    let x = head.len() as int;
    assert(text.subrange(x, x + v.len()) =~= v);
    assert(number(text.subrange(x, x + v.len())) == value);
    let y = at + marker.len() + gap.len();
    assert(text.subrange(y, y + m.len()) =~= m);
    assert(number(text.subrange(y, y + m.len())) == max);
    at
}

/// A length error names what was expected before what was found.
pub proof fn law_lengths_are_named(x: usize, y: usize)
    ensures
        exists|e: Seq<char>, g: Seq<char>|
            #![trigger number(e), number(g)]
            (CsrError::IndptrLength { expected: x, got: y }).spec_message()
                == "indptr length mismatch: expected "@ + e + ", got "@ + g && number(e) == x
                && number(g) == y,
        exists|i: Seq<char>, d: Seq<char>|
            #![trigger number(i), number(d)]
            (CsrError::IndicesDataMismatch { indices: x, data: y }).spec_message()
                == "indices and data length mismatch: indices="@ + i + ", data="@ + d && number(i)
                == x && number(d) == y,
{
    law_decimals_read_back(x as nat);
    law_decimals_read_back(y as nat);
    let e = csr::decimal(x as nat);
    let g = csr::decimal(y as nat);
    assert(number(e) == x && number(g) == y);
}

/// The AVX2+FMA kernels are taken if and only if the processor has both features
/// and the override variable is unset, empty or `0`. Once asked for, the decision
/// is made.
pub proof fn law_kernels_by_features(facts: SimdFacts<'_>)
    ensures
        simd::decided(SimdState::Uninit, facts) != SimdState::Uninit,
        simd::decided(SimdState::Uninit, facts) == SimdState::Enabled <==> {
            &&& facts.avx2
            &&& facts.fma
            &&& match facts.force_baseline {
                None => true,
                Some(v) => v@.len() == 0 || (v@.len() == 1 && v@[0] == '0'),
            }
        },
        simd::decided(SimdState::Enabled, facts) == SimdState::Enabled,
        simd::decided(SimdState::Disabled, facts) == SimdState::Disabled,
{
    if let Some(v) = facts.force_baseline {
        if v@.len() == 1 && v@[0] == '0' {
            assert(v@ =~= seq!['0']);
        }
    }
}

} // verus!
