//! What the products of integer matrices are, in plain arithmetic.
//!
//! The laws here speak of the stored arrays and of integers alone. An integer
//! entry is its dot product, reduced to the width of the type; which entries a
//! row keeps, and in which order, goes by the integers they are.
use vstd::prelude::*;

use crate::agreement;
use crate::csr;
use crate::csr::{CsrMatrix, CsrView};
use crate::index::Index;
use crate::laws;
use crate::matmul;
use crate::matmul_topn;
use crate::matmul_topn::{SortMode, TopNOptions};
use crate::maxheap::admits;
use crate::product;
use crate::product::Update;
use crate::scalar::Scalar;
use crate::selection;
use crate::topn;
use crate::zip;

verus! {

/// The operations on 32-bit elements are those on integers, reduced modulo
/// `2^32`; their order is that of the integers, and the smallest value of the
/// type is both the sentinel of the heap and the threshold of the zip.
pub proof fn law_i32_elements_are_integers(x: i32, y: i32, acc: i32)
    ensures
        x.spec_less(y) <==> (x as int) < (y as int),
        x.spec_equals(y) <==> (x as int) == (y as int),
        (x as int) <= (x.spec_max(y) as int),
        (y as int) <= (x.spec_max(y) as int),
        x.spec_max(y) == x || x.spec_max(y) == y,
        x.ordered(),
        i32::spec_zero() as int == 0,
        i32::spec_min_value() as int == -2147483648,
        i32::spec_limits_min() as int == -2147483648,
        (x.spec_plus(y) - (x + y)) % 4294967296 == 0,
        (x.spec_times(y) - x * y) % 4294967296 == 0,
        (x.spec_mul_add(y, acc) - (x * y + acc)) % 4294967296 == 0,
        !i32::IS_FLOAT,
{
    crate::scalar::lemma_integers();
    let prod = x.wrapping_mul(y);
    assert((prod - x * y) % 4294967296 == 0);
    assert((x.wrapping_add(y) - (x + y)) % 4294967296 == 0);
    assert((prod.wrapping_add(acc) - (prod + acc)) % 4294967296 == 0);
    lemma_mod_sum(prod.wrapping_add(acc) - (prod + acc), prod - x * y, 4294967296);
}

/// The operations on 64-bit elements are those on integers, reduced modulo
/// `2^64`; their order is that of the integers, and the smallest value of the
/// type is both the sentinel of the heap and the threshold of the zip.
pub proof fn law_i64_elements_are_integers(x: i64, y: i64, acc: i64)
    ensures
        x.spec_less(y) <==> (x as int) < (y as int),
        x.spec_equals(y) <==> (x as int) == (y as int),
        (x as int) <= (x.spec_max(y) as int),
        (y as int) <= (x.spec_max(y) as int),
        x.spec_max(y) == x || x.spec_max(y) == y,
        x.ordered(),
        i64::spec_zero() as int == 0,
        i64::spec_min_value() as int == -9223372036854775808,
        i64::spec_limits_min() as int == -9223372036854775808,
        (x.spec_plus(y) - (x + y)) % 18446744073709551616 == 0,
        (x.spec_times(y) - x * y) % 18446744073709551616 == 0,
        (x.spec_mul_add(y, acc) - (x * y + acc)) % 18446744073709551616 == 0,
        !i64::IS_FLOAT,
{
    crate::scalar::lemma_integers();
    let prod = x.wrapping_mul(y);
    assert((prod - x * y) % 18446744073709551616 == 0);
    assert((x.wrapping_add(y) - (x + y)) % 18446744073709551616 == 0);
    assert((prod.wrapping_add(acc) - (prod + acc)) % 18446744073709551616 == 0);
    lemma_mod_sum(prod.wrapping_add(acc) - (prod + acc), prod - x * y, 18446744073709551616);
}

/// Multiples add up.
proof fn lemma_mod_sum(x: int, y: int, m: int)
    requires
        m > 0,
        x % m == 0,
        y % m == 0,
    ensures
        (x + y) % m == 0,
{
    vstd::arithmetic::div_mod::lemma_fundamental_div_mod(x, m);
    vstd::arithmetic::div_mod::lemma_fundamental_div_mod(y, m);
    let q = x / m + y / m;
    assert(x + y == q * m) by (nonlinear_arith)
        requires
            x == m * (x / m),
            y == m * (y / m),
            q == x / m + y / m,
    ;
    vstd::arithmetic::div_mod::lemma_mod_multiples_basic(q, m);
}

/// The indices are integers too, and all that fit a `usize` up to the largest of
/// their type survive narrowing.
pub proof fn law_indices_are_integers(x: i32, y: i64, n: usize)
    ensures
        x.as_int() == x as int,
        y.as_int() == y as int,
        i32::spec_max_usize() == 2147483647,
        i64::spec_max_usize() == if usize::MAX < 9223372036854775807 {
            usize::MAX as int
        } else {
            9223372036854775807
        },
        n <= 2147483647 ==> i32::narrowed(n) as int == n,
        n <= 9223372036854775807 ==> i64::narrowed(n) as int == n,
        0 <= x ==> x.widened() == x as int,
        0 <= y <= usize::MAX ==> y.widened() == y as int,
{
}

/// Do these elements behave as integers of width `m` do, `value` telling which
/// integer each is?
pub open spec fn are_integers<V: Scalar>(value: spec_fn(V) -> int, m: int) -> bool {
    &&& m > 0
    &&& !V::IS_FLOAT
    &&& crate::scalar::is_unfused::<V>()
    &&& value(V::spec_zero()) == 0
    &&& forall|x: V| (#[trigger] x.ordered())
    &&& forall|x: V| -m <= 2 * #[trigger] value(x) < m
    &&& forall|x: V| value(V::spec_limits_min()) <= #[trigger] value(x)
    &&& forall|x: V, y: V| #[trigger] x.spec_less(y) <==> value(x) < value(y)
    &&& forall|x: V, y: V, acc: V|
        (value(#[trigger] x.spec_mul_add(y, acc)) - (value(x) * value(y) + value(acc))) % m == 0
}

proof fn lemma_i32_are_integers()
    ensures
        are_integers(|x: i32| x as int, 4294967296),
{
    crate::scalar::lemma_integers();
    let value = |x: i32| x as int;
    assert forall|x: i32, y: i32, acc: i32|
        (value(#[trigger] x.spec_mul_add(y, acc)) - (value(x) * value(y) + value(acc)))
            % 4294967296 == 0 by {
        law_i32_elements_are_integers(x, y, acc);
    }
}

proof fn lemma_i64_are_integers()
    ensures
        are_integers(|x: i64| x as int, 18446744073709551616),
{
    crate::scalar::lemma_integers();
    let value = |x: i64| x as int;
    assert forall|x: i64, y: i64, acc: i64|
        (value(#[trigger] x.spec_mul_add(y, acc)) - (value(x) * value(y) + value(acc)))
            % 18446744073709551616 == 0 by {
        law_i64_elements_are_integers(x, y, acc);
    }
}

/// The sum of what is stored for column `k` at the positions `lo..hi`.
pub open spec fn stored_sum<V, I: Index>(
    indices: Seq<I>,
    data: Seq<V>,
    lo: int,
    hi: int,
    k: int,
    value: spec_fn(V) -> int,
) -> int
    decreases hi - lo,
{
    if hi <= lo {
        0
    } else {
        stored_sum(indices, data, lo, hi - 1, k, value) + if indices[hi - 1].as_int() == k {
            value(data[hi - 1])
        } else {
            0
        }
    }
}

/// Cell `(j, k)` of a matrix.
pub open spec fn cell<V: Scalar, I: Index>(
    b: CsrView<'_, V, I>,
    j: int,
    k: int,
    value: spec_fn(V) -> int,
) -> int {
    stored_sum(b.indices@, b.data@, b.indptr@[j].as_int(), b.indptr@[j + 1].as_int(), k, value)
}

/// The dot product of what `a` stores at the positions `lo..hi` with column `k`
/// of `b`.
pub open spec fn partial_dot<V: Scalar, I: Index>(
    a: CsrView<'_, V, I>,
    b: CsrView<'_, V, I>,
    lo: int,
    hi: int,
    k: int,
    value: spec_fn(V) -> int,
) -> int
    decreases hi - lo,
{
    if hi <= lo {
        0
    } else {
        partial_dot(a, b, lo, hi - 1, k, value) + value(a.data@[hi - 1]) * cell(
            b,
            a.indices@[hi - 1].as_int(),
            k,
            value,
        )
    }
}

/// The dot product of row `i` of `a` with column `k` of `b`.
pub open spec fn dot<V: Scalar, I: Index>(
    a: CsrView<'_, V, I>,
    b: CsrView<'_, V, I>,
    i: int,
    k: int,
    value: spec_fn(V) -> int,
) -> int {
    partial_dot(a, b, a.indptr@[i].as_int(), a.indptr@[i + 1].as_int(), k, value)
}

/// Does the entry of `a` at position `p` meet the entry of `b` at position `q`,
/// in column `k`?
pub open spec fn meets_at<V: Scalar, I: Index>(
    a: CsrView<'_, V, I>,
    b: CsrView<'_, V, I>,
    k: int,
    p: int,
    q: int,
) -> bool {
    let j = a.indices@[p].as_int();
    b.indptr@[j].as_int() <= q < b.indptr@[j + 1].as_int() && b.indices@[q].as_int() == k
}

/// Does an entry of row `i` of `a` meet an entry of column `k` of `b`?
pub open spec fn meets<V: Scalar, I: Index>(
    a: CsrView<'_, V, I>,
    b: CsrView<'_, V, I>,
    i: int,
    k: int,
) -> bool {
    exists|p: int, q: int|
        a.indptr@[i].as_int() <= p < a.indptr@[i + 1].as_int() && #[trigger] meets_at(a, b, k, p, q)
}

/// Is `x` the number `y` but for a multiple of `m`?
pub open spec fn wraps_to(x: int, y: int, m: int) -> bool {
    (y - x) % m == 0
}

/// Sums of updates modulo the width of the type.
proof fn lemma_sum_wraps<V: Scalar>(
    us: Seq<Update<V>>,
    k: int,
    fused: bool,
    value: spec_fn(V) -> int,
    m: int,
)
    requires
        are_integers(value, m),
    ensures
        wraps_to(
            value(product::accumulate(us, k, fused)),
            laws::exact_sum(us, k, value),
            m,
        ),
    decreases us.len(),
{
    if us.len() > 0 {
        let prev = us.drop_last();
        let u = us.last();
        lemma_sum_wraps(prev, k, fused, value, m);
        if u.col == k {
            let acc = product::accumulate(prev, k, fused);
            let sum = u.left.spec_mul_add(u.right, acc);
            assert(sum == product::accumulate(us, k, fused));
            let exact = laws::exact_sum(prev, k, value);
            let step = value(u.left) * value(u.right);
            assert((value(sum) - (step + value(acc))) % m == 0);
            lemma_mod_negated(value(sum) - (step + value(acc)), m);
            lemma_mod_sum(exact - value(acc), (step + value(acc)) - value(sum), m);
        }
    } else {
        assert(0int % m == 0) by {
            vstd::arithmetic::div_mod::lemma_mod_self_0(m);
            vstd::arithmetic::div_mod::lemma_small_mod(0, m as nat);
        }
    }
}

proof fn lemma_mod_negated(x: int, m: int)
    requires
        m > 0,
        x % m == 0,
    ensures
        (-x) % m == 0,
{
    vstd::arithmetic::div_mod::lemma_fundamental_div_mod(x, m);
    let q = -(x / m);
    assert(-x == q * m) by (nonlinear_arith)
        requires
            x == m * (x / m),
            q == -(x / m),
    ;
    vstd::arithmetic::div_mod::lemma_mod_multiples_basic(q, m);
}

/// Only one element of the type is a given number but for a multiple of `m`.
proof fn lemma_wraps_once<V: Scalar>(x: V, y: V, n: int, value: spec_fn(V) -> int, m: int)
    requires
        are_integers(value, m),
        wraps_to(value(x), n, m),
        wraps_to(value(y), n, m),
    ensures
        value(x) == value(y),
{
    let d = value(x) - value(y);
    lemma_mod_negated(n - value(x), m);
    lemma_mod_sum(n - value(y), -(n - value(x)), m);
    assert(d % m == 0);
    vstd::arithmetic::div_mod::lemma_fundamental_div_mod(d, m);
    let q = d / m;
    assert(-m < d < m);
    assert(q == 0) by (nonlinear_arith)
        requires
            d == m * q,
            -m < d < m,
            m > 0,
    ;
}

/// The updates of one entry add its product with the cell.
proof fn lemma_scaled_sum<V: Scalar, I: Index>(
    before: Seq<Update<V>>,
    v: V,
    b: CsrView<'_, V, I>,
    j: int,
    n: int,
    k: int,
    value: spec_fn(V) -> int,
)
    requires
        b.valid(),
        0 <= j < b.nrows,
        0 <= n <= b.row(j).len(),
    ensures
        laws::exact_sum(before + product::scaled(v, b.row(j).take(n)), k, value)
            == laws::exact_sum(before, k, value) + value(v) * stored_sum(
            b.indices@,
            b.data@,
            b.start(j),
            b.start(j) + n,
            k,
            value,
        ),
    decreases n,
{
    let row = b.row(j);
    let all = before + product::scaled(v, row.take(n));
    if n == 0 {
        assert(all =~= before);
        assert(value(v) * 0 == 0) by (nonlinear_arith);
    } else {
        lemma_scaled_sum(before, v, b, j, n - 1, k, value);
        product::lemma_row_in_bounds(b, j);
        assert(all.drop_last() =~= before + product::scaled(v, row.take(n - 1)));
        let e = row[n - 1];
        assert(all.last() == Update { col: e.0, left: v, right: e.1 });
        let s = stored_sum(b.indices@, b.data@, b.start(j), b.start(j) + n - 1, k, value);
        assert(e == (b.col(b.start(j) + n - 1), b.data@[b.start(j) + n - 1]));
        assert(value(v) * (s + value(e.1)) == value(v) * s + value(v) * value(e.1))
            by (nonlinear_arith);
    }
}

/// The updates of the first entries of a row add up to the dot product so far.
proof fn lemma_updates_sum<V: Scalar, I: Index>(
    a: CsrView<'_, V, I>,
    b: CsrView<'_, V, I>,
    i: int,
    n: int,
    k: int,
    value: spec_fn(V) -> int,
)
    requires
        product::multipliable(a, b),
        0 <= i < a.nrows,
        0 <= n <= a.row(i).len(),
    ensures
        laws::exact_sum(product::row_updates(a.row(i).take(n), b), k, value) == partial_dot(
            a,
            b,
            a.start(i),
            a.start(i) + n,
            k,
            value,
        ),
    decreases n,
{
    if n > 0 {
        lemma_updates_sum(a, b, i, n - 1, k, value);
        let left = a.row(i).take(n);
        let (j, v) = left.last();
        assert(left.drop_last() =~= a.row(i).take(n - 1));
        product::lemma_row_in_bounds(a, i);
        assert(left.last() == a.row(i)[n - 1]);
        product::lemma_row_in_bounds(b, j);
        assert(b.row(j).take(b.row(j).len() as int) =~= b.row(j));
        lemma_scaled_sum(
            product::row_updates(left.drop_last(), b),
            v,
            b,
            j,
            b.row(j).len() as int,
            k,
            value,
        );
    }
}

/// An update touches a column where two entries meet.
proof fn lemma_touched_meets<V: Scalar, I: Index>(
    a: CsrView<'_, V, I>,
    b: CsrView<'_, V, I>,
    i: int,
    n: int,
    k: int,
)
    requires
        product::multipliable(a, b),
        0 <= i < a.nrows,
        0 <= n <= a.row(i).len(),
    ensures
        product::touched(product::row_updates(a.row(i).take(n), b)).contains(k) <==> exists|
            p: int,
            q: int,
        |
            a.start(i) <= p < a.start(i) + n && #[trigger] meets_at(a, b, k, p, q),
    decreases n,
{
    let us = product::row_updates(a.row(i).take(n), b);
    product::lemma_touched(us);
    if n > 0 {
        let left = a.row(i).take(n);
        let (j, v) = left.last();
        let before = product::row_updates(left.drop_last(), b);
        let own = product::scaled(v, b.row(j));
        let last = a.start(i) + n - 1;
        assert(left.drop_last() =~= a.row(i).take(n - 1));
        lemma_touched_meets(a, b, i, n - 1, k);
        product::lemma_touched(before);
        product::lemma_row_in_bounds(a, i);
        assert(left.last() == a.row(i)[n - 1]);
        product::lemma_row_in_bounds(b, j);
        if product::touched(us).contains(k) {
            let x = choose|x: int| 0 <= x < us.len() && (#[trigger] us[x]).col == k;
            if x < before.len() {
                assert(before[x].col == k);
                assert(product::touched(before).contains(k));
            } else {
                let y = x - before.len();
                assert(us[x] == own[y]);
                assert(b.row(j)[y].0 == k);
                assert(meets_at(a, b, k, last, b.start(j) + y));
            }
        }
        if exists|p: int, q: int|
            a.start(i) <= p < a.start(i) + n && #[trigger] meets_at(a, b, k, p, q) {
            let (p, q) = choose|p: int, q: int|
                a.start(i) <= p < a.start(i) + n && #[trigger] meets_at(a, b, k, p, q);
            if p == last {
                let y = q - b.start(j);
                assert(b.row(j)[y].0 == k);
                assert(us[before.len() + y] == own[y]);
                assert(us[before.len() + y].col == k);
            } else {
                assert(product::touched(before).contains(k));
                let x = choose|x: int| 0 <= x < before.len() && (#[trigger] before[x]).col == k;
                assert(us[x].col == k);
            }
        }
    }
}

/// A row of the product: which columns it touches, and what their sums are.
proof fn lemma_row_is_plain<V: Scalar, I: Index>(
    a: CsrView<'_, V, I>,
    b: CsrView<'_, V, I>,
    i: int,
    fused: bool,
    value: spec_fn(V) -> int,
    m: int,
)
    requires
        product::multipliable(a, b),
        0 <= i < a.nrows,
        are_integers(value, m),
    ensures
        forall|k: int| #[trigger]
            product::touched(product::updates_of(a, b, i)).contains(k) <==> meets(a, b, i, k),
        forall|k: int|
            wraps_to(
                value(#[trigger] product::accumulate(product::updates_of(a, b, i), k, fused)),
                dot(a, b, i, k, value),
                m,
            ),
{
    let us = product::updates_of(a, b, i);
    let n = a.row(i).len() as int;
    product::lemma_row_in_bounds(a, i);
    assert(a.row(i).take(n) =~= a.row(i));
    assert forall|k: int| #[trigger] product::touched(us).contains(k) <==> meets(
        a,
        b,
        i,
        k,
    ) by {
        lemma_touched_meets(a, b, i, n, k);
    }
    assert forall|k: int|
        wraps_to(value(#[trigger] product::accumulate(us, k, fused)), dot(a, b, i, k, value), m) by {
        lemma_sum_wraps(us, k, fused, value, m);
        lemma_updates_sum(a, b, i, n, k, value);
    }
}

/// Where the rows of a matrix lie in its arrays.
proof fn lemma_where_rows_lie<V: Scalar, I: Index>(
    c: CsrMatrix<V, I>,
    ncols: usize,
    rows: Seq<Seq<(I, V)>>,
    i: int,
)
    requires
        c.holds(ncols, rows),
        0 <= i < rows.len(),
    ensures
        ({
            let lo = c.indptr@[i].as_int();
            let hi = c.indptr@[i + 1].as_int();
            &&& 0 <= lo <= hi <= c.data@.len()
            &&& c.indices@.len() == c.data@.len()
            &&& hi - lo == rows[i].len()
            &&& forall|p: int|
                lo <= p < hi ==> (#[trigger] c.indices@[p], #[trigger] c.data@[p]) == rows[i][p
                    - lo]
        }),
{
    let lo = c.indptr@[i].as_int();
    let hi = c.indptr@[i + 1].as_int();
    csr::lemma_row_of_matrix(c, ncols, rows, i);
    csr::lemma_flat_len_monotone(rows, i + 1);
    assert(rows.take(i + 1) =~= rows.take(i).push(rows[i]));
    csr::lemma_flat_push(rows.take(i), rows[i]);
    assert forall|p: int| lo <= p < hi implies (
        #[trigger] c.indices@[p],
        #[trigger] c.data@[p],
    ) == rows[i][p - lo] by {
        assert(c.row(i)[p - lo] == rows[i][p - lo]);
    }
}

/// Do the arrays have the shape of a matrix of `nrows` rows?
pub open spec fn is_shaped<V: Scalar, I: Index>(
    c: CsrMatrix<V, I>,
    nrows: usize,
    ncols: usize,
) -> bool {
    &&& c.nrows == nrows
    &&& c.ncols == ncols
    &&& c.indptr@.len() == nrows + 1
    &&& c.indptr@[0].as_int() == 0
    &&& c.indptr@[nrows as int].as_int() == c.data@.len()
    &&& c.indices@.len() == c.data@.len()
}

proof fn lemma_shape<V: Scalar, I: Index>(
    c: CsrMatrix<V, I>,
    ncols: usize,
    rows: Seq<Seq<(I, V)>>,
    nrows: usize,
)
    requires
        c.holds(ncols, rows),
        rows.len() == nrows,
    ensures
        is_shaped(c, nrows, ncols),
{
    assert(rows.take(0) =~= Seq::empty());
    assert(rows.take(rows.len() as int) =~= rows);
}

/// Does row `i` of `c` hold the dot product of every column where entries of the
/// factors meet, once each, and nothing else? A dot product that is zero stays.
pub open spec fn is_product_row<V: Scalar, I: Index>(
    c: CsrMatrix<V, I>,
    a: CsrView<'_, V, I>,
    b: CsrView<'_, V, I>,
    i: int,
    value: spec_fn(V) -> int,
    m: int,
) -> bool {
    let lo = c.indptr@[i].as_int();
    let hi = c.indptr@[i + 1].as_int();
    &&& 0 <= lo <= hi <= c.data@.len()
    &&& forall|p: int|
        lo <= p < hi ==> 0 <= (#[trigger] c.indices@[p]).as_int() < b.ncols && meets(
            a,
            b,
            i,
            c.indices@[p].as_int(),
        ) && wraps_to(value(c.data@[p]), dot(a, b, i, c.indices@[p].as_int(), value), m)
    &&& forall|p: int, q: int|
        lo <= p < q < hi ==> (#[trigger] c.indices@[p]).as_int() != (
        #[trigger] c.indices@[q]).as_int()
    &&& forall|k: int| #[trigger]
        meets(a, b, i, k) ==> exists|p: int|
            lo <= p < hi && (#[trigger] c.indices@[p]).as_int() == k
}

#[verifier::spinoff_prover]
proof fn lemma_product<V: Scalar, I: Index>(
    a: CsrView<'_, V, I>,
    b: CsrView<'_, V, I>,
    c: CsrMatrix<V, I>,
    i: int,
    value: spec_fn(V) -> int,
    m: int,
)
    requires
        product::multipliable(a, b),
        b.ncols - 1 <= I::spec_max_usize(),
        c.holds(b.ncols, matmul::product_rows(a, b)),
        0 <= i < a.nrows,
        are_integers(value, m),
    ensures
        is_product_row(c, a, b, i, value, m),
{
    let rows = matmul::product_rows::<V, I>(a, b);
    let us = product::updates_of(a, b, i);
    let t = product::touched(us);
    let lo = c.indptr@[i].as_int();
    let hi = c.indptr@[i + 1].as_int();
    lemma_where_rows_lie(c, b.ncols, rows, i);
    lemma_row_is_plain(a, b, i, false, value, m);
    product::lemma_product_in_bounds(a, b, i);
    product::lemma_touched(us);
    product::lemma_touched_in_bounds(us, b.ncols as int);
    I::lemma_index_laws();
    assert forall|p: int| lo <= p < hi implies (#[trigger] c.indices@[p]).as_int() == t[t.len() - 1
        - (p - lo)] && c.data@[p] == product::accumulate(us, t[t.len() - 1 - (p - lo)], false) by {
        let k = t[t.len() - 1 - (p - lo)];
        assert((c.indices@[p], c.data@[p]) == rows[i][p - lo]);
        assert(I::narrowed(k as usize).as_int() == k);
    }
    assert forall|p: int| lo <= p < hi implies 0 <= (#[trigger] c.indices@[p]).as_int() < b.ncols
        && meets(a, b, i, c.indices@[p].as_int()) && wraps_to(
        value(c.data@[p]),
        dot(a, b, i, c.indices@[p].as_int(), value),
        m,
    ) by {
        let k = t[t.len() - 1 - (p - lo)];
        assert(t.contains(k));
    }
    assert forall|k: int| #[trigger] meets(a, b, i, k) implies exists|p: int|
        lo <= p < hi && (#[trigger] c.indices@[p]).as_int() == k by {
        assert(t.contains(k));
        let x = choose|x: int| 0 <= x < t.len() && t[x] == k;
        assert(c.indices@[lo + t.len() - 1 - x].as_int() == k);
    }
}

/// The plain product of 32-bit matrices: every row holds the dot product, modulo
/// `2^32`, of every column where entries of the factors meet, once each.
pub proof fn law_i32_product<I: Index>(
    a: CsrView<'_, i32, I>,
    b: CsrView<'_, i32, I>,
    c: CsrMatrix<i32, I>,
)
    requires
        product::multipliable(a, b),
        b.ncols - 1 <= I::spec_max_usize(),
        c.holds(b.ncols, matmul::product_rows(a, b)),
    ensures
        is_shaped(c, a.nrows, b.ncols),
        forall|i: int|
            #![trigger c.indptr@[i]]
            0 <= i < a.nrows ==> is_product_row(
                c,
                a,
                b,
                i,
                |x: i32| x as int,
                4294967296,
            ),
{
    lemma_i32_are_integers();
    lemma_shape(c, b.ncols, matmul::product_rows(a, b), a.nrows);
    assert forall|i: int| #![trigger c.indptr@[i]] 0 <= i < a.nrows implies is_product_row(
        c,
        a,
        b,
        i,
        |x: i32| x as int,
        4294967296,
    ) by {
        lemma_product(a, b, c, i, |x: i32| x as int, 4294967296);
    }
}

/// The plain product of 64-bit matrices: every row holds the dot product, modulo
/// `2^64`, of every column where entries of the factors meet, once each.
pub proof fn law_i64_product<I: Index>(
    a: CsrView<'_, i64, I>,
    b: CsrView<'_, i64, I>,
    c: CsrMatrix<i64, I>,
)
    requires
        product::multipliable(a, b),
        b.ncols - 1 <= I::spec_max_usize(),
        c.holds(b.ncols, matmul::product_rows(a, b)),
    ensures
        is_shaped(c, a.nrows, b.ncols),
        forall|i: int|
            #![trigger c.indptr@[i]]
            0 <= i < a.nrows ==> is_product_row(
                c,
                a,
                b,
                i,
                |x: i64| x as int,
                18446744073709551616,
            ),
{
    lemma_i64_are_integers();
    lemma_shape(c, b.ncols, matmul::product_rows(a, b), a.nrows);
    assert forall|i: int| #![trigger c.indptr@[i]] 0 <= i < a.nrows implies is_product_row(
        c,
        a,
        b,
        i,
        |x: i64| x as int,
        18446744073709551616,
    ) by {
        lemma_product(a, b, c, i, |x: i64| x as int, 18446744073709551616);
    }
}

/// Is column `k` held at one of the positions `lo..hi`?
pub open spec fn is_held<V: Scalar, I: Index>(
    c: CsrMatrix<V, I>,
    lo: int,
    hi: int,
    k: int,
) -> bool {
    exists|p: int| lo <= p < hi && (#[trigger] c.indices@[p]).as_int() == k
}

/// Are the entries at the positions `lo..hi` dot products above the threshold,
/// each of its own column?
pub open spec fn are_dots<V: Scalar, I: Index>(
    c: CsrMatrix<V, I>,
    lo: int,
    hi: int,
    a: CsrView<'_, V, I>,
    b: CsrView<'_, V, I>,
    i: int,
    threshold: Option<V>,
    value: spec_fn(V) -> int,
    m: int,
) -> bool {
    &&& forall|p: int|
        lo <= p < hi ==> {
            let k = (#[trigger] c.indices@[p]).as_int();
            &&& 0 <= k < b.ncols
            &&& meets(a, b, i, k)
            &&& wraps_to(value(c.data@[p]), dot(a, b, i, k, value), m)
            &&& threshold matches Some(t) ==> value(t) < value(c.data@[p])
        }
    &&& forall|p: int, q: int|
        lo <= p < q < hi ==> (#[trigger] c.indices@[p]).as_int() != (
        #[trigger] c.indices@[q]).as_int()
}

/// If the dot product `x` of column `k` exceeds the threshold and is left out, are
/// there `top_n` others, none of them smaller?
pub open spec fn is_outdone<V: Scalar, I: Index>(
    c: CsrMatrix<V, I>,
    lo: int,
    hi: int,
    a: CsrView<'_, V, I>,
    b: CsrView<'_, V, I>,
    i: int,
    top_n: int,
    threshold: Option<V>,
    value: spec_fn(V) -> int,
    m: int,
    k: int,
    x: V,
) -> bool {
    meets(a, b, i, k) && !is_held(c, lo, hi, k) && wraps_to(
        value(x),
        dot(a, b, i, k, value),
        m,
    ) && (threshold matches Some(t) ==> value(t) < value(x)) ==> hi - lo == top_n && forall|p: int|
        lo <= p < hi ==> value(x) <= value(#[trigger] c.data@[p])
}

/// Are the entries at the positions `lo..hi` in the order asked for: by value
/// none exceeds one before it; by column the columns ascend?
pub open spec fn is_arranged<V: Scalar, I: Index>(
    c: CsrMatrix<V, I>,
    lo: int,
    hi: int,
    sort: SortMode,
    value: spec_fn(V) -> int,
) -> bool {
    match sort {
        SortMode::ByValueDesc => forall|p: int, q: int|
            lo <= p < q < hi ==> value(#[trigger] c.data@[p]) >= value(#[trigger] c.data@[q]),
        SortMode::ByColumn => forall|p: int, q: int|
            lo <= p < q < hi ==> (#[trigger] c.indices@[p]).as_int() < (
            #[trigger] c.indices@[q]).as_int(),
    }
}

/// Does row `i` of `c` hold the `top_n` largest dot products above the threshold,
/// in the order asked for? Each entry is the dot product of its column and exceeds
/// the threshold, no column comes twice, and where a dot product above the
/// threshold is left out there are `top_n` others and none of them is smaller.
pub open spec fn is_top_n_row<V: Scalar, I: Index>(
    c: CsrMatrix<V, I>,
    a: CsrView<'_, V, I>,
    b: CsrView<'_, V, I>,
    i: int,
    top_n: int,
    threshold: Option<V>,
    sort: SortMode,
    value: spec_fn(V) -> int,
    m: int,
) -> bool {
    let lo = c.indptr@[i].as_int();
    let hi = c.indptr@[i + 1].as_int();
    &&& 0 <= lo <= hi <= c.data@.len()
    &&& hi - lo <= top_n
    &&& are_dots(c, lo, hi, a, b, i, threshold, value, m)
    &&& forall|k: int, x: V| #[trigger]
        is_outdone(c, lo, hi, a, b, i, top_n, threshold, value, m, k, x)
    &&& is_arranged(c, lo, hi, sort, value)
}

/// Integer rows are tame.
proof fn lemma_tame<V: Scalar, I: Index>(
    a: CsrView<'_, V, I>,
    b: CsrView<'_, V, I>,
    i: int,
    accum: crate::chunked::AccumMode,
    value: spec_fn(V) -> int,
    m: int,
)
    requires
        are_integers(value, m),
    ensures
        agreement::is_tame(a, b, i, accum),
        !topn::uses_dense(a, b, i, accum),
{
}

/// Do the positions `lo..hi` hold the columns `cols`, in order, with the sums of
/// the updates?
spec fn lists_sums<V: Scalar, I: Index>(
    c: CsrMatrix<V, I>,
    lo: int,
    hi: int,
    cols: Seq<int>,
    us: Seq<Update<V>>,
) -> bool {
    &&& hi - lo == cols.len()
    &&& cols.no_duplicates()
    &&& forall|p: int|
        lo <= p < hi ==> (#[trigger] c.indices@[p]).as_int() == cols[p - lo] && c.data@[p]
            == product::accumulate(us, cols[p - lo], true)
}

proof fn lemma_are_dots<V: Scalar, I: Index>(
    c: CsrMatrix<V, I>,
    lo: int,
    hi: int,
    cols: Seq<int>,
    a: CsrView<'_, V, I>,
    b: CsrView<'_, V, I>,
    i: int,
    top_n: nat,
    threshold: Option<V>,
    value: spec_fn(V) -> int,
    m: int,
)
    requires
        product::multipliable(a, b),
        0 <= i < a.nrows,
        are_integers(value, m),
        lists_sums(c, lo, hi, cols, product::updates_of(a, b, i)),
        laws::is_top_n(
            cols.to_set(),
            laws::row_columns(product::updates_of(a, b, i), b.ncols as int, false),
            laws::sum_at(product::updates_of(a, b, i), true),
            threshold,
            top_n,
        ),
    ensures
        are_dots(c, lo, hi, a, b, i, threshold, value, m),
{
    let us = product::updates_of(a, b, i);
    let all = laws::row_columns(us, b.ncols as int, false);
    let val = laws::sum_at(us, true);
    lemma_row_is_plain(a, b, i, true, value, m);
    product::lemma_product_in_bounds(a, b, i);
    laws::lemma_row_columns_in_bounds(us, b.ncols as int, false);
    assert forall|p: int| lo <= p < hi implies {
        let k = (#[trigger] c.indices@[p]).as_int();
        &&& 0 <= k < b.ncols
        &&& meets(a, b, i, k)
        &&& wraps_to(value(c.data@[p]), dot(a, b, i, k, value), m)
        &&& threshold matches Some(t) ==> value(t) < value(c.data@[p])
    } by {
        let k = cols[p - lo];
        assert(c.indices@[p].as_int() == k);
        assert(cols.to_set().contains(k));
        assert(all.contains(k) && admits(threshold, val(k)));
        assert(product::touched(us).contains(k));
        if let Some(t) = threshold {
            assert(t.spec_less(val(k)));
        }
    }
    assert forall|p: int, q: int| lo <= p < q < hi implies (#[trigger] c.indices@[p]).as_int() != (
    #[trigger] c.indices@[q]).as_int() by {
        assert(cols[p - lo] != cols[q - lo]);
    }
}

proof fn lemma_outdone<V: Scalar, I: Index>(
    c: CsrMatrix<V, I>,
    lo: int,
    hi: int,
    cols: Seq<int>,
    a: CsrView<'_, V, I>,
    b: CsrView<'_, V, I>,
    i: int,
    top_n: nat,
    threshold: Option<V>,
    value: spec_fn(V) -> int,
    m: int,
    k: int,
    x: V,
)
    requires
        product::multipliable(a, b),
        0 <= i < a.nrows,
        are_integers(value, m),
        lists_sums(c, lo, hi, cols, product::updates_of(a, b, i)),
        laws::is_top_n(
            cols.to_set(),
            laws::row_columns(product::updates_of(a, b, i), b.ncols as int, false),
            laws::sum_at(product::updates_of(a, b, i), true),
            threshold,
            top_n,
        ),
    ensures
        is_outdone(c, lo, hi, a, b, i, top_n as int, threshold, value, m, k, x),
{
    let us = product::updates_of(a, b, i);
    let all = laws::row_columns(us, b.ncols as int, false);
    let val = laws::sum_at(us, true);
    let kept = cols.to_set();
    if meets(a, b, i, k) && !is_held(c, lo, hi, k) && wraps_to(
        value(x),
        dot(a, b, i, k, value),
        m,
    ) && (threshold matches Some(t) ==> value(t) < value(x)) {
        lemma_row_is_plain(a, b, i, true, value, m);
        assert(product::touched(us).contains(k));
        let sum = product::accumulate(us, k, true);
        lemma_wraps_once(x, sum, dot(a, b, i, k, value), value, m);
        assert(all.contains(k));
        assert(val(k) == sum);
        assert(sum.ordered());
        if let Some(t) = threshold {
            assert(t.spec_less(sum) <==> value(t) < value(sum));
        }
        assert(admits(threshold, val(k)));
        assert(!kept.contains(k)) by {
            if kept.contains(k) {
                let q = choose|q: int| 0 <= q < cols.len() && cols[q] == k;
                assert(c.indices@[lo + q].as_int() == k);
            }
        }
        cols.unique_seq_to_set();
        assert(kept.len() == top_n);
        assert forall|p: int| lo <= p < hi implies value(x) <= value(#[trigger] c.data@[p]) by {
            assert(c.indices@[p].as_int() == cols[p - lo]);
            assert(kept.contains(cols[p - lo]));
            assert(!val(cols[p - lo]).spec_less(val(k)));
            assert(c.data@[p] == val(cols[p - lo]));
            assert(c.data@[p].spec_less(sum) <==> value(c.data@[p]) < value(sum));
        }
    }
}

#[verifier::spinoff_prover]
proof fn lemma_top_n<V: Scalar, I: Index>(
    a: CsrView<'_, V, I>,
    b: CsrView<'_, V, I>,
    top_n: usize,
    opts: TopNOptions<V>,
    c: CsrMatrix<V, I>,
    i: int,
    value: spec_fn(V) -> int,
    m: int,
)
    requires
        product::multipliable(a, b),
        b.ncols - 1 <= I::spec_max_usize(),
        top_n <= u32::MAX || b.ncols <= u32::MAX,
        opts.chunk_cols != Some(0usize),
        matmul_topn::is_topn_outcome(Ok(c), a, b, top_n, opts),
        0 <= i < a.nrows,
        are_integers(value, m),
    ensures
        is_top_n_row(c, a, b, i, top_n as int, opts.threshold, opts.sort, value, m),
{
    let rows = agreement::lemma_topn_rows(a, b, top_n, opts, c);
    let row = rows[i];
    let us = product::updates_of(a, b, i);
    let ncols = b.ncols as int;
    let all = laws::row_columns(us, ncols, false);
    let val = laws::sum_at(us, true);
    let lo = c.indptr@[i].as_int();
    let hi = c.indptr@[i + 1].as_int();
    lemma_tame(a, b, i, opts.accum_mode, value, m);
    assert(agreement::is_choice(row, a, b, i, top_n, opts));
    let cols = choose|cols: Seq<int>| #[trigger]
        laws::is_top_n_row(row, cols, all, val, opts.threshold, top_n as nat, opts.sort);
    lemma_where_rows_lie(c, b.ncols, rows, i);
    assert(lists_sums(c, lo, hi, cols, us)) by {
        product::lemma_product_in_bounds(a, b, i);
        laws::lemma_row_columns_in_bounds(us, ncols, false);
        I::lemma_index_laws();
        assert forall|p: int| lo <= p < hi implies (#[trigger] c.indices@[p]).as_int() == cols[p
            - lo] && c.data@[p] == product::accumulate(us, cols[p - lo], true) by {
            let k = cols[p - lo];
            assert((c.indices@[p], c.data@[p]) == row[p - lo]);
            assert(row[p - lo] == (I::narrowed(k as usize), val(k)));
            assert(cols.to_set().contains(k));
            assert(all.contains(k));
            assert(I::narrowed(k as usize).as_int() == k);
        }
    }
    assert(hi - lo <= top_n) by {
        cols.unique_seq_to_set();
    }
    lemma_are_dots(c, lo, hi, cols, a, b, i, top_n as nat, opts.threshold, value, m);
    assert forall|k: int, x: V| #[trigger]
        is_outdone(c, lo, hi, a, b, i, top_n as int, opts.threshold, value, m, k, x) by {
        lemma_outdone(c, lo, hi, cols, a, b, i, top_n as nat, opts.threshold, value, m, k, x);
    }
    assert(is_arranged(c, lo, hi, opts.sort, value)) by {
        if opts.sort == SortMode::ByValueDesc {
            assert forall|p: int, q: int| lo <= p < q < hi implies value(#[trigger] c.data@[p])
                >= value(#[trigger] c.data@[q]) by {
                assert((c.indices@[p], c.data@[p]) == row[p - lo]);
                assert((c.indices@[q], c.data@[q]) == row[q - lo]);
                assert(!row[p - lo].1.spec_less(row[q - lo].1));
            }
        } else {
            assert forall|p: int, q: int| lo <= p < q < hi implies (
            #[trigger] c.indices@[p]).as_int() < (#[trigger] c.indices@[q]).as_int() by {
                assert((c.indices@[p], c.data@[p]) == row[p - lo]);
                assert((c.indices@[q], c.data@[q]) == row[q - lo]);
                assert(row[p - lo].0.as_int() <= row[q - lo].0.as_int());
                assert(cols[p - lo] != cols[q - lo]);
            }
        }
    }
}

/// The top-n product of 32-bit matrices: every row holds the `top_n` largest dot
/// products, modulo `2^32`, above the threshold, in the order asked for. Larger
/// means larger as an integer.
pub proof fn law_i32_top_n<I: Index>(
    a: CsrView<'_, i32, I>,
    b: CsrView<'_, i32, I>,
    top_n: usize,
    opts: TopNOptions<i32>,
    c: CsrMatrix<i32, I>,
)
    requires
        product::multipliable(a, b),
        b.ncols - 1 <= I::spec_max_usize(),
        top_n <= u32::MAX || b.ncols <= u32::MAX,
        opts.chunk_cols != Some(0usize),
        matmul_topn::is_topn_outcome(Ok(c), a, b, top_n, opts),
    ensures
        is_shaped(c, a.nrows, b.ncols),
        forall|i: int|
            #![trigger c.indptr@[i]]
            0 <= i < a.nrows ==> is_top_n_row(
                c,
                a,
                b,
                i,
                top_n as int,
                opts.threshold,
                opts.sort,
                |x: i32| x as int,
                4294967296,
            ),
{
    lemma_i32_are_integers();
    let value = |x: i32| x as int;
    let rows = agreement::lemma_topn_rows(a, b, top_n, opts, c);
    lemma_shape(c, b.ncols, rows, a.nrows);
    assert forall|i: int| #![trigger c.indptr@[i]] 0 <= i < a.nrows implies is_top_n_row(
        c,
        a,
        b,
        i,
        top_n as int,
        opts.threshold,
        opts.sort,
        |x: i32| x as int,
        4294967296,
    ) by {
        lemma_top_n(a, b, top_n, opts, c, i, value, 4294967296);
    }
}

/// The top-n product of 64-bit matrices: every row holds the `top_n` largest dot
/// products, modulo `2^64`, above the threshold, in the order asked for. Larger
/// means larger as an integer.
pub proof fn law_i64_top_n<I: Index>(
    a: CsrView<'_, i64, I>,
    b: CsrView<'_, i64, I>,
    top_n: usize,
    opts: TopNOptions<i64>,
    c: CsrMatrix<i64, I>,
)
    requires
        product::multipliable(a, b),
        b.ncols - 1 <= I::spec_max_usize(),
        top_n <= u32::MAX || b.ncols <= u32::MAX,
        opts.chunk_cols != Some(0usize),
        matmul_topn::is_topn_outcome(Ok(c), a, b, top_n, opts),
    ensures
        is_shaped(c, a.nrows, b.ncols),
        forall|i: int|
            #![trigger c.indptr@[i]]
            0 <= i < a.nrows ==> is_top_n_row(
                c,
                a,
                b,
                i,
                top_n as int,
                opts.threshold,
                opts.sort,
                |x: i64| x as int,
                18446744073709551616,
            ),
{
    lemma_i64_are_integers();
    let value = |x: i64| x as int;
    let rows = agreement::lemma_topn_rows(a, b, top_n, opts, c);
    lemma_shape(c, b.ncols, rows, a.nrows);
    assert forall|i: int| #![trigger c.indptr@[i]] 0 <= i < a.nrows implies is_top_n_row(
        c,
        a,
        b,
        i,
        top_n as int,
        opts.threshold,
        opts.sort,
        |x: i64| x as int,
        18446744073709551616,
    ) by {
        lemma_top_n(a, b, top_n, opts, c, i, value, 18446744073709551616);
    }
}

/// The columns of the chunks before chunk `j`.
pub open spec fn width_before<V: Scalar, I: Index>(
    chunks: Seq<CsrView<'_, V, I>>,
    j: int,
) -> int
    decreases j,
{
    if j <= 0 {
        0
    } else {
        width_before(chunks, j - 1) + chunks[j - 1].ncols
    }
}

/// Is `(j, q)` a stored entry of row `i`: position `q` of chunk `j`?
pub open spec fn is_entry<V: Scalar, I: Index>(
    chunks: Seq<CsrView<'_, V, I>>,
    i: int,
    e: (int, int),
) -> bool {
    &&& 0 <= e.0 < chunks.len()
    &&& chunks[e.0].indptr@[i].as_int() <= e.1 < chunks[e.0].indptr@[i + 1].as_int()
}

/// Does entry `e` come before entry `f`? The chunks come from right to left, the
/// entries of each as they are stored.
pub open spec fn comes_before(e: (int, int), f: (int, int)) -> bool {
    e.0 > f.0 || (e.0 == f.0 && e.1 < f.1)
}

/// Does row `i` of `z` hold the `top_n` largest entries of the chunks side by side?
/// `from` tells which entry of which chunk each one is; its column counts behind
/// the columns of the chunks before. No entry is held twice, none exceeds one
/// before it, and one is left out only if it is the smallest value of the type or
/// there are `top_n` others and none of them is smaller. Of entries that tie the
/// one that comes first stays, unless a larger one that comes later drives it out.
pub open spec fn is_zipped_row<V: Scalar, I: Index>(
    z: CsrMatrix<V, I>,
    chunks: Seq<CsrView<'_, V, I>>,
    i: int,
    top_n: int,
    from: Seq<(int, int)>,
    value: spec_fn(V) -> int,
    smallest: int,
) -> bool {
    let lo = z.indptr@[i].as_int();
    let hi = z.indptr@[i + 1].as_int();
    &&& 0 <= lo <= hi <= z.data@.len()
    &&& hi - lo <= top_n
    &&& from.len() == hi - lo
    &&& from.no_duplicates()
    &&& forall|x: int|
        0 <= x < from.len() ==> {
            let (j, q) = #[trigger] from[x];
            &&& is_entry(chunks, i, from[x])
            &&& z.indices@[lo + x].as_int() == width_before(chunks, j)
                + chunks[j].indices@[q].as_int()
            &&& z.data@[lo + x] == chunks[j].data@[q]
        }
    &&& forall|p: int, q: int|
        lo <= p < q < hi ==> value(#[trigger] z.data@[p]) >= value(#[trigger] z.data@[q])
    &&& forall|e: (int, int)|
        #[trigger] is_entry(chunks, i, e) && !from.contains(e) && value(
            chunks[e.0].data@[e.1],
        ) > smallest ==> hi - lo == top_n && forall|p: int|
            lo <= p < hi ==> value(chunks[e.0].data@[e.1]) <= value(#[trigger] z.data@[p])
    &&& forall|e: (int, int), f: (int, int)|
        #[trigger] is_entry(chunks, i, e) && #[trigger] is_entry(chunks, i, f) && comes_before(e, f)
            && from.contains(f) && !from.contains(e) && value(chunks[e.0].data@[e.1]) > smallest
            && value(chunks[e.0].data@[e.1]) >= value(chunks[f.0].data@[f.1])
            ==> is_driven_out(chunks, i, f, value)
}

/// Is there a larger entry that comes after this one?
pub open spec fn is_driven_out<V: Scalar, I: Index>(
    chunks: Seq<CsrView<'_, V, I>>,
    i: int,
    f: (int, int),
    value: spec_fn(V) -> int,
) -> bool {
    exists|g: (int, int)| #[trigger]
        is_entry(chunks, i, g) && comes_before(f, g) && value(chunks[f.0].data@[f.1]) < value(
            chunks[g.0].data@[g.1],
        )
}

/// Which entry the candidate at a position is.
spec fn origin<V: Scalar, I: Index>(
    chunks: Seq<CsrView<'_, V, I>>,
    i: int,
    j: int,
    pos: int,
) -> (int, int)
    decreases chunks.len() - j,
{
    let later = zip::zip_candidates(chunks, i, j + 1);
    if j >= chunks.len() {
        (0, 0)
    } else if pos < later.len() {
        origin(chunks, i, j + 1, pos)
    } else {
        (j, chunks[j].indptr@[i].as_int() + pos - later.len())
    }
}

/// Where the candidate that is the given entry stands.
spec fn place<V: Scalar, I: Index>(
    chunks: Seq<CsrView<'_, V, I>>,
    i: int,
    j: int,
    e: (int, int),
) -> int
    decreases chunks.len() - j,
{
    if j >= chunks.len() {
        0
    } else if e.0 == j {
        zip::zip_candidates(chunks, i, j + 1).len() + e.1 - chunks[j].indptr@[i].as_int()
    } else {
        place(chunks, i, j + 1, e)
    }
}

proof fn lemma_same_widths<V: Scalar, I: Index>(chunks: Seq<CsrView<'_, V, I>>, j: int)
    ensures
        width_before(chunks, j) == zip::column_offset(chunks, j),
    decreases j,
{
    if j > 0 {
        lemma_same_widths(chunks, j - 1);
    }
}

/// The candidates are the entries, one for one.
proof fn lemma_origin<V: Scalar, I: Index>(
    chunks: Seq<CsrView<'_, V, I>>,
    i: int,
    j: int,
    pos: int,
)
    requires
        zip::zippable(chunks),
        0 <= j <= chunks.len(),
        chunks.len() > 0,
        0 <= i < chunks[0].nrows,
        0 <= pos < zip::zip_candidates(chunks, i, j).len(),
    ensures
        ({
            let e = origin(chunks, i, j, pos);
            &&& is_entry(chunks, i, e)
            &&& e.0 >= j
            &&& place(chunks, i, j, e) == pos
            &&& zip::zip_candidates(chunks, i, j)[pos] == (
                width_before(chunks, e.0) + chunks[e.0].indices@[e.1].as_int(),
                chunks[e.0].data@[e.1],
            )
        }),
    decreases chunks.len() - j,
{
    let later = zip::zip_candidates(chunks, i, j + 1);
    if pos < later.len() {
        lemma_origin(chunks, i, j + 1, pos);
    } else {
        let x = pos - later.len();
        assert(chunks[j].valid());
        product::lemma_row_in_bounds(chunks[j], i);
        lemma_same_widths(chunks, j);
        assert(zip::zip_candidates(chunks, i, j)[pos] == zip::shifted(
            chunks[j].row(i),
            zip::column_offset(chunks, j),
        )[x]);
    }
}

/// Every entry is a candidate.
proof fn lemma_place<V: Scalar, I: Index>(
    chunks: Seq<CsrView<'_, V, I>>,
    i: int,
    j: int,
    e: (int, int),
)
    requires
        zip::zippable(chunks),
        0 <= j <= e.0,
        chunks.len() > 0,
        0 <= i < chunks[0].nrows,
        is_entry(chunks, i, e),
    ensures
        0 <= place(chunks, i, j, e) < zip::zip_candidates(chunks, i, j).len(),
        origin(chunks, i, j, place(chunks, i, j, e)) == e,
    decreases chunks.len() - j,
{
    assert(chunks[j].valid());
    product::lemma_row_in_bounds(chunks[j], i);
    if j < e.0 {
        lemma_place(chunks, i, j + 1, e);
    }
}

/// Entries stand as they come.
proof fn lemma_place_order<V: Scalar, I: Index>(
    chunks: Seq<CsrView<'_, V, I>>,
    i: int,
    j: int,
    e: (int, int),
    f: (int, int),
)
    requires
        zip::zippable(chunks),
        0 <= j <= e.0,
        j <= f.0,
        chunks.len() > 0,
        0 <= i < chunks[0].nrows,
        is_entry(chunks, i, e),
        is_entry(chunks, i, f),
        comes_before(e, f),
    ensures
        place(chunks, i, j, e) < place(chunks, i, j, f),
    decreases chunks.len() - j,
{
    if j == f.0 {
        if e.0 > j {
            lemma_place(chunks, i, j + 1, e);
        }
    } else {
        lemma_place_order(chunks, i, j + 1, e, f);
    }
}

/// Of two entries one comes first.
proof fn lemma_standing<V: Scalar, I: Index>(
    chunks: Seq<CsrView<'_, V, I>>,
    i: int,
    p: int,
    q: int,
)
    requires
        zip::zippable(chunks),
        chunks.len() > 0,
        0 <= i < chunks[0].nrows,
        0 <= p < q < zip::zip_candidates(chunks, i, 0).len(),
    ensures
        comes_before(origin(chunks, i, 0, p), origin(chunks, i, 0, q)),
{
    let e = origin(chunks, i, 0, p);
    let f = origin(chunks, i, 0, q);
    lemma_origin(chunks, i, 0, p);
    lemma_origin(chunks, i, 0, q);
    if !comes_before(e, f) && e != f {
        lemma_place_order(chunks, i, 0, f, e);
    }
}

/// Of entries that tie the first stays.
proof fn lemma_zip_ties<V: Scalar, I: Index>(
    chunks: Seq<CsrView<'_, V, I>>,
    i: int,
    kept: Set<int>,
    e: (int, int),
    f: (int, int),
    value: spec_fn(V) -> int,
    m: int,
)
    requires
        zip::zippable(chunks),
        chunks.len() > 0,
        0 <= i < chunks[0].nrows,
        are_integers(value, m),
        selection::is_first_come(
            kept,
            zip::zip_candidates(chunks, i, 0),
            Some(V::spec_limits_min()),
        ),
        is_entry(chunks, i, e),
        is_entry(chunks, i, f),
        comes_before(e, f),
        kept.contains(place(chunks, i, 0, f)),
        !kept.contains(place(chunks, i, 0, e)),
        value(chunks[e.0].data@[e.1]) > value(V::spec_limits_min()),
        value(chunks[e.0].data@[e.1]) >= value(chunks[f.0].data@[f.1]),
    ensures
        is_driven_out(chunks, i, f, value),
{
    let cs = zip::zip_candidates(chunks, i, 0);
    let p = place(chunks, i, 0, e);
    let q = place(chunks, i, 0, f);
    lemma_place(chunks, i, 0, e);
    lemma_place(chunks, i, 0, f);
    lemma_origin(chunks, i, 0, p);
    lemma_origin(chunks, i, 0, q);
    lemma_place_order(chunks, i, 0, e, f);
    assert(V::spec_limits_min().spec_less(cs[p].1));
    assert(!cs[p].1.spec_less(cs[q].1));
    let r = choose|r: int| q < r < cs.len() && cs[q].1.spec_less((#[trigger] cs[r]).1);
    lemma_origin(chunks, i, 0, r);
    lemma_standing(chunks, i, q, r);
    assert(is_entry(chunks, i, origin(chunks, i, 0, r)));
}

#[verifier::spinoff_prover]
proof fn lemma_zip<V: Scalar, I: Index>(
    chunks: Seq<CsrView<'_, V, I>>,
    top_n: nat,
    z: CsrMatrix<V, I>,
    i: int,
    value: spec_fn(V) -> int,
    m: int,
) -> (from: Seq<(int, int)>)
    requires
        chunks.len() > 0,
        zip::zippable(chunks),
        zip::column_offset(chunks, chunks.len() as int) - 1 <= I::spec_max_usize(),
        top_n <= u32::MAX || zip::zip_candidates(chunks, i, 0).len() <= u32::MAX,
        z.holds(
            zip::column_offset(chunks, chunks.len() as int) as usize,
            zip::zip_rows(chunks, top_n),
        ),
        0 <= i < chunks[0].nrows,
        are_integers(value, m),
    ensures
        is_zipped_row(
            z,
            chunks,
            i,
            top_n as int,
            from,
            value,
            value(V::spec_limits_min()),
        ),
{
    lemma_same_widths(chunks, chunks.len() as int);
    let total = width_before(chunks, chunks.len() as int);
    let rows = zip::zip_rows::<V, I>(chunks, top_n);
    let row = rows[i];
    let cs = zip::zip_candidates(chunks, i, 0);
    let floor = Some(V::spec_limits_min());
    let lo = z.indptr@[i].as_int();
    let hi = z.indptr@[i + 1].as_int();
    lemma_where_rows_lie(z, total as usize, rows, i);
    if top_n == 0 {
        assert(row =~= Seq::empty());
        Seq::empty()
    } else {
        laws::law_zip_is_top_n::<V, I>(chunks, top_n, i);
        assert(V::spec_limits_min().ordered());
        let (_, at) = selection::law_first_come_stays::<V, I>(top_n, floor, cs);
        let kept = at.to_set();
        let from = Seq::new(at.len(), |x: int| origin(chunks, i, 0, at[x]));
        at.unique_seq_to_set();
        assert forall|x: int, y: int| 0 <= x < from.len() && 0 <= y < from.len() && x != y implies from[x]
            != from[y] by {
            assert(0 <= at[x] < cs.len() && 0 <= at[y] < cs.len());
            lemma_origin(chunks, i, 0, at[x]);
            lemma_origin(chunks, i, 0, at[y]);
            assert(at[x] != at[y]);
        }
        assert forall|x: int| 0 <= x < from.len() implies {
            let (j, q) = #[trigger] from[x];
            &&& is_entry(chunks, i, from[x])
            &&& z.indices@[lo + x].as_int() == width_before(chunks, j)
                + chunks[j].indices@[q].as_int()
            &&& z.data@[lo + x] == chunks[j].data@[q]
        } by {
            assert(0 <= at[x] < cs.len());
            lemma_origin(chunks, i, 0, at[x]);
            assert forall|y: int| 0 <= y < chunks.len() implies (#[trigger] chunks[y]).valid()
                && 0 <= i < chunks[y].nrows by {}
            laws::lemma_zip_candidates_in_bounds(chunks, i, 0);
            let k = cs[at[x]].0;
            assert(0 <= k < total);
            I::lemma_index_laws();
            assert(I::narrowed(k as usize).as_int() == k);
            assert((z.indices@[lo + x], z.data@[lo + x]) == row[lo + x - lo]);
        }
        assert forall|p: int, q: int| lo <= p < q < hi implies value(#[trigger] z.data@[p])
            >= value(#[trigger] z.data@[q]) by {
            assert((z.indices@[p], z.data@[p]) == row[p - lo]);
            assert((z.indices@[q], z.data@[q]) == row[q - lo]);
            assert(!row[p - lo].1.spec_less(row[q - lo].1));
        }
        assert forall|e: (int, int)|
            #[trigger] is_entry(chunks, i, e) && !from.contains(e) && value(
                chunks[e.0].data@[e.1],
            ) > value(V::spec_limits_min()) implies hi - lo == top_n && forall|p: int|
            lo <= p < hi ==> value(chunks[e.0].data@[e.1]) <= value(#[trigger] z.data@[p]) by {
            lemma_place(chunks, i, 0, e);
            let pos = place(chunks, i, 0, e);
            lemma_origin(chunks, i, 0, pos);
            let x = chunks[e.0].data@[e.1];
            assert(cs[pos].1 == x);
            assert(V::spec_limits_min().spec_less(x));
            assert(admits(floor, cs[pos].1));
            assert(!kept.contains(pos)) by {
                if kept.contains(pos) {
                    let y = choose|y: int| 0 <= y < at.len() && at[y] == pos;
                    assert(from[y] == e);
                }
            }
            assert(kept.len() == top_n);
            assert forall|p: int| lo <= p < hi implies value(x) <= value(
                #[trigger] z.data@[p],
            ) by {
                assert((z.indices@[p], z.data@[p]) == row[p - lo]);
                assert(0 <= at[p - lo] < cs.len());
                assert(kept.contains(at[p - lo]));
                assert(!cs[at[p - lo]].1.spec_less(cs[pos].1));
            }
        }
        assert forall|e: (int, int), f: (int, int)|
            #[trigger] is_entry(chunks, i, e) && #[trigger] is_entry(chunks, i, f) && comes_before(
                e,
                f,
            ) && from.contains(f) && !from.contains(e) && value(chunks[e.0].data@[e.1]) > value(
                V::spec_limits_min(),
            ) && value(chunks[e.0].data@[e.1]) >= value(
                chunks[f.0].data@[f.1],
            ) implies is_driven_out(chunks, i, f, value) by {
            let y = choose|y: int| 0 <= y < from.len() && from[y] == f;
            assert(0 <= at[y] < cs.len());
            lemma_origin(chunks, i, 0, at[y]);
            assert(kept.contains(at[y]));
            lemma_place(chunks, i, 0, e);
            assert(!kept.contains(place(chunks, i, 0, e))) by {
                if kept.contains(place(chunks, i, 0, e)) {
                    let x = choose|x: int|
                        0 <= x < at.len() && at[x] == place(chunks, i, 0, e);
                    assert(from[x] == e);
                }
            }
            lemma_zip_ties(chunks, i, kept, e, f, value, m);
        }
        from
    }
}

/// Zipping 32-bit chunks: every row holds the `top_n` largest entries of the chunks
/// side by side, the largest first; larger means larger as an integer. Of the
/// others only `-2^31` is lost.
pub proof fn law_i32_zip<I: Index>(
    chunks: Seq<CsrView<'_, i32, I>>,
    top_n: nat,
    z: CsrMatrix<i32, I>,
    i: int,
) -> (from: Seq<(int, int)>)
    requires
        chunks.len() > 0,
        zip::zippable(chunks),
        zip::column_offset(chunks, chunks.len() as int) - 1 <= I::spec_max_usize(),
        top_n <= u32::MAX || zip::zip_candidates(chunks, i, 0).len() <= u32::MAX,
        z.holds(
            zip::column_offset(chunks, chunks.len() as int) as usize,
            zip::zip_rows(chunks, top_n),
        ),
        0 <= i < chunks[0].nrows,
    ensures
        is_shaped(z, chunks[0].nrows, width_before(chunks, chunks.len() as int) as usize),
        is_zipped_row(z, chunks, i, top_n as int, from, |x: i32| x as int, -2147483648),
{
    lemma_i32_are_integers();
    law_i32_elements_are_integers(0, 0, 0);
    lemma_same_widths(chunks, chunks.len() as int);
    lemma_shape(
        z,
        width_before(chunks, chunks.len() as int) as usize,
        zip::zip_rows(chunks, top_n),
        chunks[0].nrows,
    );
    lemma_zip(chunks, top_n, z, i, |x: i32| x as int, 4294967296)
}

/// Zipping 64-bit chunks: every row holds the `top_n` largest entries of the chunks
/// side by side, the largest first; larger means larger as an integer. Of the
/// others only `-2^63` is lost.
pub proof fn law_i64_zip<I: Index>(
    chunks: Seq<CsrView<'_, i64, I>>,
    top_n: nat,
    z: CsrMatrix<i64, I>,
    i: int,
) -> (from: Seq<(int, int)>)
    requires
        chunks.len() > 0,
        zip::zippable(chunks),
        zip::column_offset(chunks, chunks.len() as int) - 1 <= I::spec_max_usize(),
        top_n <= u32::MAX || zip::zip_candidates(chunks, i, 0).len() <= u32::MAX,
        z.holds(
            zip::column_offset(chunks, chunks.len() as int) as usize,
            zip::zip_rows(chunks, top_n),
        ),
        0 <= i < chunks[0].nrows,
    ensures
        is_shaped(z, chunks[0].nrows, width_before(chunks, chunks.len() as int) as usize),
        is_zipped_row(z, chunks, i, top_n as int, from, |x: i64| x as int, -9223372036854775808),
{
    lemma_i64_are_integers();
    law_i64_elements_are_integers(0, 0, 0);
    lemma_same_widths(chunks, chunks.len() as int);
    lemma_shape(
        z,
        width_before(chunks, chunks.len() as int) as usize,
        zip::zip_rows(chunks, top_n),
        chunks[0].nrows,
    );
    lemma_zip(chunks, top_n, z, i, |x: i64| x as int, 18446744073709551616)
}

} // verus!
