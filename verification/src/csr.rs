//! CSR matrix types: borrowed view, owned matrix and their errors.
use vstd::prelude::*;

use crate::index::Index;
use crate::scalar::Scalar;
use vstd::string::StringExecFns;

verus! {

/// Borrowed CSR view. Wraps externally-owned buffers (e.g. numpy arrays).
#[derive(Debug, Clone, Copy)]
pub struct CsrView<'a, V: Scalar, I: Index> {
    pub nrows: usize,
    pub ncols: usize,
    pub indptr: &'a [I],
    pub indices: &'a [I],
    pub data: &'a [V],
}

impl<'a, V: Scalar, I: Index> CsrView<'a, V, I> {
    /// Position in `indices` and `data` where row `i` starts (and row `i - 1` ends).
    pub open spec fn start(self, i: int) -> int {
        self.indptr@[i].as_int()
    }

    /// The column index stored at position `p`.
    pub open spec fn col(self, p: int) -> int {
        self.indices@[p].as_int()
    }

    /// Is this a CSR matrix? The buffers have the right lengths, `indptr` is
    /// non-decreasing and stays within the buffers, and every stored column
    /// lies in `0..ncols`.
    pub open spec fn valid(self) -> bool {
        &&& self.indptr@.len() == self.nrows + 1
        &&& self.indices@.len() == self.data@.len()
        &&& forall|i: int|
            0 <= i <= self.nrows ==> 0 <= #[trigger] self.start(i) <= self.data@.len()
        &&& forall|i: int, j: int|
            0 <= i <= j <= self.nrows ==> #[trigger] self.start(i) <= #[trigger] self.start(j)
        &&& forall|p: int|
            self.start(0) <= p < self.start(self.nrows as int) ==> 0 <= #[trigger] self.col(p)
                < self.ncols
    }

    /// The entries of row `i`, as pairs of column and value, in storage order.
    pub open spec fn row(self, i: int) -> Seq<(int, V)> {
        Seq::new(
            (self.start(i + 1) - self.start(i)) as nat,
            |p: int| (self.col(self.start(i) + p), self.data@[self.start(i) + p]),
        )
    }

    /// Construct after validating buffer lengths.
    pub fn new(
        nrows: usize,
        ncols: usize,
        indptr: &'a [I],
        indices: &'a [I],
        data: &'a [V],
    ) -> (r: Result<Self, CsrError>)
        requires
            nrows < usize::MAX,
        ensures
            r == if indptr@.len() != nrows + 1 {
                Err(
                    CsrError::IndptrLength {
                        expected: (nrows + 1) as usize,
                        got: indptr@.len() as usize,
                    },
                )
            } else if indices@.len() != data@.len() {
                Err(
                    CsrError::IndicesDataMismatch {
                        indices: indices@.len() as usize,
                        data: data@.len() as usize,
                    },
                )
            } else {
                Ok((CsrView { nrows, ncols, indptr, indices, data }))
            },
    {
        if indptr.len() != nrows + 1 {
            return Err(CsrError::IndptrLength { expected: nrows + 1, got: indptr.len() });
        }
        if indices.len() != data.len() {
            return Err(
                CsrError::IndicesDataMismatch { indices: indices.len(), data: data.len() },
            );
        }
        Ok(Self { nrows, ncols, indptr, indices, data })
    }

    /// Number of stored entries.
    pub fn nnz(&self) -> (r: usize)
        ensures
            r == self.data@.len(),
    {
        self.data.len()
    }

    /// Is this a CSR matrix, in contents as well as in lengths? Reads all of
    /// `indptr` and `indices`.
    pub fn is_valid(&self) -> (r: bool)
        ensures
            r == self.valid(),
    {
        let n: usize = self.data.len();
        if self.indptr.len() == 0 || self.indptr.len() - 1 != self.nrows || self.indices.len() != n {
            return false;
        }
        let mut last: usize = 0;
        let mut i: usize = 0;
        while i < self.indptr.len()
            invariant
                self.indptr@.len() == self.nrows + 1,
                self.indices@.len() == self.data@.len(),
                n == self.data@.len(),
                0 <= i <= self.indptr@.len(),
                i > 0 ==> last == self.start(i - 1),
                i == 0 ==> last == 0,
                last <= n,
                forall|j: int| 0 <= j < i ==> 0 <= #[trigger] self.start(j) <= last,
                forall|j: int, k: int|
                    0 <= j <= k < i ==> #[trigger] self.start(j) <= #[trigger] self.start(k),
            decreases self.indptr@.len() - i,
        {
            let x: I = self.indptr[i];
            assert(self.start(i as int) == x.as_int());
            if !x.fits_usize() || x.to_usize() < last || x.to_usize() > n {
                if i > 0 {
                    assert(self.start(i - 1) == last);
                }
                return false;
            }
            last = x.to_usize();
            i = i + 1;
        }
        let mut p: usize = self.indptr[0].to_usize();
        assert(self.start(0) <= last);
        assert(self.start(self.nrows as int) == last);
        while p < last
            invariant
                self.indices@.len() == n,
                last == self.start(self.nrows as int),
                last <= n,
                0 <= self.start(0) <= p <= last,
                forall|q: int| self.start(0) <= q < p ==> 0 <= #[trigger] self.col(q) < self.ncols,
            decreases last - p,
        {
            let x: I = self.indices[p];
            assert(self.col(p as int) == x.as_int());
            if !x.fits_usize() || x.to_usize() >= self.ncols {
                return false;
            }
            p = p + 1;
        }
        true
    }

    /// Position where row `i` starts.
    pub(crate) fn row_start(&self, i: usize) -> (r: usize)
        requires
            self.valid(),
            i <= self.nrows,
        ensures
            r == self.start(i as int),
            r <= self.data@.len(),
            r <= self.indices@.len(),
    {
        assert(0 <= self.start(i as int) <= self.data@.len());
        assert(self.data@.len() == self.data.len());
        self.indptr[i].to_usize()
    }

    /// The column stored at position `p` of row `i`.
    pub(crate) fn column_at(&self, p: usize) -> (r: usize)
        requires
            self.valid(),
            self.start(0) <= p < self.start(self.nrows as int),
        ensures
            r == self.col(p as int),
            r < self.ncols,
    {
        assert(0 <= self.start(self.nrows as int) <= self.data@.len());
        assert(0 <= self.start(0));
        assert(0 <= self.col(p as int) < self.ncols);
        self.indices[p].to_usize()
    }
}

/// The rows one after the other.
pub open spec fn flat<T>(rows: Seq<Seq<T>>) -> Seq<T>
    decreases rows.len(),
{
    if rows.len() == 0 {
        Seq::empty()
    } else {
        flat(rows.drop_last()) + rows.last()
    }
}

/// The columns of a sequence of entries.
pub open spec fn columns<V, I>(entries: Seq<(I, V)>) -> Seq<I> {
    entries.map_values(|e: (I, V)| e.0)
}

/// The values of a sequence of entries.
pub open spec fn values<V, I>(entries: Seq<(I, V)>) -> Seq<V> {
    entries.map_values(|e: (I, V)| e.1)
}

/// Do the three CSR arrays hold exactly `rows`, in order?
pub open spec fn arrays_hold<V: Scalar, I: Index>(
    indptr: Seq<I>,
    indices: Seq<I>,
    data: Seq<V>,
    rows: Seq<Seq<(I, V)>>,
) -> bool {
    &&& indptr.len() == rows.len() + 1
    &&& forall|i: int|
        0 <= i <= rows.len() ==> (#[trigger] indptr[i]).as_int() == flat(rows.take(i)).len()
    &&& indices == columns(flat(rows))
    &&& data == values(flat(rows))
}

/// The first running entry count over `rows` that exceeds `max`, if any does.
pub open spec fn first_total_over<T>(rows: Seq<Seq<T>>, max: int) -> Option<nat>
    decreases rows.len(),
{
    if rows.len() == 0 {
        None
    } else {
        match first_total_over(rows.drop_last(), max) {
            Some(total) => Some(total),
            None => if flat(rows).len() > max {
                Some(flat(rows).len())
            } else {
                None
            },
        }
    }
}

/// Is `r` the matrix of `ncols` columns whose rows are `rows`, or, where their
/// running entry count exceeds what the index type can hold, that overflow?
pub open spec fn is_outcome<V: Scalar, I: Index>(
    r: Result<CsrMatrix<V, I>, CsrError>,
    ncols: usize,
    rows: Seq<Seq<(I, V)>>,
) -> bool {
    match first_total_over(rows, I::spec_max_usize() as int) {
        None => r matches Ok(c) && c.holds(ncols, rows),
        Some(count) => r matches Err(e) && e == nnz_overflow(count as int, I::spec_max_usize()),
    }
}

/// Owned CSR matrix: the return type of the multiplications.
#[derive(Debug, Clone)]
pub struct CsrMatrix<V: Scalar, I: Index> {
    pub nrows: usize,
    pub ncols: usize,
    pub indptr: Vec<I>,
    pub indices: Vec<I>,
    pub data: Vec<V>,
}

impl<V: Scalar, I: Index> CsrMatrix<V, I> {
    /// Is this the matrix of `ncols` columns whose rows are exactly `rows`?
    pub open spec fn holds(self, ncols: usize, rows: Seq<Seq<(I, V)>>) -> bool {
        &&& self.nrows == rows.len()
        &&& self.ncols == ncols
        &&& arrays_hold(self.indptr@, self.indices@, self.data@, rows)
    }

    /// The entries of row `i`, as the arrays store them.
    pub open spec fn row(self, i: int) -> Seq<(I, V)> {
        let lo = self.indptr@[i].as_int();
        let hi = self.indptr@[i + 1].as_int();
        Seq::new((hi - lo) as nat, |p: int| (self.indices@[lo + p], self.data@[lo + p]))
    }

    /// The matrix without entries.
    pub fn zeros(nrows: usize, ncols: usize) -> (r: Self)
        requires
            nrows < usize::MAX,
        ensures
            r.holds(ncols, Seq::new(nrows as nat, |i: int| Seq::<(I, V)>::empty())),
    {
        let indptr: Vec<I> = filled(nrows + 1, I::zero());
        let ghost rows = Seq::new(nrows as nat, |i: int| Seq::<(I, V)>::empty());
        proof {
            lemma_flat_of_empty_rows(rows);
            assert forall|i: int| 0 <= i <= rows.len() implies flat(
                #[trigger] rows.take(i),
            ).len() == 0 by {
                lemma_flat_of_empty_rows(rows.take(i));
            }
        }
        let indices: Vec<I> = Vec::new();
        let data: Vec<V> = Vec::new();
        assert(indices@ =~= columns(flat(rows)));
        assert(data@ =~= values(flat(rows)));
        Self { nrows, ncols, indptr, indices, data }
    }

    /// Number of stored entries.
    pub fn nnz(&self) -> (r: usize)
        ensures
            r == self.data@.len(),
    {
        self.data.len()
    }
}

/// A vector of `n` copies of `x`.
pub(crate) fn filled<T: Copy>(n: usize, x: T) -> (r: Vec<T>)
    ensures
        r@ == Seq::new(n as nat, |i: int| x),
{
    let mut r: Vec<T> = Vec::with_capacity(n);
    for i in 0..n
        invariant
            r@ == Seq::new(i as nat, |k: int| x),
    {
        r.push(x);
        assert(r@ =~= Seq::new((i + 1) as nat, |k: int| x));
    }
    r
}

/// Rows without entries concatenate to nothing.
pub proof fn lemma_flat_of_empty_rows<T>(rows: Seq<Seq<T>>)
    requires
        forall|i: int| 0 <= i < rows.len() ==> (#[trigger] rows[i]).len() == 0,
    ensures
        flat(rows) == Seq::<T>::empty(),
    decreases rows.len(),
{
    if rows.len() > 0 {
        lemma_flat_of_empty_rows(rows.drop_last());
        assert(rows.last() =~= Seq::<T>::empty());
    }
}

/// Adding a row at the end adds its entries at the end.
pub proof fn lemma_flat_push<T>(rows: Seq<Seq<T>>, row: Seq<T>)
    ensures
        flat(rows.push(row)) == flat(rows) + row,
{
    assert(rows.push(row).drop_last() =~= rows);
}

/// The rows of two sequences one after the other.
pub proof fn lemma_flat_concat<T>(first: Seq<Seq<T>>, second: Seq<Seq<T>>)
    ensures
        flat(first + second) == flat(first) + flat(second),
    decreases second.len(),
{
    if second.len() == 0 {
        assert(first + second =~= first);
        assert(flat(first) + flat(second) =~= flat(first));
    } else {
        assert((first + second).drop_last() =~= first + second.drop_last());
        lemma_flat_concat(first, second.drop_last());
        assert(flat(first) + flat(second) =~= flat(first) + flat(second.drop_last())
            + second.last());
    }
}

/// The concatenation of a prefix of the rows is no longer than that of all.
pub proof fn lemma_flat_len_monotone<T>(rows: Seq<Seq<T>>, i: int)
    requires
        0 <= i <= rows.len(),
    ensures
        flat(rows.take(i)).len() <= flat(rows).len(),
    decreases rows.len(),
{
    if i < rows.len() {
        lemma_flat_len_monotone(rows.drop_last(), i);
        assert(rows.drop_last().take(i) =~= rows.take(i));
    } else {
        assert(rows.take(i) =~= rows);
    }
}

/// Appending one row to the three arrays.
pub proof fn lemma_arrays_hold_push<V: Scalar, I: Index>(
    indptr: Seq<I>,
    indices: Seq<I>,
    data: Seq<V>,
    rows: Seq<Seq<(I, V)>>,
    row: Seq<(I, V)>,
    next: I,
)
    requires
        arrays_hold(indptr, indices, data, rows),
        next.as_int() == flat(rows).len() + row.len(),
    ensures
        arrays_hold(
            indptr.push(next),
            indices + columns(row),
            data + values(row),
            rows.push(row),
        ),
{
    lemma_flat_push(rows, row);
    let all = rows.push(row);
    assert(columns(flat(all)) =~= columns(flat(rows)) + columns(row));
    assert(values(flat(all)) =~= values(flat(rows)) + values(row));
    assert forall|i: int| 0 <= i <= all.len() implies (#[trigger] indptr.push(next)[i]).as_int()
        == flat(all.take(i)).len() by {
        if i < all.len() {
            assert(all.take(i) =~= rows.take(i));
            assert(indptr.push(next)[i] == indptr[i]);
        } else {
            assert(all.take(i) =~= all);
        }
    }
}

/// No running count of a prefix exceeds the bound if none does over all rows,
/// and the same one is the first where one does.
pub proof fn lemma_first_total_over_prefix<T>(rows: Seq<Seq<T>>, max: int, i: int)
    requires
        0 <= i <= rows.len(),
    ensures
        first_total_over(rows.take(i), max) matches Some(t) ==> first_total_over(rows, max) == Some(
            t,
        ),
    decreases rows.len(),
{
    if i < rows.len() {
        lemma_first_total_over_prefix(rows.drop_last(), max, i);
        assert(rows.drop_last().take(i) =~= rows.take(i));
    } else {
        assert(rows.take(i) =~= rows);
    }
}

/// An entry count that stays within the bound never exceeds it on the way.
pub proof fn lemma_total_within<T>(rows: Seq<Seq<T>>, max: int)
    requires
        max >= 0,
    ensures
        flat(rows).len() <= max <==> first_total_over(rows, max) is None,
        first_total_over(rows, max) matches Some(t) ==> t > max,
    decreases rows.len(),
{
    if rows.len() > 0 {
        lemma_total_within(rows.drop_last(), max);
    }
}

/// Row `i` of a matrix that holds `rows` is `rows[i]`.
pub proof fn lemma_row_of_matrix<V: Scalar, I: Index>(
    c: CsrMatrix<V, I>,
    ncols: usize,
    rows: Seq<Seq<(I, V)>>,
    i: int,
)
    requires
        c.holds(ncols, rows),
        0 <= i < rows.len(),
    ensures
        c.row(i) == rows[i],
{
    let lo = c.indptr@[i].as_int();
    let hi = c.indptr@[i + 1].as_int();
    assert(rows.take(i + 1) =~= rows.take(i).push(rows[i]));
    lemma_flat_push(rows.take(i), rows[i]);
    assert(hi == lo + rows[i].len());
    assert(rows =~= rows.take(i + 1) + rows.skip(i + 1));
    lemma_flat_concat(rows.take(i + 1), rows.skip(i + 1));
    let all = flat(rows);
    assert forall|p: int| 0 <= p < rows[i].len() implies #[trigger] c.row(i)[p] == rows[i][p] by {
        assert(all[lo + p] == rows[i][p]);
        assert(c.indices@[lo + p] == all[lo + p].0);
        assert(c.data@[lo + p] == all[lo + p].1);
    }
    assert(c.row(i) =~= rows[i]);
}

/// Rows of the same lengths have the same running entry counts.
pub proof fn lemma_same_lengths<T>(x: Seq<Seq<T>>, y: Seq<Seq<T>>, max: int)
    requires
        x.len() == y.len(),
        forall|i: int| 0 <= i < x.len() ==> (#[trigger] x[i]).len() == y[i].len(),
    ensures
        flat(x).len() == flat(y).len(),
        first_total_over(x, max) == first_total_over(y, max),
    decreases x.len(),
{
    if x.len() > 0 {
        let fx = x.drop_last();
        let fy = y.drop_last();
        assert forall|i: int| 0 <= i < fx.len() implies (#[trigger] fx[i]).len() == fy[i].len() by {
            assert(fx[i] == x[i] && fy[i] == y[i]);
        }
        lemma_same_lengths(fx, fy, max);
        assert(x[x.len() - 1].len() == y[y.len() - 1].len());
    }
}

/// Marker substring present in every index-overflow message. The Python
/// bindings match on it to map overflow to `OverflowError`.
pub const INDEX_OVERFLOW_MARKER: &'static str = "exceeds the maximum value representable";

/// What a CSR constructor or a multiplication can reject.
#[derive(Debug)]
pub enum CsrError {
    IndptrLength { expected: usize, got: usize },
    IndicesDataMismatch { indices: usize, data: usize },
    IndexOverflow { what: &'static str, value: usize, max: usize },
}

/// The overflow of an entry count over the largest index `max`. A count that
/// not even a `usize` can hold is reported as `usize::MAX`.
pub open spec fn nnz_overflow(count: int, max: usize) -> CsrError {
    CsrError::IndexOverflow {
        what: "non-zero count (nnz)",
        value: if count <= usize::MAX {
            count as usize
        } else {
            usize::MAX
        },
        max,
    }
}

/// The decimal digits of `n`, most significant first.
pub open spec fn decimal(n: nat) -> Seq<char>
    decreases n,
{
    if n < 10 {
        seq![digit(n)]
    } else {
        decimal(n / 10).push(digit(n % 10))
    }
}

/// The character of one decimal digit.
pub open spec fn digit(d: nat) -> char {
    ('0' as u8 + d) as char
}

/// Append the decimal digits of `n`.
fn append_decimal(s: &mut String, n: usize)
    ensures
        final(s)@ == old(s)@ + decimal(n as nat),
    decreases n,
{
    if n >= 10 {
        append_decimal(s, n / 10);
    }
    let d: usize = n % 10;
    proof {
        reveal_strlit("0");
        reveal_strlit("1");
        reveal_strlit("2");
        reveal_strlit("3");
        reveal_strlit("4");
        reveal_strlit("5");
        reveal_strlit("6");
        reveal_strlit("7");
        reveal_strlit("8");
        reveal_strlit("9");
    }
    let text: &'static str = match d {
        0 => "0",
        1 => "1",
        2 => "2",
        3 => "3",
        4 => "4",
        5 => "5",
        6 => "6",
        7 => "7",
        8 => "8",
        _ => "9",
    };
    assert(text@ =~= seq![digit(d as nat)]);
    s.append(text);
}

impl CsrError {
    /// The text of [`CsrError::message`].
    pub open spec fn spec_message(self) -> Seq<char> {
        match self {
            CsrError::IndptrLength { expected, got } => "indptr length mismatch: expected "@
                + decimal(expected as nat) + ", got "@ + decimal(got as nat),
            CsrError::IndicesDataMismatch {
                indices,
                data,
            } => "indices and data length mismatch: indices="@ + decimal(indices as nat)
                + ", data="@ + decimal(data as nat),
            CsrError::IndexOverflow { what, value, max } => "output "@ + what@ + " ("@ + decimal(
                value as nat,
            ) + ") "@ + INDEX_OVERFLOW_MARKER@ + " by the index type (max "@ + decimal(
                max as nat,
            ) + "); use a wider index type or reduce the problem size"@,
        }
    }

    /// The error in words.
    pub fn message(&self) -> (r: String)
        ensures
            r@ == self.spec_message(),
    {
        match self {
            CsrError::IndptrLength { expected, got } => {
                let mut s = String::from_str("indptr length mismatch: expected ");
                append_decimal(&mut s, *expected);
                s.append(", got ");
                append_decimal(&mut s, *got);
                s
            },
            CsrError::IndicesDataMismatch { indices, data } => {
                let mut s = String::from_str("indices and data length mismatch: indices=");
                append_decimal(&mut s, *indices);
                s.append(", data=");
                append_decimal(&mut s, *data);
                s
            },
            CsrError::IndexOverflow { what, value, max } => {
                let mut s = String::from_str("output ");
                s.append(what);
                s.append(" (");
                append_decimal(&mut s, *value);
                s.append(") ");
                s.append(INDEX_OVERFLOW_MARKER);
                s.append(" by the index type (max ");
                append_decimal(&mut s, *max);
                s.append("); use a wider index type or reduce the problem size");
                s
            },
        }
    }
}

/// Narrow a running `indptr` total to `I`. The drivers test the total against
/// [`Index::max_usize`] once per row, off the inner loops, before they narrow.
pub fn narrow_indptr<I: Index>(nnz_total: usize) -> (r: I)
    requires
        nnz_total <= I::spec_max_usize(),
    ensures
        r.as_int() == nnz_total,
{
    proof {
        I::lemma_index_laws();
    }
    I::from_usize(nnz_total)
}

/// Narrow a running `indptr` total to `I`, or report the overflow.
pub fn try_narrow_indptr<I: Index>(nnz_total: usize) -> (r: Result<I, CsrError>)
    ensures
        match r {
            Ok(narrow) => nnz_total <= I::spec_max_usize() && narrow.as_int() == nnz_total,
            Err(e) => nnz_total > I::spec_max_usize() && e == nnz_overflow(
                nnz_total as int,
                I::spec_max_usize(),
            ),
        },
{
    if nnz_total > I::max_usize() {
        return Err(
            CsrError::IndexOverflow {
                what: "non-zero count (nnz)",
                value: nnz_total,
                max: I::max_usize(),
            },
        );
    }
    Ok(narrow_indptr(nnz_total))
}

/// Verify a result with `nnz` non-zeros and `ncols` columns can be represented
/// with index type `I` without overflow.
///
/// The kernels narrow `usize` offsets to `I` via [`Index::from_usize`], an
/// unchecked truncating cast on the hot path. Every `indptr` value up to `nnz`
/// and every column index up to `ncols - 1` must fit; this checks both bounds
/// against [`Index::max_usize`].
pub fn check_index_capacity<I: Index>(nnz: usize, ncols: usize) -> (r: Result<(), CsrError>)
    ensures
        r == if nnz > I::spec_max_usize() {
            Err(nnz_overflow(nnz as int, I::spec_max_usize()))
        } else if ncols - 1 > I::spec_max_usize() {
            Err(
                CsrError::IndexOverflow {
                    what: "largest column index",
                    value: (ncols - 1) as usize,
                    max: I::spec_max_usize(),
                },
            )
        } else {
            Ok(())
        },
{
    let max: usize = I::max_usize();
    if nnz > max {
        return Err(CsrError::IndexOverflow { what: "non-zero count (nnz)", value: nnz, max });
    }
    // Column indices run 0..ncols, so the largest stored value is ncols - 1.
    let max_col: usize = ncols.saturating_sub(1);
    if max_col > max {
        return Err(CsrError::IndexOverflow { what: "largest column index", value: max_col, max });
    }
    Ok(())
}

/// Short-circuit empty / degenerate matmul-topn inputs to a zero output.
/// Shared by every `sp_matmul_topn` entry point.
pub fn matmul_topn_short_circuit<V: Scalar, I: Index>(
    a: CsrView<'_, V, I>,
    b: CsrView<'_, V, I>,
    top_n: usize,
) -> (r: Option<CsrMatrix<V, I>>)
    requires
        a.nrows < usize::MAX,
    ensures
        match r {
            Some(c) => short_circuits(a, b, top_n) && c.holds(
                b.ncols,
                Seq::new(a.nrows as nat, |i: int| Seq::<(I, V)>::empty()),
            ),
            None => !short_circuits(a, b, top_n),
        },
{
    if top_n == 0 || a.nrows == 0 || a.nnz() == 0 || b.nnz() == 0 {
        return Some(CsrMatrix::zeros(a.nrows, b.ncols));
    }
    None
}

/// Is the top-n product empty whatever the entries are?
pub open spec fn short_circuits<V: Scalar, I: Index>(
    a: CsrView<'_, V, I>,
    b: CsrView<'_, V, I>,
    top_n: usize,
) -> bool {
    top_n == 0 || a.nrows == 0 || a.data@.len() == 0 || b.data@.len() == 0
}

} // verus!
