//! What the chunk widths and the heuristics come to, in plain arithmetic.
//!
//! The scratch of one column is one element and a four-byte list node. The
//! default width is the power of two that fills at least half of the L1d cache
//! with it.
use vstd::prelude::*;

use crate::chunked;
use crate::chunked::{AccumMode, BProjection};
use crate::csr::CsrView;
use crate::index::Index;
use crate::matmul_topn::TopNOptions;
use crate::scalar::Scalar;
use crate::tiled;
use crate::topn;

verus! {

/// The chunk width for a cache: a power of two within `64..=2^20`. Above the
/// lower limit the scratch of more than that many columns fits the cache, and
/// below the upper limit the scratch of more than twice as many does not. An
/// unknown cache counts as 64 KiB.
pub proof fn law_width_fills_the_cache(l1d: Option<usize>, elem: nat, w: usize)
    requires
        chunked::is_width_for(l1d, elem, w),
    ensures
        vstd::arithmetic::power2::is_pow2(w as int),
        64 <= w <= 1048576,
        w > 64 ==> (w + 1) * (elem + 4) <= (match l1d {
            Some(bytes) => bytes as int,
            None => 65536int,
        }),
        w < 1048576 ==> (match l1d {
            Some(bytes) => bytes as int,
            None => 65536int,
        }) < (2 * w + 1) * (elem + 4),
{
    let bytes = match l1d {
        Some(bytes) => bytes as int,
        None => 65536int,
    };
    let d = elem as int + 4;
    let fit = chunked::fitting_columns(l1d, elem);
    let p = choose|p: int|
        #[trigger] chunked::is_next_pow2(p, fit) && w == if p / 2 < 64 {
            64
        } else if p / 2 > 0x10_0000 {
            0x10_0000
        } else {
            p / 2
        };
    reveal_with_fuel(vstd::arithmetic::power2::is_pow2, 22);
    assert(vstd::arithmetic::power2::is_pow2(64));
    assert(vstd::arithmetic::power2::is_pow2(0x10_0000));
    assert(p > 1 ==> p % 2 == 0 && vstd::arithmetic::power2::is_pow2(p / 2)) by {
        reveal(vstd::arithmetic::power2::is_pow2);
    }
    vstd::arithmetic::div_mod::lemma_fundamental_div_mod(bytes, d);
    let q = bytes / d;
    assert(0 <= bytes % d < d) by {
        vstd::arithmetic::div_mod::lemma_mod_bound(bytes, d);
    }
    if w > 64 {
        assert(w < fit && q == fit);
        assert((w + 1) * d <= d * q) by (nonlinear_arith)
            requires
                w + 1 <= q,
                d > 0,
        ;
    }
    if w < 1048576 {
        assert(fit <= 2 * w && q <= fit);
        assert(d * q + d <= (2 * w + 1) * d) by (nonlinear_arith)
            requires
                q <= 2 * w,
                d > 0,
        ;
    }
}

/// The cache alone determines the width.
pub proof fn law_width_is_determined(l1d: Option<usize>, elem: nat, w1: usize, w2: usize)
    requires
        chunked::is_width_for(l1d, elem, w1),
        chunked::is_width_for(l1d, elem, w2),
    ensures
        w1 == w2,
{
    law_width_fills_the_cache(l1d, elem, w1);
    law_width_fills_the_cache(l1d, elem, w2);
    if w1 < w2 {
        lemma_powers_apart(w1 as int, w2 as int);
        assert((2 * w1 + 1) * (elem + 4) <= (w2 + 1) * (elem + 4)) by (nonlinear_arith)
            requires
                2 * w1 <= w2,
                elem >= 0,
        ;
    } else if w2 < w1 {
        lemma_powers_apart(w2 as int, w1 as int);
        assert((2 * w2 + 1) * (elem + 4) <= (w1 + 1) * (elem + 4)) by (nonlinear_arith)
            requires
                2 * w2 <= w1,
                elem >= 0,
        ;
    }
}

/// Of two powers of two the larger is at least twice the smaller.
proof fn lemma_powers_apart(x: int, y: int)
    requires
        vstd::arithmetic::power2::is_pow2(x),
        vstd::arithmetic::power2::is_pow2(y),
        0 < x < y,
    ensures
        2 * x <= y,
    decreases y,
{
    reveal(vstd::arithmetic::power2::is_pow2);
    if x > 1 {
        lemma_powers_apart(x / 2, y / 2);
    }
}

/// A larger cache never gets a smaller width, a larger element never a larger
/// one.
pub proof fn law_width_grows_with_the_cache(
    bytes1: usize,
    elem1: nat,
    w1: usize,
    bytes2: usize,
    elem2: nat,
    w2: usize,
)
    requires
        chunked::is_width_for(Some(bytes1), elem1, w1),
        chunked::is_width_for(Some(bytes2), elem2, w2),
        bytes1 <= bytes2,
        elem1 >= elem2,
    ensures
        w1 <= w2,
{
    law_width_fills_the_cache(Some(bytes1), elem1, w1);
    law_width_fills_the_cache(Some(bytes2), elem2, w2);
    if w2 < w1 {
        lemma_powers_apart(w2 as int, w1 as int);
        assert((2 * w2 + 1) * (elem2 + 4) <= (w1 + 1) * (elem1 + 4)) by (nonlinear_arith)
            requires
                2 * w2 <= w1,
                elem2 <= elem1,
                w2 >= 0,
                elem2 >= 0,
        ;
    }
}

/// The default width is the width for the cache size that
/// `cache_size::l1_cache_size` reports, or for 64 KiB where it reports none: a
/// power of two within `64..=2^20` whose scratch fits that cache above the lower
/// limit, and twice of which does not below the upper one.
pub proof fn law_default_width_fits_the_reported_cache<V: Scalar>(w: usize) -> (l1d: Option<usize>)
    requires
        chunked::is_default_width::<V>(w),
    ensures
        call_ensures(cache_size::l1_cache_size, (), l1d),
        vstd::arithmetic::power2::is_pow2(w as int),
        64 <= w <= 1048576,
        w > 64 ==> (w + 1) * (vstd::layout::size_of::<V>() + 4) <= (match l1d {
            Some(bytes) => bytes as int,
            None => 65536int,
        }),
        w < 1048576 ==> (match l1d {
            Some(bytes) => bytes as int,
            None => 65536int,
        }) < (2 * w + 1) * (vstd::layout::size_of::<V>() + 4),
{
    let elem = vstd::layout::size_of::<V>();
    let l1d = choose|l1d: Option<usize>| #[trigger]
        call_ensures(cache_size::l1_cache_size, (), l1d) && chunked::is_width_for(l1d, elem, w);
    law_width_fills_the_cache(l1d, elem, w);
    l1d
}

/// The width in force: the one that is asked for, but no wider than the matrix
/// and below the `u32` sentinels. Where none is asked for, the default takes its
/// place.
pub proof fn law_width_in_force<V: Scalar>(
    requested: Option<usize>,
    ncols: usize,
    cc: int,
) -> (w: usize)
    requires
        requested != Some(0usize),
        chunked::admissible::<V>(requested, ncols, cc),
    ensures
        requested is Some ==> requested == Some(w),
        requested is None ==> exists|l1d: Option<usize>| #[trigger]
            call_ensures(cache_size::l1_cache_size, (), l1d) && chunked::is_width_for(
                l1d,
                vstd::layout::size_of::<V>(),
                w,
            ),
        0 < cc <= w,
        cc <= 4294967293,
        ncols > 0 ==> cc <= ncols,
        ncols == 0 ==> cc == 1,
        cc == w || cc == 4294967293 || cc == ncols || ncols == 0,
{
    match requested {
        Some(w) => w,
        None => {
            let w = choose|w: usize| #[trigger]
                chunked::is_default_width::<V>(w) && cc == chunked::capped_width(
                    w as int,
                    ncols as int,
                );
            let _ = law_default_width_fits_the_reported_cache::<V>(w);
            w
        },
    }
}

/// The number of chunks: as many as it takes to cover the columns, and no more;
/// one where there are none.
pub proof fn law_chunks_cover_the_columns(ncols: int, cc: int)
    requires
        cc > 0,
        ncols >= 0,
    ensures
        tiled::chunk_count(ncols, cc) >= 1,
        ncols <= tiled::chunk_count(ncols, cc) * cc,
        ncols > 0 ==> (tiled::chunk_count(ncols, cc) - 1) * cc < ncols,
        ncols == 0 ==> tiled::chunk_count(ncols, cc) == 1,
{
    if ncols > 0 {
        let q = (ncols - 1) / cc;
        vstd::arithmetic::div_mod::lemma_fundamental_div_mod(ncols - 1, cc);
        vstd::arithmetic::div_mod::lemma_mod_bound(ncols - 1, cc);
        assert(q >= 0) by {
            vstd::arithmetic::div_mod::lemma_div_pos_is_pos(ncols - 1, cc);
        }
        assert((q + 1) * cc == cc * q + cc) by (nonlinear_arith);
        assert(q * cc == cc * q) by (nonlinear_arith);
    }
}

/// Is `n` the number of chunks of width `cc` that cover `ncols` columns?
pub open spec fn covers(n: int, ncols: int, cc: int) -> bool {
    &&& n >= 1
    &&& ncols <= n * cc
    &&& n > 1 ==> (n - 1) * cc < ncols
}

proof fn lemma_covers(n: int, ncols: int, cc: int)
    requires
        covers(n, ncols, cc),
        cc > 0,
        ncols >= 0,
    ensures
        n == tiled::chunk_count(ncols, cc),
{
    law_chunks_cover_the_columns(ncols, cc);
    let m = tiled::chunk_count(ncols, cc);
    if m < n {
        assert(m * cc <= (n - 1) * cc) by (nonlinear_arith)
            requires
                m <= n - 1,
                cc > 0,
        ;
    } else if n < m {
        assert(n * cc <= (m - 1) * cc) by (nonlinear_arith)
            requires
                n <= m - 1,
                cc > 0,
        ;
    }
}

/// Binary search is picked where the rows of `b` have on average at least four
/// entries per chunk, cursors elsewhere. `n` is the number of chunks.
pub proof fn law_projection_by_density<V: Scalar, I: Index>(
    b: CsrView<'_, V, I>,
    cc: usize,
    n: int,
)
    requires
        cc > 0,
        covers(n, b.ncols as int, cc as int),
    ensures
        chunked::cheaper_projection(b, cc) == BProjection::BinarySearch || chunked::cheaper_projection(
            b,
            cc,
        ) == BProjection::Cursor,
        chunked::cheaper_projection(b, cc) == BProjection::BinarySearch <==> b.nrows > 0
            && b.data@.len() >= 4 * (n * b.nrows),
{
    lemma_covers(n, b.ncols as int, cc as int);
}

/// The automatic tiling needs at least two chunks of at most 65536 columns,
/// entry offsets that fit a `u32`, at least two entries of `a` per row of `b`, and
/// at most four segments per entry of `b`. `n` is the number of chunks.
pub proof fn law_tiling_pays_off<V: Scalar, I: Index>(
    a: CsrView<'_, V, I>,
    b: CsrView<'_, V, I>,
    cc: usize,
    n: int,
)
    requires
        cc > 0,
        covers(n, b.ncols as int, cc as int),
    ensures
        chunked::auto_tiles(a, b, cc) <==> {
            &&& n >= 2
            &&& cc <= 65536
            &&& b.data@.len() <= 4294967295
            &&& a.data@.len() >= 2 * b.nrows
            &&& n * b.nrows <= 4 * b.data@.len()
        },
        tiled::tileable(b, cc) <==> cc <= 65536 && b.data@.len() <= 4294967295,
{
    lemma_covers(n, b.ncols as int, cc as int);
}

/// How the rows are blocked. A block size of zero asks for the rows one at a
/// time, any other option is taken as it is, and without options the automatic
/// tiling takes blocks of 2048 rows where it pays off. Tiles are built only where
/// they fit.
pub proof fn law_blocking<V: Scalar, I: Index>(
    a: CsrView<'_, V, I>,
    b: CsrView<'_, V, I>,
    cc: usize,
    opts: TopNOptions<V>,
)
    ensures
        ({
            let (tile, block) = chunked::blocking(a, b, cc, opts);
            &&& opts.row_block == Some(0usize) ==> !tile && block is None
            &&& opts.row_block is Some && opts.row_block != Some(0usize) ==> block
                == opts.row_block
            &&& opts.row_block is None && opts.tile_b ==> block is None
            &&& opts.row_block is None && !opts.tile_b ==> block == (if chunked::auto_tiles(
                a,
                b,
                cc,
            ) {
                Some(2048usize)
            } else {
                None
            })
            &&& tile ==> cc <= 65536 && b.data@.len() <= 4294967295
            &&& tile ==> opts.row_block != Some(0usize) && (opts.tile_b || (opts.row_block is None
                && chunked::auto_tiles(a, b, cc)))
            &&& !tile && opts.row_block != Some(0usize) && (opts.tile_b || (opts.row_block is None
                && chunked::auto_tiles(a, b, cc))) ==> cc > 65536 || b.data@.len() > 4294967295
                || !chunked::addressable(b, cc)
        }),
{
}

/// The entries of `b` that the entries `lo..hi` of `a` meet.
pub open spec fn work<V: Scalar, I: Index>(
    a: CsrView<'_, V, I>,
    b: CsrView<'_, V, I>,
    lo: int,
    hi: int,
) -> int
    decreases hi - lo,
{
    if hi <= lo {
        0
    } else {
        let j = a.indices@[hi - 1].as_int();
        work(a, b, lo, hi - 1) + b.indptr@[j + 1].as_int() - b.indptr@[j].as_int()
    }
}

/// The dense accumulator is for floating point alone: where it is asked for, or
/// where the choice is left open and the row meets at least one entry of `b` per
/// five columns.
pub proof fn law_dense_by_density<V: Scalar, I: Index>(
    a: CsrView<'_, V, I>,
    b: CsrView<'_, V, I>,
    i: int,
)
    requires
        crate::product::multipliable(a, b),
        0 <= i < a.nrows,
    ensures
        !topn::uses_dense(a, b, i, AccumMode::LinkedList),
        topn::uses_dense(a, b, i, AccumMode::Dense) == V::IS_FLOAT,
        topn::uses_dense(a, b, i, AccumMode::Adaptive) <==> {
            let met = work(a, b, a.indptr@[i].as_int(), a.indptr@[i + 1].as_int());
            V::IS_FLOAT && 5 * met >= b.ncols && met >= (if b.ncols == 0 {
                1int
            } else {
                0int
            })
        },
{
    crate::product::lemma_row_in_bounds(a, i);
    lemma_work(a, b, i, a.row(i).len() as int);
    assert(a.row(i).take(a.row(i).len() as int) =~= a.row(i));
}

proof fn lemma_work<V: Scalar, I: Index>(
    a: CsrView<'_, V, I>,
    b: CsrView<'_, V, I>,
    i: int,
    m: int,
)
    requires
        crate::product::multipliable(a, b),
        0 <= i < a.nrows,
        0 <= m <= a.row(i).len(),
    ensures
        crate::product::row_updates(a.row(i).take(m), b).len() == work(
            a,
            b,
            a.start(i),
            a.start(i) + m,
        ),
    decreases m,
{
    if m > 0 {
        lemma_work(a, b, i, m - 1);
        let left = a.row(i).take(m);
        assert(left.drop_last() =~= a.row(i).take(m - 1));
        crate::product::lemma_row_in_bounds(a, i);
        assert(left.last() == a.row(i)[m - 1]);
        crate::product::lemma_row_in_bounds(b, left.last().0);
    }
}

} // verus!
