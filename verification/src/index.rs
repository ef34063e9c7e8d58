//! `Index`: the integer type of the `indptr` and `indices` arrays.
use vstd::prelude::*;

verus! {

/// Integer type of the `indptr` / `indices` arrays, implemented for `i32` and `i64`.
///
/// The mathematical model of an index is the integer it holds, `as_int`.
pub trait Index: Copy + Send + Sync + 'static {
    /// The integer this index holds.
    spec fn as_int(self) -> int;

    /// What the narrowing cast makes of `value`; out of range it truncates.
    spec fn narrowed(value: usize) -> Self;

    /// What the widening cast makes of the index; a negative one wraps around.
    spec fn widened(self) -> usize;

    /// The largest `usize` that the type can hold.
    spec fn spec_max_usize() -> usize;

    /// Narrowing keeps every value up to `max_usize`, no index that fits a
    /// `usize` exceeds it, and an index is determined by the integer it holds.
    proof fn lemma_index_laws()
        ensures
            forall|n: usize|
                n <= Self::spec_max_usize() ==> (#[trigger] Self::narrowed(n)).as_int() == n,
            forall|x: Self|
                0 <= (#[trigger] x.as_int()) <= usize::MAX ==> x.as_int()
                    <= Self::spec_max_usize(),
            forall|x: Self, y: Self| #[trigger] x.as_int() == #[trigger] y.as_int() ==> x == y,
    ;

    /// The index `0`.
    fn zero() -> (r: Self)
        ensures
            r.as_int() == 0,
    ;

    /// Narrow a `usize` to the index type. This is an unchecked, truncating
    /// cast; callers must ensure the value fits (see [`Index::max_usize`] and
    /// `crate::csr::check_index_capacity`).
    fn from_usize(value: usize) -> (r: Self)
        ensures
            r == Self::narrowed(value),
    ;

    /// Widen to `usize`.
    fn to_usize(self) -> (r: usize)
        ensures
            r == self.widened(),
            0 <= self.as_int() <= usize::MAX ==> r == self.as_int(),
    ;

    /// Is this the smaller index?
    fn before(self, other: Self) -> (r: bool)
        ensures
            r == (self.as_int() < other.as_int()),
    ;

    /// Does a `usize` hold the same integer?
    fn fits_usize(self) -> (r: bool)
        ensures
            r == (0 <= self.as_int() <= usize::MAX),
    ;

    /// Largest `usize` value representable by this index type without
    /// overflow. Used to guard `from_usize` conversions.
    fn max_usize() -> (r: usize)
        ensures
            r == Self::spec_max_usize(),
    ;
}

/// `num_traits::Zero::zero` for `i32`: the additive identity, `0`.
#[verifier::external_body]
pub(crate) fn zero_i32() -> (r: i32)
    ensures
        r == 0,
{
    <i32 as num_traits::Zero>::zero()
}

/// `num_traits::Zero::zero` for `i64`: the additive identity, `0`.
#[verifier::external_body]
pub(crate) fn zero_i64() -> (r: i64)
    ensures
        r == 0,
{
    <i64 as num_traits::Zero>::zero()
}

/// `num_traits::Bounded::max_value` for `i32`: the largest `i32`.
pub assume_specification [<i32 as num_traits::Bounded>::max_value]() -> (r: i32)
    ensures
        r == i32::MAX,
;

/// `num_traits::Bounded::max_value` for `i64`: the largest `i64`.
pub assume_specification [<i64 as num_traits::Bounded>::max_value]() -> (r: i64)
    ensures
        r == i64::MAX,
;

impl Index for i32 {
    open spec fn as_int(self) -> int {
        self as int
    }

    open spec fn narrowed(value: usize) -> Self {
        value as i32
    }

    open spec fn widened(self) -> usize {
        self as usize
    }

    open spec fn spec_max_usize() -> usize {
        i32::MAX as usize
    }

    proof fn lemma_index_laws() {
    }

    fn zero() -> (r: Self) {
        zero_i32()
    }

    fn from_usize(value: usize) -> (r: Self) {
        value as i32
    }

    fn to_usize(self) -> (r: usize) {
        self as usize
    }

    fn before(self, other: Self) -> (r: bool) {
        self < other
    }

    fn fits_usize(self) -> (r: bool) {
        self >= 0
    }

    fn max_usize() -> (r: usize) {
        <i32 as num_traits::Bounded>::max_value() as usize
    }
}

impl Index for i64 {
    open spec fn as_int(self) -> int {
        self as int
    }

    open spec fn narrowed(value: usize) -> Self {
        value as i64
    }

    open spec fn widened(self) -> usize {
        self as usize
    }

    open spec fn spec_max_usize() -> usize {
        if i64::MAX <= usize::MAX {
            i64::MAX as usize
        } else {
            usize::MAX
        }
    }

    proof fn lemma_index_laws() {
    }

    fn zero() -> (r: Self) {
        zero_i64()
    }

    fn from_usize(value: usize) -> (r: Self) {
        value as i64
    }

    fn to_usize(self) -> (r: usize) {
        self as usize
    }

    fn before(self, other: Self) -> (r: bool) {
        self < other
    }

    fn fits_usize(self) -> (r: bool) {
        self >= 0 && self as u64 <= usize::MAX as u64
    }

    fn max_usize() -> (r: usize) {
        let widest: i64 = <i64 as num_traits::Bounded>::max_value();
        assert(usize::BITS == 32 ==> widest as usize == 0xffff_ffffusize) by (bit_vector)
            requires
                widest == 0x7fff_ffff_ffff_ffffi64,
        ;
        widest as usize
    }
}

} // verus!
