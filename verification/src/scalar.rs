//! `Scalar`: the element type of the matrices.
use vstd::prelude::*;

verus! {

/// Element type of the matrices.
///
/// The trait names the handful of operations the kernels use and the few laws
/// they rely on. The laws are weak enough to hold of floating point as well as
/// of integers: nothing is said about associativity or rounding, and the order
/// is a strict weak order only on the values that compare with each other
/// (`ordered`), which leaves out NaN.
pub trait Scalar: Copy + Send + Sync + 'static {
    /// `true` for floating-point types. Gates the dense accumulator mode: that
    /// mode treats an exact-zero sum as "untouched", which is acceptable for
    /// floats but would silently drop genuine zero results of integers (e.g.
    /// `2 - 2`), so integers stay on the linked-list path.
    const IS_FLOAT: bool;

    /// The value of [`Scalar::zero`].
    spec fn spec_zero() -> Self;

    /// The value of [`Scalar::min_value`].
    spec fn spec_min_value() -> Self;

    /// The value of [`Scalar::cpp_numeric_limits_min`].
    spec fn spec_limits_min() -> Self;

    /// What [`Scalar::plus`] computes.
    spec fn spec_plus(self, other: Self) -> Self;

    /// What [`Scalar::times`] computes.
    spec fn spec_times(self, other: Self) -> Self;

    /// What [`Scalar::mul_add`] computes.
    spec fn spec_mul_add(self, b: Self, acc: Self) -> Self;

    /// What [`Scalar::max`] computes.
    spec fn spec_max(self, other: Self) -> Self;

    /// The strict order that [`Scalar::less`] decides.
    spec fn spec_less(self, other: Self) -> bool;

    /// The equality that [`Scalar::equals`] decides.
    spec fn spec_equals(self, other: Self) -> bool;

    /// Does this value compare with the others? False of NaN alone.
    spec fn ordered(self) -> bool;

    /// Only ordered values are ever less than one another, and none is less
    /// than itself.
    proof fn lemma_less_ordered(a: Self, b: Self)
        ensures
            a.spec_less(b) ==> a.ordered() && b.ordered(),
            !a.spec_less(a),
    ;

    /// The order is transitive.
    proof fn lemma_less_transitive(a: Self, b: Self, c: Self)
        requires
            a.spec_less(b),
            b.spec_less(c),
        ensures
            a.spec_less(c),
    ;

    /// On ordered values "not less" is transitive too.
    proof fn lemma_not_less_transitive(a: Self, b: Self, c: Self)
        requires
            a.ordered(),
            b.ordered(),
            c.ordered(),
            !a.spec_less(b),
            !b.spec_less(c),
        ensures
            !a.spec_less(c),
    ;

    /// Whatever exceeds a bound keeps exceeding it under `max`, on either side.
    proof fn lemma_max_exceeds(bound: Self, x: Self, y: Self)
        requires
            bound.spec_less(x),
        ensures
            bound.spec_less(x.spec_max(y)),
            bound.spec_less(y.spec_max(x)),
    ;

    /// Zero equals itself, the smallest value is its own maximum, both sentinels
    /// are ordered, no value is less than the smallest, and a value equals
    /// itself if and only if it is ordered.
    proof fn lemma_constants()
        ensures
            Self::spec_zero().spec_equals(Self::spec_zero()),
            Self::spec_min_value().spec_max(Self::spec_min_value()) == Self::spec_min_value(),
            forall|x: Self| !#[trigger] x.spec_less(Self::spec_min_value()),
            forall|x: Self| #[trigger] x.spec_equals(x) == x.ordered(),
            Self::spec_min_value().ordered(),
            Self::spec_limits_min().ordered(),
    ;

    /// Above [`Scalar::cpp_numeric_limits_min`] values that tie coincide: the two
    /// zeros of floating point are not there.
    proof fn lemma_limit_ties(a: Self, b: Self)
        requires
            Self::spec_limits_min().spec_less(a),
            Self::spec_limits_min().spec_less(b),
            !a.spec_less(b),
            !b.spec_less(a),
        ensures
            a == b,
    ;

    /// The additive identity, the value of an untouched accumulator slot.
    fn zero() -> (r: Self)
        ensures
            r == Self::spec_zero(),
    ;

    /// The smallest representable value, used as the heap sentinel.
    /// For floats this is negative infinity; for integers, `MIN`.
    fn min_value() -> (r: Self)
        ensures
            r == Self::spec_min_value(),
    ;

    /// C++'s `std::numeric_limits<V>::min()`: the smallest *positive normal*
    /// value for floats, the type minimum for integers. The zip path uses it
    /// as its threshold, which drops negative float scores from the top-n.
    fn cpp_numeric_limits_min() -> (r: Self)
        ensures
            r == Self::spec_limits_min(),
    ;

    /// `self + other`.
    fn plus(self, other: Self) -> (r: Self)
        ensures
            r == self.spec_plus(other),
    ;

    /// `self * other`.
    fn times(self, other: Self) -> (r: Self)
        ensures
            r == self.spec_times(other),
    ;

    /// `self * b + acc`. Floats fuse the two steps where the target guarantees
    /// hardware support; integers use separate multiply and add.
    fn mul_add(self, b: Self, acc: Self) -> (r: Self)
        ensures
            r == self.spec_mul_add(b, acc),
    ;

    /// Branchless maximum. Floats return the non-NaN operand if one side is
    /// NaN. Used to group the dense drain scan four-wide with a single
    /// heap-threshold branch.
    fn max(self, other: Self) -> (r: Self)
        ensures
            r == self.spec_max(other),
    ;

    /// Does `self` compare as less than `other`? False if either is NaN.
    fn less(self, other: Self) -> (r: bool)
        ensures
            r == self.spec_less(other),
    ;

    /// `self == other` in the sense of the element type.
    fn equals(self, other: Self) -> (r: bool)
        ensures
            r == self.spec_equals(other),
    ;
}

/// Integers wrap around on overflow in every arithmetic step.
impl Scalar for i32 {
    const IS_FLOAT: bool = false;

    open spec fn spec_zero() -> Self {
        0
    }

    open spec fn spec_min_value() -> Self {
        i32::MIN
    }

    open spec fn spec_limits_min() -> Self {
        i32::MIN
    }

    open spec fn spec_plus(self, other: Self) -> Self {
        self.wrapping_add(other)
    }

    open spec fn spec_times(self, other: Self) -> Self {
        self.wrapping_mul(other)
    }

    open spec fn spec_mul_add(self, b: Self, acc: Self) -> Self {
        self.wrapping_mul(b).wrapping_add(acc)
    }

    open spec fn spec_max(self, other: Self) -> Self {
        if self < other {
            other
        } else {
            self
        }
    }

    open spec fn spec_less(self, other: Self) -> bool {
        self < other
    }

    open spec fn spec_equals(self, other: Self) -> bool {
        self == other
    }

    open spec fn ordered(self) -> bool {
        true
    }

    proof fn lemma_less_ordered(a: Self, b: Self) {
    }

    proof fn lemma_less_transitive(a: Self, b: Self, c: Self) {
    }

    proof fn lemma_not_less_transitive(a: Self, b: Self, c: Self) {
    }

    proof fn lemma_max_exceeds(bound: Self, x: Self, y: Self) {
    }

    proof fn lemma_constants() {
    }

    proof fn lemma_limit_ties(a: Self, b: Self) {
    }

    fn zero() -> (r: Self) {
        0
    }

    fn min_value() -> (r: Self) {
        i32::MIN
    }

    fn cpp_numeric_limits_min() -> (r: Self) {
        i32::MIN
    }

    fn plus(self, other: Self) -> (r: Self) {
        self.wrapping_add(other)
    }

    fn times(self, other: Self) -> (r: Self) {
        self.wrapping_mul(other)
    }

    fn mul_add(self, b: Self, acc: Self) -> (r: Self) {
        self.wrapping_mul(b).wrapping_add(acc)
    }

    fn max(self, other: Self) -> (r: Self) {
        if self < other {
            other
        } else {
            self
        }
    }

    fn less(self, other: Self) -> (r: bool) {
        self < other
    }

    fn equals(self, other: Self) -> (r: bool) {
        self == other
    }
}

/// Integers wrap around on overflow in every arithmetic step.
impl Scalar for i64 {
    const IS_FLOAT: bool = false;

    open spec fn spec_zero() -> Self {
        0
    }

    open spec fn spec_min_value() -> Self {
        i64::MIN
    }

    open spec fn spec_limits_min() -> Self {
        i64::MIN
    }

    open spec fn spec_plus(self, other: Self) -> Self {
        self.wrapping_add(other)
    }

    open spec fn spec_times(self, other: Self) -> Self {
        self.wrapping_mul(other)
    }

    open spec fn spec_mul_add(self, b: Self, acc: Self) -> Self {
        self.wrapping_mul(b).wrapping_add(acc)
    }

    open spec fn spec_max(self, other: Self) -> Self {
        if self < other {
            other
        } else {
            self
        }
    }

    open spec fn spec_less(self, other: Self) -> bool {
        self < other
    }

    open spec fn spec_equals(self, other: Self) -> bool {
        self == other
    }

    open spec fn ordered(self) -> bool {
        true
    }

    proof fn lemma_less_ordered(a: Self, b: Self) {
    }

    proof fn lemma_less_transitive(a: Self, b: Self, c: Self) {
    }

    proof fn lemma_not_less_transitive(a: Self, b: Self, c: Self) {
    }

    proof fn lemma_max_exceeds(bound: Self, x: Self, y: Self) {
    }

    proof fn lemma_constants() {
    }

    proof fn lemma_limit_ties(a: Self, b: Self) {
    }

    fn zero() -> (r: Self) {
        0
    }

    fn min_value() -> (r: Self) {
        i64::MIN
    }

    fn cpp_numeric_limits_min() -> (r: Self) {
        i64::MIN
    }

    fn plus(self, other: Self) -> (r: Self) {
        self.wrapping_add(other)
    }

    fn times(self, other: Self) -> (r: Self) {
        self.wrapping_mul(other)
    }

    fn mul_add(self, b: Self, acc: Self) -> (r: Self) {
        self.wrapping_mul(b).wrapping_add(acc)
    }

    fn max(self, other: Self) -> (r: Self) {
        if self < other {
            other
        } else {
            self
        }
    }

    fn less(self, other: Self) -> (r: bool) {
        self < other
    }

    fn equals(self, other: Self) -> (r: bool) {
        self == other
    }
}

/// Is multiply-add the same as a multiplication followed by an addition? It is
/// for integers; fused floating point rounds differently.
pub open spec fn is_unfused<V: Scalar>() -> bool {
    forall|x: V, y: V, acc: V| #[trigger]
        x.spec_mul_add(y, acc) == acc.spec_plus(x.spec_times(y))
}

/// Do values that compare as neither less nor greater coincide? They do for
/// integers; floating point has two zeros.
pub open spec fn ties_are_equal<V: Scalar>() -> bool {
    forall|x: V, y: V|
        !#[trigger] x.spec_less(y) && !#[trigger] y.spec_less(x) ==> x == y
}

/// Is the maximum always one of the operands? It is for integers.
pub open spec fn max_picks<V: Scalar>() -> bool {
    forall|x: V, y: V| (#[trigger] x.spec_max(y)) == x || x.spec_max(y) == y
}

/// What sets the integers apart from floating point.
pub proof fn lemma_integers()
    ensures
        !i32::IS_FLOAT,
        !i64::IS_FLOAT,
        is_unfused::<i32>(),
        is_unfused::<i64>(),
        ties_are_equal::<i32>(),
        ties_are_equal::<i64>(),
        max_picks::<i32>(),
        max_picks::<i64>(),
{
}

} // verus!
