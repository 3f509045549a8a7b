//! The numbers and points that the geometry computes with.
use vstd::prelude::*;

verus! {

/// The numbers that the geometry computes with.
///
/// The library never looks inside a scalar: it only combines scalars through
/// these operations and branches on the answers of the comparisons. Nothing is
/// assumed about what an operation returns, so every guarantee of the library
/// holds for any implementation, however it rounds. The contracts of the
/// library say which operations a result comes from, through the predicates
/// `is_sum`, `answers_less` and their like.
pub trait Scalar: Copy {
    /// The scalar nearest to the whole number `n`.
    fn from_count(n: usize) -> Self;

    /// The ratio of a circle's circumference to its diameter.
    fn pi() -> Self;

    /// The distance from one to the next larger scalar.
    fn epsilon() -> Self;

    /// The sum `self + rhs`.
    fn plus(self, rhs: Self) -> Self;

    /// The difference `self - rhs`.
    fn minus(self, rhs: Self) -> Self;

    /// The product `self * rhs`.
    fn times(self, rhs: Self) -> Self;

    /// The quotient `self / rhs`.
    fn over(self, rhs: Self) -> Self;

    /// Whether `self < rhs`.
    fn less(self, rhs: Self) -> bool;

    /// Whether `self <= rhs`.
    fn at_most(self, rhs: Self) -> bool;

    /// The absolute value.
    fn abs(self) -> Self;

    /// The square root.
    fn sqrt(self) -> Self;

    /// The smallest whole scalar that is not below `self`.
    fn ceil(self) -> Self;

    /// The sine of an angle in radians.
    fn sin(self) -> Self;

    /// The cosine of an angle in radians.
    fn cos(self) -> Self;

    /// The angle in radians, in `(-pi, pi]`, of the direction with ordinate
    /// `self` and abscissa `x`.
    fn atan2(self, x: Self) -> Self;

    /// The scalar as a count, cut off towards zero, or `None` where that is
    /// no count (the scalar is not a number, or the count would be negative or
    /// too large).
    fn to_count(self) -> Option<usize>;
}

/// A position in the plane, or a vector between two positions.
#[derive(Clone, Copy, Debug)]
pub struct Point<N> {
    pub x: N,
    pub y: N,
}

/// The scalar nearest to the fraction `numerator / denominator`: what the
/// scalar of `numerator`, divided by the scalar of `denominator`, gives.
pub fn ratio<N: Scalar>(numerator: usize, denominator: usize) -> (r: N)
    ensures
        is_ratio(numerator, denominator, r),
{
    N::from_count(numerator).over(N::from_count(denominator))
}

/// The angle of a full turn: what the scalar of two, times pi, gives.
pub fn full_turn<N: Scalar>() -> (r: N)
    ensures
        is_full_turn(r),
{
    N::from_count(2).times(N::pi())
}

/// Whether `r` is what `Scalar::from_count` gives for `n`.
///
/// This and the predicates that follow say where a scalar comes from. A
/// scalar type whose operations are functions of their arguments has exactly
/// one such `r`; of any other the library still says which operation was
/// asked, and with which arguments.
#[verifier::inline]
pub open spec fn is_count<N: Scalar>(n: usize, r: N) -> bool {
    call_ensures(N::from_count, (n,), r)
}

/// Whether `r` is what `Scalar::pi` gives.
#[verifier::inline]
pub open spec fn is_pi<N: Scalar>(r: N) -> bool {
    call_ensures(N::pi, (), r)
}

/// Whether `r` is what `Scalar::epsilon` gives.
#[verifier::inline]
pub open spec fn is_epsilon<N: Scalar>(r: N) -> bool {
    call_ensures(N::epsilon, (), r)
}

/// Whether `r` is what `a.plus(b)` gives.
#[verifier::inline]
pub open spec fn is_sum<N: Scalar>(a: N, b: N, r: N) -> bool {
    call_ensures(N::plus, (a, b), r)
}

/// Whether `r` is what `a.minus(b)` gives.
#[verifier::inline]
pub open spec fn is_difference<N: Scalar>(a: N, b: N, r: N) -> bool {
    call_ensures(N::minus, (a, b), r)
}

/// Whether `r` is what `a.times(b)` gives.
#[verifier::inline]
pub open spec fn is_product<N: Scalar>(a: N, b: N, r: N) -> bool {
    call_ensures(N::times, (a, b), r)
}

/// Whether `r` is what `a.over(b)` gives.
#[verifier::inline]
pub open spec fn is_quotient<N: Scalar>(a: N, b: N, r: N) -> bool {
    call_ensures(N::over, (a, b), r)
}

/// Whether `yes` is what `a.less(b)` answers.
#[verifier::inline]
pub open spec fn answers_less<N: Scalar>(a: N, b: N, yes: bool) -> bool {
    call_ensures(N::less, (a, b), yes)
}

/// Whether `yes` is what `a.at_most(b)` answers.
#[verifier::inline]
pub open spec fn answers_at_most<N: Scalar>(a: N, b: N, yes: bool) -> bool {
    call_ensures(N::at_most, (a, b), yes)
}

/// Whether `yes` answers that `a` is negative: `a` is less than the scalar of
/// nothing. A zero of either sign is not negative.
pub open spec fn answers_below_zero<N: Scalar>(a: N, yes: bool) -> bool {
    exists|zero: N| is_count(0, zero) && answers_less(a, zero, yes)
}

/// Whether `r` is what `a.abs()` gives.
#[verifier::inline]
pub open spec fn is_abs<N: Scalar>(a: N, r: N) -> bool {
    call_ensures(N::abs, (a,), r)
}

/// Whether `r` is what `a.sqrt()` gives.
#[verifier::inline]
pub open spec fn is_sqrt<N: Scalar>(a: N, r: N) -> bool {
    call_ensures(N::sqrt, (a,), r)
}

/// Whether `r` is what `a.ceil()` gives.
#[verifier::inline]
pub open spec fn is_ceil<N: Scalar>(a: N, r: N) -> bool {
    call_ensures(N::ceil, (a,), r)
}

/// Whether `r` is what `a.sin()` gives.
#[verifier::inline]
pub open spec fn is_sin<N: Scalar>(a: N, r: N) -> bool {
    call_ensures(N::sin, (a,), r)
}

/// Whether `r` is what `a.cos()` gives.
#[verifier::inline]
pub open spec fn is_cos<N: Scalar>(a: N, r: N) -> bool {
    call_ensures(N::cos, (a,), r)
}

/// Whether `r` is what `y.atan2(x)` gives.
#[verifier::inline]
pub open spec fn is_atan2<N: Scalar>(y: N, x: N, r: N) -> bool {
    call_ensures(N::atan2, (y, x), r)
}

/// Whether `r` is what `a.to_count()` gives.
#[verifier::inline]
pub open spec fn is_to_count<N: Scalar>(a: N, r: Option<usize>) -> bool {
    call_ensures(N::to_count, (a,), r)
}

/// Whether `r` is the quotient of the scalars of `numerator` and of
/// `denominator`.
pub open spec fn is_ratio<N: Scalar>(numerator: usize, denominator: usize, r: N) -> bool {
    exists|n: N, d: N|
        #![trigger is_count(numerator, n), is_count(denominator, d)]
        is_count(numerator, n) && is_count(denominator, d) && is_quotient(n, d, r)
}

/// Whether `r` is the product of the scalar of two and of pi.
pub open spec fn is_full_turn<N: Scalar>(r: N) -> bool {
    exists|two: N, pi: N|
        #![trigger is_count(2, two), is_pi(pi)]
        is_count(2, two) && is_pi(pi) && is_product(two, pi, r)
}

/// Whether `v` is the vector that leads from `from` to `to`: the differences
/// of their coordinates.
pub open spec fn is_vector<N: Scalar>(from: Point<N>, to: Point<N>, v: Point<N>) -> bool {
    is_difference(to.x, from.x, v.x) && is_difference(to.y, from.y, v.y)
}

} // verus!
