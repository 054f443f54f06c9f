use vstd::prelude::*;

verus! {

/// The numbers the engine computes with.
///
/// The engine only wires operations together; every arithmetic step on a
/// value goes through one of these methods, so the numeric type (and its
/// rounding behaviour) is chosen by whoever instantiates the engine. Each
/// method computes its spec function: the same arguments give the same
/// result.
pub trait Scalar: Sized + Copy {
    /// The additive identity.
    spec fn zero_value() -> Self;

    /// The multiplicative identity.
    spec fn one_value() -> Self;

    spec fn sum(a: Self, b: Self) -> Self;

    spec fn difference(a: Self, b: Self) -> Self;

    spec fn product(a: Self, b: Self) -> Self;

    spec fn quotient(a: Self, b: Self) -> Self;

    /// `e` raised to `a`.
    spec fn exponential(a: Self) -> Self;

    /// `a` raised to the real exponent `n`.
    spec fn power(a: Self, n: Self) -> Self;

    fn zero() -> (r: Self)
        ensures
            r == Self::zero_value(),
    ;

    fn one() -> (r: Self)
        ensures
            r == Self::one_value(),
    ;

    fn plus(&self, other: &Self) -> (r: Self)
        ensures
            r == Self::sum(*self, *other),
    ;

    fn minus(&self, other: &Self) -> (r: Self)
        ensures
            r == Self::difference(*self, *other),
    ;

    fn times(&self, other: &Self) -> (r: Self)
        ensures
            r == Self::product(*self, *other),
    ;

    fn divided_by(&self, other: &Self) -> (r: Self)
        ensures
            r == Self::quotient(*self, *other),
    ;

    fn exp(&self) -> (r: Self)
        ensures
            r == Self::exponential(*self),
    ;

    fn powf(&self, exponent: &Self) -> (r: Self)
        ensures
            r == Self::power(*self, *exponent),
    ;

    /// A human-readable rendering, used in node names.
    fn text(&self) -> String;
}

} // verus!
