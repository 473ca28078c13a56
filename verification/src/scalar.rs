use vstd::prelude::*;

verus! {

/// A number domain in which brightness and distance are measured.
///
/// Every operation is total: it gives a value for every operand, as
/// saturating or floating-point arithmetic does. Each operation comes twice:
/// as a specification function, which says what the result is, and as an
/// executable function that computes exactly that. The contracts of the
/// filters and of the matcher are stated over the specification functions,
/// so they hold of every domain, whatever its arithmetic rounds to.
///
/// The domain is ordered by `rank`: a value comes before another when its
/// rank is smaller.
pub trait Scalar: Copy {
    /// The place of the value in the order of the domain.
    spec fn rank(self) -> i64;

    /// The value that stands for the whole number `n`.
    spec fn spec_from_usize(n: usize) -> Self;

    /// The sum of two values, as the domain rounds it.
    spec fn spec_plus(self, rhs: Self) -> Self;

    /// The difference of two values, as the domain rounds it.
    spec fn spec_minus(self, rhs: Self) -> Self;

    /// The product of two values, as the domain rounds it.
    spec fn spec_times(self, rhs: Self) -> Self;

    /// The quotient of two values, as the domain rounds it; a value of the
    /// domain's choice where the divisor is zero.
    spec fn spec_over(self, rhs: Self) -> Self;

    /// The square root of a value, as the domain rounds it; a value of the
    /// domain's choice where there is none.
    spec fn spec_sqrt(self) -> Self;

    /// The value without its sign.
    spec fn spec_abs(self) -> Self;

    /// The size of a difference does not depend on the order of its operands.
    proof fn lemma_gap_symmetric(a: Self, b: Self)
        ensures
            a.spec_minus(b).spec_abs() == b.spec_minus(a).spec_abs(),
    ;

    /// The value that stands for the whole number `n`.
    fn from_usize(n: usize) -> (r: Self)
        ensures
            r == Self::spec_from_usize(n),
    ;

    /// The sum of two values.
    fn plus(self, rhs: Self) -> (r: Self)
        ensures
            r == self.spec_plus(rhs),
    ;

    /// The difference of two values.
    fn minus(self, rhs: Self) -> (r: Self)
        ensures
            r == self.spec_minus(rhs),
    ;

    /// The product of two values.
    fn times(self, rhs: Self) -> (r: Self)
        ensures
            r == self.spec_times(rhs),
    ;

    /// The quotient of two values.
    fn over(self, rhs: Self) -> (r: Self)
        ensures
            r == self.spec_over(rhs),
    ;

    /// The square root of a value.
    fn sqrt(self) -> (r: Self)
        ensures
            r == self.spec_sqrt(),
    ;

    /// The value without its sign.
    fn abs(self) -> (r: Self)
        ensures
            r == self.spec_abs(),
    ;

    /// Whether `self` comes no later than `rhs` in the order of the domain.
    fn le(self, rhs: Self) -> (b: bool)
        ensures
            b == (self.rank() <= rhs.rank()),
    ;
}

/// The value that stands for nothing at all: the whole number 0.
pub open spec fn zero<S: Scalar>() -> S {
    S::spec_from_usize(0)
}

/// The later of two values in the order; the first where they rank alike.
pub open spec fn larger<S: Scalar>(a: S, b: S) -> S {
    if b.rank() > a.rank() {
        b
    } else {
        a
    }
}

/// A sample of a raster: anything that has a brightness.
pub trait Luminance: Copy {
    /// The domain in which the brightness is measured.
    type Value: Scalar;

    /// The brightness of the sample.
    spec fn spec_luminance(self) -> Self::Value;

    /// The brightness of the sample.
    fn luminance(self) -> (l: Self::Value)
        ensures
            l == self.spec_luminance(),
    ;
}

/// A sample that can be made from a brightness alone.
pub trait FromLuminance: Sized {
    /// The domain in which the brightness is measured.
    type Value: Scalar;

    /// The sample of the given brightness.
    spec fn spec_from_luminance(luminance: Self::Value) -> Self;

    /// The sample of the given brightness.
    fn from_luminance(luminance: Self::Value) -> (s: Self)
        ensures
            s == Self::spec_from_luminance(luminance),
    ;
}

/// A number is a sample whose brightness is the number itself.
impl<S: Scalar> Luminance for S {
    type Value = S;

    open spec fn spec_luminance(self) -> S {
        self
    }

    fn luminance(self) -> (l: S) {
        self
    }
}

/// The sample made from a number is the number itself.
impl<S: Scalar> FromLuminance for S {
    type Value = S;

    open spec fn spec_from_luminance(luminance: S) -> S {
        luminance
    }

    fn from_luminance(luminance: S) -> (s: S) {
        luminance
    }
}

} // verus!
