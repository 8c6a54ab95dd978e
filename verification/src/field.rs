//! The coefficient arithmetic every other module is written against.
//!
//! [`Field`] pairs executable operations with the mathematical operations that
//! their contracts speak of, and with the ring laws those operations obey.
//! A value `a` is *reduced* when `a + 0 == a`; every result of an operation is
//! reduced, so the laws hold for all values of the type without a validity
//! premise, and an identity element drops out wherever it meets an operation.

use vstd::prelude::*;

verus! {

/// A commutative ring with inverses of its units and a map from the integers. In
/// a [`DivisionField`] every value but zero is a unit.
pub trait Field: Sized + Copy + Send + Sync {
    /// The additive identity.
    spec fn zero_spec() -> Self;

    /// The multiplicative identity.
    spec fn one_spec() -> Self;

    /// The sum of two values.
    spec fn spec_add(self, rhs: Self) -> Self;

    /// The difference of two values.
    spec fn spec_sub(self, rhs: Self) -> Self;

    /// The product of two values.
    spec fn spec_mul(self, rhs: Self) -> Self;

    /// The additive inverse.
    spec fn spec_neg(self) -> Self;

    /// The image of an integer.
    spec fn of_int(z: int) -> Self;

    /// Addition commutes.
    proof fn law_add_commutes(a: Self, b: Self)
        ensures
            a + b == b + a,
    ;

    /// Addition associates.
    proof fn law_add_associates(a: Self, b: Self, c: Self)
        ensures
            (a + b) + c == a + (b + c),
    ;

    /// Multiplication commutes.
    proof fn law_mul_commutes(a: Self, b: Self)
        ensures
            a * b == b * a,
    ;

    /// Multiplication associates.
    proof fn law_mul_associates(a: Self, b: Self, c: Self)
        ensures
            (a * b) * c == a * (b * c),
    ;

    /// Multiplication distributes over addition.
    proof fn law_distributes(a: Self, b: Self, c: Self)
        ensures
            a * (b + c) == a * b + a * c,
    ;

    /// Adding zero does not change what a value contributes to a sum, and
    /// leaves products, inverses and the identities as they are.
    proof fn law_reduced(a: Self, b: Self)
        ensures
            (a + Self::zero_spec()) + b == a + b,
            a * b + Self::zero_spec() == a * b,
            (-a) + Self::zero_spec() == -a,
            Self::zero_spec() + Self::zero_spec() == Self::zero_spec(),
            Self::one_spec() + Self::zero_spec() == Self::one_spec(),
    ;

    /// Products with the two identities.
    proof fn law_identities(a: Self)
        ensures
            a * Self::one_spec() == a + Self::zero_spec(),
            a * Self::zero_spec() == Self::zero_spec(),
    ;

    /// A value and its additive inverse cancel, and subtraction adds the inverse.
    proof fn law_negation(a: Self, b: Self)
        ensures
            a + (-a) == Self::zero_spec(),
            a - b == a + (-b),
    ;

    /// The ring is not trivial.
    proof fn law_nontrivial()
        ensures
            Self::one_spec() != Self::zero_spec(),
    ;

    /// The integers map onto the ring structure.
    proof fn law_of_int(x: int, y: int)
        ensures
            Self::of_int(0) == Self::zero_spec(),
            Self::of_int(1) == Self::one_spec(),
            Self::of_int(x + y) == Self::of_int(x) + Self::of_int(y),
            Self::of_int(x * y) == Self::of_int(x) * Self::of_int(y),
            Self::of_int(-x) == -Self::of_int(x),
    ;

    /// Returns the additive identity.
    fn zero() -> (r: Self)
        ensures
            r == Self::zero_spec(),
    ;

    /// Returns the multiplicative identity.
    fn one() -> (r: Self)
        ensures
            r == Self::one_spec(),
    ;

    /// Adds two values.
    fn add(self, rhs: Self) -> (r: Self)
        ensures
            r == self + rhs,
    ;

    /// Subtracts one value from another.
    fn sub(self, rhs: Self) -> (r: Self)
        ensures
            r == self - rhs,
    ;

    /// Multiplies two values.
    fn mul(self, rhs: Self) -> (r: Self)
        ensures
            r == self * rhs,
    ;

    /// Negates a value.
    fn neg(self) -> (r: Self)
        ensures
            r == -self,
    ;

    /// Whether the value is the additive identity.
    fn is_zero(self) -> (r: bool)
        ensures
            r == (self == Self::zero_spec()),
    ;

    /// Whether two values are equal.
    fn equals(self, rhs: Self) -> (r: bool)
        ensures
            r == (self == rhs),
    ;

    /// The multiplicative inverse, if the value has one.
    fn inverse(self) -> (r: Option<Self>)
        ensures
            match r {
                Some(i) => self * i == Self::one_spec(),
                None => forall|i: Self| self * i != Self::one_spec(),
            },
    ;

    /// The value itself. Every value that a program holds is reduced, whatever
    /// it came from.
    fn settled(self) -> (r: Self)
        ensures
            r == self,
            self + Self::zero_spec() == self,
    ;

    /// The image of an unsigned machine integer.
    fn from_u64(value: u64) -> (r: Self)
        ensures
            r == Self::of_int(value as int),
    ;

    /// The image of a signed machine integer.
    fn from_i64(value: i64) -> (r: Self)
        ensures
            r == Self::of_int(value as int),
    ;
}

/// A ring in which every value but zero has an inverse. `primality` proves it of
/// the library's prime moduli and of their quadratic extensions.
pub trait DivisionField: Field {
    /// Every value but zero has an inverse.
    proof fn law_inverses()
        ensures
            is_field::<Self>(),
    ;
}

/// Whether every value but zero has an inverse.
pub open spec fn is_field<E: Field>() -> bool {
    forall|a: E| #[trigger]
        (a + E::zero_spec()) != E::zero_spec() ==> exists|i: E| #[trigger]
            (a * i) == E::one_spec()
}

} // verus!
