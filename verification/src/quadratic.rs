//! A quadratic extension of the integers modulo a constant.
//!
//! Values are `a + b u` with `u * u == 2`. Two is no square modulo the primes
//! that are five modulo eight, and over those the extension is a field.

use crate::field::Field;
use crate::l2_norm::Extension;
use crate::primality;
use crate::prime_field::PrimeField;
use vstd::arithmetic::div_mod::*;
use vstd::prelude::*;

verus! {

/// The values `c0 + c1 u`.
#[derive(Clone, Copy, Debug, PartialEq, Eq)]
pub struct Ext2<const P: u128> {
    pub c0: PrimeField<P>,
    pub c1: PrimeField<P>,
}

impl<const P: u128> Ext2<P> {
    /// The value with the residues of two integers.
    pub open spec fn pair(x: int, y: int) -> Self {
        Ext2 { c0: PrimeField::residue(x), c1: PrimeField::residue(y) }
    }

    /// The first coordinate as an integer.
    pub open spec fn re(self) -> int {
        self.c0.value_spec()
    }

    /// The second coordinate as an integer.
    pub open spec fn im(self) -> int {
        self.c1.value_spec()
    }

    /// The norm of a value before it is reduced.
    pub open spec fn norm(self) -> int {
        self.re() * self.re() - 2 * (self.im() * self.im())
    }

    /// The value with two coordinates.
    pub fn new(c0: PrimeField<P>, c1: PrimeField<P>) -> (r: Self)
        ensures
            r.c0 == c0,
            r.c1 == c1,
    {
        Ext2 { c0, c1 }
    }

    proof fn lemma_pair(x: int, y: int)
        ensures
            Self::pair(x, y).re() == x % PrimeField::<P>::modulus_spec(),
            Self::pair(x, y).im() == y % PrimeField::<P>::modulus_spec(),
    {
        PrimeField::<P>::lemma_residue_value(x);
        PrimeField::<P>::lemma_residue_value(y);
    }

    proof fn lemma_same(x0: int, y0: int, x1: int, y1: int)
        requires
            congruent::<P>(x0, x1),
            congruent::<P>(y0, y1),
        ensures
            Self::pair(x0, y0) == Self::pair(x1, y1),
    {
        PrimeField::<P>::lemma_residue_congruent(x0, x1);
        PrimeField::<P>::lemma_residue_congruent(y0, y1);
    }

    /// A product takes its left factor before or after it is reduced.
    proof fn lemma_left(x: int, y: int, b: Self)
        ensures
            Self::pair(x, y) * b == Self::pair(
                x * b.re() + 2 * (y * b.im()),
                x * b.im() + y * b.re(),
            ),
    {
        let a = Self::pair(x, y);
        Self::lemma_pair(x, y);
        lemma_reduced::<P>(x);
        lemma_reduced::<P>(y);
        lemma_times::<P>(a.re(), x, b.re());
        lemma_times::<P>(a.im(), y, b.im());
        lemma_times::<P>(a.re(), x, b.im());
        lemma_times::<P>(a.im(), y, b.re());
        lemma_plus_twice::<P>(a.re() * b.re(), x * b.re(), a.im() * b.im(), y * b.im());
        lemma_plus::<P>(a.re() * b.im(), x * b.im(), a.im() * b.re(), y * b.re());
        Self::lemma_same(
            a.re() * b.re() + 2 * (a.im() * b.im()),
            a.re() * b.im() + a.im() * b.re(),
            x * b.re() + 2 * (y * b.im()),
            x * b.im() + y * b.re(),
        );
    }

    /// A sum takes its terms before or after they are reduced.
    proof fn lemma_sum(x0: int, y0: int, x1: int, y1: int)
        ensures
            Self::pair(x0, y0) + Self::pair(x1, y1) == Self::pair(x0 + x1, y0 + y1),
    {
        let a = Self::pair(x0, y0);
        let b = Self::pair(x1, y1);
        Self::lemma_pair(x0, y0);
        Self::lemma_pair(x1, y1);
        lemma_reduced::<P>(x0);
        lemma_reduced::<P>(y0);
        lemma_reduced::<P>(x1);
        lemma_reduced::<P>(y1);
        lemma_plus::<P>(a.re(), x0, b.re(), x1);
        lemma_plus::<P>(a.im(), y0, b.im(), y1);
        Self::lemma_same(a.re() + b.re(), a.im() + b.im(), x0 + x1, y0 + y1);
    }
}

/// Whether two integers have one residue.
spec fn congruent<const P: u128>(x: int, y: int) -> bool {
    x % PrimeField::<P>::modulus_spec() == y % PrimeField::<P>::modulus_spec()
}

proof fn lemma_reduced<const P: u128>(x: int)
    ensures
        congruent::<P>(x % PrimeField::<P>::modulus_spec(), x),
{
    lemma_mod_twice(x, PrimeField::<P>::modulus_spec());
}

proof fn lemma_plus<const P: u128>(x0: int, x1: int, y0: int, y1: int)
    requires
        congruent::<P>(x0, x1),
        congruent::<P>(y0, y1),
    ensures
        congruent::<P>(x0 + y0, x1 + y1),
{
    let m = PrimeField::<P>::modulus_spec();
    lemma_add_mod_noop(x0, y0, m);
    lemma_add_mod_noop(x1, y1, m);
}

proof fn lemma_times<const P: u128>(x0: int, x1: int, y: int)
    requires
        congruent::<P>(x0, x1),
    ensures
        congruent::<P>(x0 * y, x1 * y),
        congruent::<P>(y * x0, y * x1),
{
    let m = PrimeField::<P>::modulus_spec();
    lemma_mul_mod_noop_left(x0, y, m);
    lemma_mul_mod_noop_left(x1, y, m);
    lemma_mul_mod_noop_right(y, x0, m);
    lemma_mul_mod_noop_right(y, x1, m);
}

proof fn lemma_plus_twice<const P: u128>(x0: int, x1: int, y0: int, y1: int)
    requires
        congruent::<P>(x0, x1),
        congruent::<P>(y0, y1),
    ensures
        congruent::<P>(x0 + 2 * y0, x1 + 2 * y1),
        congruent::<P>(x0 - 2 * y0, x1 - 2 * y1),
{
    lemma_times::<P>(y0, y1, 2);
    lemma_times::<P>(y0, y1, -2);
    lemma_plus::<P>(x0, x1, 2 * y0, 2 * y1);
    lemma_plus::<P>(x0, x1, -2 * y0, -2 * y1);
}

/// A product has the product of the norms.
proof fn lemma_norm_multiplies(a0: int, a1: int, b0: int, b1: int)
    ensures
        (a0 * a0 - 2 * (a1 * a1)) * (b0 * b0 - 2 * (b1 * b1)) == (a0 * b0 + 2 * (a1 * b1)) * (a0
            * b0 + 2 * (a1 * b1)) - 2 * ((a0 * b1 + a1 * b0) * (a0 * b1 + a1 * b0)),
{
    let (s, t, u, v) = (a0 * b0, a1 * b1, a0 * b1, a1 * b0);
    lemma_square_of_product(a0, b0);
    lemma_square_of_product(a1, b1);
    lemma_square_of_product(a0, b1);
    lemma_square_of_product(a1, b0);
    assert((a0 * b0) * (a1 * b1) == (a0 * b1) * (a1 * b0)) by (nonlinear_arith);
    assert((s + 2 * t) * (s + 2 * t) == s * s + 4 * (s * t) + 4 * (t * t)) by (nonlinear_arith);
    assert((u + v) * (u + v) == u * u + 2 * (u * v) + v * v) by (nonlinear_arith);
    let (p, q, r, w) = (a0 * a0, a1 * a1, b0 * b0, b1 * b1);
    assert((p - 2 * q) * (r - 2 * w) == p * r - 2 * (p * w) - 2 * (q * r) + 4 * (q * w))
        by (nonlinear_arith);
}

proof fn lemma_square_of_product(x: int, y: int)
    ensures
        (x * y) * (x * y) == (x * x) * (y * y),
{
    assert((x * y) * (x * y) == (x * x) * (y * y)) by (nonlinear_arith);
}

/// Three factors in another order.
proof fn lemma_triple(x: int, y: int, z: int)
    ensures
        (x * y) * z == (y * z) * x,
{
    assert((x * y) * z == (y * z) * x) by (nonlinear_arith);
}

/// A factor goes over a sum.
proof fn lemma_spread(x: int, y: int, z: int)
    ensures
        (x + 2 * y) * z == x * z + 2 * (y * z),
        (x + y) * z == x * z + y * z,
{
    assert((x + 2 * y) * z == x * z + 2 * (y * z)) by (nonlinear_arith);
    assert((x + y) * z == x * z + y * z) by (nonlinear_arith);
}

impl<const P: u128> Field for Ext2<P> {
    open spec fn zero_spec() -> Self {
        Self::pair(0, 0)
    }

    open spec fn one_spec() -> Self {
        Self::pair(1, 0)
    }

    open spec fn spec_add(self, rhs: Self) -> Self {
        Self::pair(self.re() + rhs.re(), self.im() + rhs.im())
    }

    open spec fn spec_sub(self, rhs: Self) -> Self {
        Self::pair(self.re() - rhs.re(), self.im() - rhs.im())
    }

    open spec fn spec_mul(self, rhs: Self) -> Self {
        Self::pair(
            self.re() * rhs.re() + 2 * (self.im() * rhs.im()),
            self.re() * rhs.im() + self.im() * rhs.re(),
        )
    }

    open spec fn spec_neg(self) -> Self {
        Self::pair(-self.re(), -self.im())
    }

    open spec fn of_int(z: int) -> Self {
        Self::pair(z, 0)
    }

    proof fn law_add_commutes(a: Self, b: Self) {
    }

    proof fn law_add_associates(a: Self, b: Self, c: Self) {
        PrimeField::<P>::law_add_associates(a.c0, b.c0, c.c0);
        PrimeField::<P>::law_add_associates(a.c1, b.c1, c.c1);
    }

    proof fn law_mul_commutes(a: Self, b: Self) {
        let (a0, a1, b0, b1) = (a.re(), a.im(), b.re(), b.im());
        assert(a0 * b0 == b0 * a0 && a1 * b1 == b1 * a1 && a0 * b1 == b1 * a0 && a1 * b0 == b0 * a1)
            by (nonlinear_arith);
    }

    proof fn law_mul_associates(a: Self, b: Self, c: Self) {
        let (a0, a1, b0, b1, c0, c1) = (a.re(), a.im(), b.re(), b.im(), c.re(), c.im());
        Self::lemma_left(a0 * b0 + 2 * (a1 * b1), a0 * b1 + a1 * b0, c);
        Self::law_mul_commutes(a, b * c);
        Self::lemma_left(b0 * c0 + 2 * (b1 * c1), b0 * c1 + b1 * c0, a);
        lemma_spread(a0 * b0, a1 * b1, c0);
        lemma_spread(a0 * b1, a1 * b0, c1);
        lemma_spread(a0 * b0, a1 * b1, c1);
        lemma_spread(a0 * b1, a1 * b0, c0);
        lemma_spread(b0 * c0, b1 * c1, a0);
        lemma_spread(b0 * c1, b1 * c0, a1);
        lemma_spread(b0 * c0, b1 * c1, a1);
        lemma_spread(b0 * c1, b1 * c0, a0);
        lemma_triple(a0, b0, c0);
        lemma_triple(a1, b1, c0);
        lemma_triple(a0, b1, c1);
        lemma_triple(a1, b0, c1);
        lemma_triple(a0, b0, c1);
        lemma_triple(a1, b1, c1);
        lemma_triple(a0, b1, c0);
        lemma_triple(a1, b0, c0);
    }

    proof fn law_distributes(a: Self, b: Self, c: Self) {
        let (a0, a1, b0, b1, c0, c1) = (a.re(), a.im(), b.re(), b.im(), c.re(), c.im());
        Self::law_mul_commutes(a, b + c);
        Self::lemma_left(b0 + c0, b1 + c1, a);
        Self::lemma_sum(
            a0 * b0 + 2 * (a1 * b1),
            a0 * b1 + a1 * b0,
            a0 * c0 + 2 * (a1 * c1),
            a0 * c1 + a1 * c0,
        );
        assert((b0 + c0) * a0 + 2 * ((b1 + c1) * a1) == (a0 * b0 + 2 * (a1 * b1)) + (a0 * c0 + 2 * (
        a1 * c1))) by (nonlinear_arith);
        assert((b0 + c0) * a1 + (b1 + c1) * a0 == (a0 * b1 + a1 * b0) + (a0 * c1 + a1 * c0))
            by (nonlinear_arith);
    }

    proof fn law_reduced(a: Self, b: Self) {
        let (a0, a1, b0, b1) = (a.re(), a.im(), b.re(), b.im());
        PrimeField::<P>::law_reduced(a.c0, b.c0);
        PrimeField::<P>::law_reduced(a.c1, b.c1);
        Self::lemma_sum(a0 * b0 + 2 * (a1 * b1), a0 * b1 + a1 * b0, 0, 0);
    }

    proof fn law_identities(a: Self) {
        let (a0, a1) = (a.re(), a.im());
        Self::law_mul_commutes(a, Self::one_spec());
        Self::law_mul_commutes(a, Self::zero_spec());
        Self::lemma_left(1, 0, a);
        Self::lemma_left(0, 0, a);
        assert(1 * a0 + 2 * (0 * a1) == a0 && 1 * a1 + 0 * a0 == a1 && 0 * a0 + 2 * (0 * a1) == 0
            && 0 * a1 + 0 * a0 == 0) by (nonlinear_arith);
        PrimeField::<P>::law_identities(a.c0);
        PrimeField::<P>::law_identities(a.c1);
        Self::lemma_pair(0, 0);
        lemma_small_mod(0, PrimeField::<P>::modulus_spec() as nat);
    }

    proof fn law_negation(a: Self, b: Self) {
        PrimeField::<P>::law_negation(a.c0, b.c0);
        PrimeField::<P>::law_negation(a.c1, b.c1);
    }

    proof fn law_nontrivial() {
        PrimeField::<P>::law_nontrivial();
    }

    proof fn law_of_int(x: int, y: int) {
        Self::lemma_sum(x, 0, y, 0);
        Self::lemma_pair(y, 0);
        Self::lemma_pair(x, 0);
        lemma_small_mod(0, PrimeField::<P>::modulus_spec() as nat);
        let b = Self::pair(y, 0);
        Self::lemma_left(x, 0, b);
        assert(x * b.re() + 2 * (0 * b.im()) == x * b.re() && x * 0 + 0 * b.re() == 0)
            by (nonlinear_arith);
        lemma_reduced::<P>(y);
        lemma_times::<P>(b.re(), y, x);
        Self::lemma_same(x * b.re(), 0, x * y, 0);
        PrimeField::<P>::law_of_int(x, y);
    }

    fn zero() -> (r: Self) {
        Ext2 { c0: PrimeField::zero(), c1: PrimeField::zero() }
    }

    fn one() -> (r: Self) {
        Ext2 { c0: PrimeField::one(), c1: PrimeField::zero() }
    }

    fn add(self, rhs: Self) -> (r: Self) {
        Ext2 { c0: self.c0.add(rhs.c0), c1: self.c1.add(rhs.c1) }
    }

    fn sub(self, rhs: Self) -> (r: Self) {
        Ext2 { c0: self.c0.sub(rhs.c0), c1: self.c1.sub(rhs.c1) }
    }

    fn mul(self, rhs: Self) -> (r: Self) {
        let square = self.c1.mul(rhs.c1);
        let r = Ext2 {
            c0: self.c0.mul(rhs.c0).add(square.add(square)),
            c1: self.c0.mul(rhs.c1).add(self.c1.mul(rhs.c0)),
        };
        proof {
            let (a0, a1, b0, b1) = (self.re(), self.im(), rhs.re(), rhs.im());
            PrimeField::<P>::law_of_int(a1 * b1, a1 * b1);
            PrimeField::<P>::law_of_int(a0 * b0, a1 * b1 + a1 * b1);
            PrimeField::<P>::law_of_int(a0 * b1, a1 * b0);
        }
        r
    }

    fn neg(self) -> (r: Self) {
        Ext2 { c0: self.c0.neg(), c1: self.c1.neg() }
    }

    fn is_zero(self) -> (r: bool) {
        self.c0.is_zero() && self.c1.is_zero()
    }

    fn equals(self, rhs: Self) -> (r: bool) {
        self.c0.equals(rhs.c0) && self.c1.equals(rhs.c1)
    }

    fn inverse(self) -> (r: Option<Self>) {
        let square = self.c1.mul(self.c1);
        let norm = self.c0.mul(self.c0).sub(square.add(square));
        let ghost (a0, a1) = (self.re(), self.im());
        proof {
            lemma_norm_residue::<P>(self, norm);
        }
        match norm.inverse() {
            Some(scale) => {
                let r = Ext2 { c0: self.c0.mul(scale), c1: self.c1.neg().mul(scale) };
                proof {
                    lemma_inverse::<P>(self, norm, scale, r);
                }
                Some(r)
            },
            None => {
                proof {
                    assert forall|i: Self| self * i != Self::one_spec() by {
                        if self * i == Self::one_spec() {
                            lemma_unit_norm::<P>(self, i, norm);
                            assert(norm * PrimeField::<P>::residue(i.norm())
                                == PrimeField::<P>::one_spec());
                        }
                    }
                }
                None
            },
        }
    }

    fn settled(self) -> (r: Self) {
        Ext2 { c0: self.c0.settled(), c1: self.c1.settled() }
    }

    fn from_u64(value: u64) -> (r: Self) {
        Ext2 { c0: PrimeField::from_u64(value), c1: PrimeField::zero() }
    }

    fn from_i64(value: i64) -> (r: Self) {
        Ext2 { c0: PrimeField::from_i64(value), c1: PrimeField::zero() }
    }
}

proof fn lemma_norm_residue<const P: u128>(a: Ext2<P>, norm: PrimeField<P>)
    requires
        norm == a.c0 * a.c0 - (a.c1 * a.c1 + a.c1 * a.c1),
    ensures
        norm == PrimeField::<P>::residue(a.norm()),
{
    let (a0, a1) = (a.re(), a.im());
    PrimeField::<P>::law_of_int(a1 * a1, a1 * a1);
    PrimeField::<P>::law_of_int(a1 * a1 + a1 * a1, 0);
    PrimeField::<P>::law_of_int(a0 * a0, -(a1 * a1 + a1 * a1));
    PrimeField::<P>::law_negation(
        PrimeField::residue(a0 * a0),
        PrimeField::residue(a1 * a1 + a1 * a1),
    );
}

/// The conjugate over the norm is the inverse.
proof fn lemma_inverse<const P: u128>(
    a: Ext2<P>,
    norm: PrimeField<P>,
    scale: PrimeField<P>,
    r: Ext2<P>,
)
    requires
        norm == PrimeField::<P>::residue(a.norm()),
        norm * scale == PrimeField::<P>::one_spec(),
        r.c0 == a.c0 * scale,
        r.c1 == (-a.c1) * scale,
    ensures
        a * r == Ext2::<P>::one_spec(),
{
    let (a0, a1, s) = (a.re(), a.im(), scale.value_spec());
    let m = PrimeField::<P>::modulus_spec();
    // The coordinates of the conjugate over the norm.
    PrimeField::<P>::lemma_residue_value(-a1);
    lemma_reduced::<P>(-a1);
    lemma_times::<P>((-a1) % m, -a1, s);
    PrimeField::<P>::lemma_residue_congruent(((-a1) % m) * s, (-a1) * s);
    assert(r == Ext2::<P>::pair(a0 * s, (-a1) * s));
    Ext2::<P>::law_mul_commutes(a, r);
    Ext2::<P>::lemma_left(a0 * s, (-a1) * s, a);
    assert((a0 * s) * a0 + 2 * (((-a1) * s) * a1) == a.norm() * s) by (nonlinear_arith)
        requires
            a.norm() == a0 * a0 - 2 * (a1 * a1),
    ;
    assert((a0 * s) * a1 + ((-a1) * s) * a0 == 0) by (nonlinear_arith);
    // The norm and its inverse make one.
    PrimeField::<P>::lemma_residue_value(a.norm());
    lemma_reduced::<P>(a.norm());
    lemma_times::<P>(a.norm() % m, a.norm(), s);
    PrimeField::<P>::lemma_residue_value((a.norm() % m) * s);
    PrimeField::<P>::lemma_residue_value(1);
    Ext2::<P>::lemma_same(a.norm() * s, 0, 1, 0);
}

/// The norm of a unit is a unit.
proof fn lemma_unit_norm<const P: u128>(a: Ext2<P>, b: Ext2<P>, norm: PrimeField<P>)
    requires
        norm == PrimeField::<P>::residue(a.norm()),
        a * b == Ext2::<P>::one_spec(),
    ensures
        norm * PrimeField::<P>::residue(b.norm()) == PrimeField::<P>::one_spec(),
{
    let (a0, a1, b0, b1) = (a.re(), a.im(), b.re(), b.im());
    let x = a0 * b0 + 2 * (a1 * b1);
    let y = a0 * b1 + a1 * b0;
    Ext2::<P>::lemma_pair(x, y);
    Ext2::<P>::lemma_pair(1, 0);
    assert(congruent::<P>(x, 1) && congruent::<P>(y, 0));
    lemma_times::<P>(x, 1, x);
    lemma_times::<P>(y, 0, y);
    assert(x * 1 == x && y * 0 == 0);
    lemma_plus_twice::<P>(x * x, x, y * y, 0);
    assert(congruent::<P>(x * x - 2 * (y * y), 1));
    lemma_norm_multiplies(a0, a1, b0, b1);
    PrimeField::<P>::law_of_int(a.norm(), b.norm());
    PrimeField::<P>::lemma_residue_congruent(a.norm() * b.norm(), 1);
}

/// Whether an integer squares to two.
pub open spec fn squares_to_two(s: int, m: int) -> bool {
    (s * s) % m == 2int % m
}

/// The norm vanishes of zero alone where two is no square modulo a prime.
proof fn lemma_norm_vanishes(x: int, y: int, m: int)
    requires
        primality::is_prime(m),
        forall|s: int| !#[trigger] squares_to_two(s, m),
        (x * x - 2 * (y * y)) % m == 0,
    ensures
        x % m == 0,
        y % m == 0,
{
    if y % m != 0 {
        let t = lemma_unit(y, m);
        let n = x * x - 2 * (y * y);
        let (p, q) = (x * t, y * t);
        // The quotient of the coordinates squares to two.
        assert(p * p - 2 * (q * q) == n * (t * t)) by (nonlinear_arith)
            requires
                n == x * x - 2 * (y * y),
                p == x * t,
                q == y * t,
        ;
        lemma_mul_mod_noop_left(n, t * t, m);
        assert(0 * (t * t) == 0);
        lemma_small_mod(0, m as nat);
        lemma_mul_mod_noop(q, q, m);
        lemma_small_mod(1, m as nat);
        lemma_mul_mod_noop_right(2, q * q, m);
        lemma_add_mod_noop(p * p - 2 * (q * q), 2 * (q * q), m);
        lemma_mod_twice(2 * (q * q), m);
        assert(squares_to_two(p, m));
    } else if x % m != 0 {
        let t = lemma_unit(x, m);
        let p = x * t;
        lemma_mul_mod_noop_left(y, y, m);
        assert(0 * y == 0);
        lemma_small_mod(0, m as nat);
        lemma_mul_mod_noop_right(2, y * y, m);
        lemma_add_mod_noop(x * x - 2 * (y * y), 2 * (y * y), m);
        assert((x * x) % m == 0);
        assert(p * p == (x * x) * (t * t)) by (nonlinear_arith)
            requires
                p == x * t,
        ;
        lemma_mul_mod_noop_left(x * x, t * t, m);
        assert(0 * (t * t) == 0);
        lemma_mul_mod_noop(p, p, m);
        lemma_small_mod(1, m as nat);
    }
}

/// The inverse of an integer that a prime does not divide.
proof fn lemma_unit(x: int, m: int) -> (t: int)
    requires
        primality::is_prime(m),
        x % m != 0,
    ensures
        (x * t) % m == 1,
{
    lemma_mod_bound(x, m);
    primality::lemma_prime_inverse(x % m, m);
    let t = choose|t: int| #[trigger] primality::inverts(x % m, t, m);
    lemma_mul_mod_noop_left(x, t, m);
    t
}

/// Over a prime modulo which two is no square, the extension is a field.
pub proof fn law_extension_is_a_field<const P: u128>()
    requires
        primality::is_prime(PrimeField::<P>::modulus_spec()),
        forall|s: int| !#[trigger] squares_to_two(s, PrimeField::<P>::modulus_spec()),
    ensures
        crate::field::is_field::<Ext2<P>>(),
{
    let m = PrimeField::<P>::modulus_spec();
    let zero = Ext2::<P>::zero_spec();
    crate::prime_field::law_prime_moduli_make_fields::<P>();
    assert forall|a: Ext2<P>| #[trigger] (a + zero) != zero implies exists|i: Ext2<P>| #[trigger]
        (a * i) == Ext2::<P>::one_spec() by {
        let norm = PrimeField::<P>::residue(a.norm());
        let base_zero = PrimeField::<P>::zero_spec();
        PrimeField::<P>::lemma_residue_value(a.norm());
        PrimeField::<P>::lemma_residue_value(0);
        lemma_small_mod(0, m as nat);
        if a.norm() % m == 0 {
            lemma_norm_vanishes(a.re(), a.im(), m);
            Ext2::<P>::lemma_pair(0, 0);
            Ext2::<P>::lemma_same(a.re() + 0, a.im() + 0, 0, 0);
            assert(a + zero == zero);
        }
        PrimeField::<P>::law_of_int(a.norm(), 0);
        assert(norm + base_zero == norm);
        assert((norm + base_zero) != base_zero);
        let scale = choose|scale: PrimeField<P>| #[trigger]
            (norm * scale) == PrimeField::<P>::one_spec();
        let r = Ext2::<P> { c0: a.c0 * scale, c1: (-a.c1) * scale };
        lemma_inverse::<P>(a, norm, scale, r);
        assert(a * r == Ext2::<P>::one_spec());
    }
}

impl<const P: u128> Extension<P> for Ext2<P> {
    open spec fn coords(self) -> Seq<PrimeField<P>> {
        seq![self.c0, self.c1]
    }

    fn ext_coords(self) -> (r: Vec<PrimeField<P>>) {
        let mut coords: Vec<PrimeField<P>> = Vec::new();
        coords.push(self.c0);
        coords.push(self.c1);
        assert(coords@ =~= seq![self.c0, self.c1]);
        coords
    }

    fn from_u128(value: u128) -> (r: Self) {
        Ext2 { c0: PrimeField::from_u128_reduced(value), c1: PrimeField::zero() }
    }
}

} // verus!
