//! Integers modulo a constant, the coefficient type of the library.

use crate::cyclic;
use crate::field::Field;
use crate::primality;
use vstd::arithmetic::div_mod::*;
use vstd::arithmetic::mul::*;
use vstd::prelude::*;

verus! {

/// The integers modulo `P`, kept as their least nonnegative representative.
/// A parameter below two stands for two, the least modulus of a nontrivial ring.
#[derive(Clone, Copy, Debug, PartialEq, Eq)]
pub struct PrimeField<const P: u128> {
    value: u128,
}

/// The 32-bit prime `2^32 - 99`.
pub type Prime32Offset99 = PrimeField<4294967197>;

/// The 64-bit prime `2^64 - 59`.
pub type Prime64Offset59 = PrimeField<18446744073709551557>;

/// The 128-bit prime `2^128 - 275`.
pub type Prime128Offset275 = PrimeField<340282366920938463463374607431768211181>;

/// The field of `2^128 - 2^32 + 22537` elements.
pub type Prime128OffsetA7F7 = PrimeField<340282366920938463463374607427473266697>;

/// Adds two residues.
fn add_mod(a: u128, b: u128, m: u128) -> (r: u128)
    requires
        a < m,
        b < m,
    ensures
        r == (a + b) % m as int,
{
    if a >= m - b {
        proof {
            lemma_mod_add_multiples_vanish(a + b - m, m as int);
            lemma_small_mod((a + b - m) as nat, m as nat);
        }
        a - (m - b)
    } else {
        proof {
            lemma_small_mod((a + b) as nat, m as nat);
        }
        a + b
    }
}

/// Multiplies two residues, by repeated doubling once a product may not fit.
fn mul_mod(a: u128, b: u128, m: u128) -> (r: u128)
    requires
        a < m,
        b < m,
    ensures
        r == (a * b) % m as int,
{
    if m <= 0x1_0000_0000_0000_0000 {
        assert(a * b <= 0xffff_ffff_ffff_ffff * 0xffff_ffff_ffff_ffff) by (nonlinear_arith)
            requires
                a <= 0xffff_ffff_ffff_ffff,
                b <= 0xffff_ffff_ffff_ffff,
        ;
        return (a * b) % m;
    }
    let mut acc: u128 = 0;
    let mut base: u128 = a;
    let mut left: u128 = b;
    proof {
        assert(acc + base * left == a * b);
    }
    while left > 0
        invariant
            acc < m,
            base < m,
            (acc + base * left) % m as int == (a * b) % m as int,
        decreases left,
    {
        let ghost acc0 = acc as int;
        let ghost base0 = base as int;
        let ghost left0 = left as int;
        let odd = left % 2 == 1;
        if odd {
            acc = add_mod(acc, base, m);
        }
        base = add_mod(base, base, m);
        left = left / 2;
        proof {
            let d = m as int;
            let bit: int = if odd { 1 } else { 0 };
            assert(left0 == 2 * left + bit);
            assert(acc == (acc0 + bit * base0) % d) by {
                if odd {
                    assert(bit * base0 == base0);
                } else {
                    assert(bit * base0 == 0);
                    lemma_small_mod(acc0 as nat, d as nat);
                }
            }
            lemma_mul_mod_noop_left(base0 + base0, left as int, d);
            lemma_add_mod_noop(acc0 + bit * base0, (base0 + base0) * left, d);
            lemma_add_mod_noop(acc as int, base * left, d);
            lemma_mod_twice(acc0 + bit * base0, d);
            assert(acc0 + bit * base0 + (base0 + base0) * left == acc0 + base0 * left0)
                by (nonlinear_arith)
                requires
                    left0 == 2 * left + bit,
            ;
        }
    }
    proof {
        assert(base * 0 == 0) by (nonlinear_arith);
        lemma_small_mod(acc as nat, m as nat);
    }
    acc
}

impl<const P: u128> PrimeField<P> {
    /// The modulus as an integer.
    pub open spec fn modulus_spec() -> int {
        if P < 2 {
            2
        } else {
            P as int
        }
    }

    /// The representative of a value.
    pub closed spec fn value_spec(self) -> int {
        self.value as int
    }

    /// The residue of an integer.
    pub closed spec fn residue(z: int) -> Self {
        PrimeField { value: (z % Self::modulus_spec()) as u128 }
    }

    #[verifier::type_invariant]
    spec fn canonical(self) -> bool {
        self.value < Self::modulus_spec()
    }

    /// A residue is represented by its remainder.
    pub proof fn lemma_residue_value(z: int)
        ensures
            Self::residue(z).value_spec() == z % Self::modulus_spec(),
            0 <= z % Self::modulus_spec() < Self::modulus_spec() <= u128::MAX,
    {
        lemma_mod_bound(z, Self::modulus_spec());
    }

    /// Integers with equal remainders have equal residues.
    pub proof fn lemma_residue_congruent(x: int, y: int)
        requires
            x % Self::modulus_spec() == y % Self::modulus_spec(),
        ensures
            Self::residue(x) == Self::residue(y),
    {
    }

    /// The modulus.
    pub fn modulus() -> (m: u128)
        ensures
            m == Self::modulus_spec(),
    {
        if P < 2 {
            2
        } else {
            P
        }
    }

    /// The residue of a machine integer.
    pub fn from_u128_reduced(value: u128) -> (r: Self)
        ensures
            r == Self::residue(value as int),
            r.value_spec() == value as int % Self::modulus_spec(),
    {
        let m: u128 = Self::modulus();
        PrimeField { value: value % m }
    }

    /// The least nonnegative representative.
    pub fn to_u128(self) -> (v: u128)
        ensures
            v == self.value_spec(),
            v < Self::modulus_spec(),
            self == Self::residue(v as int),
    {
        proof {
            use_type_invariant(&self);
            lemma_small_mod(self.value as nat, Self::modulus_spec() as nat);
        }
        self.value
    }

    /// The inverse by the extended Euclidean algorithm, with the cofactor kept
    /// as a residue.
    fn inverse_residue(a: u128, m: u128) -> (r: Option<u128>)
        requires
            a < m,
            m >= 2,
        ensures
            match r {
                Some(i) => i < m && (a * i) % m as int == 1,
                None => forall|i: int| #[trigger] (a * i) % m as int != 1,
            },
    {
        let mut r0: u128 = m;
        let mut r1: u128 = a;
        let mut s0: u128 = 0;
        let mut s1: u128 = 1;
        let ghost d = m as int;
        let ghost mut m0: int = 1;
        let ghost mut m1: int = 0;
        let ghost mut a0: int = 0;
        let ghost mut a1: int = 1;
        proof {
            lemma_mod_self_0(d);
            lemma_mod_multiples_vanish(-1, 0, d);
            assert(s0 * a - r0 == d * (-1) + 0) by (nonlinear_arith)
                requires
                    s0 == 0,
                    r0 == d,
            ;
            lemma_small_mod(0, d as nat);
            assert(s1 * a - r1 == 0) by (nonlinear_arith)
                requires
                    s1 == 1,
                    r1 == a,
            ;
        }
        while r1 > 0
            invariant
                a < m,
                m >= 2,
                d == m,
                r0 > 0,
                r1 < r0,
                r0 <= m,
                s0 < m,
                s1 < m,
                (s0 * a - r0) % d == 0,
                (s1 * a - r1) % d == 0,
                m == m0 * r0 + m1 * r1,
                a == a0 * r0 + a1 * r1,
            decreases r1,
        {
            let q: u128 = r0 / r1;
            let r2: u128 = r0 % r1;
            let qm: u128 = q % m;
            let t: u128 = mul_mod(qm, s1, m);
            let s2: u128 = if t == 0 {
                s0
            } else {
                add_mod(s0, m - t, m)
            };
            proof {
                lemma_fundamental_div_mod(r0 as int, r1 as int);
                assert(r0 == q * r1 + r2) by {
                    lemma_mul_is_commutative(q as int, r1 as int);
                }
                lemma_euclid_step(
                    d,
                    a as int,
                    r0 as int,
                    r1 as int,
                    r2 as int,
                    s0 as int,
                    s1 as int,
                    s2 as int,
                    q as int,
                    t as int,
                );
                let n0 = m0;
                let n1 = m1;
                assert(m == (n0 * q + n1) * r1 + n0 * r2) by (nonlinear_arith)
                    requires
                        m == n0 * r0 + n1 * r1,
                        r0 == q * r1 + r2,
                ;
                m0 = n0 * q + n1;
                m1 = n0;
                let b0 = a0;
                let b1 = a1;
                assert(a == (b0 * q + b1) * r1 + b0 * r2) by (nonlinear_arith)
                    requires
                        a == b0 * r0 + b1 * r1,
                        r0 == q * r1 + r2,
                ;
                a0 = b0 * q + b1;
                a1 = b0;
            }
            r0 = r1;
            r1 = r2;
            s0 = s1;
            s1 = s2;
        }
        assert(m1 * r1 == 0 && a1 * r1 == 0) by (nonlinear_arith)
            requires
                r1 == 0,
        ;
        if r0 == 1 {
            proof {
                lemma_mul_is_commutative(s0 as int, a as int);
                lemma_mod_equivalence(a * s0, 1, d);
                lemma_small_mod(1, d as nat);
            }
            Some(s0)
        } else {
            proof {
                assert forall|i: int| #[trigger] (a * i) % d != 1 by {
                    if (a * i) % d == 1 {
                        let k = (a * i) / d;
                        lemma_fundamental_div_mod(a * i, d);
                        let g = r0 as int;
                        assert(g * (a0 * i - m0 * k) == 1) by (nonlinear_arith)
                            requires
                                a * i == d * k + 1,
                                a == a0 * g,
                                d == m0 * g,
                        ;
                        let w = a0 * i - m0 * k;
                        assert(g == 1) by (nonlinear_arith)
                            requires
                                g * w == 1,
                                g > 0,
                        ;
                    }
                }
            }
            None
        }
    }
}

/// One division step keeps the cofactors congruent to the remainders.
proof fn lemma_euclid_step(
    d: int,
    a: int,
    r0: int,
    r1: int,
    r2: int,
    s0: int,
    s1: int,
    s2: int,
    q: int,
    t: int,
)
    requires
        d >= 2,
        (s0 * a - r0) % d == 0,
        (s1 * a - r1) % d == 0,
        r0 == q * r1 + r2,
        0 <= t < d,
        0 <= s0 < d,
        t == ((q % d) * s1) % d,
        s2 == if t == 0 {
            s0
        } else {
            (s0 + (d - t)) % d
        },
    ensures
        (s2 * a - r2) % d == 0,
{
    lemma_mul_mod_noop_left(q, s1, d);
    assert(t == (q * s1) % d);
    // s2 is congruent to s0 - q s1.
    assert(s2 % d == (s0 - q * s1) % d) by {
        lemma_sub_mod_noop(s0, q * s1, d);
        lemma_sub_mod_noop(s0, t, d);
        lemma_small_mod(t as nat, d as nat);
        if t != 0 {
            lemma_mod_add_multiples_vanish(s0 - t, d);
            lemma_mod_twice(s0 + (d - t), d);
        }
    }
    let w = s0 - q * s1;
    lemma_mul_mod_noop_left(s2, a, d);
    lemma_mul_mod_noop_left(w, a, d);
    assert((s2 * a) % d == (w * a) % d);
    // w a - r2 = (s0 a - r0) - q (s1 a - r1).
    assert(w * a - r2 == (s0 * a - r0) - q * (s1 * a - r1)) by (nonlinear_arith)
        requires
            w == s0 - q * s1,
            r0 == q * r1 + r2,
    ;
    lemma_mul_mod_noop_right(q, s1 * a - r1, d);
    assert((q * (s1 * a - r1)) % d == 0) by {
        assert(q * 0 == 0);
        lemma_small_mod(0, d as nat);
    }
    lemma_sub_mod_noop(s0 * a - r0, q * (s1 * a - r1), d);
    lemma_small_mod(0, d as nat);
    lemma_sub_mod_noop(s2 * a, r2, d);
    lemma_sub_mod_noop(w * a, r2, d);
}

impl<const P: u128> Field for PrimeField<P> {
    open spec fn zero_spec() -> Self {
        Self::residue(0)
    }

    open spec fn one_spec() -> Self {
        Self::residue(1)
    }

    open spec fn spec_add(self, rhs: Self) -> Self {
        Self::residue(self.value_spec() + rhs.value_spec())
    }

    open spec fn spec_sub(self, rhs: Self) -> Self {
        Self::residue(self.value_spec() - rhs.value_spec())
    }

    open spec fn spec_mul(self, rhs: Self) -> Self {
        Self::residue(self.value_spec() * rhs.value_spec())
    }

    open spec fn spec_neg(self) -> Self {
        Self::residue(-self.value_spec())
    }

    open spec fn of_int(z: int) -> Self {
        Self::residue(z)
    }

    proof fn law_add_commutes(a: Self, b: Self) {
    }

    proof fn law_add_associates(a: Self, b: Self, c: Self) {
        let m = Self::modulus_spec();
        let (x, y, z) = (a.value_spec(), b.value_spec(), c.value_spec());
        Self::lemma_residue_value(x + y);
        Self::lemma_residue_value(y + z);
        lemma_add_mod_noop_right(z, x + y, m);
        lemma_add_mod_noop_right(x, y + z, m);
    }

    proof fn law_mul_commutes(a: Self, b: Self) {
        lemma_mul_is_commutative(a.value_spec(), b.value_spec());
    }

    proof fn law_mul_associates(a: Self, b: Self, c: Self) {
        let m = Self::modulus_spec();
        let (x, y, z) = (a.value_spec(), b.value_spec(), c.value_spec());
        Self::lemma_residue_value(x * y);
        Self::lemma_residue_value(y * z);
        lemma_mul_mod_noop_left(x * y, z, m);
        lemma_mul_mod_noop_right(x, y * z, m);
        lemma_mul_is_associative(x, y, z);
    }

    proof fn law_distributes(a: Self, b: Self, c: Self) {
        let m = Self::modulus_spec();
        let (x, y, z) = (a.value_spec(), b.value_spec(), c.value_spec());
        Self::lemma_residue_value(y + z);
        Self::lemma_residue_value(x * y);
        Self::lemma_residue_value(x * z);
        lemma_mul_mod_noop_right(x, y + z, m);
        lemma_add_mod_noop(x * y, x * z, m);
        lemma_mul_is_distributive_add(x, y, z);
    }

    proof fn law_reduced(a: Self, b: Self) {
        let m = Self::modulus_spec();
        let (x, y) = (a.value_spec(), b.value_spec());
        Self::lemma_residue_value(0);
        Self::lemma_residue_value(1);
        Self::lemma_residue_value(x);
        Self::lemma_residue_value(x * y);
        Self::lemma_residue_value(-x);
        lemma_small_mod(0, m as nat);
        lemma_small_mod(1, m as nat);
        lemma_add_mod_noop_right(y, x, m);
        lemma_mod_twice(x * y, m);
        lemma_mod_twice(-x, m);
    }

    proof fn law_identities(a: Self) {
        let m = Self::modulus_spec();
        let x = a.value_spec();
        Self::lemma_residue_value(0);
        Self::lemma_residue_value(1);
        lemma_small_mod(0, m as nat);
        lemma_small_mod(1, m as nat);
        assert(x * 1 == x);
        assert(x * 0 == 0);
    }

    proof fn law_negation(a: Self, b: Self) {
        let m = Self::modulus_spec();
        let (x, y) = (a.value_spec(), b.value_spec());
        Self::lemma_residue_value(-x);
        Self::lemma_residue_value(-y);
        lemma_add_mod_noop_right(x, -x, m);
        lemma_add_mod_noop_right(x, -y, m);
    }

    proof fn law_nontrivial() {
        let m = Self::modulus_spec();
        Self::lemma_residue_value(0);
        Self::lemma_residue_value(1);
        lemma_small_mod(0, m as nat);
        lemma_small_mod(1, m as nat);
    }

    proof fn law_of_int(x: int, y: int) {
        let m = Self::modulus_spec();
        Self::lemma_residue_value(x);
        Self::lemma_residue_value(y);
        lemma_add_mod_noop(x, y, m);
        lemma_mul_mod_noop(x, y, m);
        lemma_sub_mod_noop_right(0, x, m);
    }

    fn zero() -> (r: Self) {
        proof {
            lemma_small_mod(0, Self::modulus_spec() as nat);
        }
        PrimeField { value: 0 }
    }

    fn one() -> (r: Self) {
        proof {
            lemma_small_mod(1, Self::modulus_spec() as nat);
        }
        PrimeField { value: 1 }
    }

    fn add(self, rhs: Self) -> (r: Self) {
        proof {
            use_type_invariant(&self);
            use_type_invariant(&rhs);
        }
        let m: u128 = Self::modulus();
        PrimeField { value: add_mod(self.value, rhs.value, m) }
    }

    fn sub(self, rhs: Self) -> (r: Self) {
        proof {
            use_type_invariant(&self);
            use_type_invariant(&rhs);
        }
        let m: u128 = Self::modulus();
        if rhs.value <= self.value {
            proof {
                lemma_small_mod((self.value - rhs.value) as nat, m as nat);
            }
            PrimeField { value: self.value - rhs.value }
        } else {
            proof {
                lemma_mod_add_multiples_vanish(self.value - rhs.value, m as int);
                lemma_small_mod((self.value - rhs.value + m) as nat, m as nat);
            }
            PrimeField { value: m - (rhs.value - self.value) }
        }
    }

    fn mul(self, rhs: Self) -> (r: Self) {
        proof {
            use_type_invariant(&self);
            use_type_invariant(&rhs);
        }
        let m: u128 = Self::modulus();
        PrimeField { value: mul_mod(self.value, rhs.value, m) }
    }

    fn neg(self) -> (r: Self) {
        proof {
            use_type_invariant(&self);
        }
        let m: u128 = Self::modulus();
        if self.value == 0 {
            proof {
                lemma_small_mod(0, m as nat);
            }
            PrimeField { value: 0 }
        } else {
            proof {
                lemma_mod_add_multiples_vanish(-(self.value as int), m as int);
                lemma_small_mod((m - self.value) as nat, m as nat);
            }
            PrimeField { value: m - self.value }
        }
    }

    fn is_zero(self) -> (r: bool) {
        proof {
            lemma_small_mod(0, Self::modulus_spec() as nat);
        }
        self.value == 0
    }

    fn equals(self, rhs: Self) -> (r: bool) {
        self.value == rhs.value
    }

    fn inverse(self) -> (r: Option<Self>) {
        proof {
            use_type_invariant(&self);
            lemma_small_mod(1, Self::modulus_spec() as nat);
        }
        let m: u128 = Self::modulus();
        match Self::inverse_residue(self.value, m) {
            Some(i) => Some(PrimeField { value: i }),
            None => {
                proof {
                    assert forall|i: Self| self * i != Self::one_spec() by {
                        let z = self.value_spec() * i.value_spec();
                        Self::lemma_residue_value(z);
                        Self::lemma_residue_value(1);
                        assert((self.value * i.value_spec()) % m as int != 1);
                    }
                }
                None
            },
        }
    }

    fn settled(self) -> (r: Self) {
        proof {
            use_type_invariant(&self);
            lemma_small_mod(self.value as nat, Self::modulus_spec() as nat);
            lemma_small_mod(0, Self::modulus_spec() as nat);
        }
        self
    }

    fn from_u64(value: u64) -> (r: Self) {
        Self::from_u128_reduced(value as u128)
    }

    fn from_i64(value: i64) -> (r: Self) {
        if value >= 0 {
            Self::from_u128_reduced(value as u128)
        } else {
            let magnitude: u128 = (-(value as i128)) as u128;
            let r = Self::from_u128_reduced(magnitude);
            proof {
                Self::law_of_int(magnitude as int, 0);
            }
            r.neg()
        }
    }
}

/// Modulo an odd number every value has a half.
pub proof fn law_odd_moduli_halve<const P: u128>()
    requires
        P % 2 == 1,
        P > 1,
    ensures
        cyclic::halvable::<PrimeField<P>>(),
{
    let h = (P + 1) / 2;
    let half = PrimeField::<P>::of_int(h);
    PrimeField::<P>::law_of_int(1, 1);
    PrimeField::<P>::law_of_int(2, h);
    PrimeField::<P>::law_of_int(P as int, 1);
    assert(2 * h == P + 1);
    assert(PrimeField::<P>::of_int(P as int) == PrimeField::<P>::zero_spec()) by {
        lemma_mod_self_0(P as int);
        lemma_small_mod(0, P as nat);
    }
    PrimeField::<P>::law_add_commutes(
        PrimeField::<P>::zero_spec(),
        PrimeField::<P>::one_spec(),
    );
    PrimeField::<P>::law_reduced(PrimeField::<P>::one_spec(), PrimeField::<P>::one_spec());
    assert(cyclic::is_half(half));
}

/// Modulo a prime every residue but zero has an inverse.
pub proof fn law_prime_moduli_make_fields<const P: u128>()
    requires
        primality::is_prime(PrimeField::<P>::modulus_spec()),
    ensures
        crate::field::is_field::<PrimeField<P>>(),
{
    let m = PrimeField::<P>::modulus_spec();
    let zero = PrimeField::<P>::zero_spec();
    let one = PrimeField::<P>::one_spec();
    PrimeField::<P>::lemma_residue_value(0);
    lemma_small_mod(0, m as nat);
    assert forall|a: PrimeField<P>| #[trigger] (a + zero) != zero implies exists|i: PrimeField<P>|
        #[trigger]
        (a * i) == one by {
        let v = a.value_spec();
        let r = v % m;
        PrimeField::<P>::lemma_residue_value(v);
        if r == 0 {
            PrimeField::<P>::lemma_residue_congruent(v, 0);
        }
        primality::lemma_prime_inverse(r, m);
        let x = choose|x: int| #[trigger] primality::inverts(r, x, m);
        let i = PrimeField::<P>::residue(x);
        PrimeField::<P>::lemma_residue_value(x);
        lemma_mul_mod_noop(v, x, m);
        lemma_mul_mod_noop_right(r, x, m);
        lemma_mul_mod_noop_right(v, x, m);
        assert((r * x) % m == (v * x) % m);
        lemma_small_mod(1, m as nat);
        PrimeField::<P>::lemma_residue_congruent(v * (x % m), 1);
        assert(a * i == one);
    }
}

} // verus!
