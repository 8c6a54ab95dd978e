//! Certificates that the moduli of the library are prime.
//!
//! A certificate for `n` names a base `b` and one or two primes whose product
//! `f` exceeds the square root of `n`, with `b^f = 1` modulo `n`. No smaller power
//! of `b` is one modulo any divisor of `n`, so a divisor has at least `f` residues
//! and `n` has no proper one.

use crate::field::DivisionField;
use crate::prime_field::{
    Prime128Offset275, Prime128OffsetA7F7, Prime32Offset99, Prime64Offset59, PrimeField,
};
use crate::quadratic;
use crate::quadratic::Ext2;
use vstd::arithmetic::div_mod::*;
use vstd::arithmetic::mul::*;
use vstd::arithmetic::power::*;
use vstd::prelude::*;

verus! {

// ---------------------------------------------------------------------------
// Powers modulo an integer
// ---------------------------------------------------------------------------

/// What leaves one over modulo an integer does so modulo its divisors.
proof fn lemma_one_modulo_divisor(x: int, n: int, d: int)
    requires
        d > 1,
        n > 0,
        n % d == 0,
        x % n == 1,
    ensures
        x % d == 1,
{
    let q = x / n;
    let c = n / d;
    lemma_fundamental_div_mod(x, n);
    lemma_fundamental_div_mod(n, d);
    assert(x == d * (c * q) + 1) by (nonlinear_arith)
        requires
            x == n * q + 1,
            n == d * c,
    ;
    lemma_mod_multiples_vanish(c * q, 1, d);
    lemma_small_mod(1, d as nat);
}

/// A power of a power that is one is one.
proof fn lemma_power_of_one(b: int, k: nat, s: nat, d: int)
    requires
        d > 1,
        pow(b, k) % d == 1,
    ensures
        pow(b, k * s) % d == 1,
{
    lemma_pow_multiplies(b, k, s);
    lemma_pow_mod_noop(pow(b, k), s, d);
    lemma1_pow(s);
    lemma_small_mod(1, d as nat);
}

/// A factor that is one drops out.
proof fn lemma_times_one(x: int, y: int, d: int)
    requires
        d > 1,
        y % d == 1,
    ensures
        (x * y) % d == x % d,
        (y * x) % d == x % d,
{
    lemma_mul_mod_noop_right(x, y, d);
    lemma_mul_is_commutative(x, y);
    assert(x * 1 == x);
}

/// The power of twice the exponent.
proof fn lemma_doubled(b: int, n: int, e: nat, r: int, s: int)
    requires
        n > 0,
        pow(b, e) % n == r,
        (r * r) % n == s,
    ensures
        pow(b, 2 * e) % n == s,
{
    lemma_pow_adds(b, e, e);
    lemma_mul_mod_noop(pow(b, e), pow(b, e), n);
}

/// The power of twice the exponent and one more.
proof fn lemma_advanced(b: int, n: int, e: nat, r: int, s: int, t: int)
    requires
        n > 0,
        pow(b, e) % n == r,
        (r * r) % n == s,
        (s * b) % n == t,
    ensures
        pow(b, 2 * e + 1) % n == t,
{
    lemma_doubled(b, n, e, r, s);
    lemma_pow_adds(b, 2 * e, 1);
    lemma_pow1(b);
    lemma_mul_mod_noop_left(pow(b, 2 * e), b, n);
}

/// A power less one that has an inverse.
proof fn lemma_inverted(b: int, n: int, e: nat, r: int, u: int)
    requires
        n > 0,
        pow(b, e) % n == r,
        ((r - 1) * u) % n == 1,
    ensures
        ((pow(b, e) - 1) * u) % n == 1,
{
    lemma_mod_bound(pow(b, e), n);
    lemma_mod_twice(pow(b, e), n);
    lemma_sub_mod_noop(pow(b, e), 1, n);
    lemma_sub_mod_noop(r, 1, n);
    lemma_mul_mod_noop_left(pow(b, e) - 1, u, n);
    lemma_mul_mod_noop_left(r - 1, u, n);
}

// ---------------------------------------------------------------------------
// Certificates
// ---------------------------------------------------------------------------

/// Whether an integer is prime.
pub open spec fn is_prime(n: int) -> bool {
    n >= 2 && forall|d: int| 1 < d < n ==> #[trigger] (n % d) != 0
}

/// Whether two integers multiply to one.
pub open spec fn inverts(a: int, x: int, m: int) -> bool {
    (a * x) % m == 1
}

/// Modulo a prime every residue but zero has an inverse.
pub proof fn lemma_prime_inverse(a: int, m: int)
    requires
        is_prime(m),
        0 < a < m,
    ensures
        exists|x: int| #[trigger] inverts(a, x, m),
    decreases a,
{
    lemma_small_mod(1, m as nat);
    if a == 1 {
        assert(inverts(1, 1, m));
    } else {
        let r = m % a;
        let q = m / a;
        assert(m % a != 0);
        lemma_mod_bound(m, a);
        lemma_fundamental_div_mod(m, a);
        lemma_prime_inverse(r, m);
        let y = choose|y: int| #[trigger] inverts(r, y, m);
        let x = -(q * y);
        // a x = r y - m y
        assert(a * x == m * (-y) + r * y) by (nonlinear_arith)
            requires
                m == a * q + r,
                x == -(q * y),
        ;
        lemma_mod_multiples_vanish(-y, r * y, m);
        assert(inverts(a, x, m));
    }
}

/// A natural inverse of an integer that a prime does not divide.
proof fn lemma_inverse_of(k: nat, q: int) -> (s: nat)
    requires
        is_prime(q),
        k as int % q != 0,
    ensures
        (k * s) as int % q == 1,
{
    let r = k as int % q;
    lemma_mod_bound(k as int, q);
    lemma_prime_inverse(r, q);
    let x = choose|x: int| #[trigger] inverts(r, x, q);
    let s = x % q;
    lemma_mod_bound(x, q);
    lemma_mul_mod_noop_left(k as int, x, q);
    lemma_mul_mod_noop_right(k as int, x, q);
    s as nat
}

/// A power that is one has an exponent that the prime divides.
proof fn lemma_divides_exponent(b: int, k: nat, q: nat, o: nat, u: int, n: int, d: int)
    requires
        is_prime(q as int),
        d > 1,
        n > 0,
        n % d == 0,
        pow(b, q * o) % d == 1,
        ((pow(b, o) - 1) * u) % n == 1,
        pow(b, k) % d == 1,
    ensures
        k as int % q as int == 0,
{
    if k as int % q as int != 0 {
        let s = lemma_inverse_of(k, q as int);
        let t = (k * s) as int / q as int;
        lemma_fundamental_div_mod((k * s) as int, q as int);
        lemma_div_pos_is_pos((k * s) as int, q as int);
        lemma_power_of_one(b, k, s * o, d);
        lemma_power_of_one(b, q * o, t as nat, d);
        assert(k * (s * o) == o + (q * o) * t) by (nonlinear_arith)
            requires
                k * s == q * t + 1,
        ;
        lemma_pow_adds(b, o, ((q * o) * t) as nat);
        lemma_times_one(pow(b, o), pow(b, ((q * o) * t) as nat), d);
        // So the power to the other factor is one, which the certificate rules out.
        let x = pow(b, o) - 1;
        lemma_sub_mod_noop(pow(b, o), 1, d);
        lemma_small_mod(1, d as nat);
        lemma_small_mod(0, d as nat);
        lemma_one_modulo_divisor(x * u, n, d);
        lemma_mul_mod_noop_left(x, u, d);
        assert(0 * u == 0);
    }
}

/// No smaller power is one.
proof fn lemma_order(b: int, q: nat, o: nat, u: int, v: int, n: int, d: int, k: nat)
    requires
        certified(n, b, q, o, u, v),
        d > 1,
        n % d == 0,
        0 < k < q * o,
    ensures
        pow(b, k) % d != 1,
{
    if pow(b, k) % d == 1 {
        lemma_one_modulo_divisor(pow(b, q * o), n, d);
        lemma_divides_exponent(b, k, q, o, u, n, d);
        let m = k as int / q as int;
        lemma_fundamental_div_mod(k as int, q as int);
        lemma_div_pos_is_pos(k as int, q as int);
        assert(m > 0) by {
            if m == 0 {
                assert(q * 0 == 0);
            }
        }
        if o > 1 {
            lemma_mul_is_commutative(q as int, o as int);
            lemma_divides_exponent(b, k, o, q, v, n, d);
            assert(q as int % o as int != 0) by {
                if q < o {
                    lemma_small_mod(q, o);
                }
            }
            let s = lemma_inverse_of(q, o as int);
            // m = m q s = k s = 0 modulo the other prime.
            lemma_times_one(m, (q * s) as int, o as int);
            assert(m * (q * s) == k * s) by (nonlinear_arith)
                requires
                    k == q * m,
            ;
            lemma_mul_mod_noop_left(k as int, s as int, o as int);
            assert(0 * s == 0);
            lemma_small_mod(0, o);
            if m < o {
                lemma_small_mod(m as nat, o);
            }
            assert(q * m >= q * o) by (nonlinear_arith)
                requires
                    m >= o,
                    q >= 0,
            ;
        } else {
            assert(q * m >= q * o) by (nonlinear_arith)
                requires
                    m >= 1,
                    o == 1,
                    q >= 0,
            ;
        }
    }
}

/// Whether integers certify that `n` is prime: `q` is prime, and so is `o` unless
/// it is one; the power of `b` to their product is one, while that to either is
/// not one modulo any divisor of `n`.
pub open spec fn certified(n: int, b: int, q: nat, o: nat, u: int, v: int) -> bool {
    &&& n > 1
    &&& is_prime(q as int)
    &&& o == 1 || (is_prime(o as int) && o != q)
    &&& pow(b, q * o) % n == 1
    &&& ((pow(b, o) - 1) * u) % n == 1
    &&& o > 1 ==> ((pow(b, q) - 1) * v) % n == 1
    &&& (q * o) * (q * o) > n
}

/// The powers below the order are distinct.
proof fn lemma_distinct_powers(b: int, q: nat, o: nat, u: int, v: int, n: int, d: int, i: nat, j: nat)
    requires
        certified(n, b, q, o, u, v),
        d > 1,
        n % d == 0,
        i < j < q * o,
    ensures
        pow(b, i) % d != pow(b, j) % d,
{
    let f = q * o;
    let k = (j - i) as nat;
    if pow(b, i) % d == pow(b, j) % d {
        let w = pow(b, (f - i) as nat);
        lemma_one_modulo_divisor(pow(b, f), n, d);
        lemma_pow_adds(b, (f - i) as nat, i);
        lemma_pow_adds(b, (f - i) as nat, j);
        lemma_pow_adds(b, k, f);
        lemma_mul_mod_noop_right(w, pow(b, i), d);
        lemma_mul_mod_noop_right(w, pow(b, j), d);
        lemma_times_one(pow(b, k), pow(b, f), d);
        lemma_order(b, q, o, u, v, n, d, k);
    }
}

/// A divisor has at least as many residues as there are distinct powers.
proof fn lemma_divisors_are_large(b: int, q: nat, o: nat, u: int, v: int, n: int, d: int)
    requires
        certified(n, b, q, o, u, v),
        d > 1,
        n % d == 0,
    ensures
        q * o <= d,
{
    let f = (q * o) as int;
    let exponents = vstd::set_lib::set_int_range(0, f);
    let residues = vstd::set_lib::set_int_range(0, d);
    let power = |i: int| pow(b, i as nat) % d;
    let image = exponents.map(power);
    vstd::set_lib::lemma_int_range(0, f);
    vstd::set_lib::lemma_int_range(0, d);
    assert(vstd::relations::injective_on(power, exponents)) by {
        assert forall|i: int, j: int|
            #![trigger power(i), power(j)]
            exponents.contains(i) && exponents.contains(j) && power(i) == power(j) implies i
            == j by {
            if i < j {
                lemma_distinct_powers(b, q, o, u, v, n, d, i as nat, j as nat);
            } else if j < i {
                lemma_distinct_powers(b, q, o, u, v, n, d, j as nat, i as nat);
            }
        }
    }
    vstd::set_lib::lemma_map_size(exponents, image, power);
    assert forall|r: int| image.contains(r) implies residues.contains(r) by {
        let i = choose|i: int| exponents.contains(i) && power(i) == r;
        lemma_mod_bound(pow(b, i as nat), d);
    }
    vstd::set_lib::lemma_len_subset(image, residues);
}

/// What a certificate certifies is prime.
pub proof fn law_certified_are_prime(n: int, b: int, q: nat, o: nat, u: int, v: int)
    requires
        certified(n, b, q, o, u, v),
    ensures
        is_prime(n),
{
    let f = (q * o) as int;
    assert forall|d: int| 1 < d < n implies #[trigger] (n % d) != 0 by {
        if n % d == 0 {
            let e = n / d;
            lemma_fundamental_div_mod(n, d);
            lemma_div_pos_is_pos(n, d);
            assert(e > 1) by {
                assert(d * 0 == 0);
                assert(d * 1 == d);
            }
            lemma_mul_is_commutative(d, e);
            lemma_fundamental_div_mod_converse(n, e, d, 0);
            lemma_divisors_are_large(b, q, o, u, v, n, d);
            lemma_divisors_are_large(b, q, o, u, v, n, e);
            assert(f * f <= d * e) by (nonlinear_arith)
                requires
                    0 <= f <= d,
                    f <= e,
            ;
        }
    }
}

// ---------------------------------------------------------------------------
// Powers modulo a prime
// ---------------------------------------------------------------------------

/// The product of a list.
spec fn product(list: Seq<int>) -> int {
    list.fold_left(1, |total: int, x: int| total * x)
}

/// The integers from one to `n`.
spec fn counting(n: nat) -> Seq<int> {
    Seq::new(n, |i: int| i + 1)
}

/// Their multiples by `a` modulo `p`.
spec fn multiples(a: int, p: int, n: nat) -> Seq<int> {
    Seq::new(n, |i: int| (a * (i + 1)) % p)
}

/// A factor with an inverse cancels.
proof fn lemma_cancels(a: int, t: int, x: int, y: int, p: int)
    requires
        p > 1,
        (a * t) % p == 1,
        (a * x) % p == (a * y) % p,
    ensures
        x % p == y % p,
{
    lemma_times_one(x, a * t, p);
    lemma_times_one(y, a * t, p);
    assert(x * (a * t) == (a * x) * t) by (nonlinear_arith);
    assert(y * (a * t) == (a * y) * t) by (nonlinear_arith);
    lemma_mul_mod_noop_left(a * x, t, p);
    lemma_mul_mod_noop_left(a * y, t, p);
}

/// The product of the multiples.
proof fn lemma_product_of_multiples(a: int, p: int, n: nat)
    requires
        p > 1,
    ensures
        product(multiples(a, p, n)) % p == (pow(a, n) * product(counting(n))) % p,
    decreases n,
{
    let f = |total: int, x: int| total * x;
    if n == 0 {
        lemma_pow0(a);
        assert(multiples(a, p, 0).len() == 0 && counting(0).len() == 0);
    } else {
        let k = (n - 1) as nat;
        let (c, m) = (product(counting(k)), product(multiples(a, p, k)));
        lemma_product_of_multiples(a, p, k);
        assert(multiples(a, p, n).drop_last() =~= multiples(a, p, k));
        assert(counting(n).drop_last() =~= counting(k));
        assert(product(multiples(a, p, n)) == m * ((a * n) % p));
        assert(product(counting(n)) == c * n);
        lemma_mul_mod_noop(m, a * n, p);
        lemma_mul_mod_noop_right(m, a * n, p);
        lemma_mul_mod_noop_left(m, a * n, p);
        lemma_mul_mod_noop_left(pow(a, k) * c, a * n, p);
        lemma_pow_adds(a, k, 1);
        lemma_pow1(a);
        assert((pow(a, k) * c) * (a * n) == (pow(a, k) * a) * (c * n)) by (nonlinear_arith);
    }
}

/// The product of integers below a prime has an inverse.
proof fn lemma_product_unit(p: int, n: nat) -> (w: int)
    requires
        is_prime(p),
        n < p,
    ensures
        (product(counting(n)) * w) % p == 1,
    decreases n,
{
    lemma_small_mod(1, p as nat);
    if n == 0 {
        assert(counting(0).len() == 0);
        1
    } else {
        let k = (n - 1) as nat;
        let c = product(counting(k));
        let w = lemma_product_unit(p, k);
        lemma_small_mod(n, p as nat);
        let t = lemma_inverse_of(n, p);
        assert(counting(n).drop_last() =~= counting(k));
        assert(product(counting(n)) == c * n);
        assert((c * n) * (w * t) == (c * w) * (n * t)) by (nonlinear_arith);
        lemma_times_one(c * w, (n * t) as int, p);
        w * t
    }
}

/// Multiplying by what a prime does not divide permutes the integers below it.
proof fn lemma_multiples_permute(a: nat, p: int)
    requires
        is_prime(p),
        a as int % p != 0,
    ensures
        multiples(a as int, p, (p - 1) as nat).to_multiset() == counting(
            (p - 1) as nat,
        ).to_multiset(),
{
    broadcast use vstd::multiset::group_multiset_axioms;

    let n = (p - 1) as nat;
    let list = multiples(a as int, p, n);
    let all = counting(n);
    let range = vstd::set_lib::set_int_range(1, p);
    let t = lemma_inverse_of(a, p);
    assert forall|i: int, j: int| 0 <= i < j < n implies list[i] != list[j] by {
        if list[i] == list[j] {
            lemma_cancels(a as int, t as int, i + 1, j + 1, p);
            lemma_small_mod((i + 1) as nat, p as nat);
            lemma_small_mod((j + 1) as nat, p as nat);
        }
    }
    assert(list.no_duplicates());
    assert(all.no_duplicates());
    list.unique_seq_to_set();
    all.unique_seq_to_set();
    vstd::set_lib::lemma_int_range(1, p);
    assert forall|x: int| list.to_set().contains(x) implies range.contains(x) by {
        let i = choose|i: int| 0 <= i < n && list[i] == x;
        lemma_mod_bound(a * (i + 1), p);
        if x == 0 {
            assert(a * 0 == 0);
            lemma_small_mod(0, p as nat);
            lemma_cancels(a as int, t as int, i + 1, 0, p);
            lemma_small_mod((i + 1) as nat, p as nat);
        }
    }
    assert forall|x: int| all.to_set().contains(x) implies range.contains(x) by {
        let i = choose|i: int| 0 <= i < n && all[i] == x;
    }
    vstd::seq_lib::seq_to_set_is_finite(list);
    vstd::seq_lib::seq_to_set_is_finite(all);
    vstd::set_lib::lemma_subset_equality(list.to_set(), range);
    vstd::set_lib::lemma_subset_equality(all.to_set(), range);
    list.lemma_multiset_has_no_duplicates();
    all.lemma_multiset_has_no_duplicates();
    assert forall|x: int| #[trigger] list.to_multiset().count(x) == all.to_multiset().count(x) by {
        vstd::seq_lib::to_multiset_contains(list, x);
        vstd::seq_lib::to_multiset_contains(all, x);
        assert(list.to_set().contains(x) == all.to_set().contains(x));
        assert(list.contains(x) == all.contains(x));
    }
    assert(list.to_multiset() =~= all.to_multiset());
}

/// Modulo a prime the power to one less than it is one, of everything but zero.
pub proof fn law_power_of_a_residue(a: nat, p: int)
    requires
        is_prime(p),
        a as int % p != 0,
    ensures
        pow(a as int, (p - 1) as nat) % p == 1,
{
    let n = (p - 1) as nat;
    let c = product(counting(n));
    let e = pow(a as int, n);
    let f = |total: int, x: int| total * x;
    assert(vstd::seq_lib::commutative_foldl(f)) by {
        assert forall|x: int, y: int, v: int| #[trigger] f(f(v, x), y) == f(f(v, y), x) by {
            assert((v * x) * y == (v * y) * x) by (nonlinear_arith);
        }
    }
    lemma_multiples_permute(a, p);
    vstd::seq_lib::lemma_fold_left_permutation(multiples(a as int, p, n), counting(n), f, 1);
    lemma_product_of_multiples(a as int, p, n);
    let w = lemma_product_unit(p, n);
    lemma_mul_is_commutative(e, c);
    assert(c * 1 == c);
    lemma_cancels(c, w, e, 1, p);
    lemma_small_mod(1, p as nat);
}

/// Two is no square modulo a prime where its power to half of one less is not one.
proof fn lemma_two_is_no_square(p: int, h: nat)
    requires
        is_prime(p),
        p > 2,
        2 * h == p - 1,
        pow(2, h) % p == p - 1,
    ensures
        forall|s: int| !#[trigger] quadratic::squares_to_two(s, p),
{
    assert forall|s: int| !#[trigger] quadratic::squares_to_two(s, p) by {
        if quadratic::squares_to_two(s, p) {
            let r = s % p;
            lemma_mod_bound(s, p);
            lemma_mul_mod_noop(s, s, p);
            lemma_small_mod(2, p as nat);
            lemma_small_mod(r as nat, p as nat);
            if r == 0 {
                assert(0 * 0 == 0);
                lemma_small_mod(0, p as nat);
            }
            law_power_of_a_residue(r as nat, p);
            lemma_pow1(r);
            lemma_pow_adds(r, 1, 1);
            lemma_pow_multiplies(r, 2, h);
            lemma_pow_mod_noop(r * r, h, p);
        }
    }
}

// ---------------------------------------------------------------------------
// Small primes
// ---------------------------------------------------------------------------

proof fn lemma_no_divisor_31(d: u32)
    by (bit_vector)
    requires
        1 < d < 31,
    ensures
        31u32 % d != 0,
{
}

proof fn lemma_prime_31()
    ensures
        is_prime(31),
{
    assert forall|d: int| 1 < d < 31 implies #[trigger] (31int % d) != 0 by {
        lemma_no_divisor_31(d as u32);
    }
}

proof fn lemma_no_divisor_37(d: u32)
    by (bit_vector)
    requires
        1 < d < 37,
    ensures
        37u32 % d != 0,
{
}

proof fn lemma_prime_37()
    ensures
        is_prime(37),
{
    assert forall|d: int| 1 < d < 37 implies #[trigger] (37int % d) != 0 by {
        lemma_no_divisor_37(d as u32);
    }
}

proof fn lemma_no_divisor_163(d: u32)
    by (bit_vector)
    requires
        1 < d < 163,
    ensures
        163u32 % d != 0,
{
}

proof fn lemma_prime_163()
    ensures
        is_prime(163),
{
    assert forall|d: int| 1 < d < 163 implies #[trigger] (163int % d) != 0 by {
        lemma_no_divisor_163(d as u32);
    }
}

proof fn lemma_no_divisor_173(d: u32)
    by (bit_vector)
    requires
        1 < d < 173,
    ensures
        173u32 % d != 0,
{
}

proof fn lemma_prime_173()
    ensures
        is_prime(173),
{
    assert forall|d: int| 1 < d < 173 implies #[trigger] (173int % d) != 0 by {
        lemma_no_divisor_173(d as u32);
    }
}

proof fn lemma_no_divisor_2131(d: u32)
    by (bit_vector)
    requires
        1 < d < 2131,
    ensures
        2131u32 % d != 0,
{
}

proof fn lemma_prime_2131()
    ensures
        is_prime(2131),
{
    assert forall|d: int| 1 < d < 2131 implies #[trigger] (2131int % d) != 0 by {
        lemma_no_divisor_2131(d as u32);
    }
}

proof fn lemma_no_divisor_2521(d: u32)
    by (bit_vector)
    requires
        1 < d < 2521,
    ensures
        2521u32 % d != 0,
{
}

proof fn lemma_prime_2521()
    ensures
        is_prime(2521),
{
    assert forall|d: int| 1 < d < 2521 implies #[trigger] (2521int % d) != 0 by {
        lemma_no_divisor_2521(d as u32);
    }
}

proof fn lemma_no_divisor_15331(d: u32)
    by (bit_vector)
    requires
        1 < d < 15331,
    ensures
        15331u32 % d != 0,
{
}

proof fn lemma_prime_15331()
    ensures
        is_prime(15331),
{
    assert forall|d: int| 1 < d < 15331 implies #[trigger] (15331int % d) != 0 by {
        lemma_no_divisor_15331(d as u32);
    }
}

proof fn lemma_no_divisor_36373(d: u32)
    by (bit_vector)
    requires
        1 < d < 36373,
    ensures
        36373u32 % d != 0,
{
}

proof fn lemma_prime_36373()
    ensures
        is_prime(36373),
{
    assert forall|d: int| 1 < d < 36373 implies #[trigger] (36373int % d) != 0 by {
        lemma_no_divisor_36373(d as u32);
    }
}

// ---------------------------------------------------------------------------
// The chain of certificates
// ---------------------------------------------------------------------------

proof fn lemma_prime_4294967197()
    ensures
        is_prime(4294967197),
{
    lemma_prime_2521();
    lemma_prime_163();
    lemma_pow1(657771774);
    lemma_advanced(657771774, 4294967197, 1, 657771774, 2714087989, 3870225561);
    lemma_doubled(657771774, 4294967197, 3, 3870225561, 3101511453);
    lemma_doubled(657771774, 4294967197, 6, 3101511453, 9831590);
    lemma_advanced(657771774, 4294967197, 12, 9831590, 1925159615, 3707934295);
    lemma_doubled(657771774, 4294967197, 25, 3707934295, 2971364855);
    lemma_doubled(657771774, 4294967197, 50, 2971364855, 1367705982);
    lemma_doubled(657771774, 4294967197, 100, 1367705982, 3973050685);
    lemma_advanced(657771774, 4294967197, 200, 3973050685, 858739832, 4172507710);
    lemma_doubled(657771774, 4294967197, 401, 4172507710, 1311389181);
    lemma_advanced(657771774, 4294967197, 802, 1311389181, 690483608, 1426498102);
    lemma_doubled(657771774, 4294967197, 1605, 1426498102, 3373241454);
    lemma_doubled(657771774, 4294967197, 3210, 3373241454, 2285691280);
    lemma_advanced(657771774, 4294967197, 6420, 2285691280, 2349335389, 2007342605);
    lemma_doubled(657771774, 4294967197, 12841, 2007342605, 3562916071);
    lemma_advanced(657771774, 4294967197, 25682, 3562916071, 1313794507, 2720064452);
    lemma_doubled(657771774, 4294967197, 51365, 2720064452, 2160843231);
    lemma_advanced(657771774, 4294967197, 102730, 2160843231, 1344921922, 2011338900);
    lemma_advanced(657771774, 4294967197, 205461, 2011338900, 240672115, 1);
    lemma_doubled(657771774, 4294967197, 1, 657771774, 2714087989);
    lemma_advanced(657771774, 4294967197, 2, 2714087989, 4096238916, 984319737);
    lemma_doubled(657771774, 4294967197, 5, 984319737, 2666966178);
    lemma_doubled(657771774, 4294967197, 10, 2666966178, 1609199758);
    lemma_doubled(657771774, 4294967197, 20, 1609199758, 1054108927);
    lemma_advanced(657771774, 4294967197, 40, 1054108927, 794480003, 3648240196);
    lemma_advanced(657771774, 4294967197, 81, 3648240196, 2529523917, 2798394587);
    lemma_doubled(657771774, 4294967197, 1, 657771774, 2714087989);
    lemma_doubled(657771774, 4294967197, 2, 2714087989, 4096238916);
    lemma_advanced(657771774, 4294967197, 4, 4096238916, 1918179653, 2870089176);
    lemma_advanced(657771774, 4294967197, 9, 2870089176, 3651183235, 3390904371);
    lemma_advanced(657771774, 4294967197, 19, 3390904371, 2940635613, 725269457);
    lemma_doubled(657771774, 4294967197, 39, 725269457, 2905641437);
    lemma_advanced(657771774, 4294967197, 78, 2905641437, 125671364, 2767120827);
    lemma_advanced(657771774, 4294967197, 157, 2767120827, 486594401, 2968053536);
    lemma_doubled(657771774, 4294967197, 315, 2968053536, 30715197);
    lemma_doubled(657771774, 4294967197, 630, 30715197, 3717157380);
    lemma_advanced(657771774, 4294967197, 1260, 3717157380, 3393874131, 1817116049);
    lemma_inverted(657771774, 4294967197, 163, 2798394587, 3452114185);
    lemma_inverted(657771774, 4294967197, 2521, 1817116049, 3895086906);
    assert(2521nat * 163nat == 410923);
    law_certified_are_prime(4294967197, 657771774, 2521, 163, 3452114185, 3895086906);
}

proof fn lemma_prime_5594472617641()
    ensures
        is_prime(5594472617641),
{
    lemma_prime_15331();
    lemma_prime_2131();
    lemma_pow1(552689412041);
    lemma_advanced(552689412041, 5594472617641, 1, 552689412041, 1367522132537, 4547743987999);
    lemma_advanced(552689412041, 5594472617641, 3, 4547743987999, 2945993898498, 1727276639574);
    lemma_advanced(552689412041, 5594472617641, 7, 1727276639574, 1052288259049, 772046452934);
    lemma_advanced(552689412041, 5594472617641, 15, 772046452934, 3706074649702, 4691607620648);
    lemma_doubled(552689412041, 5594472617641, 31, 4691607620648, 3560904544263);
    lemma_doubled(552689412041, 5594472617641, 62, 3560904544263, 4508011871779);
    lemma_advanced(552689412041, 5594472617641, 124, 4508011871779, 493570506927, 1258910836664);
    lemma_doubled(552689412041, 5594472617641, 249, 1258910836664, 1975527417319);
    lemma_advanced(552689412041, 5594472617641, 498, 1975527417319, 3119016703877, 3699452724355);
    lemma_doubled(552689412041, 5594472617641, 997, 3699452724355, 403582499579);
    lemma_doubled(552689412041, 5594472617641, 1994, 403582499579, 721603854030);
    lemma_doubled(552689412041, 5594472617641, 3988, 721603854030, 1927498899996);
    lemma_doubled(552689412041, 5594472617641, 7976, 1927498899996, 2891026069467);
    lemma_doubled(552689412041, 5594472617641, 15952, 2891026069467, 3556407971423);
    lemma_advanced(552689412041, 5594472617641, 31904, 3556407971423, 4355074559959, 222490188437);
    lemma_doubled(552689412041, 5594472617641, 63809, 222490188437, 1804947334860);
    lemma_advanced(552689412041, 5594472617641, 127618, 1804947334860, 5053316977152, 883484856093);
    lemma_doubled(552689412041, 5594472617641, 255237, 883484856093, 3705595166059);
    lemma_doubled(552689412041, 5594472617641, 510474, 3705595166059, 843176810567);
    lemma_advanced(552689412041, 5594472617641, 1020948, 843176810567, 3913095632302, 2608420594505);
    lemma_advanced(552689412041, 5594472617641, 2041897, 2608420594505, 5204687802380, 479582573363);
    lemma_doubled(552689412041, 5594472617641, 4083795, 479582573363, 795729808851);
    lemma_doubled(552689412041, 5594472617641, 8167590, 795729808851, 2680754808837);
    lemma_advanced(552689412041, 5594472617641, 16335180, 2680754808837, 2850036154072, 1);
    lemma_doubled(552689412041, 5594472617641, 1, 552689412041, 1367522132537);
    lemma_doubled(552689412041, 5594472617641, 2, 1367522132537, 4116572152014);
    lemma_doubled(552689412041, 5594472617641, 4, 4116572152014, 948608969768);
    lemma_doubled(552689412041, 5594472617641, 8, 948608969768, 950901804214);
    lemma_advanced(552689412041, 5594472617641, 16, 950901804214, 4446419187521, 4724465677733);
    lemma_doubled(552689412041, 5594472617641, 33, 4724465677733, 5051692401197);
    lemma_advanced(552689412041, 5594472617641, 66, 5051692401197, 2554286273945, 5153863569035);
    lemma_doubled(552689412041, 5594472617641, 133, 5153863569035, 4874838264003);
    lemma_doubled(552689412041, 5594472617641, 266, 4874838264003, 1549243108211);
    lemma_advanced(552689412041, 5594472617641, 532, 1549243108211, 5366315547723, 5025837931916);
    lemma_advanced(552689412041, 5594472617641, 1065, 5025837931916, 2847441909852, 1852426820963);
    lemma_advanced(552689412041, 5594472617641, 1, 552689412041, 1367522132537, 4547743987999);
    lemma_advanced(552689412041, 5594472617641, 3, 4547743987999, 2945993898498, 1727276639574);
    lemma_doubled(552689412041, 5594472617641, 7, 1727276639574, 1052288259049);
    lemma_advanced(552689412041, 5594472617641, 14, 1052288259049, 3805792130117, 3214652403668);
    lemma_advanced(552689412041, 5594472617641, 29, 3214652403668, 2280140260691, 5356572467510);
    lemma_advanced(552689412041, 5594472617641, 59, 5356572467510, 1591219757465, 3866302258321);
    lemma_advanced(552689412041, 5594472617641, 119, 3866302258321, 5180071423700, 2357377625368);
    lemma_advanced(552689412041, 5594472617641, 239, 2357377625368, 5192614906273, 1780912999998);
    lemma_doubled(552689412041, 5594472617641, 479, 1780912999998, 5092139528736);
    lemma_doubled(552689412041, 5594472617641, 958, 5092139528736, 3189632930929);
    lemma_doubled(552689412041, 5594472617641, 1916, 3189632930929, 4128103346875);
    lemma_advanced(552689412041, 5594472617641, 3832, 4128103346875, 3119316699055, 5237160311195);
    lemma_advanced(552689412041, 5594472617641, 7665, 5237160311195, 1412212798087, 1346892610175);
    lemma_inverted(552689412041, 5594472617641, 2131, 1852426820963, 3161697676777);
    lemma_inverted(552689412041, 5594472617641, 15331, 1346892610175, 1933328135809);
    assert(15331nat * 2131nat == 32670361);
    law_certified_are_prime(5594472617641, 552689412041, 15331, 2131, 3161697676777, 1933328135809);
}

proof fn lemma_prime_18446744073709551557()
    ensures
        is_prime(18446744073709551557),
{
    lemma_prime_5594472617641();
    lemma_pow1(11493017446059487016);
    lemma_doubled(11493017446059487016, 18446744073709551557, 1, 11493017446059487016, 707738172700249187);
    lemma_advanced(11493017446059487016, 18446744073709551557, 2, 707738172700249187, 4218391128862535611, 12603256085745122044);
    lemma_doubled(11493017446059487016, 18446744073709551557, 5, 12603256085745122044, 3070276465859542178);
    lemma_doubled(11493017446059487016, 18446744073709551557, 10, 3070276465859542178, 3445201699927199592);
    lemma_doubled(11493017446059487016, 18446744073709551557, 20, 3445201699927199592, 5495123995007144820);
    lemma_advanced(11493017446059487016, 18446744073709551557, 40, 5495123995007144820, 14240951956709542307, 7267389047912579589);
    lemma_doubled(11493017446059487016, 18446744073709551557, 81, 7267389047912579589, 2545514892988531501);
    lemma_advanced(11493017446059487016, 18446744073709551557, 162, 2545514892988531501, 6322864115774317151, 6769489354311130466);
    lemma_advanced(11493017446059487016, 18446744073709551557, 325, 6769489354311130466, 18418489063413399753, 3742076373895185459);
    lemma_doubled(11493017446059487016, 18446744073709551557, 651, 3742076373895185459, 16893664101364135094);
    lemma_advanced(11493017446059487016, 18446744073709551557, 1302, 16893664101364135094, 14060724226836156062, 12570569503449865477);
    lemma_doubled(11493017446059487016, 18446744073709551557, 2605, 12570569503449865477, 10751228489876979079);
    lemma_doubled(11493017446059487016, 18446744073709551557, 5210, 10751228489876979079, 18149736518505526008);
    lemma_advanced(11493017446059487016, 18446744073709551557, 10420, 18149736518505526008, 15243608239685400147, 6969370660485990036);
    lemma_doubled(11493017446059487016, 18446744073709551557, 20841, 6969370660485990036, 15060727138206098671);
    lemma_doubled(11493017446059487016, 18446744073709551557, 41682, 15060727138206098671, 13582489635803617490);
    lemma_doubled(11493017446059487016, 18446744073709551557, 83364, 13582489635803617490, 14122594575804140753);
    lemma_doubled(11493017446059487016, 18446744073709551557, 166728, 14122594575804140753, 17095689938516471399);
    lemma_advanced(11493017446059487016, 18446744073709551557, 333456, 17095689938516471399, 2502823356314345788, 15896713296576974865);
    lemma_doubled(11493017446059487016, 18446744073709551557, 666913, 15896713296576974865, 8258455027259507795);
    lemma_doubled(11493017446059487016, 18446744073709551557, 1333826, 8258455027259507795, 3719908085082490393);
    lemma_doubled(11493017446059487016, 18446744073709551557, 2667652, 3719908085082490393, 5996784432043270228);
    lemma_advanced(11493017446059487016, 18446744073709551557, 5335304, 5996784432043270228, 11038613309972981515, 4584556924887289223);
    lemma_advanced(11493017446059487016, 18446744073709551557, 10670609, 4584556924887289223, 15760358738764796357, 14264922066832602577);
    lemma_doubled(11493017446059487016, 18446744073709551557, 21341219, 14264922066832602577, 11038291374004706135);
    lemma_advanced(11493017446059487016, 18446744073709551557, 42682438, 11038291374004706135, 17391818108843243567, 9424313153928960846);
    lemma_advanced(11493017446059487016, 18446744073709551557, 85364877, 9424313153928960846, 12727297881150956231, 11643026781013480449);
    lemma_doubled(11493017446059487016, 18446744073709551557, 170729755, 11643026781013480449, 11958245662470757497);
    lemma_doubled(11493017446059487016, 18446744073709551557, 341459510, 11958245662470757497, 2803077620483620943);
    lemma_advanced(11493017446059487016, 18446744073709551557, 682919020, 2803077620483620943, 2287400308388110268, 1611602363253227516);
    lemma_doubled(11493017446059487016, 18446744073709551557, 1365838041, 1611602363253227516, 1067009509658116802);
    lemma_advanced(11493017446059487016, 18446744073709551557, 2731676082, 1067009509658116802, 3727580736198351133, 1006968241440882785);
    lemma_advanced(11493017446059487016, 18446744073709551557, 5463352165, 1006968241440882785, 2982683727977224206, 3462094952625689253);
    lemma_doubled(11493017446059487016, 18446744073709551557, 10926704331, 3462094952625689253, 13006730677682223898);
    lemma_advanced(11493017446059487016, 18446744073709551557, 21853408662, 13006730677682223898, 2482068632392844887, 8517951063125016168);
    lemma_doubled(11493017446059487016, 18446744073709551557, 43706817325, 8517951063125016168, 3960158840834210521);
    lemma_advanced(11493017446059487016, 18446744073709551557, 87413634650, 3960158840834210521, 2568824574167429681, 12596247304770439012);
    lemma_doubled(11493017446059487016, 18446744073709551557, 174827269301, 12596247304770439012, 7694063513458488491);
    lemma_advanced(11493017446059487016, 18446744073709551557, 349654538602, 7694063513458488491, 1213791608083619123, 387603828884620487);
    lemma_doubled(11493017446059487016, 18446744073709551557, 699309077205, 387603828884620487, 2519434279401211148);
    lemma_doubled(11493017446059487016, 18446744073709551557, 1398618154410, 2519434279401211148, 12966300365218243182);
    lemma_advanced(11493017446059487016, 18446744073709551557, 2797236308820, 12966300365218243182, 8244393616749315422, 1);
    lemma_inverted(11493017446059487016, 18446744073709551557, 1, 11493017446059487016, 1898613474652435203);
    law_certified_are_prime(18446744073709551557, 11493017446059487016, 5594472617641, 1, 1898613474652435203, 0);
}

proof fn lemma_prime_15552701()
    ensures
        is_prime(15552701),
{
    lemma_prime_173();
    lemma_prime_31();
    lemma_pow1(11924456);
    lemma_doubled(11924456, 15552701, 1, 11924456, 13494203);
    lemma_advanced(11924456, 15552701, 2, 13494203, 2865049, 14585375);
    lemma_doubled(11924456, 15552701, 5, 14585375, 6887312);
    lemma_doubled(11924456, 15552701, 10, 6887312, 12854188);
    lemma_advanced(11924456, 15552701, 20, 12854188, 11170557, 12483083);
    lemma_advanced(11924456, 15552701, 41, 12483083, 12975878, 10039196);
    lemma_advanced(11924456, 15552701, 83, 10039196, 3460362, 1179168);
    lemma_advanced(11924456, 15552701, 167, 1179168, 10150123, 14357559);
    lemma_doubled(11924456, 15552701, 335, 14357559, 4340324);
    lemma_doubled(11924456, 15552701, 670, 4340324, 1153613);
    lemma_advanced(11924456, 15552701, 1340, 1153613, 9434601, 15520127);
    lemma_advanced(11924456, 15552701, 2681, 15520127, 3481808, 1);
    lemma_advanced(11924456, 15552701, 1, 11924456, 13494203, 1449089);
    lemma_advanced(11924456, 15552701, 3, 1449089, 11004406, 10774617);
    lemma_advanced(11924456, 15552701, 7, 10774617, 12517239, 3454256);
    lemma_advanced(11924456, 15552701, 15, 3454256, 7833346, 2850949);
    lemma_doubled(11924456, 15552701, 1, 11924456, 13494203);
    lemma_advanced(11924456, 15552701, 2, 13494203, 2865049, 14585375);
    lemma_doubled(11924456, 15552701, 5, 14585375, 6887312);
    lemma_advanced(11924456, 15552701, 10, 6887312, 12854188, 5544557);
    lemma_advanced(11924456, 15552701, 21, 5544557, 5868908, 4493381);
    lemma_doubled(11924456, 15552701, 43, 4493381, 3031064);
    lemma_advanced(11924456, 15552701, 86, 3031064, 10779273, 5046981);
    lemma_inverted(11924456, 15552701, 31, 2850949, 7922470);
    lemma_inverted(11924456, 15552701, 173, 5046981, 4217455);
    assert(173nat * 31nat == 5363);
    law_certified_are_prime(15552701, 11924456, 173, 31, 7922470, 4217455);
}

proof fn lemma_prime_799425410579267()
    ensures
        is_prime(799425410579267),
{
    lemma_prime_15552701();
    lemma_prime_37();
    lemma_pow1(319956617138799);
    lemma_doubled(319956617138799, 799425410579267, 1, 319956617138799, 569858404815785);
    lemma_doubled(319956617138799, 799425410579267, 2, 569858404815785, 226213800272876);
    lemma_doubled(319956617138799, 799425410579267, 4, 226213800272876, 285812736511733);
    lemma_advanced(319956617138799, 799425410579267, 8, 285812736511733, 793691410383350, 421943641133906);
    lemma_doubled(319956617138799, 799425410579267, 17, 421943641133906, 714409124507424);
    lemma_doubled(319956617138799, 799425410579267, 34, 714409124507424, 774763174750172);
    lemma_advanced(319956617138799, 799425410579267, 68, 774763174750172, 759187604285313, 191025842701036);
    lemma_doubled(319956617138799, 799425410579267, 137, 191025842701036, 75575327141624);
    lemma_doubled(319956617138799, 799425410579267, 274, 75575327141624, 99414204917295);
    lemma_advanced(319956617138799, 799425410579267, 548, 99414204917295, 379327854431286, 608486194480690);
    lemma_advanced(319956617138799, 799425410579267, 1097, 608486194480690, 793128686622675, 323893992630910);
    lemma_doubled(319956617138799, 799425410579267, 2195, 323893992630910, 528078378599122);
    lemma_doubled(319956617138799, 799425410579267, 4390, 528078378599122, 706841759161563);
    lemma_advanced(319956617138799, 799425410579267, 8780, 706841759161563, 608498007217723, 758011999929528);
    lemma_doubled(319956617138799, 799425410579267, 17561, 758011999929528, 140355687401376);
    lemma_advanced(319956617138799, 799425410579267, 35122, 140355687401376, 255343956680174, 617844420231790);
    lemma_doubled(319956617138799, 799425410579267, 70245, 617844420231790, 664954964327400);
    lemma_advanced(319956617138799, 799425410579267, 140490, 664954964327400, 527505783425939, 700091598441765);
    lemma_doubled(319956617138799, 799425410579267, 280981, 700091598441765, 64196609947922);
    lemma_advanced(319956617138799, 799425410579267, 561962, 64196609947922, 430668128746954, 223356635634928);
    lemma_advanced(319956617138799, 799425410579267, 1123925, 223356635634928, 412129181620862, 266514696127806);
    lemma_doubled(319956617138799, 799425410579267, 2247851, 266514696127806, 46438186950749);
    lemma_advanced(319956617138799, 799425410579267, 4495702, 46438186950749, 764013535645750, 790173263265211);
    lemma_doubled(319956617138799, 799425410579267, 8991405, 790173263265211, 676770686241544);
    lemma_advanced(319956617138799, 799425410579267, 17982810, 676770686241544, 207298174422629, 694853141372609);
    lemma_doubled(319956617138799, 799425410579267, 35965621, 694853141372609, 13614744956037);
    lemma_doubled(319956617138799, 799425410579267, 71931242, 13614744956037, 170035289696204);
    lemma_doubled(319956617138799, 799425410579267, 143862484, 170035289696204, 164538641535027);
    lemma_advanced(319956617138799, 799425410579267, 287724968, 164538641535027, 148832907392188, 1);
    lemma_doubled(319956617138799, 799425410579267, 1, 319956617138799, 569858404815785);
    lemma_doubled(319956617138799, 799425410579267, 2, 569858404815785, 226213800272876);
    lemma_advanced(319956617138799, 799425410579267, 4, 226213800272876, 285812736511733, 361895270129704);
    lemma_doubled(319956617138799, 799425410579267, 9, 361895270129704, 229231281176215);
    lemma_advanced(319956617138799, 799425410579267, 18, 229231281176215, 198974985055740, 406247683345964);
    lemma_advanced(319956617138799, 799425410579267, 1, 319956617138799, 569858404815785, 100563766181836);
    lemma_advanced(319956617138799, 799425410579267, 3, 100563766181836, 35859509899632, 325359643827480);
    lemma_doubled(319956617138799, 799425410579267, 7, 325359643827480, 148322466027018);
    lemma_advanced(319956617138799, 799425410579267, 14, 148322466027018, 507173784180242, 726453544464626);
    lemma_advanced(319956617138799, 799425410579267, 29, 726453544464626, 380957942301171, 688967551934972);
    lemma_doubled(319956617138799, 799425410579267, 59, 688967551934972, 523262366378496);
    lemma_advanced(319956617138799, 799425410579267, 118, 523262366378496, 488139586543029, 614193515994136);
    lemma_doubled(319956617138799, 799425410579267, 237, 614193515994136, 364658809594892);
    lemma_advanced(319956617138799, 799425410579267, 474, 364658809594892, 94537271074863, 359697962055864);
    lemma_doubled(319956617138799, 799425410579267, 949, 359697962055864, 43241941056423);
    lemma_advanced(319956617138799, 799425410579267, 1898, 43241941056423, 2453130323262, 85447260355456);
    lemma_doubled(319956617138799, 799425410579267, 3797, 85447260355456, 500929378162407);
    lemma_doubled(319956617138799, 799425410579267, 7594, 500929378162407, 104006382148617);
    lemma_doubled(319956617138799, 799425410579267, 15188, 104006382148617, 242980673526767);
    lemma_doubled(319956617138799, 799425410579267, 30376, 242980673526767, 81260957239841);
    lemma_advanced(319956617138799, 799425410579267, 60752, 81260957239841, 98931016859214, 35078356730676);
    lemma_doubled(319956617138799, 799425410579267, 121505, 35078356730676, 54335655365028);
    lemma_advanced(319956617138799, 799425410579267, 243010, 54335655365028, 494534627806492, 149064400738804);
    lemma_advanced(319956617138799, 799425410579267, 486021, 149064400738804, 282931205685915, 566320789570416);
    lemma_advanced(319956617138799, 799425410579267, 972043, 566320789570416, 770791551854587, 560007075937707);
    lemma_advanced(319956617138799, 799425410579267, 1944087, 560007075937707, 404445859821972, 413873882820946);
    lemma_doubled(319956617138799, 799425410579267, 3888175, 413873882820946, 570974760483737);
    lemma_advanced(319956617138799, 799425410579267, 7776350, 570974760483737, 731678890545993, 488692582555244);
    lemma_inverted(319956617138799, 799425410579267, 37, 406247683345964, 82733894664930);
    lemma_inverted(319956617138799, 799425410579267, 15552701, 488692582555244, 133224201611983);
    assert(15552701nat * 37nat == 575449937);
    law_certified_are_prime(799425410579267, 319956617138799, 15552701, 37, 82733894664930, 133224201611983);
}

proof fn lemma_prime_3162526924251580253()
    ensures
        is_prime(3162526924251580253),
{
    lemma_prime_799425410579267();
    lemma_pow1(1508646362666800350);
    lemma_doubled(1508646362666800350, 3162526924251580253, 1, 1508646362666800350, 1217140622546919701);
    lemma_advanced(1508646362666800350, 3162526924251580253, 2, 1217140622546919701, 1879101018523968487, 219985250788337354);
    lemma_advanced(1508646362666800350, 3162526924251580253, 5, 219985250788337354, 2785452081428755350, 749998796025499788);
    lemma_doubled(1508646362666800350, 3162526924251580253, 11, 749998796025499788, 1754337120154339932);
    lemma_advanced(1508646362666800350, 3162526924251580253, 22, 1754337120154339932, 1294109356826987502, 439733885542024250);
    lemma_doubled(1508646362666800350, 3162526924251580253, 45, 439733885542024250, 2147234079471979351);
    lemma_advanced(1508646362666800350, 3162526924251580253, 90, 2147234079471979351, 2901446621263645814, 932513896123101544);
    lemma_advanced(1508646362666800350, 3162526924251580253, 181, 932513896123101544, 1756769704031498971, 1017953159127626522);
    lemma_advanced(1508646362666800350, 3162526924251580253, 363, 1017953159127626522, 1435136960512583704, 2114511250189952730);
    lemma_doubled(1508646362666800350, 3162526924251580253, 727, 2114511250189952730, 607173703283451378);
    lemma_doubled(1508646362666800350, 3162526924251580253, 1454, 607173703283451378, 2973223758226336858);
    lemma_doubled(1508646362666800350, 3162526924251580253, 2908, 2973223758226336858, 81859429459855410);
    lemma_advanced(1508646362666800350, 3162526924251580253, 5816, 81859429459855410, 1163333381085963616, 160916089659523996);
    lemma_doubled(1508646362666800350, 3162526924251580253, 11633, 160916089659523996, 23471386977208969);
    lemma_doubled(1508646362666800350, 3162526924251580253, 23266, 23471386977208969, 2998630893991950122);
    lemma_advanced(1508646362666800350, 3162526924251580253, 46532, 2998630893991950122, 1791958905162787120, 1295521151963444918);
    lemma_doubled(1508646362666800350, 3162526924251580253, 93065, 1295521151963444918, 2997323850262021937);
    lemma_advanced(1508646362666800350, 3162526924251580253, 186130, 2997323850262021937, 2542171992407915309, 2117483192081686979);
    lemma_doubled(1508646362666800350, 3162526924251580253, 372261, 2117483192081686979, 3085869828564334752);
    lemma_advanced(1508646362666800350, 3162526924251580253, 744522, 3085869828564334752, 1014433060958757614, 1341927079906573733);
    lemma_advanced(1508646362666800350, 3162526924251580253, 1489045, 1341927079906573733, 469603604830689407, 1848557804029441794);
    lemma_advanced(1508646362666800350, 3162526924251580253, 2978091, 1848557804029441794, 1894561368534123253, 820545360740064063);
    lemma_doubled(1508646362666800350, 3162526924251580253, 5956183, 820545360740064063, 210174846849566475);
    lemma_advanced(1508646362666800350, 3162526924251580253, 11912366, 210174846849566475, 2630353727223901619, 3121828160813921678);
    lemma_advanced(1508646362666800350, 3162526924251580253, 23824733, 3121828160813921678, 913082617155820295, 260001855167818500);
    lemma_advanced(1508646362666800350, 3162526924251580253, 47649467, 260001855167818500, 2991111332336688446, 749159391438928365);
    lemma_doubled(1508646362666800350, 3162526924251580253, 95298935, 749159391438928365, 792170505619577019);
    lemma_doubled(1508646362666800350, 3162526924251580253, 190597870, 792170505619577019, 616994927439387332);
    lemma_advanced(1508646362666800350, 3162526924251580253, 381195740, 616994927439387332, 1580716908639509036, 1153882546592872658);
    lemma_advanced(1508646362666800350, 3162526924251580253, 762391481, 1153882546592872658, 2584338782836489505, 1814439094384200576);
    lemma_advanced(1508646362666800350, 3162526924251580253, 1524782963, 1814439094384200576, 520649003397570641, 1607516499490181718);
    lemma_advanced(1508646362666800350, 3162526924251580253, 3049565927, 1607516499490181718, 1775362119336587199, 2253398662760433628);
    lemma_advanced(1508646362666800350, 3162526924251580253, 6099131855, 2253398662760433628, 350183447402407542, 1495191856021215343);
    lemma_doubled(1508646362666800350, 3162526924251580253, 12198263711, 1495191856021215343, 167479124856706445);
    lemma_doubled(1508646362666800350, 3162526924251580253, 24396527422, 167479124856706445, 2661304548437370858);
    lemma_advanced(1508646362666800350, 3162526924251580253, 48793054844, 2661304548437370858, 1910895087018164388, 2669950947586767202);
    lemma_advanced(1508646362666800350, 3162526924251580253, 97586109689, 2669950947586767202, 570701216171492787, 1363095068508580314);
    lemma_advanced(1508646362666800350, 3162526924251580253, 195172219379, 1363095068508580314, 3111418906615142612, 2838765691370969131);
    lemma_doubled(1508646362666800350, 3162526924251580253, 390344438759, 2838765691370969131, 1716650597895943014);
    lemma_advanced(1508646362666800350, 3162526924251580253, 780688877518, 1716650597895943014, 2619545855681209917, 2923841566498552125);
    lemma_advanced(1508646362666800350, 3162526924251580253, 1561377755037, 2923841566498552125, 1971165995132091673, 2639823022077393302);
    lemma_doubled(1508646362666800350, 3162526924251580253, 3122755510075, 2639823022077393302, 1447640570638163052);
    lemma_advanced(1508646362666800350, 3162526924251580253, 6245511020150, 1447640570638163052, 3088469444612358119, 483312482328861356);
    lemma_doubled(1508646362666800350, 3162526924251580253, 12491022040301, 483312482328861356, 2947301475643896164);
    lemma_doubled(1508646362666800350, 3162526924251580253, 24982044080602, 2947301475643896164, 1815039699971313112);
    lemma_doubled(1508646362666800350, 3162526924251580253, 49964088161204, 1815039699971313112, 1788128409905867673);
    lemma_doubled(1508646362666800350, 3162526924251580253, 99928176322408, 1788128409905867673, 1171470745609141065);
    lemma_advanced(1508646362666800350, 3162526924251580253, 199856352644816, 1171470745609141065, 1126712917523280615, 3057380593188796633);
    lemma_advanced(1508646362666800350, 3162526924251580253, 399712705289633, 3057380593188796633, 2403836764488417354, 1);
    lemma_inverted(1508646362666800350, 3162526924251580253, 1, 1508646362666800350, 1744917526681696489);
    law_certified_are_prime(3162526924251580253, 1508646362666800350, 799425410579267, 1, 1744917526681696489, 0);
}

proof fn lemma_prime_599653055161190634931837()
    ensures
        is_prime(599653055161190634931837),
{
    lemma_prime_3162526924251580253();
    lemma_pow1(326650154581757699442265);
    lemma_doubled(326650154581757699442265, 599653055161190634931837, 1, 326650154581757699442265, 466959483765772722107044);
    lemma_advanced(326650154581757699442265, 599653055161190634931837, 2, 466959483765772722107044, 452654691101010967767942, 332584248436038184490040);
    lemma_doubled(326650154581757699442265, 599653055161190634931837, 5, 332584248436038184490040, 112892441912017677909614);
    lemma_advanced(326650154581757699442265, 599653055161190634931837, 10, 112892441912017677909614, 73154780480222339669084, 81452976461747086863251);
    lemma_advanced(326650154581757699442265, 599653055161190634931837, 21, 81452976461747086863251, 286658738810556258294189, 261159012988779384262971);
    lemma_advanced(326650154581757699442265, 599653055161190634931837, 43, 261159012988779384262971, 50095384992938362108679, 514095489456740532908238);
    lemma_advanced(326650154581757699442265, 599653055161190634931837, 87, 514095489456740532908238, 556509635202834730630925, 316994142360389306361982);
    lemma_advanced(326650154581757699442265, 599653055161190634931837, 175, 316994142360389306361982, 597354983281235223661295, 286448372134432789116449);
    lemma_doubled(326650154581757699442265, 599653055161190634931837, 351, 286448372134432789116449, 516303613325818294579341);
    lemma_doubled(326650154581757699442265, 599653055161190634931837, 702, 516303613325818294579341, 116527780572390456956811);
    lemma_doubled(326650154581757699442265, 599653055161190634931837, 1404, 116527780572390456956811, 420880150010474326948138);
    lemma_advanced(326650154581757699442265, 599653055161190634931837, 2808, 420880150010474326948138, 472729609299176900699326, 23243858881545448311282);
    lemma_advanced(326650154581757699442265, 599653055161190634931837, 5617, 23243858881545448311282, 71916906133023049140009, 220390702779196051314776);
    lemma_advanced(326650154581757699442265, 599653055161190634931837, 11235, 220390702779196051314776, 363927739184611852941966, 342790041583547872793480);
    lemma_doubled(326650154581757699442265, 599653055161190634931837, 22471, 342790041583547872793480, 87602168439882205397160);
    lemma_doubled(326650154581757699442265, 599653055161190634931837, 44942, 87602168439882205397160, 178681034702426825218628);
    lemma_doubled(326650154581757699442265, 599653055161190634931837, 89884, 178681034702426825218628, 434712879723924379340254);
    lemma_advanced(326650154581757699442265, 599653055161190634931837, 179768, 434712879723924379340254, 114667622773655552476123, 454384260360132220682658);
    lemma_advanced(326650154581757699442265, 599653055161190634931837, 359537, 454384260360132220682658, 220395799919635792455325, 458251957412563139601661);
    lemma_doubled(326650154581757699442265, 599653055161190634931837, 719075, 458251957412563139601661, 233317302742525375414880);
    lemma_advanced(326650154581757699442265, 599653055161190634931837, 1438150, 233317302742525375414880, 166999942317573298523113, 569124755839453228124454);
    lemma_doubled(326650154581757699442265, 599653055161190634931837, 2876301, 569124755839453228124454, 165004096759618656147992);
    lemma_advanced(326650154581757699442265, 599653055161190634931837, 5752602, 165004096759618656147992, 526018462138741221072441, 572145872087206962591541);
    lemma_advanced(326650154581757699442265, 599653055161190634931837, 11505205, 572145872087206962591541, 421750656321476269602348, 189905198313753766095999);
    lemma_advanced(326650154581757699442265, 599653055161190634931837, 23010411, 189905198313753766095999, 364753737367260015861054, 102542425208669495952515);
    lemma_advanced(326650154581757699442265, 599653055161190634931837, 46020823, 102542425208669495952515, 232785098759606631653974, 341705080274226798881114);
    lemma_doubled(326650154581757699442265, 599653055161190634931837, 92041647, 341705080274226798881114, 364502819520695097745953);
    lemma_advanced(326650154581757699442265, 599653055161190634931837, 184083294, 364502819520695097745953, 247482617433500901821300, 398140669102288537032091);
    lemma_advanced(326650154581757699442265, 599653055161190634931837, 368166589, 398140669102288537032091, 433011778330860538718909, 38626126746223609783617);
    lemma_doubled(326650154581757699442265, 599653055161190634931837, 736333179, 38626126746223609783617, 295850034331279967746342);
    lemma_advanced(326650154581757699442265, 599653055161190634931837, 1472666358, 295850034331279967746342, 505714914010153090343573, 88627087333170209883270);
    lemma_doubled(326650154581757699442265, 599653055161190634931837, 2945332717, 88627087333170209883270, 493093858493511063870361);
    lemma_advanced(326650154581757699442265, 599653055161190634931837, 5890665434, 493093858493511063870361, 427725875320769947833765, 156270519997407416132429);
    lemma_advanced(326650154581757699442265, 599653055161190634931837, 11781330869, 156270519997407416132429, 364871494086001614263182, 154076313970800596934999);
    lemma_doubled(326650154581757699442265, 599653055161190634931837, 23562661739, 154076313970800596934999, 436193462128689074222771);
    lemma_doubled(326650154581757699442265, 599653055161190634931837, 47125323478, 436193462128689074222771, 253583705252141622392914);
    lemma_doubled(326650154581757699442265, 599653055161190634931837, 94250646956, 253583705252141622392914, 338370151364595960328145);
    lemma_advanced(326650154581757699442265, 599653055161190634931837, 188501293912, 338370151364595960328145, 363948290837192983638819, 518758225751647150823455);
    lemma_doubled(326650154581757699442265, 599653055161190634931837, 377002587825, 518758225751647150823455, 173266475357468530131057);
    lemma_doubled(326650154581757699442265, 599653055161190634931837, 754005175650, 173266475357468530131057, 225689351152841895278529);
    lemma_advanced(326650154581757699442265, 599653055161190634931837, 1508010351300, 225689351152841895278529, 260095187836069488652098, 467718888184846364393350);
    lemma_advanced(326650154581757699442265, 599653055161190634931837, 3016020702601, 467718888184846364393350, 232785145299818116441636, 595264085257658504413047);
    lemma_advanced(326650154581757699442265, 599653055161190634931837, 6032041405203, 595264085257658504413047, 591691448786846741537516, 591374969412916268402449);
    lemma_advanced(326650154581757699442265, 599653055161190634931837, 12064082810407, 591374969412916268402449, 197011537313376889209074, 281447246086695626670591);
    lemma_advanced(326650154581757699442265, 599653055161190634931837, 24128165620815, 281447246086695626670591, 482350302419966312904660, 529852052326240504371972);
    lemma_advanced(326650154581757699442265, 599653055161190634931837, 48256331241631, 529852052326240504371972, 12391360404123756228790, 568589337539050727961091);
    lemma_advanced(326650154581757699442265, 599653055161190634931837, 96512662483263, 568589337539050727961091, 502060805284401655998105, 583387680740470727242125);
    lemma_doubled(326650154581757699442265, 599653055161190634931837, 193025324966527, 583387680740470727242125, 369373407436343119023884);
    lemma_doubled(326650154581757699442265, 599653055161190634931837, 386050649933054, 369373407436343119023884, 476222900941720165640863);
    lemma_doubled(326650154581757699442265, 599653055161190634931837, 772101299866108, 476222900941720165640863, 171841996340375586226714);
    lemma_advanced(326650154581757699442265, 599653055161190634931837, 1544202599732216, 171841996340375586226714, 390266516610344072771466, 18594927265835749642893);
    lemma_advanced(326650154581757699442265, 599653055161190634931837, 3088405199464433, 18594927265835749642893, 13170933969718103170136, 136526801863790621186361);
    lemma_advanced(326650154581757699442265, 599653055161190634931837, 6176810398928867, 136526801863790621186361, 119891168557531727555441, 199436217152214155088906);
    lemma_doubled(326650154581757699442265, 599653055161190634931837, 12353620797857735, 199436217152214155088906, 379195348476211439870883);
    lemma_advanced(326650154581757699442265, 599653055161190634931837, 24707241595715470, 379195348476211439870883, 219579515972883257502981, 367352426196351957482577);
    lemma_doubled(326650154581757699442265, 599653055161190634931837, 49414483191430941, 367352426196351957482577, 73843421213211181621860);
    lemma_advanced(326650154581757699442265, 599653055161190634931837, 98828966382861882, 73843421213211181621860, 250576725629180571391421, 88730782967674657372278);
    lemma_advanced(326650154581757699442265, 599653055161190634931837, 197657932765723765, 88730782967674657372278, 427536863158193955479982, 412569153235374071051976);
    lemma_advanced(326650154581757699442265, 599653055161190634931837, 395315865531447531, 412569153235374071051976, 18102332258589720824086, 531422676118628332519998);
    lemma_doubled(326650154581757699442265, 599653055161190634931837, 790631731062895063, 531422676118628332519998, 390221050281673158535926);
    lemma_advanced(326650154581757699442265, 599653055161190634931837, 1581263462125790126, 390221050281673158535926, 591402398858610382314047, 1);
    lemma_inverted(326650154581757699442265, 599653055161190634931837, 1, 326650154581757699442265, 219871897220163213027991);
    law_certified_are_prime(599653055161190634931837, 326650154581757699442265, 3162526924251580253, 1, 219871897220163213027991, 0);
}

proof fn lemma_prime_16188504610891458775612493217496109()
    ensures
        is_prime(16188504610891458775612493217496109),
{
    lemma_prime_599653055161190634931837();
    lemma_pow1(9115399494979970441684298343440323);
    lemma_advanced(9115399494979970441684298343440323, 16188504610891458775612493217496109, 1, 9115399494979970441684298343440323, 9441947754716127135481329236147452, 13155870647192939353516739082670706);
    lemma_advanced(9115399494979970441684298343440323, 16188504610891458775612493217496109, 3, 13155870647192939353516739082670706, 5072707541007451118898812872481709, 2239194765174340312558627484044039);
    lemma_advanced(9115399494979970441684298343440323, 16188504610891458775612493217496109, 7, 2239194765174340312558627484044039, 6101660329544900407251982339693794, 831972922003368469455082980625105);
    lemma_advanced(9115399494979970441684298343440323, 16188504610891458775612493217496109, 15, 831972922003368469455082980625105, 953008116165036946068060688077175, 15733396288071565953914443903275804);
    lemma_advanced(9115399494979970441684298343440323, 16188504610891458775612493217496109, 31, 15733396288071565953914443903275804, 4978360771017940375302768625950739, 13747850056228156260771041221919087);
    lemma_doubled(9115399494979970441684298343440323, 16188504610891458775612493217496109, 63, 13747850056228156260771041221919087, 16096073972427885194242019048799292);
    lemma_advanced(9115399494979970441684298343440323, 16188504610891458775612493217496109, 126, 16096073972427885194242019048799292, 13947008890837780450270463091000280, 6173799963117339661611727888591312);
    lemma_advanced(9115399494979970441684298343440323, 16188504610891458775612493217496109, 253, 6173799963117339661611727888591312, 6213519213049064172381718665973628, 8274941117608968929726779969837140);
    lemma_advanced(9115399494979970441684298343440323, 16188504610891458775612493217496109, 507, 8274941117608968929726779969837140, 3677442970861988003632787155108983, 4861226902583620687931449922821598);
    lemma_advanced(9115399494979970441684298343440323, 16188504610891458775612493217496109, 1015, 4861226902583620687931449922821598, 10151349151361148099469852796639622, 8925800263683298448186567421265461);
    lemma_advanced(9115399494979970441684298343440323, 16188504610891458775612493217496109, 2031, 8925800263683298448186567421265461, 2160077722338804845088933958994290, 10864168040775103425971963432028576);
    lemma_doubled(9115399494979970441684298343440323, 16188504610891458775612493217496109, 4063, 10864168040775103425971963432028576, 16174910898659414547487234236975272);
    lemma_advanced(9115399494979970441684298343440323, 16188504610891458775612493217496109, 8126, 16174910898659414547487234236975272, 8895401586553504834911280845857874, 3384016867546168340640730245026531);
    lemma_advanced(9115399494979970441684298343440323, 16188504610891458775612493217496109, 16253, 3384016867546168340640730245026531, 14986209062818158368282213076193969, 10693226472620912759939475522160552);
    lemma_doubled(9115399494979970441684298343440323, 16188504610891458775612493217496109, 32507, 10693226472620912759939475522160552, 7798508308922220164442099377264230);
    lemma_advanced(9115399494979970441684298343440323, 16188504610891458775612493217496109, 65014, 7798508308922220164442099377264230, 7475621479570396205727292549337924, 10878127807376480632907352469263423);
    lemma_doubled(9115399494979970441684298343440323, 16188504610891458775612493217496109, 130029, 10878127807376480632907352469263423, 14158160974319589450502086179416329);
    lemma_doubled(9115399494979970441684298343440323, 16188504610891458775612493217496109, 260058, 14158160974319589450502086179416329, 9151101990940303763471328405758654);
    lemma_doubled(9115399494979970441684298343440323, 16188504610891458775612493217496109, 520116, 9151101990940303763471328405758654, 6592208218442684819890449471361250);
    lemma_doubled(9115399494979970441684298343440323, 16188504610891458775612493217496109, 1040232, 6592208218442684819890449471361250, 15401459892885689156034159989944321);
    lemma_doubled(9115399494979970441684298343440323, 16188504610891458775612493217496109, 2080464, 15401459892885689156034159989944321, 1161067520220317957731564490926931);
    lemma_advanced(9115399494979970441684298343440323, 16188504610891458775612493217496109, 4160928, 1161067520220317957731564490926931, 4434423754096873606039195472451079, 3028662234111125617085261493455034);
    lemma_advanced(9115399494979970441684298343440323, 16188504610891458775612493217496109, 8321857, 3028662234111125617085261493455034, 4704761411423067240372004896216765, 1103874861981689147900096532672957);
    lemma_advanced(9115399494979970441684298343440323, 16188504610891458775612493217496109, 16643715, 1103874861981689147900096532672957, 4296532330979189530504769588031996, 8465633730921538345803497916620462);
    lemma_doubled(9115399494979970441684298343440323, 16188504610891458775612493217496109, 33287431, 8465633730921538345803497916620462, 15394763007983067453402140670319986);
    lemma_advanced(9115399494979970441684298343440323, 16188504610891458775612493217496109, 66574862, 15394763007983067453402140670319986, 7269504113134394186233929551397162, 3542298917396748362289742593870229);
    lemma_advanced(9115399494979970441684298343440323, 16188504610891458775612493217496109, 133149725, 3542298917396748362289742593870229, 14169280407313853856454692599573274, 5829331905620971117472743230745342);
    lemma_doubled(9115399494979970441684298343440323, 16188504610891458775612493217496109, 266299451, 5829331905620971117472743230745342, 9634940270983237619686455302101133);
    lemma_advanced(9115399494979970441684298343440323, 16188504610891458775612493217496109, 532598902, 9634940270983237619686455302101133, 986318154936941759376142248380399, 2369165649430452394970053084923125);
    lemma_advanced(9115399494979970441684298343440323, 16188504610891458775612493217496109, 1065197805, 2369165649430452394970053084923125, 2625125679885493844253201528459914, 3406204115391685139311333935741031);
    lemma_advanced(9115399494979970441684298343440323, 16188504610891458775612493217496109, 2130395611, 3406204115391685139311333935741031, 9559978559662746775299035022853013, 3373609175791158234737483002073396);
    lemma_doubled(9115399494979970441684298343440323, 16188504610891458775612493217496109, 4260791223, 3373609175791158234737483002073396, 11577108843796462300227981624746343);
    lemma_doubled(9115399494979970441684298343440323, 16188504610891458775612493217496109, 8521582446, 11577108843796462300227981624746343, 2341392591127899325150320076646378);
    lemma_advanced(9115399494979970441684298343440323, 16188504610891458775612493217496109, 17043164892, 2341392591127899325150320076646378, 2083443941117798952786950401103589, 270209602507540540460173228369892);
    lemma_advanced(9115399494979970441684298343440323, 16188504610891458775612493217496109, 34086329785, 270209602507540540460173228369892, 15687282358584535778358890958959827, 15413632650752860889736398874689607);
    lemma_doubled(9115399494979970441684298343440323, 16188504610891458775612493217496109, 68172659571, 15413632650752860889736398874689607, 1654529004236064027009934787137897);
    lemma_advanced(9115399494979970441684298343440323, 16188504610891458775612493217496109, 136345319142, 1654529004236064027009934787137897, 14167431557013164362171796237946255, 15324966575285737986059585602721887);
    lemma_advanced(9115399494979970441684298343440323, 16188504610891458775612493217496109, 272690638285, 15324966575285737986059585602721887, 12944156044939841424848885095886416, 12113719861052451754335309317049256);
    lemma_doubled(9115399494979970441684298343440323, 16188504610891458775612493217496109, 545381276571, 12113719861052451754335309317049256, 1268665818290522629699268824465908);
    lemma_doubled(9115399494979970441684298343440323, 16188504610891458775612493217496109, 1090762553142, 1268665818290522629699268824465908, 9632308832561878624045246628510277);
    lemma_doubled(9115399494979970441684298343440323, 16188504610891458775612493217496109, 2181525106284, 9632308832561878624045246628510277, 10093239546598816097100515330941566);
    lemma_doubled(9115399494979970441684298343440323, 16188504610891458775612493217496109, 4363050212568, 10093239546598816097100515330941566, 10586817107006684277463293098191517);
    lemma_advanced(9115399494979970441684298343440323, 16188504610891458775612493217496109, 8726100425136, 10586817107006684277463293098191517, 11328817433694624730205763344527813, 8617537008338499840977692956603547);
    lemma_advanced(9115399494979970441684298343440323, 16188504610891458775612493217496109, 17452200850273, 8617537008338499840977692956603547, 8455453589729760935434121326027035, 1509983763515287079352929912654965);
    lemma_doubled(9115399494979970441684298343440323, 16188504610891458775612493217496109, 34904401700547, 1509983763515287079352929912654965, 15257332836291781781624089081812792);
    lemma_advanced(9115399494979970441684298343440323, 16188504610891458775612493217496109, 69808803401094, 15257332836291781781624089081812792, 12103700136991047362867040612344126, 2001928353518121888382462282223692);
    lemma_doubled(9115399494979970441684298343440323, 16188504610891458775612493217496109, 139617606802189, 2001928353518121888382462282223692, 4642628142512137628437443597799220);
    lemma_advanced(9115399494979970441684298343440323, 16188504610891458775612493217496109, 279235213604378, 4642628142512137628437443597799220, 1088694496968328301522454855593597, 4257680531733772840329992000180972);
    lemma_advanced(9115399494979970441684298343440323, 16188504610891458775612493217496109, 558470427208757, 4257680531733772840329992000180972, 13056385087873598596167640903099468, 15741424335971517554001130052515875);
    lemma_doubled(9115399494979970441684298343440323, 16188504610891458775612493217496109, 1116940854417515, 15741424335971517554001130052515875, 10028992433797670392126685004792674);
    lemma_doubled(9115399494979970441684298343440323, 16188504610891458775612493217496109, 2233881708835030, 10028992433797670392126685004792674, 1658116337577840755846301890059858);
    lemma_advanced(9115399494979970441684298343440323, 16188504610891458775612493217496109, 4467763417670060, 1658116337577840755846301890059858, 16161576904802592295899172994858510, 11026351130180089335671625735124816);
    lemma_advanced(9115399494979970441684298343440323, 16188504610891458775612493217496109, 8935526835340121, 11026351130180089335671625735124816, 15737757603914877619820622947276022, 4822620527230144283252112815104382);
    lemma_advanced(9115399494979970441684298343440323, 16188504610891458775612493217496109, 17871053670680243, 4822620527230144283252112815104382, 2702312775223200869011333633488008, 4681390304129930716508755278593700);
    lemma_advanced(9115399494979970441684298343440323, 16188504610891458775612493217496109, 35742107341360487, 4681390304129930716508755278593700, 9450892831298439647107435814158690, 1503572567202776645584355869785140);
    lemma_doubled(9115399494979970441684298343440323, 16188504610891458775612493217496109, 71484214682720975, 1503572567202776645584355869785140, 9495159206183840894806143174191202);
    lemma_advanced(9115399494979970441684298343440323, 16188504610891458775612493217496109, 142968429365441950, 9495159206183840894806143174191202, 15645223296712079023695970367419575, 13099742477774357611267812499348437);
    lemma_doubled(9115399494979970441684298343440323, 16188504610891458775612493217496109, 285936858730883901, 13099742477774357611267812499348437, 2526620186488100071590245753534929);
    lemma_doubled(9115399494979970441684298343440323, 16188504610891458775612493217496109, 571873717461767802, 2526620186488100071590245753534929, 1409121429495206666030314269682448);
    lemma_doubled(9115399494979970441684298343440323, 16188504610891458775612493217496109, 1143747434923535604, 1409121429495206666030314269682448, 13853320897060750879110571901247753);
    lemma_advanced(9115399494979970441684298343440323, 16188504610891458775612493217496109, 2287494869847071208, 13853320897060750879110571901247753, 4872149443281027305116004058594185, 12658179002943654509396514636884809);
    lemma_doubled(9115399494979970441684298343440323, 16188504610891458775612493217496109, 4574989739694142417, 12658179002943654509396514636884809, 331554911818498841029138961718009);
    lemma_advanced(9115399494979970441684298343440323, 16188504610891458775612493217496109, 9149979479388284834, 331554911818498841029138961718009, 13188789235316223958421295287418615, 9844470513334332839071370523981835);
    lemma_advanced(9115399494979970441684298343440323, 16188504610891458775612493217496109, 18299958958776569669, 9844470513334332839071370523981835, 7119477054994481487105736032090683, 553872408742424768464510376910018);
    lemma_doubled(9115399494979970441684298343440323, 16188504610891458775612493217496109, 36599917917553139339, 553872408742424768464510376910018, 2187636422781228095359742231919936);
    lemma_doubled(9115399494979970441684298343440323, 16188504610891458775612493217496109, 73199835835106278678, 2187636422781228095359742231919936, 9642084731532652856139517814575671);
    lemma_doubled(9115399494979970441684298343440323, 16188504610891458775612493217496109, 146399671670212557356, 9642084731532652856139517814575671, 4575415296946314874585647796098981);
    lemma_advanced(9115399494979970441684298343440323, 16188504610891458775612493217496109, 292799343340425114712, 4575415296946314874585647796098981, 10746943705998013496140961193276871, 15690342488010813530604993793741930);
    lemma_advanced(9115399494979970441684298343440323, 16188504610891458775612493217496109, 585598686680850229425, 15690342488010813530604993793741930, 241696197394103209699321753113598, 2407905461531136184956047893027378);
    lemma_doubled(9115399494979970441684298343440323, 16188504610891458775612493217496109, 1171197373361700458851, 2407905461531136184956047893027378, 13179222647272824283600395667150253);
    lemma_doubled(9115399494979970441684298343440323, 16188504610891458775612493217496109, 2342394746723400917702, 13179222647272824283600395667150253, 10126225397735274764934743614770176);
    lemma_advanced(9115399494979970441684298343440323, 16188504610891458775612493217496109, 4684789493446801835404, 10126225397735274764934743614770176, 737239188672843438149087301978787, 10546902348906819866199739179084321);
    lemma_advanced(9115399494979970441684298343440323, 16188504610891458775612493217496109, 9369578986893603670809, 10546902348906819866199739179084321, 10633803730672676631770433107309107, 9078400705933233229511999701017822);
    lemma_advanced(9115399494979970441684298343440323, 16188504610891458775612493217496109, 18739157973787207341619, 9078400705933233229511999701017822, 3421635576829603843680730792094223, 3930024987316269101934500792510424);
    lemma_advanced(9115399494979970441684298343440323, 16188504610891458775612493217496109, 37478315947574414683239, 3930024987316269101934500792510424, 7779019971870742380394924646587111, 14216405277723411020987893693906607);
    lemma_advanced(9115399494979970441684298343440323, 16188504610891458775612493217496109, 74956631895148829366479, 14216405277723411020987893693906607, 8379886023767682896119671141282631, 1703627607994176381088750035377249);
    lemma_doubled(9115399494979970441684298343440323, 16188504610891458775612493217496109, 149913263790297658732959, 1703627607994176381088750035377249, 1555136550054162033735508507398083);
    lemma_advanced(9115399494979970441684298343440323, 16188504610891458775612493217496109, 299826527580595317465918, 1555136550054162033735508507398083, 15697774700976888884436682115921175, 1);
    lemma_inverted(9115399494979970441684298343440323, 16188504610891458775612493217496109, 1, 9115399494979970441684298343440323, 14710893096116601522659544114669513);
    law_certified_are_prime(16188504610891458775612493217496109, 9115399494979970441684298343440323, 599653055161190634931837, 1, 14710893096116601522659544114669513, 0);
}

proof fn lemma_prime_340282366920938463463374607431768211181()
    ensures
        is_prime(340282366920938463463374607431768211181),
{
    lemma_prime_16188504610891458775612493217496109();
    lemma_pow1(335400042109480133720367605491487500390);
    lemma_advanced(335400042109480133720367605491487500390, 340282366920938463463374607431768211181, 1, 335400042109480133720367605491487500390, 309553815511109734611315844479382188104, 324266577711984385528075226083496685400);
    lemma_doubled(335400042109480133720367605491487500390, 340282366920938463463374607431768211181, 3, 324266577711984385528075226083496685400, 132302322878921043964244149373540943183);
    lemma_doubled(335400042109480133720367605491487500390, 340282366920938463463374607431768211181, 6, 132302322878921043964244149373540943183, 86683635896046469593352003305078845754);
    lemma_doubled(335400042109480133720367605491487500390, 340282366920938463463374607431768211181, 12, 86683635896046469593352003305078845754, 44041766720178162404416103551154265272);
    lemma_advanced(335400042109480133720367605491487500390, 340282366920938463463374607431768211181, 24, 44041766720178162404416103551154265272, 49307618511476338249470027256602915836, 195752582943741135656819811030974174946);
    lemma_advanced(335400042109480133720367605491487500390, 340282366920938463463374607431768211181, 49, 195752582943741135656819811030974174946, 98008138906956956922207630780531876933, 65072646248321245647418875508889002726);
    lemma_advanced(335400042109480133720367605491487500390, 340282366920938463463374607431768211181, 99, 65072646248321245647418875508889002726, 261397240009580678231778682050180533613, 245368456595274754476126864138218324512);
    lemma_advanced(335400042109480133720367605491487500390, 340282366920938463463374607431768211181, 199, 245368456595274754476126864138218324512, 251953470358294892665318129593148961296, 40050567276459161825034015428205363715);
    lemma_doubled(335400042109480133720367605491487500390, 340282366920938463463374607431768211181, 399, 40050567276459161825034015428205363715, 163447524784176750036777055101905062938);
    lemma_doubled(335400042109480133720367605491487500390, 340282366920938463463374607431768211181, 798, 163447524784176750036777055101905062938, 180309717311376967548592072098881990106);
    lemma_doubled(335400042109480133720367605491487500390, 340282366920938463463374607431768211181, 1596, 180309717311376967548592072098881990106, 74768398851223667786466388690351845021);
    lemma_advanced(335400042109480133720367605491487500390, 340282366920938463463374607431768211181, 3192, 74768398851223667786466388690351845021, 162708416879928933521937517408988488669, 211719921719133144637499731905836869752);
    lemma_doubled(335400042109480133720367605491487500390, 340282366920938463463374607431768211181, 6385, 211719921719133144637499731905836869752, 9533543797865635086980054484674467343);
    lemma_doubled(335400042109480133720367605491487500390, 340282366920938463463374607431768211181, 12770, 9533543797865635086980054484674467343, 280991935717473552016311907855992642245);
    lemma_advanced(335400042109480133720367605491487500390, 340282366920938463463374607431768211181, 25540, 280991935717473552016311907855992642245, 273841847003509560365374785869988915193, 41523641196769240936072646025844416696);
    lemma_advanced(335400042109480133720367605491487500390, 340282366920938463463374607431768211181, 51081, 41523641196769240936072646025844416696, 294373389631001342422501677087095951596, 5193358209190433412324602563416948250);
    lemma_advanced(335400042109480133720367605491487500390, 340282366920938463463374607431768211181, 102163, 5193358209190433412324602563416948250, 67006673248429375309676442618816035175, 140665485689149337305676141250090259556);
    lemma_advanced(335400042109480133720367605491487500390, 340282366920938463463374607431768211181, 204327, 140665485689149337305676141250090259556, 261488013553305256552490957848595825036, 150913108492501738534310150620375612144);
    lemma_doubled(335400042109480133720367605491487500390, 340282366920938463463374607431768211181, 408655, 150913108492501738534310150620375612144, 34218368766663092631355439768317407852);
    lemma_advanced(335400042109480133720367605491487500390, 340282366920938463463374607431768211181, 817310, 34218368766663092631355439768317407852, 338247960499448427155382300668336570939, 280894021856871233059935087693588057803);
    lemma_doubled(335400042109480133720367605491487500390, 340282366920938463463374607431768211181, 1634621, 280894021856871233059935087693588057803, 74888934983044173788065676460195772070);
    lemma_doubled(335400042109480133720367605491487500390, 340282366920938463463374607431768211181, 3269242, 74888934983044173788065676460195772070, 24532789895696406746197211130431285053);
    lemma_advanced(335400042109480133720367605491487500390, 340282366920938463463374607431768211181, 6538484, 24532789895696406746197211130431285053, 136869400074513275222552079285647356920, 252154987359353347245842355719136819235);
    lemma_advanced(335400042109480133720367605491487500390, 340282366920938463463374607431768211181, 13076969, 252154987359353347245842355719136819235, 156691355769241784577948314889456553772, 336367312887074931258322545634396904351);
    lemma_advanced(335400042109480133720367605491487500390, 340282366920938463463374607431768211181, 26153939, 336367312887074931258322545634396904351, 131660043484494974683952182698456281963, 160518912958405497755500492604053389750);
    lemma_advanced(335400042109480133720367605491487500390, 340282366920938463463374607431768211181, 52307879, 160518912958405497755500492604053389750, 223105325044358434470793990580857664214, 124871849619603339483512274558581947703);
    lemma_doubled(335400042109480133720367605491487500390, 340282366920938463463374607431768211181, 104615759, 124871849619603339483512274558581947703, 265081265257336973435198045746485581482);
    lemma_doubled(335400042109480133720367605491487500390, 340282366920938463463374607431768211181, 209231518, 265081265257336973435198045746485581482, 28373702804683924037218788222460896071);
    lemma_doubled(335400042109480133720367605491487500390, 340282366920938463463374607431768211181, 418463036, 28373702804683924037218788222460896071, 121935143347552543640208023283072479052);
    lemma_advanced(335400042109480133720367605491487500390, 340282366920938463463374607431768211181, 836926072, 121935143347552543640208023283072479052, 270356670757533053377897319092685319132, 27171886459647138230903960310228234650);
    lemma_doubled(335400042109480133720367605491487500390, 340282366920938463463374607431768211181, 1673852145, 27171886459647138230903960310228234650, 81642006449133344540934087582068644240);
    lemma_doubled(335400042109480133720367605491487500390, 340282366920938463463374607431768211181, 3347704290, 81642006449133344540934087582068644240, 283051413474577789848079402211879829114);
    lemma_doubled(335400042109480133720367605491487500390, 340282366920938463463374607431768211181, 6695408580, 283051413474577789848079402211879829114, 173339196347129036274344823243071363345);
    lemma_doubled(335400042109480133720367605491487500390, 340282366920938463463374607431768211181, 13390817160, 173339196347129036274344823243071363345, 231203296769806140632721189667348210267);
    lemma_advanced(335400042109480133720367605491487500390, 340282366920938463463374607431768211181, 26781634320, 231203296769806140632721189667348210267, 77859912430831551673210523316259394634, 37797736929797184512372944402103696570);
    lemma_doubled(335400042109480133720367605491487500390, 340282366920938463463374607431768211181, 53563268641, 37797736929797184512372944402103696570, 52596601621373122581760237825318775510);
    lemma_advanced(335400042109480133720367605491487500390, 340282366920938463463374607431768211181, 107126537282, 52596601621373122581760237825318775510, 294540905269933794107278048841460342657, 273396729128084712156574059474165722007);
    lemma_advanced(335400042109480133720367605491487500390, 340282366920938463463374607431768211181, 214253074565, 273396729128084712156574059474165722007, 299672224430029631752223598430513716169, 129281783894223473598074154824429890701);
    lemma_doubled(335400042109480133720367605491487500390, 340282366920938463463374607431768211181, 428506149131, 129281783894223473598074154824429890701, 117183642225984828550124401899838946286);
    lemma_advanced(335400042109480133720367605491487500390, 340282366920938463463374607431768211181, 857012298262, 117183642225984828550124401899838946286, 25536037394521777872832710645709056439, 152232213438959459347359716817440240172);
    lemma_doubled(335400042109480133720367605491487500390, 340282366920938463463374607431768211181, 1714024596525, 152232213438959459347359716817440240172, 307615654641691812315972826087024942206);
    lemma_advanced(335400042109480133720367605491487500390, 340282366920938463463374607431768211181, 3428049193050, 307615654641691812315972826087024942206, 303730642605706599530092083979345235007, 35868661839894145894757176556901871660);
    lemma_advanced(335400042109480133720367605491487500390, 340282366920938463463374607431768211181, 6856098386101, 35868661839894145894757176556901871660, 209862034756567187425141840975649274208, 70699861286138926860939175654489008543);
    lemma_doubled(335400042109480133720367605491487500390, 340282366920938463463374607431768211181, 13712196772203, 70699861286138926860939175654489008543, 27451189683200309121582999653314152831);
    lemma_doubled(335400042109480133720367605491487500390, 340282366920938463463374607431768211181, 27424393544406, 27451189683200309121582999653314152831, 317270316590239356659851800892762747420);
    lemma_advanced(335400042109480133720367605491487500390, 340282366920938463463374607431768211181, 54848787088812, 317270316590239356659851800892762747420, 313716514810868656461528277360564779040, 101906271926042078919777543968356821963);
    lemma_advanced(335400042109480133720367605491487500390, 340282366920938463463374607431768211181, 109697574177625, 101906271926042078919777543968356821963, 111635715102491991220587834400863468049, 7389895942839137726876601892411926021);
    lemma_advanced(335400042109480133720367605491487500390, 340282366920938463463374607431768211181, 219395148355251, 7389895942839137726876601892411926021, 107036997811771652380528437846243514086, 201805625371263270410678249818202371640);
    lemma_doubled(335400042109480133720367605491487500390, 340282366920938463463374607431768211181, 438790296710503, 201805625371263270410678249818202371640, 334028383146123812201140544496284203454);
    lemma_doubled(335400042109480133720367605491487500390, 340282366920938463463374607431768211181, 877580593421006, 334028383146123812201140544496284203454, 215417812310330025056696130771016760594);
    lemma_advanced(335400042109480133720367605491487500390, 340282366920938463463374607431768211181, 1755161186842012, 215417812310330025056696130771016760594, 314446828170979091277262005120549438738, 281246442997193354613976001287650767872);
    lemma_doubled(335400042109480133720367605491487500390, 340282366920938463463374607431768211181, 3510322373684025, 281246442997193354613976001287650767872, 309527351554384940459722062296060214495);
    lemma_doubled(335400042109480133720367605491487500390, 340282366920938463463374607431768211181, 7020644747368050, 309527351554384940459722062296060214495, 114148211090925168266484805868063615614);
    lemma_doubled(335400042109480133720367605491487500390, 340282366920938463463374607431768211181, 14041289494736100, 114148211090925168266484805868063615614, 131968229559577457197132388753524156337);
    lemma_doubled(335400042109480133720367605491487500390, 340282366920938463463374607431768211181, 28082578989472200, 131968229559577457197132388753524156337, 48909675476044037223907382481034051244);
    lemma_advanced(335400042109480133720367605491487500390, 340282366920938463463374607431768211181, 56165157978944400, 48909675476044037223907382481034051244, 55105685991510528425321120931787824892, 136739968012506660437614264864868589459);
    lemma_doubled(335400042109480133720367605491487500390, 340282366920938463463374607431768211181, 112330315957888801, 136739968012506660437614264864868589459, 298071928597432812466898178401526351847);
    lemma_advanced(335400042109480133720367605491487500390, 340282366920938463463374607431768211181, 224660631915777602, 298071928597432812466898178401526351847, 235874830157547692974346823884898493603, 12113344961253408743946364989840523235);
    lemma_advanced(335400042109480133720367605491487500390, 340282366920938463463374607431768211181, 449321263831555205, 12113344961253408743946364989840523235, 149464768849033393418390264026233742012, 261278409315311046825066848123532216798);
    lemma_advanced(335400042109480133720367605491487500390, 340282366920938463463374607431768211181, 898642527663110411, 261278409315311046825066848123532216798, 157687455318634306784395675792181271663, 156104175159104744725258688804810823790);
    lemma_doubled(335400042109480133720367605491487500390, 340282366920938463463374607431768211181, 1797285055326220823, 156104175159104744725258688804810823790, 231153720467677154253640216154448597715);
    lemma_advanced(335400042109480133720367605491487500390, 340282366920938463463374607431768211181, 3594570110652441646, 231153720467677154253640216154448597715, 41378147506773831406352611568765398622, 135160650452669056606810208075575390609);
    lemma_advanced(335400042109480133720367605491487500390, 340282366920938463463374607431768211181, 7189140221304883293, 135160650452669056606810208075575390609, 127979838643327966067429784618938204762, 333635828998758954734466915927753525437);
    lemma_advanced(335400042109480133720367605491487500390, 340282366920938463463374607431768211181, 14378280442609766587, 333635828998758954734466915927753525437, 107876779395513005004301730433691691185, 81373770863583921412067940033508340687);
    lemma_advanced(335400042109480133720367605491487500390, 340282366920938463463374607431768211181, 28756560885219533175, 81373770863583921412067940033508340687, 102178331346367999633668527321588343532, 252052138036092803886184232327311901875);
    lemma_doubled(335400042109480133720367605491487500390, 340282366920938463463374607431768211181, 57513121770439066351, 252052138036092803886184232327311901875, 278812717094722479484531765985251756465);
    lemma_advanced(335400042109480133720367605491487500390, 340282366920938463463374607431768211181, 115026243540878132702, 278812717094722479484531765985251756465, 106341357351199637434610611311989397276, 99529773299524467683031600750991451787);
    lemma_advanced(335400042109480133720367605491487500390, 340282366920938463463374607431768211181, 230052487081756265405, 99529773299524467683031600750991451787, 163438090816749379137665385653408117530, 3776125683973810522580520058409172806);
    lemma_doubled(335400042109480133720367605491487500390, 340282366920938463463374607431768211181, 460104974163512530811, 3776125683973810522580520058409172806, 128195101851358063915855631850223689224);
    lemma_doubled(335400042109480133720367605491487500390, 340282366920938463463374607431768211181, 920209948327025061622, 128195101851358063915855631850223689224, 220489640667642438416469207179310230782);
    lemma_doubled(335400042109480133720367605491487500390, 340282366920938463463374607431768211181, 1840419896654050123244, 220489640667642438416469207179310230782, 317074023312013807619787124613635591240);
    lemma_advanced(335400042109480133720367605491487500390, 340282366920938463463374607431768211181, 3680839793308100246488, 317074023312013807619787124613635591240, 177228004941791204123176089827125055843, 325159546276896501279083704770236766931);
    lemma_advanced(335400042109480133720367605491487500390, 340282366920938463463374607431768211181, 7361679586616200492977, 325159546276896501279083704770236766931, 78175459891728590058246369459234132948, 67535152433617529987601068970148056794);
    lemma_doubled(335400042109480133720367605491487500390, 340282366920938463463374607431768211181, 14723359173232400985955, 67535152433617529987601068970148056794, 13778492825711667560011224567674231305);
    lemma_advanced(335400042109480133720367605491487500390, 340282366920938463463374607431768211181, 29446718346464801971910, 13778492825711667560011224567674231305, 39377031993334801545581630215492937257, 282333332344917281683055905980838072466);
    lemma_doubled(335400042109480133720367605491487500390, 340282366920938463463374607431768211181, 58893436692929603943821, 282333332344917281683055905980838072466, 2296599200454246591909547167932690808);
    lemma_advanced(335400042109480133720367605491487500390, 340282366920938463463374607431768211181, 117786873385859207887642, 2296599200454246591909547167932690808, 309634624879953064281386312927991384002, 271335422523047815875132344664826235155);
    lemma_doubled(335400042109480133720367605491487500390, 340282366920938463463374607431768211181, 235573746771718415775285, 271335422523047815875132344664826235155, 251186747180127101367467439354073550175);
    lemma_advanced(335400042109480133720367605491487500390, 340282366920938463463374607431768211181, 471147493543436831550570, 251186747180127101367467439354073550175, 28214044913109934088412214666926081600, 91361243308881061864511005613228241403);
    lemma_doubled(335400042109480133720367605491487500390, 340282366920938463463374607431768211181, 942294987086873663101141, 91361243308881061864511005613228241403, 172328369785883108689093466416704589976);
    lemma_doubled(335400042109480133720367605491487500390, 340282366920938463463374607431768211181, 1884589974173747326202282, 172328369785883108689093466416704589976, 53509558849048303716712593844202050061);
    lemma_advanced(335400042109480133720367605491487500390, 340282366920938463463374607431768211181, 3769179948347494652404564, 53509558849048303716712593844202050061, 45712946186014205538243481206399573349, 338514063355361793587644028079848825831);
    lemma_doubled(335400042109480133720367605491487500390, 340282366920938463463374607431768211181, 7538359896694989304809129, 338514063355361793587644028079848825831, 111418569989647667240037775693622494813);
    lemma_advanced(335400042109480133720367605491487500390, 340282366920938463463374607431768211181, 15076719793389978609618258, 111418569989647667240037775693622494813, 162293799531732744386390264683906619906, 156505939305057748458441745252759185973);
    lemma_advanced(335400042109480133720367605491487500390, 340282366920938463463374607431768211181, 30153439586779957219236517, 156505939305057748458441745252759185973, 333269704749457845869810222939946072296, 190684241612055043987052252897038692903);
    lemma_doubled(335400042109480133720367605491487500390, 340282366920938463463374607431768211181, 60306879173559914438473035, 190684241612055043987052252897038692903, 283086724838910159539564361501363931855);
    lemma_advanced(335400042109480133720367605491487500390, 340282366920938463463374607431768211181, 120613758347119828876946070, 283086724838910159539564361501363931855, 78977882020674654506442014013120543949, 30844612025585893640524566808542640294);
    lemma_advanced(335400042109480133720367605491487500390, 340282366920938463463374607431768211181, 241227516694239657753892141, 30844612025585893640524566808542640294, 42387541230129101219081802472389421428, 123702353540368946412404170429927361804);
    lemma_advanced(335400042109480133720367605491487500390, 340282366920938463463374607431768211181, 482455033388479315507784283, 123702353540368946412404170429927361804, 250252266466412294628896621137320194063, 206958388664045788907037954882209081657);
    lemma_doubled(335400042109480133720367605491487500390, 340282366920938463463374607431768211181, 964910066776958631015568567, 206958388664045788907037954882209081657, 215332132341559978919793891665455036189);
    lemma_advanced(335400042109480133720367605491487500390, 340282366920938463463374607431768211181, 1929820133553917262031137134, 215332132341559978919793891665455036189, 304802779406162331702539079589314746220, 156967569972264882123584058419003911463);
    lemma_doubled(335400042109480133720367605491487500390, 340282366920938463463374607431768211181, 3859640267107834524062274269, 156967569972264882123584058419003911463, 137481410692605318195960765980910455042);
    lemma_advanced(335400042109480133720367605491487500390, 340282366920938463463374607431768211181, 7719280534215669048124548538, 137481410692605318195960765980910455042, 233744847581690662257949651260672295118, 87989621235892817794800102462956403204);
    lemma_advanced(335400042109480133720367605491487500390, 340282366920938463463374607431768211181, 15438561068431338096249097077, 87989621235892817794800102462956403204, 193051623302087301281574339296073740322, 59810612585995511705868160140686527398);
    lemma_advanced(335400042109480133720367605491487500390, 340282366920938463463374607431768211181, 30877122136862676192498194155, 59810612585995511705868160140686527398, 263259379718567743215713824490151453621, 271463871548401066631431137001050052953);
    lemma_doubled(335400042109480133720367605491487500390, 340282366920938463463374607431768211181, 61754244273725352384996388311, 271463871548401066631431137001050052953, 59272276743526841391659479795616177568);
    lemma_advanced(335400042109480133720367605491487500390, 340282366920938463463374607431768211181, 123508488547450704769992776622, 59272276743526841391659479795616177568, 135211778715617319092043529333606540455, 161857216431196756252428192179770587849);
    lemma_doubled(335400042109480133720367605491487500390, 340282366920938463463374607431768211181, 247016977094901409539985553245, 161857216431196756252428192179770587849, 197754076607205061974188811938071142972);
    lemma_advanced(335400042109480133720367605491487500390, 340282366920938463463374607431768211181, 494033954189802819079971106490, 197754076607205061974188811938071142972, 117208601638200493437518517421391384366, 139353076104459704164807273846278656301);
    lemma_advanced(335400042109480133720367605491487500390, 340282366920938463463374607431768211181, 988067908379605638159942212981, 139353076104459704164807273846278656301, 269890965446590689097740138495329436084, 122009172987810883166723640498908375131);
    lemma_advanced(335400042109480133720367605491487500390, 340282366920938463463374607431768211181, 1976135816759211276319884425963, 122009172987810883166723640498908375131, 26111740473982312105955157069416400485, 323580586880596041409724541275765971753);
    lemma_advanced(335400042109480133720367605491487500390, 340282366920938463463374607431768211181, 3952271633518422552639768851927, 323580586880596041409724541275765971753, 289892286851640732017845980219001669430, 48376049808150464415716535357103399972);
    lemma_advanced(335400042109480133720367605491487500390, 340282366920938463463374607431768211181, 7904543267036845105279537703855, 48376049808150464415716535357103399972, 123847927151034573147609083589234710231, 114721208053852028644837487326422894608);
    lemma_doubled(335400042109480133720367605491487500390, 340282366920938463463374607431768211181, 15809086534073690210559075407711, 114721208053852028644837487326422894608, 205965032400982513730597394984241597399);
    lemma_doubled(335400042109480133720367605491487500390, 340282366920938463463374607431768211181, 31618173068147380421118150815422, 205965032400982513730597394984241597399, 323067038084658746738058728964279599785);
    lemma_doubled(335400042109480133720367605491487500390, 340282366920938463463374607431768211181, 63236346136294760842236301630844, 323067038084658746738058728964279599785, 140092360688282750062521047025185542430);
    lemma_doubled(335400042109480133720367605491487500390, 340282366920938463463374607431768211181, 126472692272589521684472603261688, 140092360688282750062521047025185542430, 33235200572445597135434693391980929680);
    lemma_advanced(335400042109480133720367605491487500390, 340282366920938463463374607431768211181, 252945384545179043368945206523376, 33235200572445597135434693391980929680, 216578238568709810564253246342643115170, 160971571186211257351377983330065097402);
    lemma_doubled(335400042109480133720367605491487500390, 340282366920938463463374607431768211181, 505890769090358086737890413046753, 160971571186211257351377983330065097402, 260025500661419491964413848606542187920);
    lemma_advanced(335400042109480133720367605491487500390, 340282366920938463463374607431768211181, 1011781538180716173475780826093506, 260025500661419491964413848606542187920, 305594217623736864943253385975748082759, 228673019050113011487004861337192518448);
    lemma_advanced(335400042109480133720367605491487500390, 340282366920938463463374607431768211181, 2023563076361432346951561652187013, 228673019050113011487004861337192518448, 128521416125085348615811995108991320422, 4710988923855596417505529203451865254);
    lemma_doubled(335400042109480133720367605491487500390, 340282366920938463463374607431768211181, 4047126152722864693903123304374027, 4710988923855596417505529203451865254, 319810741109455625179735531217045657241);
    lemma_advanced(335400042109480133720367605491487500390, 340282366920938463463374607431768211181, 8094252305445729387806246608748054, 319810741109455625179735531217045657241, 266289637401415523321809883951228174209, 1);
    lemma_inverted(335400042109480133720367605491487500390, 340282366920938463463374607431768211181, 1, 335400042109480133720367605491487500390, 183714924920064568510105524828638993178);
    law_certified_are_prime(340282366920938463463374607431768211181, 335400042109480133720367605491487500390, 16188504610891458775612493217496109, 1, 183714924920064568510105524828638993178, 0);
}

proof fn lemma_prime_1964143()
    ensures
        is_prime(1964143),
{
    lemma_prime_36373();
    lemma_pow1(1445002);
    lemma_doubled(1445002, 1964143, 1, 1445002, 1424422);
    lemma_doubled(1445002, 1964143, 2, 1424422, 637797);
    lemma_doubled(1445002, 1964143, 4, 637797, 1177194);
    lemma_advanced(1445002, 1964143, 8, 1177194, 333130, 1349820);
    lemma_advanced(1445002, 1964143, 17, 1349820, 348166, 1050026);
    lemma_advanced(1445002, 1964143, 35, 1050026, 604913, 1863822);
    lemma_doubled(1445002, 1964143, 71, 1863822, 34309);
    lemma_doubled(1445002, 1964143, 142, 34309, 585824);
    lemma_doubled(1445002, 1964143, 284, 585824, 945015);
    lemma_doubled(1445002, 1964143, 568, 945015, 739271);
    lemma_advanced(1445002, 1964143, 1136, 739271, 785834, 1709078);
    lemma_doubled(1445002, 1964143, 2273, 1709078, 1809779);
    lemma_advanced(1445002, 1964143, 4546, 1809779, 1225763, 1183700);
    lemma_doubled(1445002, 1964143, 9093, 1183700, 711234);
    lemma_advanced(1445002, 1964143, 18186, 711234, 557964, 1);
    lemma_inverted(1445002, 1964143, 1, 1445002, 667433);
    law_certified_are_prime(1964143, 1445002, 36373, 1, 667433, 0);
}

proof fn lemma_prime_23569717()
    ensures
        is_prime(23569717),
{
    lemma_prime_1964143();
    lemma_pow1(4096);
    lemma_advanced(4096, 23569717, 1, 4096, 16777216, 13751681);
    lemma_advanced(4096, 23569717, 3, 13751681, 5051452, 20105583);
    lemma_doubled(4096, 23569717, 7, 20105583, 9365727);
    lemma_advanced(4096, 23569717, 14, 9365727, 19148499, 15803445);
    lemma_advanced(4096, 23569717, 29, 15803445, 4265833, 7691671);
    lemma_advanced(4096, 23569717, 59, 7691671, 21803749, 2498191);
    lemma_advanced(4096, 23569717, 119, 2498191, 3617202, 14277116);
    lemma_advanced(4096, 23569717, 239, 14277116, 14032867, 15653186);
    lemma_advanced(4096, 23569717, 479, 15653186, 9825867, 13244313);
    lemma_doubled(4096, 23569717, 959, 13244313, 6219851);
    lemma_doubled(4096, 23569717, 1918, 6219851, 14348779);
    lemma_doubled(4096, 23569717, 3836, 14348779, 17657440);
    lemma_doubled(4096, 23569717, 7672, 17657440, 21237030);
    lemma_advanced(4096, 23569717, 15344, 21237030, 5924764, 14594551);
    lemma_advanced(4096, 23569717, 30689, 14594551, 19319015, 7145471);
    lemma_doubled(4096, 23569717, 61379, 7145471, 21348610);
    lemma_advanced(4096, 23569717, 122758, 21348610, 9549330, 11895177);
    lemma_advanced(4096, 23569717, 245517, 11895177, 2305041, 13561136);
    lemma_advanced(4096, 23569717, 491035, 13561136, 19268089, 10680028);
    lemma_advanced(4096, 23569717, 982071, 10680028, 16037305, 1);
    lemma_inverted(4096, 23569717, 1, 4096, 18142063);
    law_certified_are_prime(23569717, 4096, 1964143, 1, 18142063, 0);
}

proof fn lemma_prime_942788681()
    ensures
        is_prime(942788681),
{
    lemma_prime_23569717();
    lemma_pow1(220025730);
    lemma_doubled(220025730, 942788681, 1, 220025730, 828944911);
    lemma_advanced(220025730, 942788681, 2, 828944911, 161958939, 361942447);
    lemma_advanced(220025730, 942788681, 5, 361942447, 792371730, 670719953);
    lemma_doubled(220025730, 942788681, 11, 670719953, 660478906);
    lemma_doubled(220025730, 942788681, 22, 660478906, 95830407);
    lemma_advanced(220025730, 942788681, 44, 95830407, 889700942, 522260858);
    lemma_advanced(220025730, 942788681, 89, 522260858, 854491383, 269515189);
    lemma_advanced(220025730, 942788681, 179, 269515189, 38665880, 55707331);
    lemma_advanced(220025730, 942788681, 359, 55707331, 877835617, 806794389);
    lemma_doubled(220025730, 942788681, 719, 806794389, 426940557);
    lemma_advanced(220025730, 942788681, 1438, 426940557, 760225566, 112997666);
    lemma_doubled(220025730, 942788681, 2877, 112997666, 692482894);
    lemma_doubled(220025730, 942788681, 5754, 692482894, 93015566);
    lemma_advanced(220025730, 942788681, 11508, 93015566, 158646517, 369228032);
    lemma_doubled(220025730, 942788681, 23017, 369228032, 522755161);
    lemma_advanced(220025730, 942788681, 46034, 522755161, 546622559, 676568387);
    lemma_doubled(220025730, 942788681, 92069, 676568387, 549729705);
    lemma_doubled(220025730, 942788681, 184138, 549729705, 472025804);
    lemma_advanced(220025730, 942788681, 368276, 472025804, 653631280, 787270482);
    lemma_advanced(220025730, 942788681, 736553, 787270482, 655132216, 593229677);
    lemma_doubled(220025730, 942788681, 1473107, 593229677, 404513523);
    lemma_advanced(220025730, 942788681, 2946214, 404513523, 529751575, 464949496);
    lemma_doubled(220025730, 942788681, 5892429, 464949496, 286801874);
    lemma_advanced(220025730, 942788681, 11784858, 286801874, 580667456, 1);
    lemma_inverted(220025730, 942788681, 1, 220025730, 364325046);
    law_certified_are_prime(942788681, 220025730, 23569717, 1, 364325046, 0);
}

proof fn lemma_prime_33908337700847()
    ensures
        is_prime(33908337700847),
{
    lemma_prime_942788681();
    lemma_pow1(21444859682310);
    lemma_advanced(21444859682310, 33908337700847, 1, 21444859682310, 6511998772893, 27477839256106);
    lemma_advanced(21444859682310, 33908337700847, 3, 27477839256106, 17107433247624, 23014905965721);
    lemma_doubled(21444859682310, 33908337700847, 7, 23014905965721, 25947582918272);
    lemma_doubled(21444859682310, 33908337700847, 14, 25947582918272, 29280645814866);
    lemma_doubled(21444859682310, 33908337700847, 28, 29280645814866, 7377968091987);
    lemma_doubled(21444859682310, 33908337700847, 56, 7377968091987, 30596274314926);
    lemma_doubled(21444859682310, 33908337700847, 112, 30596274314926, 17928232269843);
    lemma_advanced(21444859682310, 33908337700847, 224, 17928232269843, 10961441962355, 5558991681254);
    lemma_advanced(21444859682310, 33908337700847, 449, 5558991681254, 16171621319561, 3980431598438);
    lemma_doubled(21444859682310, 33908337700847, 899, 3980431598438, 22472104707966);
    lemma_doubled(21444859682310, 33908337700847, 1798, 22472104707966, 5332797177825);
    lemma_doubled(21444859682310, 33908337700847, 3596, 5332797177825, 25024981260529);
    lemma_advanced(21444859682310, 33908337700847, 7192, 25024981260529, 32485763562937, 3435653226580);
    lemma_advanced(21444859682310, 33908337700847, 14385, 3435653226580, 28392076217876, 3497874453652);
    lemma_advanced(21444859682310, 33908337700847, 28771, 3497874453652, 26946348401251, 3377631845135);
    lemma_doubled(21444859682310, 33908337700847, 57543, 3377631845135, 17882990099853);
    lemma_advanced(21444859682310, 33908337700847, 115086, 17882990099853, 10482572731868, 7926635832396);
    lemma_doubled(21444859682310, 33908337700847, 230173, 7926635832396, 20330834594160);
    lemma_doubled(21444859682310, 33908337700847, 460346, 20330834594160, 22210843313821);
    lemma_doubled(21444859682310, 33908337700847, 920692, 22210843313821, 27969073610932);
    lemma_doubled(21444859682310, 33908337700847, 1841384, 27969073610932, 33487579116081);
    lemma_doubled(21444859682310, 33908337700847, 3682768, 33487579116081, 7669955536207);
    lemma_advanced(21444859682310, 33908337700847, 7365536, 7669955536207, 23805548823606, 3542570651430);
    lemma_doubled(21444859682310, 33908337700847, 14731073, 3542570651430, 22144425029530);
    lemma_doubled(21444859682310, 33908337700847, 29462146, 22144425029530, 28784888362833);
    lemma_advanced(21444859682310, 33908337700847, 58924292, 28784888362833, 22966615569434, 29558147933320);
    lemma_doubled(21444859682310, 33908337700847, 117848585, 29558147933320, 18311678102318);
    lemma_doubled(21444859682310, 33908337700847, 235697170, 18311678102318, 13935909477836);
    lemma_advanced(21444859682310, 33908337700847, 471394340, 13935909477836, 14536016013152, 1);
    lemma_inverted(21444859682310, 33908337700847, 1, 21444859682310, 1799242257211);
    law_certified_are_prime(33908337700847, 21444859682310, 942788681, 1, 1799242257211, 0);
}

proof fn lemma_prime_54317376720913331118684727()
    ensures
        is_prime(54317376720913331118684727),
{
    lemma_prime_33908337700847();
    lemma_pow1(10603016560962440328368610);
    lemma_advanced(10603016560962440328368610, 54317376720913331118684727, 1, 10603016560962440328368610, 24303557873264946459431989, 37733229667806181702969573);
    lemma_advanced(10603016560962440328368610, 54317376720913331118684727, 3, 37733229667806181702969573, 4418260568379361688225307, 3941389135188192992459099);
    lemma_advanced(10603016560962440328368610, 54317376720913331118684727, 7, 3941389135188192992459099, 33709161414474609069677687, 18438816526666959136167012);
    lemma_doubled(10603016560962440328368610, 54317376720913331118684727, 15, 18438816526666959136167012, 41335171416352043679746100);
    lemma_advanced(10603016560962440328368610, 54317376720913331118684727, 30, 41335171416352043679746100, 46696885493484374563983170, 51899090871524778492338814);
    lemma_advanced(10603016560962440328368610, 54317376720913331118684727, 61, 51899090871524778492338814, 41132184486749299664741661, 29254290959484526607925350);
    lemma_doubled(10603016560962440328368610, 54317376720913331118684727, 123, 29254290959484526607925350, 18977928232602324012960225);
    lemma_advanced(10603016560962440328368610, 54317376720913331118684727, 246, 18977928232602324012960225, 448573490725109356880322, 6500311129190801347199522);
    lemma_doubled(10603016560962440328368610, 54317376720913331118684727, 493, 6500311129190801347199522, 28787070026224186998429486);
    lemma_advanced(10603016560962440328368610, 54317376720913331118684727, 986, 28787070026224186998429486, 52134327007191178892121555, 53373036145464723027986572);
    lemma_advanced(10603016560962440328368610, 54317376720913331118684727, 1973, 53373036145464723027986572, 21619963146524384852880381, 13133706434614928877333542);
    lemma_doubled(10603016560962440328368610, 54317376720913331118684727, 3947, 13133706434614928877333542, 45584765971464253192677990);
    lemma_advanced(10603016560962440328368610, 54317376720913331118684727, 7894, 45584765971464253192677990, 12776942286821763496202572, 26107215231708529689962674);
    lemma_advanced(10603016560962440328368610, 54317376720913331118684727, 15789, 26107215231708529689962674, 22832852842639193341381718, 53292453700975444580338997);
    lemma_advanced(10603016560962440328368610, 54317376720913331118684727, 31579, 53292453700975444580338997, 44077186302998186972180882, 44199701714931202948560022);
    lemma_doubled(10603016560962440328368610, 54317376720913331118684727, 63159, 44199701714931202948560022, 17579732101870589470893626);
    lemma_doubled(10603016560962440328368610, 54317376720913331118684727, 126318, 17579732101870589470893626, 42137221863134580251956085);
    lemma_advanced(10603016560962440328368610, 54317376720913331118684727, 252636, 42137221863134580251956085, 53611648378904909068375450, 8164764640100408660995722);
    lemma_advanced(10603016560962440328368610, 54317376720913331118684727, 505273, 8164764640100408660995722, 17746018675337540330031699, 1883368123515582355923716);
    lemma_doubled(10603016560962440328368610, 54317376720913331118684727, 1010547, 1883368123515582355923716, 53930975397358415769419832);
    lemma_doubled(10603016560962440328368610, 54317376720913331118684727, 2021094, 53930975397358415769419832, 31317446313396509760207751);
    lemma_advanced(10603016560962440328368610, 54317376720913331118684727, 4042188, 31317446313396509760207751, 22835205894630018548223817, 47804906816520258876559251);
    lemma_advanced(10603016560962440328368610, 54317376720913331118684727, 8084377, 47804906816520258876559251, 22276350111562059110781099, 41034232324058086639189221);
    lemma_doubled(10603016560962440328368610, 54317376720913331118684727, 16168755, 41034232324058086639189221, 4670951304424482907517043);
    lemma_advanced(10603016560962440328368610, 54317376720913331118684727, 32337510, 4670951304424482907517043, 36571184723676617965146683, 29902437771310020299851974);
    lemma_advanced(10603016560962440328368610, 54317376720913331118684727, 64675021, 29902437771310020299851974, 27483619048705536388791352, 47046491778125301313776570);
    lemma_doubled(10603016560962440328368610, 54317376720913331118684727, 129350043, 47046491778125301313776570, 30967092407616105489319916);
    lemma_doubled(10603016560962440328368610, 54317376720913331118684727, 258700086, 30967092407616105489319916, 41978973186012954179501107);
    lemma_doubled(10603016560962440328368610, 54317376720913331118684727, 517400172, 41978973186012954179501107, 16688805401056883595241575);
    lemma_advanced(10603016560962440328368610, 54317376720913331118684727, 1034800344, 16688805401056883595241575, 21735004249235139041813166, 45852415977005629700124009);
    lemma_advanced(10603016560962440328368610, 54317376720913331118684727, 2069600689, 45852415977005629700124009, 39589315616004941947951650, 49550340160932524265081834);
    lemma_doubled(10603016560962440328368610, 54317376720913331118684727, 4139201379, 49550340160932524265081834, 10534304085254062169542406);
    lemma_advanced(10603016560962440328368610, 54317376720913331118684727, 8278402758, 10534304085254062169542406, 36921543628852060239328136, 7416674699199703989789240);
    lemma_advanced(10603016560962440328368610, 54317376720913331118684727, 16556805517, 7416674699199703989789240, 52161567034985695471617138, 25040437670031618834648031);
    lemma_advanced(10603016560962440328368610, 54317376720913331118684727, 33113611035, 25040437670031618834648031, 11843124795609053666712396, 2617029706669276061115199);
    lemma_advanced(10603016560962440328368610, 54317376720913331118684727, 66227222071, 2617029706669276061115199, 24707136579302485435246714, 2788789745441300781183331);
    lemma_advanced(10603016560962440328368610, 54317376720913331118684727, 132454444143, 2788789745441300781183331, 4947929404985649294676198, 49831606148328573162077305);
    lemma_advanced(10603016560962440328368610, 54317376720913331118684727, 264908888287, 49831606148328573162077305, 47202202575300073521214712, 35363919951111897926861995);
    lemma_advanced(10603016560962440328368610, 54317376720913331118684727, 529817776575, 35363919951111897926861995, 20273359272469486817834601, 44862813873841045366401016);
    lemma_doubled(10603016560962440328368610, 54317376720913331118684727, 1059635553151, 44862813873841045366401016, 38858855466011203191069554);
    lemma_advanced(10603016560962440328368610, 54317376720913331118684727, 2119271106302, 38858855466011203191069554, 1690663002434952404541952, 41582696920743042620276629);
    lemma_advanced(10603016560962440328368610, 54317376720913331118684727, 4238542212605, 41582696920743042620276629, 13708035667270579391109557, 33934327563370900417886425);
    lemma_advanced(10603016560962440328368610, 54317376720913331118684727, 8477084425211, 33934327563370900417886425, 32132064828124083005432327, 5801591293531208633583451);
    lemma_advanced(10603016560962440328368610, 54317376720913331118684727, 16954168850423, 5801591293531208633583451, 49641323993181274862063553, 1);
    lemma_inverted(10603016560962440328368610, 54317376720913331118684727, 1, 10603016560962440328368610, 19880598731629189148571176);
    law_certified_are_prime(54317376720913331118684727, 10603016560962440328368610, 33908337700847, 1, 19880598731629189148571176, 0);
}

proof fn lemma_prime_340282366920938463463374607427473266697()
    ensures
        is_prime(340282366920938463463374607427473266697),
{
    lemma_prime_54317376720913331118684727();
    lemma_pow1(299670310097033029416336167540611082073);
    lemma_doubled(299670310097033029416336167540611082073, 340282366920938463463374607427473266697, 1, 299670310097033029416336167540611082073, 288229109381658734972374796387200384612);
    lemma_advanced(299670310097033029416336167540611082073, 340282366920938463463374607427473266697, 2, 288229109381658734972374796387200384612, 224400279100851509035214691785457118029, 194459990933096498461818347736725549267);
    lemma_advanced(299670310097033029416336167540611082073, 340282366920938463463374607427473266697, 5, 194459990933096498461818347736725549267, 197501533485692840333188297958107055999, 275682650741931693813724425344120362716);
    lemma_doubled(299670310097033029416336167540611082073, 340282366920938463463374607427473266697, 11, 275682650741931693813724425344120362716, 148725978162693799374161382345498554171);
    lemma_doubled(299670310097033029416336167540611082073, 340282366920938463463374607427473266697, 22, 148725978162693799374161382345498554171, 217473514076416361526081189482707926967);
    lemma_advanced(299670310097033029416336167540611082073, 340282366920938463463374607427473266697, 44, 217473514076416361526081189482707926967, 240258193470878934717995952868584249516, 94661918281539637840732833741264180497);
    lemma_advanced(299670310097033029416336167540611082073, 340282366920938463463374607427473266697, 89, 94661918281539637840732833741264180497, 16826740456172168997913435171197982114, 191233111963403184036489366389911357454);
    lemma_advanced(299670310097033029416336167540611082073, 340282366920938463463374607427473266697, 179, 191233111963403184036489366389911357454, 158103487892646821870580125311888462246, 99456455102434535096424850846229796586);
    lemma_doubled(299670310097033029416336167540611082073, 340282366920938463463374607427473266697, 359, 99456455102434535096424850846229796586, 103245855979331431616776785679101923888);
    lemma_advanced(299670310097033029416336167540611082073, 340282366920938463463374607427473266697, 718, 103245855979331431616776785679101923888, 165759808603237280329484140318821818066, 259062862491906130815767681997505040298);
    lemma_advanced(299670310097033029416336167540611082073, 340282366920938463463374607427473266697, 1437, 259062862491906130815767681997505040298, 116186447338708074408665619537070677077, 282521255647260964385807420281120261614);
    lemma_advanced(299670310097033029416336167540611082073, 340282366920938463463374607427473266697, 2875, 282521255647260964385807420281120261614, 46143755440952699286255166982454073619, 168794394674910791006075476778648715601);
    lemma_doubled(299670310097033029416336167540611082073, 340282366920938463463374607427473266697, 5751, 168794394674910791006075476778648715601, 326603161939084335112799638649305129111);
    lemma_doubled(299670310097033029416336167540611082073, 340282366920938463463374607427473266697, 11502, 326603161939084335112799638649305129111, 48865646549172769600594665948662706782);
    lemma_doubled(299670310097033029416336167540611082073, 340282366920938463463374607427473266697, 23004, 48865646549172769600594665948662706782, 199474442307203210549645883816825727387);
    lemma_advanced(299670310097033029416336167540611082073, 340282366920938463463374607427473266697, 46008, 199474442307203210549645883816825727387, 272008013902713835725391291532673827012, 58332742136235994740318008641417918515);
    lemma_doubled(299670310097033029416336167540611082073, 340282366920938463463374607427473266697, 92017, 58332742136235994740318008641417918515, 41299745788963459535029586199137549213);
    lemma_doubled(299670310097033029416336167540611082073, 340282366920938463463374607427473266697, 184034, 41299745788963459535029586199137549213, 193154001839044099290721905774824671261);
    lemma_advanced(299670310097033029416336167540611082073, 340282366920938463463374607427473266697, 368068, 193154001839044099290721905774824671261, 135283471461757233726060758742291073313, 279609270548938036283869979427017261952);
    lemma_advanced(299670310097033029416336167540611082073, 340282366920938463463374607427473266697, 736137, 279609270548938036283869979427017261952, 228167257377627631478534525455097438907, 162067895399171184620760704363129323250);
    lemma_doubled(299670310097033029416336167540611082073, 340282366920938463463374607427473266697, 1472275, 162067895399171184620760704363129323250, 204793254219159198881484676720692680895);
    lemma_advanced(299670310097033029416336167540611082073, 340282366920938463463374607427473266697, 2944550, 204793254219159198881484676720692680895, 284044881902714842870400296146523305867, 193292286760717314308596719474408324596);
    lemma_advanced(299670310097033029416336167540611082073, 340282366920938463463374607427473266697, 5889101, 193292286760717314308596719474408324596, 323846893646529608832509729689942185551, 101078448692465649002193103172895547353);
    lemma_advanced(299670310097033029416336167540611082073, 340282366920938463463374607427473266697, 11778203, 101078448692465649002193103172895547353, 121740025402959962187373055029955620945, 263637597068482693587594742158884050790);
    lemma_doubled(299670310097033029416336167540611082073, 340282366920938463463374607427473266697, 23556407, 263637597068482693587594742158884050790, 107858051630640848320048132842285772288);
    lemma_doubled(299670310097033029416336167540611082073, 340282366920938463463374607427473266697, 47112814, 107858051630640848320048132842285772288, 156702716020040274893156594637662405591);
    lemma_advanced(299670310097033029416336167540611082073, 340282366920938463463374607427473266697, 94225628, 156702716020040274893156594637662405591, 44402671932271837953710336043471200447, 120560541934625665971817483732387820352);
    lemma_doubled(299670310097033029416336167540611082073, 340282366920938463463374607427473266697, 188451257, 120560541934625665971817483732387820352, 48273977787354816368292946140197322796);
    lemma_doubled(299670310097033029416336167540611082073, 340282366920938463463374607427473266697, 376902514, 48273977787354816368292946140197322796, 288975176244619571443655426431297010672);
    lemma_doubled(299670310097033029416336167540611082073, 340282366920938463463374607427473266697, 753805028, 288975176244619571443655426431297010672, 197330735719618017449473923024444497454);
    lemma_advanced(299670310097033029416336167540611082073, 340282366920938463463374607427473266697, 1507610056, 197330735719618017449473923024444497454, 156345800412318959943486247688439750545, 48362300994786409548251787766638304067);
    lemma_advanced(299670310097033029416336167540611082073, 340282366920938463463374607427473266697, 3015220113, 48362300994786409548251787766638304067, 56466506034607092005696237125682496438, 83992009039410060202179114822253573737);
    lemma_doubled(299670310097033029416336167540611082073, 340282366920938463463374607427473266697, 6030440227, 83992009039410060202179114822253573737, 274362056415295527822847815009137128559);
    lemma_advanced(299670310097033029416336167540611082073, 340282366920938463463374607427473266697, 12060880454, 274362056415295527822847815009137128559, 274402169343252478067405506425035792312, 165210984164402377488586595465304965688);
    lemma_doubled(299670310097033029416336167540611082073, 340282366920938463463374607427473266697, 24121760909, 165210984164402377488586595465304965688, 309466542567962673561943403943226446189);
    lemma_doubled(299670310097033029416336167540611082073, 340282366920938463463374607427473266697, 48243521818, 309466542567962673561943403943226446189, 195799323853589750765072483972247029818);
    lemma_doubled(299670310097033029416336167540611082073, 340282366920938463463374607427473266697, 96487043636, 195799323853589750765072483972247029818, 132435927257789185119098310497975031570);
    lemma_advanced(299670310097033029416336167540611082073, 340282366920938463463374607427473266697, 192974087272, 132435927257789185119098310497975031570, 14160293855719749236315427455377456924, 32161010093640295828933866458777526478);
    lemma_advanced(299670310097033029416336167540611082073, 340282366920938463463374607427473266697, 385948174545, 32161010093640295828933866458777526478, 107269281996765997819115741562848259449, 265985215742719639867556518639298670353);
    lemma_advanced(299670310097033029416336167540611082073, 340282366920938463463374607427473266697, 771896349091, 265985215742719639867556518639298670353, 186343243748315963062469397502311600946, 137597731582755118562049607555827464894);
    lemma_advanced(299670310097033029416336167540611082073, 340282366920938463463374607427473266697, 1543792698183, 137597731582755118562049607555827464894, 333754156015022097500875089644451245556, 217498369811888659450186492103302899576);
    lemma_doubled(299670310097033029416336167540611082073, 340282366920938463463374607427473266697, 3087585396367, 217498369811888659450186492103302899576, 180350827535793188894711347576247460748);
    lemma_doubled(299670310097033029416336167540611082073, 340282366920938463463374607427473266697, 6175170792734, 180350827535793188894711347576247460748, 270823542265257784570974791861305246842);
    lemma_advanced(299670310097033029416336167540611082073, 340282366920938463463374607427473266697, 12350341585468, 270823542265257784570974791861305246842, 308445302925585005715158057798438699014, 56382036495204935611269834469550528873);
    lemma_doubled(299670310097033029416336167540611082073, 340282366920938463463374607427473266697, 24700683170937, 56382036495204935611269834469550528873, 67210985629343654437838639380810162562);
    lemma_advanced(299670310097033029416336167540611082073, 340282366920938463463374607427473266697, 49401366341874, 67210985629343654437838639380810162562, 214851338945797535371363961692455879369, 41819509938818551780374312800996553571);
    lemma_advanced(299670310097033029416336167540611082073, 340282366920938463463374607427473266697, 98802732683749, 41819509938818551780374312800996553571, 174988789554036141102836758771506175377, 319544607452761660308655697173636039259);
    lemma_doubled(299670310097033029416336167540611082073, 340282366920938463463374607427473266697, 197605465367499, 319544607452761660308655697173636039259, 221222805386513499788093518483581086989);
    lemma_advanced(299670310097033029416336167540611082073, 340282366920938463463374607427473266697, 395210930734998, 221222805386513499788093518483581086989, 201115596394749190131602514093004949797, 171340855653272486636687915942330365349);
    lemma_advanced(299670310097033029416336167540611082073, 340282366920938463463374607427473266697, 790421861469997, 171340855653272486636687915942330365349, 210181653305311956835931153294840587919, 176314844448910441351041608332752892997);
    lemma_advanced(299670310097033029416336167540611082073, 340282366920938463463374607427473266697, 1580843722939995, 176314844448910441351041608332752892997, 330464686314640157248253982660377043399, 50573792051150397915472480270680782294);
    lemma_doubled(299670310097033029416336167540611082073, 340282366920938463463374607427473266697, 3161687445879991, 50573792051150397915472480270680782294, 217132722139887907649268189289416266016);
    lemma_advanced(299670310097033029416336167540611082073, 340282366920938463463374607427473266697, 6323374891759982, 217132722139887907649268189289416266016, 66046158694110970402603809662583531509, 304294535907105006000876988683351297110);
    lemma_doubled(299670310097033029416336167540611082073, 340282366920938463463374607427473266697, 12646749783519965, 304294535907105006000876988683351297110, 151770464006403758810651294476407541021);
    lemma_advanced(299670310097033029416336167540611082073, 340282366920938463463374607427473266697, 25293499567039930, 151770464006403758810651294476407541021, 26277045553124889980985766999391517907, 51343030337942209625341532990808676405);
    lemma_advanced(299670310097033029416336167540611082073, 340282366920938463463374607427473266697, 50586999134079861, 51343030337942209625341532990808676405, 245618735714075732465517674353963169084, 310302489344095670416486755261014167125);
    lemma_doubled(299670310097033029416336167540611082073, 340282366920938463463374607427473266697, 101173998268159723, 310302489344095670416486755261014167125, 261353946721438221176762726613931039989);
    lemma_doubled(299670310097033029416336167540611082073, 340282366920938463463374607427473266697, 202347996536319446, 261353946721438221176762726613931039989, 111609511343490983564528715874882622424);
    lemma_advanced(299670310097033029416336167540611082073, 340282366920938463463374607427473266697, 404695993072638892, 111609511343490983564528715874882622424, 268545864991734485801813697461083618959, 1856858893394143601596853387108626605);
    lemma_doubled(299670310097033029416336167540611082073, 340282366920938463463374607427473266697, 809391986145277785, 1856858893394143601596853387108626605, 186110331939234273535435659521589216853);
    lemma_doubled(299670310097033029416336167540611082073, 340282366920938463463374607427473266697, 1618783972290555570, 186110331939234273535435659521589216853, 244697852993583693856737012307708519414);
    lemma_doubled(299670310097033029416336167540611082073, 340282366920938463463374607427473266697, 3237567944581111140, 244697852993583693856737012307708519414, 18685447387054906404986160710360973786);
    lemma_doubled(299670310097033029416336167540611082073, 340282366920938463463374607427473266697, 6475135889162222280, 18685447387054906404986160710360973786, 158761797028461419879124270367329261412);
    lemma_advanced(299670310097033029416336167540611082073, 340282366920938463463374607427473266697, 12950271778324444560, 158761797028461419879124270367329261412, 279449005404107783101255166196373427721, 326052983527702851808268010701613212646);
    lemma_doubled(299670310097033029416336167540611082073, 340282366920938463463374607427473266697, 25900543556648889121, 326052983527702851808268010701613212646, 85207176574319943880705900686509189140);
    lemma_advanced(299670310097033029416336167540611082073, 340282366920938463463374607427473266697, 51801087113297778242, 85207176574319943880705900686509189140, 180906076912671424667607601616646801963, 335974165262488004583104201436392178496);
    lemma_advanced(299670310097033029416336167540611082073, 340282366920938463463374607427473266697, 103602174226595556485, 335974165262488004583104201436392178496, 233269556837375764797807064461446563623, 7574172463068575480204574660494203354);
    lemma_doubled(299670310097033029416336167540611082073, 340282366920938463463374607427473266697, 207204348453191112971, 7574172463068575480204574660494203354, 116234107611093961123686651402374988508);
    lemma_doubled(299670310097033029416336167540611082073, 340282366920938463463374607427473266697, 414408696906382225942, 116234107611093961123686651402374988508, 274901205532248560806161630232507673081);
    lemma_doubled(299670310097033029416336167540611082073, 340282366920938463463374607427473266697, 828817393812764451884, 274901205532248560806161630232507673081, 92361125467563906877130706163761309219);
    lemma_doubled(299670310097033029416336167540611082073, 340282366920938463463374607427473266697, 1657634787625528903768, 92361125467563906877130706163761309219, 276204575993129363066064995224120966087);
    lemma_advanced(299670310097033029416336167540611082073, 340282366920938463463374607427473266697, 3315269575251057807536, 276204575993129363066064995224120966087, 297065402690806667641069391627067431376, 31869083996628813519637691774776462186);
    lemma_advanced(299670310097033029416336167540611082073, 340282366920938463463374607427473266697, 6630539150502115615073, 31869083996628813519637691774776462186, 272425213549476998320321690344118065454, 282799962250950108331252082917219359861);
    lemma_advanced(299670310097033029416336167540611082073, 340282366920938463463374607427473266697, 13261078301004231230147, 282799962250950108331252082917219359861, 191185611317274362303060895993845580720, 53817072709441874547884347013328080190);
    lemma_doubled(299670310097033029416336167540611082073, 340282366920938463463374607427473266697, 26522156602008462460295, 53817072709441874547884347013328080190, 270123904508758443461628696187846678825);
    lemma_advanced(299670310097033029416336167540611082073, 340282366920938463463374607427473266697, 53044313204016924920590, 270123904508758443461628696187846678825, 172475689675419192551820265681284609954, 312845897890541921329687939024088683473);
    lemma_doubled(299670310097033029416336167540611082073, 340282366920938463463374607427473266697, 106088626408033849841181, 312845897890541921329687939024088683473, 323881539299953779229366961510820071308);
    lemma_doubled(299670310097033029416336167540611082073, 340282366920938463463374607427473266697, 212177252816067699682362, 323881539299953779229366961510820071308, 229775546030303484311429445974311196098);
    lemma_doubled(299670310097033029416336167540611082073, 340282366920938463463374607427473266697, 424354505632135399364724, 229775546030303484311429445974311196098, 315012892865635000010886283205586064401);
    lemma_advanced(299670310097033029416336167540611082073, 340282366920938463463374607427473266697, 848709011264270798729448, 315012892865635000010886283205586064401, 310948480884373904383689522792692499333, 46321971167444107710756286371539997281);
    lemma_advanced(299670310097033029416336167540611082073, 340282366920938463463374607427473266697, 1697418022528541597458897, 46321971167444107710756286371539997281, 82428959058847971834269194386345840879, 294868489327268272592011728145388404154);
    lemma_doubled(299670310097033029416336167540611082073, 340282366920938463463374607427473266697, 3394836045057083194917795, 294868489327268272592011728145388404154, 6462317447507833274406911950440071525);
    lemma_advanced(299670310097033029416336167540611082073, 340282366920938463463374607427473266697, 6789672090114166389835590, 6462317447507833274406911950440071525, 252504323527928170214625268997986064012, 33585211223086233034482660141155370845);
    lemma_advanced(299670310097033029416336167540611082073, 340282366920938463463374607427473266697, 13579344180228332779671181, 33585211223086233034482660141155370845, 270534766411533070158196250965152133414, 238324705568890587908801037639489469252);
    lemma_advanced(299670310097033029416336167540611082073, 340282366920938463463374607427473266697, 27158688360456665559342363, 238324705568890587908801037639489469252, 222405365676573741004124472434673432269, 1);
    lemma_inverted(299670310097033029416336167540611082073, 340282366920938463463374607427473266697, 1, 299670310097033029416336167540611082073, 318671265918785989965590116429238544304);
    law_certified_are_prime(340282366920938463463374607427473266697, 299670310097033029416336167540611082073, 54317376720913331118684727, 1, 318671265918785989965590116429238544304, 0);
}

// ---------------------------------------------------------------------------
// The moduli
// ---------------------------------------------------------------------------

/// Every value of [`Prime32Offset99`] but zero has an inverse.
pub proof fn law_prime_32_offset_99_is_a_field()
    ensures
        crate::field::is_field::<Prime32Offset99>(),
{
    lemma_prime_4294967197();
    crate::prime_field::law_prime_moduli_make_fields::<4294967197>();
}

/// Every value of [`Prime64Offset59`] but zero has an inverse.
pub proof fn law_prime_64_offset_59_is_a_field()
    ensures
        crate::field::is_field::<Prime64Offset59>(),
{
    lemma_prime_18446744073709551557();
    crate::prime_field::law_prime_moduli_make_fields::<18446744073709551557>();
}

/// Every value of [`Prime128Offset275`] but zero has an inverse.
pub proof fn law_prime_128_offset_275_is_a_field()
    ensures
        crate::field::is_field::<Prime128Offset275>(),
{
    lemma_prime_340282366920938463463374607431768211181();
    crate::prime_field::law_prime_moduli_make_fields::<340282366920938463463374607431768211181>();
}

/// Every value of [`Prime128OffsetA7F7`] but zero has an inverse.
pub proof fn law_prime_128_offset_a7f7_is_a_field()
    ensures
        crate::field::is_field::<Prime128OffsetA7F7>(),
{
    lemma_prime_340282366920938463463374607427473266697();
    crate::prime_field::law_prime_moduli_make_fields::<340282366920938463463374607427473266697>();
}

/// The quadratic extension of [`Prime32Offset99`] is a field.
pub proof fn law_prime_32_offset_99_extends_to_a_field()
    ensures
        crate::field::is_field::<Ext2<4294967197>>(),
{
    lemma_prime_4294967197();
    lemma_pow1(2);
    lemma_advanced(2, 4294967197, 1, 2, 4, 8);
    lemma_advanced(2, 4294967197, 3, 8, 64, 128);
    lemma_advanced(2, 4294967197, 7, 128, 16384, 32768);
    lemma_advanced(2, 4294967197, 15, 32768, 1073741824, 2147483648);
    lemma_advanced(2, 4294967197, 31, 2147483648, 3221227848, 2147488499);
    lemma_advanced(2, 4294967197, 63, 2147488499, 3245240298, 2195513399);
    lemma_advanced(2, 4294967197, 127, 2195513399, 3716048922, 3137130647);
    lemma_advanced(2, 4294967197, 255, 3137130647, 2426151458, 557335719);
    lemma_advanced(2, 4294967197, 511, 557335719, 3560773095, 2826578993);
    lemma_advanced(2, 4294967197, 1023, 2826578993, 1462651948, 2925303896);
    lemma_advanced(2, 4294967197, 2047, 2925303896, 1726933417, 3453866834);
    lemma_advanced(2, 4294967197, 4095, 3453866834, 3817679769, 3340392341);
    lemma_advanced(2, 4294967197, 8191, 3340392341, 1887775786, 3775551572);
    lemma_advanced(2, 4294967197, 16383, 3775551572, 766863777, 1533727554);
    lemma_advanced(2, 4294967197, 32767, 1533727554, 752404439, 1504808878);
    lemma_advanced(2, 4294967197, 65535, 1504808878, 576788405, 1153576810);
    lemma_advanced(2, 4294967197, 131071, 1153576810, 1505623693, 3011247386);
    lemma_advanced(2, 4294967197, 262143, 3011247386, 926439732, 1852879464);
    lemma_advanced(2, 4294967197, 524287, 1852879464, 1680345920, 3360691840);
    lemma_advanced(2, 4294967197, 1048575, 3360691840, 2938675222, 1582383247);
    lemma_advanced(2, 4294967197, 2097151, 1582383247, 1592727457, 3185454914);
    lemma_advanced(2, 4294967197, 4194303, 3185454914, 3897939101, 3500911005);
    lemma_advanced(2, 4294967197, 8388607, 3500911005, 4012604861, 3730242525);
    lemma_advanced(2, 4294967197, 16777215, 3730242525, 699796813, 1399593626);
    lemma_doubled(2, 4294967197, 33554431, 1399593626, 3556512628);
    lemma_doubled(2, 4294967197, 67108862, 3556512628, 1745298001);
    lemma_advanced(2, 4294967197, 134217724, 1745298001, 235245552, 470491104);
    lemma_advanced(2, 4294967197, 268435449, 470491104, 4049149503, 3803331809);
    lemma_advanced(2, 4294967197, 536870899, 3803331809, 2639118986, 983270775);
    lemma_doubled(2, 4294967197, 1073741799, 983270775, 4294967196);
    lemma_two_is_no_square(4294967197, 2147483598);
    quadratic::law_extension_is_a_field::<4294967197>();
}

/// The quadratic extension of [`Prime64Offset59`] is a field.
pub proof fn law_prime_64_offset_59_extends_to_a_field()
    ensures
        crate::field::is_field::<Ext2<18446744073709551557>>(),
{
    lemma_prime_18446744073709551557();
    lemma_pow1(2);
    lemma_advanced(2, 18446744073709551557, 1, 2, 4, 8);
    lemma_advanced(2, 18446744073709551557, 3, 8, 64, 128);
    lemma_advanced(2, 18446744073709551557, 7, 128, 16384, 32768);
    lemma_advanced(2, 18446744073709551557, 15, 32768, 1073741824, 2147483648);
    lemma_advanced(2, 18446744073709551557, 31, 2147483648, 4611686018427387904, 9223372036854775808);
    lemma_advanced(2, 18446744073709551557, 63, 9223372036854775808, 13835058055282164538, 9223372036854777519);
    lemma_advanced(2, 18446744073709551557, 127, 9223372036854777519, 13835058055285193008, 9223372036860834459);
    lemma_advanced(2, 18446744073709551557, 255, 9223372036860834459, 13835094762891564748, 9223445452073577939);
    lemma_advanced(2, 18446744073709551557, 511, 9223445452073577939, 404131258417388162, 808262516834776324);
    lemma_advanced(2, 18446744073709551557, 1023, 808262516834776324, 11338562116451864447, 4230380159194177337);
    lemma_advanced(2, 18446744073709551557, 2047, 4230380159194177337, 10894888694766068396, 3343033315822585235);
    lemma_advanced(2, 18446744073709551557, 4095, 3343033315822585235, 1769877772898103708, 3539755545796207416);
    lemma_advanced(2, 18446744073709551557, 8191, 3539755545796207416, 17464420295613584832, 16482096517517618107);
    lemma_advanced(2, 18446744073709551557, 16383, 16482096517517618107, 7353070418708895301, 14706140837417790602);
    lemma_advanced(2, 18446744073709551557, 32767, 14706140837417790602, 2775617278889096667, 5551234557778193334);
    lemma_advanced(2, 18446744073709551557, 65535, 5551234557778193334, 17918740325367301161, 17390736577025050765);
    lemma_advanced(2, 18446744073709551557, 131071, 17390736577025050765, 648607404152172807, 1297214808304345614);
    lemma_advanced(2, 18446744073709551557, 262143, 1297214808304345614, 7714362945472392785, 15428725890944785570);
    lemma_advanced(2, 18446744073709551557, 524287, 15428725890944785570, 15230244448593063952, 12013744823476576347);
    lemma_advanced(2, 18446744073709551557, 1048575, 12013744823476576347, 8932770450280467366, 17865540900560934732);
    lemma_advanced(2, 18446744073709551557, 2097151, 17865540900560934732, 2474286841996746950, 4948573683993493900);
    lemma_advanced(2, 18446744073709551557, 4194303, 4948573683993493900, 5781302043460311345, 11562604086920622690);
    lemma_advanced(2, 18446744073709551557, 8388607, 11562604086920622690, 17149236778609481559, 15851729483509411561);
    lemma_advanced(2, 18446744073709551557, 16777215, 15851729483509411561, 5869667817449081803, 11739335634898163606);
    lemma_advanced(2, 18446744073709551557, 33554431, 11739335634898163606, 7577485453789839824, 15154970907579679648);
    lemma_advanced(2, 18446744073709551557, 67108863, 15154970907579679648, 1825922187988221992, 3651844375976443984);
    lemma_advanced(2, 18446744073709551557, 134217727, 3651844375976443984, 1670736492773995407, 3341472985547990814);
    lemma_advanced(2, 18446744073709551557, 268435455, 3341472985547990814, 11485852074649910077, 4524960075590268597);
    lemma_advanced(2, 18446744073709551557, 536870911, 4524960075590268597, 1417768550293895008, 2835537100587790016);
    lemma_advanced(2, 18446744073709551557, 1073741823, 2835537100587790016, 16100009174146000307, 13753274274582449057);
    lemma_advanced(2, 18446744073709551557, 2147483647, 13753274274582449057, 6814101574082140877, 13628203148164281754);
    lemma_advanced(2, 18446744073709551557, 4294967295, 13628203148164281754, 11281956556071968480, 4117169038434385403);
    lemma_advanced(2, 18446744073709551557, 8589934591, 4117169038434385403, 11951317892237320689, 5455891710765089821);
    lemma_advanced(2, 18446744073709551557, 17179869183, 5455891710765089821, 14343661202392726643, 10240578331075901729);
    lemma_advanced(2, 18446744073709551557, 34359738367, 10240578331075901729, 414460088738711914, 828920177477423828);
    lemma_advanced(2, 18446744073709551557, 68719476735, 828920177477423828, 8350390225731980898, 16700780451463961796);
    lemma_advanced(2, 18446744073709551557, 137438953471, 16700780451463961796, 5076836200297248236, 10153672400594496472);
    lemma_advanced(2, 18446744073709551557, 274877906943, 10153672400594496472, 16114019803056011671, 13781295532402471785);
    lemma_advanced(2, 18446744073709551557, 549755813887, 13781295532402471785, 16562106732468815334, 14677469391228079111);
    lemma_advanced(2, 18446744073709551557, 1099511627775, 14677469391228079111, 16518100287980948598, 14589456502252345639);
    lemma_advanced(2, 18446744073709551557, 2199023255551, 14589456502252345639, 10977168162784119821, 3507592251858688085);
    lemma_advanced(2, 18446744073709551557, 4398046511103, 3507592251858688085, 3171645439065370903, 6343290878130741806);
    lemma_advanced(2, 18446744073709551557, 8796093022207, 6343290878130741806, 15643607712291147321, 12840471350872743085);
    lemma_advanced(2, 18446744073709551557, 17592186044415, 12840471350872743085, 11675204646244283644, 4903665218779015731);
    lemma_advanced(2, 18446744073709551557, 35184372088831, 4903665218779015731, 16659095437214319613, 14871446800719087669);
    lemma_advanced(2, 18446744073709551557, 70368744177663, 14871446800719087669, 14497072625898397547, 10547401178087243537);
    lemma_advanced(2, 18446744073709551557, 140737488355327, 10547401178087243537, 6875221707930225205, 13750443415860450410);
    lemma_advanced(2, 18446744073709551557, 281474976710655, 13750443415860450410, 2227468768633979414, 4454937537267958828);
    lemma_advanced(2, 18446744073709551557, 562949953421311, 4454937537267958828, 9454575936255608416, 462407798801665275);
    lemma_advanced(2, 18446744073709551557, 1125899906842623, 462407798801665275, 14176992470722206521, 9907240867734861485);
    lemma_advanced(2, 18446744073709551557, 2251799813685247, 9907240867734861485, 4116100672774504382, 8232201345549008764);
    lemma_advanced(2, 18446744073709551557, 4503599627370495, 8232201345549008764, 3631281814852421843, 7262563629704843686);
    lemma_advanced(2, 18446744073709551557, 9007199254740991, 7262563629704843686, 2822506059100266497, 5645012118200532994);
    lemma_advanced(2, 18446744073709551557, 18014398509481983, 5645012118200532994, 631780100508250077, 1263560201016500154);
    lemma_advanced(2, 18446744073709551557, 36028797018963967, 1263560201016500154, 5047256456828134420, 10094512913656268840);
    lemma_advanced(2, 18446744073709551557, 72057594037927935, 10094512913656268840, 7860816477920010818, 15721632955840021636);
    lemma_advanced(2, 18446744073709551557, 144115188075855871, 15721632955840021636, 15809474739312407681, 13172205404915263805);
    lemma_doubled(2, 18446744073709551557, 288230376151711743, 13172205404915263805, 8137476270782327521);
    lemma_doubled(2, 18446744073709551557, 576460752303423486, 8137476270782327521, 4904465323524371326);
    lemma_doubled(2, 18446744073709551557, 1152921504606846972, 4904465323524371326, 17298733141679259386);
    lemma_advanced(2, 18446744073709551557, 2305843009213693944, 17298733141679259386, 10371382968885067949, 2296021864060584341);
    lemma_doubled(2, 18446744073709551557, 4611686018427387889, 2296021864060584341, 18446744073709551556);
    lemma_two_is_no_square(18446744073709551557, 9223372036854775778);
    quadratic::law_extension_is_a_field::<18446744073709551557>();
}

/// The quadratic extension of [`Prime128Offset275`] is a field.
pub proof fn law_prime_128_offset_275_extends_to_a_field()
    ensures
        crate::field::is_field::<Ext2<340282366920938463463374607431768211181>>(),
{
    lemma_prime_340282366920938463463374607431768211181();
    lemma_pow1(2);
    lemma_advanced(2, 340282366920938463463374607431768211181, 1, 2, 4, 8);
    lemma_advanced(2, 340282366920938463463374607431768211181, 3, 8, 64, 128);
    lemma_advanced(2, 340282366920938463463374607431768211181, 7, 128, 16384, 32768);
    lemma_advanced(2, 340282366920938463463374607431768211181, 15, 32768, 1073741824, 2147483648);
    lemma_advanced(2, 340282366920938463463374607431768211181, 31, 2147483648, 4611686018427387904, 9223372036854775808);
    lemma_advanced(2, 340282366920938463463374607431768211181, 63, 9223372036854775808, 85070591730234615865843651857942052864, 170141183460469231731687303715884105728);
    lemma_advanced(2, 340282366920938463463374607431768211181, 127, 170141183460469231731687303715884105728, 255211775190703847597530955573826177292, 170141183460469231731687303715884143403);
    lemma_advanced(2, 340282366920938463463374607431768211181, 255, 170141183460469231731687303715884143403, 255211775190703847597530955575255943542, 170141183460469231731687303718743675903);
    lemma_advanced(2, 340282366920938463463374607431768211181, 511, 170141183460469231731687303718743675903, 255211775190703847605708097945957506042, 170141183460469231748041588460146800903);
    lemma_advanced(2, 340282366920938463463374607431768211181, 1023, 170141183460469231748041588460146800903, 182392037766188917553303481969267419861, 24501708611439371643232356506766628541);
    lemma_advanced(2, 340282366920938463463374607431768211181, 2047, 24501708611439371643232356506766628541, 127549926828913719171689229955854113167, 255099853657827438343378459911708226334);
    lemma_advanced(2, 340282366920938463463374607431768211181, 4095, 255099853657827438343378459911708226334, 250345819661831566242302695978503035276, 160409272402724669021230784525237859371);
    lemma_advanced(2, 340282366920938463463374607431768211181, 8191, 160409272402724669021230784525237859371, 218107174496954929523605566364057700131, 95931982072971395583836525296347189081);
    lemma_advanced(2, 340282366920938463463374607431768211181, 16383, 95931982072971395583836525296347189081, 166944890752961993569770851852662601186, 333889781505923987139541703705325202372);
    lemma_advanced(2, 340282366920938463463374607431768211181, 32767, 333889781505923987139541703705325202372, 70334868297173659238411746717969272345, 140669736594347318476823493435938544690);
    lemma_advanced(2, 340282366920938463463374607431768211181, 65535, 140669736594347318476823493435938544690, 29696850176667398087700086233784398258, 59393700353334796175400172467568796516);
    lemma_advanced(2, 340282366920938463463374607431768211181, 131071, 59393700353334796175400172467568796516, 102530645012482445359277118292216981646, 205061290024964890718554236584433963292);
    lemma_advanced(2, 340282366920938463463374607431768211181, 262143, 205061290024964890718554236584433963292, 269716396625252942859328500599556185939, 199150426329567422255282393767344160697);
    lemma_advanced(2, 340282366920938463463374607431768211181, 524287, 199150426329567422255282393767344160697, 339447149851467523197115033364581282633, 338611932781996582930855459297394354085);
    lemma_advanced(2, 340282366920938463463374607431768211181, 1048575, 338611932781996582930855459297394354085, 26179226251513053204582840120437636825, 52358452503026106409165680240875273650);
    lemma_advanced(2, 340282366920938463463374607431768211181, 2097151, 52358452503026106409165680240875273650, 27155901123122273018711262711345216384, 54311802246244546037422525422690432768);
    lemma_advanced(2, 340282366920938463463374607431768211181, 4194303, 54311802246244546037422525422690432768, 245074003183687704873766001584500761476, 149865639446436946284157395737233311771);
    lemma_advanced(2, 340282366920938463463374607431768211181, 8388607, 149865639446436946284157395737233311771, 233432217359741926579220326567985926037, 126582067798545389695066045704203640893);
    lemma_advanced(2, 340282366920938463463374607431768211181, 16777215, 126582067798545389695066045704203640893, 305922861710752737527696477010391396127, 271563356500567011592018346589014581073);
    lemma_advanced(2, 340282366920938463463374607431768211181, 33554431, 271563356500567011592018346589014581073, 31629164613330313667736354138617604408, 63258329226660627335472708277235208816);
    lemma_advanced(2, 340282366920938463463374607431768211181, 67108863, 63258329226660627335472708277235208816, 252693405036034235433567336285494803381, 165104443151130007403760065139221395581);
    lemma_advanced(2, 340282366920938463463374607431768211181, 134217727, 165104443151130007403760065139221395581, 195799085657023433537036458487001674957, 51315804393108403610698309542235138733);
    lemma_advanced(2, 340282366920938463463374607431768211181, 268435455, 51315804393108403610698309542235138733, 93520605063327890586498806305253698521, 187041210126655781172997612610507397042);
    lemma_advanced(2, 340282366920938463463374607431768211181, 536870911, 187041210126655781172997612610507397042, 175783967548270963142419567572835115989, 11285568175603462821464527713902020797);
    lemma_advanced(2, 340282366920938463463374607431768211181, 1073741823, 11285568175603462821464527713902020797, 38374512823273229054216852332660667098, 76749025646546458108433704665321334196);
    lemma_advanced(2, 340282366920938463463374607431768211181, 2147483647, 76749025646546458108433704665321334196, 129630939361714250670900624947111915238, 259261878723428501341801249894223830476);
    lemma_advanced(2, 340282366920938463463374607431768211181, 4294967295, 259261878723428501341801249894223830476, 213688581895816719136714759312526363059, 87094796870694974810054911193284514937);
    lemma_advanced(2, 340282366920938463463374607431768211181, 8589934591, 87094796870694974810054911193284514937, 206182974030279448890458335258377142538, 72083581139620434317542063084986073895);
    lemma_advanced(2, 340282366920938463463374607431768211181, 17179869183, 72083581139620434317542063084986073895, 4356024629124353172929490223495451851, 8712049258248706345858980446990903702);
    lemma_advanced(2, 340282366920938463463374607431768211181, 34359738367, 8712049258248706345858980446990903702, 331732685111665846206496734169546492913, 323183003302393228949618860907324774645);
    lemma_advanced(2, 340282366920938463463374607431768211181, 68719476735, 323183003302393228949618860907324774645, 228386036330912222792552313580065882084, 116489705740885982121730019728363552987);
    lemma_advanced(2, 340282366920938463463374607431768211181, 137438953471, 116489705740885982121730019728363552987, 166694535218895222793448797432806148638, 333389070437790445586897594865612297276);
    lemma_advanced(2, 340282366920938463463374607431768211181, 274877906943, 333389070437790445586897594865612297276, 288321498576219498072016259465101144191, 236360630231500532680657911498434077201);
    lemma_advanced(2, 340282366920938463463374607431768211181, 549755813887, 236360630231500532680657911498434077201, 330238280393226833783572226360889345315, 320194193865515204103769845290010479449);
    lemma_advanced(2, 340282366920938463463374607431768211181, 1099511627775, 320194193865515204103769845290010479449, 211677994331490169547359435844595088670, 83073621742041875631344264257421966159);
    lemma_advanced(2, 340282366920938463463374607431768211181, 2199023255551, 83073621742041875631344264257421966159, 279903416585852784350073130435625138860, 219524466250767105236771653439482066539);
    lemma_advanced(2, 340282366920938463463374607431768211181, 4398046511103, 219524466250767105236771653439482066539, 315593819895808691269002400530285748198, 290905272870678919074630193628803285215);
    lemma_advanced(2, 340282366920938463463374607431768211181, 8796093022207, 290905272870678919074630193628803285215, 175806007959888605097213726339368230340, 11329648998838746731052845246968249499);
    lemma_advanced(2, 340282366920938463463374607431768211181, 17592186044415, 11329648998838746731052845246968249499, 264468046276568974894380283082917650381, 188653725632199486325385958734067089581);
    lemma_advanced(2, 340282366920938463463374607431768211181, 35184372088831, 188653725632199486325385958734067089581, 43720532789191354584667995754305926262, 87441065578382709169335991508611852524);
    lemma_advanced(2, 340282366920938463463374607431768211181, 70368744177663, 87441065578382709169335991508611852524, 41185385910883093657388294108049533587, 82370771821766187314776588216099067174);
    lemma_advanced(2, 340282366920938463463374607431768211181, 140737488355327, 82370771821766187314776588216099067174, 267632019458743499327365989230953801820, 194981671996548535191357371030139392459);
    lemma_advanced(2, 340282366920938463463374607431768211181, 281474976710655, 194981671996548535191357371030139392459, 151135711739751282174868318027766294656, 302271423479502564349736636055532589312);
    lemma_advanced(2, 340282366920938463463374607431768211181, 562949953421311, 302271423479502564349736636055532589312, 198148219574333270522292397607466546937, 56014072227728077581210187783164882693);
    lemma_advanced(2, 340282366920938463463374607431768211181, 1125899906842623, 56014072227728077581210187783164882693, 107972910309039790804750080505204729602, 215945820618079581609500161010409459204);
    lemma_advanced(2, 340282366920938463463374607431768211181, 2251799813685247, 215945820618079581609500161010409459204, 156768980932038758709310910863955876249, 313537961864077517418621821727911752498);
    lemma_advanced(2, 340282366920938463463374607431768211181, 4503599627370495, 313537961864077517418621821727911752498, 2022643049389343664385617174326656291, 4045286098778687328771234348653312582);
    lemma_advanced(2, 340282366920938463463374607431768211181, 9007199254740991, 4045286098778687328771234348653312582, 114288994279454953355047786778778441675, 228577988558909906710095573557556883350);
    lemma_advanced(2, 340282366920938463463374607431768211181, 18014398509481983, 228577988558909906710095573557556883350, 113153496853220370507586483530263862428, 226306993706440741015172967060527724856);
    lemma_advanced(2, 340282366920938463463374607431768211181, 36028797018963967, 226306993706440741015172967060527724856, 112675109365123260005480356058572096088, 225350218730246520010960712117144192176);
    lemma_advanced(2, 340282366920938463463374607431768211181, 72057594037927935, 225350218730246520010960712117144192176, 80057262545528022824219072604551327247, 160114525091056045648438145209102654494);
    lemma_advanced(2, 340282366920938463463374607431768211181, 144115188075855871, 160114525091056045648438145209102654494, 245512304070233648834595469743989471769, 150742241219528834205816332056210732357);
    lemma_advanced(2, 340282366920938463463374607431768211181, 288230376151711743, 150742241219528834205816332056210732357, 299127180849116218984379876641471114201, 257971994777293974505385145851174017221);
    lemma_advanced(2, 340282366920938463463374607431768211181, 576460752303423487, 257971994777293974505385145851174017221, 100834010350782503640442707874498457716, 201668020701565007280885415748996915432);
    lemma_advanced(2, 340282366920938463463374607431768211181, 1152921504606846975, 201668020701565007280885415748996915432, 142279284005946773562435215306565686781, 284558568011893547124870430613131373562);
    lemma_advanced(2, 340282366920938463463374607431768211181, 2305843009213693951, 284558568011893547124870430613131373562, 85283008072561943558906141376483852628, 170566016145123887117812282752967705256);
    lemma_advanced(2, 340282366920938463463374607431768211181, 4611686018427387903, 170566016145123887117812282752967705256, 237519412890369983748378452960097577470, 134756458859801504033382298488426943759);
    lemma_advanced(2, 340282366920938463463374607431768211181, 9223372036854775807, 134756458859801504033382298488426943759, 41022130103725855232785252019708084604, 82044260207451710465570504039416169208);
    lemma_advanced(2, 340282366920938463463374607431768211181, 18446744073709551615, 82044260207451710465570504039416169208, 37863164525322587215105561121836175052, 75726329050645174430211122243672350104);
    lemma_advanced(2, 340282366920938463463374607431768211181, 36893488147419103231, 75726329050645174430211122243672350104, 237934168284583415784195703931681494164, 135585969648228368105016800431594777147);
    lemma_advanced(2, 340282366920938463463374607431768211181, 73786976294838206463, 135585969648228368105016800431594777147, 188816387234650366530610754779510802885, 37350407548362269597846902127253394589);
    lemma_advanced(2, 340282366920938463463374607431768211181, 147573952589676412927, 37350407548362269597846902127253394589, 166034489261060990852540047203128069826, 332068978522121981705080094406256139652);
    lemma_advanced(2, 340282366920938463463374607431768211181, 295147905179352825855, 332068978522121981705080094406256139652, 59052838602125110288197129820817713984, 118105677204250220576394259641635427968);
    lemma_advanced(2, 340282366920938463463374607431768211181, 590295810358705651711, 118105677204250220576394259641635427968, 210165137914620484948226324150993774633, 80047908908302506433078040870219338085);
    lemma_advanced(2, 340282366920938463463374607431768211181, 1180591620717411303423, 80047908908302506433078040870219338085, 257736556983486972493450775547291763257, 175190747046035481523526943662815315333);
    lemma_advanced(2, 340282366920938463463374607431768211181, 2361183241434822606847, 175190747046035481523526943662815315333, 60459564615256559728296276435088538708, 120919129230513119456592552870177077416);
    lemma_advanced(2, 340282366920938463463374607431768211181, 4722366482869645213695, 120919129230513119456592552870177077416, 124797630868242637483694632133772341855, 249595261736485274967389264267544683710);
    lemma_advanced(2, 340282366920938463463374607431768211181, 9444732965739290427391, 249595261736485274967389264267544683710, 297960957327303993891829722737224141324, 255639547733669524320284838042680071467);
    lemma_advanced(2, 340282366920938463463374607431768211181, 18889465931478580854783, 255639547733669524320284838042680071467, 311479091880203576235711496646344979567, 282675816839468689008048385860921747953);
    lemma_advanced(2, 340282366920938463463374607431768211181, 37778931862957161709567, 282675816839468689008048385860921747953, 44048953633014574010070856131552870243, 88097907266029148020141712263105740486);
    lemma_advanced(2, 340282366920938463463374607431768211181, 75557863725914323419135, 88097907266029148020141712263105740486, 186259167189460487429024120283936872581, 32235967457982511394673633136105533981);
    lemma_advanced(2, 340282366920938463463374607431768211181, 151115727451828646838271, 32235967457982511394673633136105533981, 173594144760519778317525519866067251226, 6905922600101093171676432300366291271);
    lemma_advanced(2, 340282366920938463463374607431768211181, 302231454903657293676543, 6905922600101093171676432300366291271, 51476698427748253965290868045962051194, 102953396855496507930581736091924102388);
    lemma_advanced(2, 340282366920938463463374607431768211181, 604462909807314587353087, 102953396855496507930581736091924102388, 268274289899386692714534367427380578383, 196266212877834921965694127422992945585);
    lemma_advanced(2, 340282366920938463463374607431768211181, 1208925819614629174706175, 196266212877834921965694127422992945585, 194610774298132188367494499096286624032, 48939181675325913271614390760805036883);
    lemma_advanced(2, 340282366920938463463374607431768211181, 2417851639229258349412351, 48939181675325913271614390760805036883, 96149904161809571621257791623335118263, 192299808323619143242515583246670236526);
    lemma_advanced(2, 340282366920938463463374607431768211181, 4835703278458516698824703, 192299808323619143242515583246670236526, 261783109668499504187373272827923549048, 183283852416060544911371938224078886915);
    lemma_advanced(2, 340282366920938463463374607431768211181, 9671406556917033397649407, 183283852416060544911371938224078886915, 339355644442834553888032324352767842400, 338428921964730644312690041273767473619);
    lemma_advanced(2, 340282366920938463463374607431768211181, 19342813113834066795298815, 338428921964730644312690041273767473619, 101154632345794052804467118807262416825, 202309264691588105608934237614524833650);
    lemma_advanced(2, 340282366920938463463374607431768211181, 38685626227668133590597631, 202309264691588105608934237614524833650, 151960939264502209381770040037295910539, 303921878529004418763540080074591821078);
    lemma_advanced(2, 340282366920938463463374607431768211181, 77371252455336267181195263, 303921878529004418763540080074591821078, 262918094597754255232639778463425549925, 185553822274570047001904949495082888669);
    lemma_advanced(2, 340282366920938463463374607431768211181, 154742504910672534362390527, 185553822274570047001904949495082888669, 206647323405606486073916146749568957978, 73012279890274508684457686067369704775);
    lemma_advanced(2, 340282366920938463463374607431768211181, 309485009821345068724781055, 73012279890274508684457686067369704775, 6669182183113915491256182058933295814, 13338364366227830982512364117866591628);
    lemma_advanced(2, 340282366920938463463374607431768211181, 618970019642690137449562111, 13338364366227830982512364117866591628, 108822495212709780269750846459657651445, 217644990425419560539501692919315302890);
    lemma_advanced(2, 340282366920938463463374607431768211181, 1237940039285380274899124223, 217644990425419560539501692919315302890, 5121783986732079797064127457671267087, 10243567973464159594128254915342534174);
    lemma_advanced(2, 340282366920938463463374607431768211181, 2475880078570760549798248447, 10243567973464159594128254915342534174, 162835551704428892456416276407754633694, 325671103408857784912832552815509267388);
    lemma_advanced(2, 340282366920938463463374607431768211181, 4951760157141521099596496895, 325671103408857784912832552815509267388, 97597187077828968407765778564983500007, 195194374155657936815531557129967000014);
    lemma_advanced(2, 340282366920938463463374607431768211181, 9903520314283042199192993791, 195194374155657936815531557129967000014, 116923848470447163485036116220086738546, 233847696940894326970072232440173477092);
    lemma_advanced(2, 340282366920938463463374607431768211181, 19807040628566084398385987583, 233847696940894326970072232440173477092, 310499212061260267785351417366276671465, 280716057201582072107328227300785131749);
    lemma_advanced(2, 340282366920938463463374607431768211181, 39614081257132168796771975167, 280716057201582072107328227300785131749, 238723988461508226702547113315859935971, 137165610002077989941719619199951660761);
    lemma_advanced(2, 340282366920938463463374607431768211181, 79228162514264337593543950335, 137165610002077989941719619199951660761, 24863661318765739293641259270675361661, 49727322637531478587282518541350723322);
    lemma_advanced(2, 340282366920938463463374607431768211181, 158456325028528675187087900671, 49727322637531478587282518541350723322, 239716488697375724837924069413590969460, 139150610473812986212473531395413727739);
    lemma_advanced(2, 340282366920938463463374607431768211181, 316912650057057350374175801343, 139150610473812986212473531395413727739, 32887109631507881056586615854158349039, 65774219263015762113173231708316698078);
    lemma_advanced(2, 340282366920938463463374607431768211181, 633825300114114700748351602687, 65774219263015762113173231708316698078, 77334797056526164406264113557618400360, 154669594113052328812528227115236800720);
    lemma_advanced(2, 340282366920938463463374607431768211181, 1267650600228229401496703205375, 154669594113052328812528227115236800720, 257115866087594618191414602160186727563, 173949365254250772919454596888605243945);
    lemma_advanced(2, 340282366920938463463374607431768211181, 2535301200456458802993406410751, 173949365254250772919454596888605243945, 85407840076064404638266149314986702839, 170815680152128809276532298629973405678);
    lemma_advanced(2, 340282366920938463463374607431768211181, 5070602400912917605986812821503, 170815680152128809276532298629973405678, 253411921105035341130513090418444349479, 166541475289132218797651573405120487777);
    lemma_advanced(2, 340282366920938463463374607431768211181, 10141204801825835211973625643007, 166541475289132218797651573405120487777, 199009815655109159048058871233062542042, 57737264389279854632743135034356872903);
    lemma_advanced(2, 340282366920938463463374607431768211181, 20282409603651670423947251286015, 57737264389279854632743135034356872903, 190681219239272991386221548011438008951, 41080071557607519309068488591107806721);
    lemma_advanced(2, 340282366920938463463374607431768211181, 40564819207303340847894502572031, 41080071557607519309068488591107806721, 34537731479993630661554784404075410362, 69075462959987261323109568808150820724);
    lemma_advanced(2, 340282366920938463463374607431768211181, 81129638414606681695789005144063, 69075462959987261323109568808150820724, 138215535441998101549137138143498719161, 276431070883996203098274276286997438322);
    lemma_advanced(2, 340282366920938463463374607431768211181, 162259276829213363391578010288127, 276431070883996203098274276286997438322, 10344771536032657148585006693244234416, 20689543072065314297170013386488468832);
    lemma_advanced(2, 340282366920938463463374607431768211181, 324518553658426726783156020576255, 20689543072065314297170013386488468832, 232494382065397972510567632077140455674, 124706397209857481557760656722512700167);
    lemma_advanced(2, 340282366920938463463374607431768211181, 649037107316853453566312041152511, 124706397209857481557760656722512700167, 134346356508141610316330414911817393828, 268692713016283220632660829823634787656);
    lemma_advanced(2, 340282366920938463463374607431768211181, 1298074214633706907132624082305023, 268692713016283220632660829823634787656, 283723051629453889737596030744942429947, 227163736337969316011817454058116648713);
    lemma_advanced(2, 340282366920938463463374607431768211181, 2596148429267413814265248164610047, 227163736337969316011817454058116648713, 56735888779071817950254777334981668142, 113471777558143635900509554669963336284);
    lemma_advanced(2, 340282366920938463463374607431768211181, 5192296858534827628530496329220095, 113471777558143635900509554669963336284, 186134893870113461161450610873617887612, 31987420819288458859526614315467564043);
    lemma_advanced(2, 340282366920938463463374607431768211181, 10384593717069655257060992658440191, 31987420819288458859526614315467564043, 150812968522494727443196537929134240395, 301625937044989454886393075858268480790);
    lemma_advanced(2, 340282366920938463463374607431768211181, 20769187434139310514121985316880383, 301625937044989454886393075858268480790, 89781354600632298679124831152015654467, 179562709201264597358249662304031308934);
    lemma_advanced(2, 340282366920938463463374607431768211181, 41538374868278621028243970633760767, 179562709201264597358249662304031308934, 182615799986198155930228332472180446298, 24949233051457848397082057512592681415);
    lemma_advanced(2, 340282366920938463463374607431768211181, 83076749736557242056487941267521535, 24949233051457848397082057512592681415, 136211171612438836087178148442375939062, 272422343224877672174356296884751878124);
    lemma_advanced(2, 340282366920938463463374607431768211181, 166153499473114484112975882535043071, 272422343224877672174356296884751878124, 281277238543418620123667919891998439590, 222272110165898776783961232352228667999);
    lemma_advanced(2, 340282366920938463463374607431768211181, 332306998946228968225951765070086143, 222272110165898776783961232352228667999, 199833459091635219297019636741393552985, 59384551262331975130664666051018894789);
    lemma_doubled(2, 340282366920938463463374607431768211181, 664613997892457936451903530140172287, 59384551262331975130664666051018894789, 38942452263657424836192392122248003570);
    lemma_advanced(2, 340282366920938463463374607431768211181, 1329227995784915872903807060280344574, 38942452263657424836192392122248003570, 15293747616400516341698130700032861884, 30587495232801032683396261400065723768);
    lemma_advanced(2, 340282366920938463463374607431768211181, 2658455991569831745807614120560689149, 30587495232801032683396261400065723768, 223367022597410948517239642403383060635, 106451678273883433571104677374997910089);
    lemma_advanced(2, 340282366920938463463374607431768211181, 5316911983139663491615228241121378299, 106451678273883433571104677374997910089, 154375905545015876498213360102343767166, 308751811090031752996426720204687534332);
    lemma_doubled(2, 340282366920938463463374607431768211181, 10633823966279326983230456482242756599, 308751811090031752996426720204687534332, 229957252014854913032923927918054946364);
    lemma_advanced(2, 340282366920938463463374607431768211181, 21267647932558653966460912964485513198, 229957252014854913032923927918054946364, 266885145690167276661977175334656663859, 193487924459396089860579743237545116537);
    lemma_advanced(2, 340282366920938463463374607431768211181, 42535295865117307932921825928971026397, 193487924459396089860579743237545116537, 316935625922011605334482167910107200234, 293588884923084747205589728388446189287);
    lemma_doubled(2, 340282366920938463463374607431768211181, 85070591730234615865843651857942052795, 293588884923084747205589728388446189287, 340282366920938463463374607431768211180);
    lemma_two_is_no_square(340282366920938463463374607431768211181, 170141183460469231731687303715884105590);
    quadratic::law_extension_is_a_field::<340282366920938463463374607431768211181>();
}

impl DivisionField for PrimeField<4294967197> {
    proof fn law_inverses() {
        law_prime_32_offset_99_is_a_field();
    }
}

impl DivisionField for PrimeField<18446744073709551557> {
    proof fn law_inverses() {
        law_prime_64_offset_59_is_a_field();
    }
}

impl DivisionField for PrimeField<340282366920938463463374607431768211181> {
    proof fn law_inverses() {
        law_prime_128_offset_275_is_a_field();
    }
}

impl DivisionField for PrimeField<340282366920938463463374607427473266697> {
    proof fn law_inverses() {
        law_prime_128_offset_a7f7_is_a_field();
    }
}

impl DivisionField for Ext2<4294967197> {
    proof fn law_inverses() {
        law_prime_32_offset_99_extends_to_a_field();
    }
}

impl DivisionField for Ext2<18446744073709551557> {
    proof fn law_inverses() {
        law_prime_64_offset_59_extends_to_a_field();
    }
}

impl DivisionField for Ext2<340282366920938463463374607431768211181> {
    proof fn law_inverses() {
        law_prime_128_offset_275_extends_to_a_field();
    }
}

} // verus!
