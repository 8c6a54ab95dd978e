//! Small integer functions with explicit failure.

use vstd::arithmetic::power2::*;
use vstd::prelude::*;

verus! {

broadcast use vstd::arithmetic::power2::lemma_pow2_pos;

/// The quotient rounded up.
pub open spec fn ceil_div(a: int, b: int) -> int {
    (a + b - 1) / b
}

/// How many times two divides a positive integer.
pub open spec fn two_adic(n: nat) -> nat
    decreases n,
{
    if n == 0 || n % 2 == 1 {
        0
    } else {
        1 + two_adic(n / 2)
    }
}

/// Two to the power `exponent`, if it fits.
pub fn checked_pow2(exponent: usize) -> (r: Option<usize>)
    ensures
        match r {
            Some(len) => len == pow2(exponent as nat),
            None => pow2(exponent as nat) > usize::MAX,
        },
{
    let mut len: usize = 1;
    let mut k: usize = 0;
    proof {
        lemma2_to64();
    }
    while k < exponent
        invariant
            k <= exponent,
            len == pow2(k as nat),
        decreases exponent - k,
    {
        proof {
            lemma_pow2_unfold((k + 1) as nat);
        }
        match len.checked_mul(2) {
            Some(next) => {
                len = next;
            },
            None => {
                proof {
                    if k + 1 < exponent {
                        lemma_pow2_strictly_increases((k + 1) as nat, exponent as nat);
                    }
                }
                return None;
            },
        }
        k += 1;
    }
    Some(len)
}

/// The quotient rounded up.
pub fn div_ceil(a: usize, b: usize) -> (r: usize)
    requires
        b > 0,
    ensures
        r == ceil_div(a as int, b as int),
{
    let q: usize = a / b;
    let rem: usize = a % b;
    proof {
        vstd::arithmetic::div_mod::lemma_fundamental_div_mod(a as int, b as int);
        vstd::arithmetic::mul::lemma_mul_is_commutative(b as int, q as int);
        if rem == 0 {
            vstd::arithmetic::div_mod::lemma_fundamental_div_mod_converse(
                a + b - 1,
                b as int,
                q as int,
                b - 1,
            );
        } else {
            assert(b * q + rem + b - 1 == (q + 1) * b + (rem - 1)) by (nonlinear_arith);
            vstd::arithmetic::div_mod::lemma_fundamental_div_mod_converse(
                a + b - 1,
                b as int,
                q + 1,
                rem - 1,
            );
            assert(q < a || b == 1) by (nonlinear_arith)
                requires
                    a == b * q + rem,
                    rem > 0,
                    b > 0,
                    q >= 0,
            ;
        }
    }
    if rem == 0 {
        q
    } else {
        q + 1
    }
}

/// How many times two divides a positive integer.
pub fn trailing_zeros(n: usize) -> (r: usize)
    requires
        n > 0,
    ensures
        r == two_adic(n as nat),
{
    let mut left: usize = n;
    let mut k: usize = 0;
    while left % 2 == 0
        invariant
            left > 0,
            k + left <= n,
            two_adic(n as nat) == k + two_adic(left as nat),
        decreases left,
    {
        left = left / 2;
        k += 1;
    }
    k
}

/// Whether an integer is a power of two.
pub fn is_power_of_two(n: usize) -> (r: bool)
    ensures
        r == (n > 0 && is_pow2(n as int)),
{
    if n == 0 {
        return false;
    }
    let mut left: usize = n;
    proof {
        reveal(is_pow2);
    }
    while left % 2 == 0
        invariant
            left > 0,
            is_pow2(n as int) == is_pow2(left as int),
        decreases left,
    {
        proof {
            reveal(is_pow2);
        }
        left = left / 2;
    }
    left == 1
}

/// The quotient rounded up is the fewest parts of a size that hold a number.
pub proof fn law_quotients_round_up(a: int, b: int)
    requires
        a >= 0,
        b > 0,
    ensures
        ceil_div(a, b) * b >= a,
        (ceil_div(a, b) - 1) * b < a,
{
    let q = ceil_div(a, b);
    vstd::arithmetic::div_mod::lemma_fundamental_div_mod(a + b - 1, b);
    let r = (a + b - 1) % b;
    assert(q * b >= a && (q - 1) * b < a) by (nonlinear_arith)
        requires
            a + b - 1 == b * q + r,
            0 <= r < b,
    ;
}

/// A positive integer is an odd number times two to the power of how many times
/// two divides it.
pub proof fn law_two_divides_so_often(n: nat) -> (odd: nat)
    requires
        n > 0,
    ensures
        odd % 2 == 1,
        n == odd * pow2(two_adic(n)),
    decreases n,
{
    if n % 2 == 1 {
        lemma2_to64();
        assert(n * 1 == n);
        assert(two_adic(n) == 0);
        assert(n * pow2(0) == n);
        n
    } else {
        let odd = law_two_divides_so_often(n / 2);
        let k = two_adic(n / 2);
        lemma_pow2_unfold(k + 1);
        assert(n == odd * pow2(k + 1)) by (nonlinear_arith)
            requires
                n == 2 * (n / 2),
                n / 2 == odd * pow2(k),
                pow2(k + 1) == 2 * pow2(k),
        ;
        odd
    }
}

} // verus!
