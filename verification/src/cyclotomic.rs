//! The ring `F[X] / (X^D + 1)` in coefficient form.
//!
//! Since `X^D = -1`, a coefficient that a product moves past the last place
//! comes back at the first with its sign changed. Coefficients are therefore
//! extended to all integer positions with period `2D` and a change of sign
//! every `D` places; multiplication by `X^k` reads that extension `k` places
//! back.

use crate::field::Field;
use crate::prime_field::PrimeField;
use crate::ring_lemmas as rl;
use vstd::arithmetic::div_mod::*;
use vstd::prelude::*;

verus! {

// ---------------------------------------------------------------------------
// Model
// ---------------------------------------------------------------------------

/// The coefficient at an integer position of the extension described above.
pub open spec fn signed<F: Field>(a: Seq<F>, position: int) -> F {
    let d = a.len() as int;
    let t = position % (2 * d);
    if t < d {
        a[t]
    } else {
        -a[t - d]
    }
}

/// Coefficient `i` of the product of two elements.
pub open spec fn product_coeff<F: Field>(a: Seq<F>, b: Seq<F>, i: int) -> F {
    rl::sum_range(product_term(a, b, i), 0, a.len() as int)
}

/// The term of `a[j]` in coefficient `i` of a product.
pub open spec fn product_term<F: Field>(a: Seq<F>, b: Seq<F>, i: int) -> spec_fn(int) -> F {
    |j: int| a[j] * signed(b, i - j)
}

/// What coefficient `j` contributes to coefficient `i` under `X -> X^k`.
pub open spec fn automorphism_term<F: Field>(a: Seq<F>, k: int, i: int) -> spec_fn(int) -> F {
    let d = a.len() as int;
    |j: int|
        {
            let place = (j * k) % (2 * d);
            if place == i {
                a[j]
            } else if place == i + d {
                -a[j]
            } else {
                F::zero_spec()
            }
        }
}

/// The sum of the shifts of `a` by the first `count` positions, at place `i`.
pub open spec fn shift_sum<F: Field>(a: Seq<F>, positions: Seq<usize>, i: int) -> spec_fn(
    int,
) -> F {
    |t: int| signed(a, i - positions[t])
}

/// The number of nonzero coefficients among the first `n`.
pub open spec fn nonzero_count<F: Field>(a: Seq<F>, n: int) -> int
    decreases n,
{
    if n <= 0 {
        0
    } else {
        nonzero_count(a, n - 1) + if a[n - 1] == F::zero_spec() {
            0int
        } else {
            1
        }
    }
}

/// Whether `after` holds `before` plus `delta`.
pub open spec fn accumulated<F: Field>(before: F, after: F, delta: F) -> bool {
    after == before + delta
}

/// Whether the coefficients are reduced. Those of every element that a program
/// holds are.
pub open spec fn settled<F: Field>(a: Seq<F>) -> bool {
    forall|i: int| 0 <= i < a.len() ==> rl::reduced(#[trigger] a[i])
}

/// The product of two elements.
pub open spec fn product<F: Field>(a: Seq<F>, b: Seq<F>) -> Seq<F> {
    Seq::new(a.len(), |i: int| product_coeff(a, b, i))
}

/// The element read `k` places back.
pub open spec fn shifted<F: Field>(a: Seq<F>, k: int) -> Seq<F> {
    Seq::new(a.len(), |i: int| signed(a, i - k))
}

/// The image under `X -> X^k`.
pub open spec fn automorphism<F: Field>(a: Seq<F>, k: int) -> Seq<F> {
    Seq::new(
        a.len(),
        |i: int| rl::sum_range(automorphism_term(a, k, i), 0, a.len() as int),
    )
}

// ---------------------------------------------------------------------------
// Lemmas
// ---------------------------------------------------------------------------

/// The extension at a position less than one period away.
pub proof fn lemma_signed_near<F: Field>(a: Seq<F>, position: int)
    requires
        a.len() > 0,
        -2 * a.len() <= position < 2 * a.len(),
    ensures
        signed(a, position) == if position < -(a.len() as int) {
            a[position + 2 * a.len()]
        } else if position < 0 {
            -a[position + a.len()]
        } else if position < a.len() {
            a[position]
        } else {
            -a[position - a.len()]
        },
{
    let d = a.len() as int;
    if position < 0 {
        lemma_fundamental_div_mod_converse(position, 2 * d, -1, position + 2 * d);
    } else {
        lemma_small_mod(position as nat, (2 * d) as nat);
    }
}

/// The extension has period `2D`.
proof fn lemma_signed_period<F: Field>(a: Seq<F>, x: int, y: int)
    requires
        a.len() > 0,
        x % (2 * a.len() as int) == y % (2 * a.len() as int),
    ensures
        signed(a, x) == signed(a, y),
{
}

/// The extension of reduced coefficients is reduced.
proof fn lemma_signed_settled<F: Field>(a: Seq<F>, position: int)
    requires
        a.len() > 0,
        settled(a),
    ensures
        rl::reduced(signed(a, position)),
{
    let d = a.len() as int;
    let t = position % (2 * d);
    lemma_mod_bound(position, 2 * d);
    if t < d {
        assert(rl::reduced(a[t]));
    } else {
        rl::lemma_results_reduced(a[t - d], a[t - d]);
    }
}

/// Adding a summand and reducing it first agree.
pub proof fn lemma_accumulate_step<F: Field>(before: F, middle: F, after: F, delta: F, next: F)
    requires
        accumulated(before, middle, delta),
        after == middle + next,
    ensures
        accumulated(before, after, delta + next),
{
    F::law_add_associates(before, delta, next);
}

/// Leaving out a zero summand.
pub proof fn lemma_accumulate_skip<F: Field>(before: F, middle: F, delta: F, next: F)
    requires
        accumulated(before, middle, delta),
        next == F::zero_spec(),
    ensures
        accumulated(before, middle, delta + next),
{
    rl::lemma_reduced_add(before, delta);
}

/// The sum of a function read backwards.
proof fn lemma_sum_reverse<F: Field>(
    f: spec_fn(int) -> F,
    g: spec_fn(int) -> F,
    lo: int,
    hi: int,
    glo: int,
)
    requires
        lo <= hi,
        forall|x: int| lo <= x < hi ==> #[trigger] f(x) == g(glo + (hi - 1 - x)),
    ensures
        rl::sum_range(f, lo, hi) == rl::sum_range(g, glo, glo + (hi - lo)),
    decreases hi - lo,
{
    if lo < hi {
        let ghi = glo + (hi - lo);
        // The last term of f is the first of g.
        lemma_sum_reverse(f, g, lo, hi - 1, glo + 1);
        rl::lemma_sum_split(g, glo, glo + 1, ghi);
        reveal_with_fuel(rl::sum_range, 2);
        assert(rl::sum_range(g, glo, glo + 1) == F::zero_spec() + g(glo));
        assert(f(hi - 1) == g(glo + (hi - 1 - (hi - 1))));
        rl::lemma_zero_add(g(glo));
        rl::lemma_reduced_add(g(glo), rl::sum_range(g, glo + 1, ghi));
        F::law_add_commutes(g(glo), rl::sum_range(g, glo + 1, ghi));
    }
}

/// The terms of a coefficient of a product pair up with those of the product
/// in the other order.
proof fn lemma_product_terms_swap<F: Field>(a: Seq<F>, b: Seq<F>, i: int, j: int)
    requires
        a.len() == b.len(),
        0 <= i < a.len(),
        0 <= j < a.len(),
    ensures
        j <= i ==> product_term(a, b, i)(j) == product_term(b, a, i)(i - j),
        j > i ==> product_term(a, b, i)(j) == product_term(b, a, i)(i + a.len() - j),
{
    let d = a.len() as int;
    lemma_signed_near(b, i - j);
    if j <= i {
        lemma_signed_near(a, j);
        F::law_mul_commutes(a[j], b[i - j]);
    } else {
        lemma_signed_near(a, j - d);
        rl::lemma_neg_mul(a[j], b[i - j + d]);
        rl::lemma_neg_mul(b[i - j + d], a[j]);
        F::law_mul_commutes(a[j], b[i - j + d]);
        assert(i - (i + d - j) == j - d);
    }
}

// ---------------------------------------------------------------------------
// Laws
// ---------------------------------------------------------------------------

/// Multiplication commutes.
pub proof fn law_product_commutes<F: Field>(a: Seq<F>, b: Seq<F>, i: int)
    requires
        a.len() == b.len(),
        0 <= i < a.len(),
    ensures
        product_coeff(a, b, i) == product_coeff(b, a, i),
{
    let d = a.len() as int;
    let f = product_term(a, b, i);
    let g = product_term(b, a, i);
    rl::lemma_sum_split(f, 0, i + 1, d);
    rl::lemma_sum_split(g, 0, i + 1, d);
    assert forall|x: int| 0 <= x < i + 1 implies #[trigger] f(x) == g(0 + (i + 1 - 1 - x)) by {
        lemma_product_terms_swap(a, b, i, x);
    }
    lemma_sum_reverse(f, g, 0, i + 1, 0);
    assert forall|x: int| i + 1 <= x < d implies #[trigger] f(x) == g(i + 1 + (d - 1 - x)) by {
        lemma_product_terms_swap(a, b, i, x);
    }
    lemma_sum_reverse(f, g, i + 1, d, i + 1);
}

/// Two shifts make one shift by the sum of the exponents.
pub proof fn law_shifts_compose<F: Field>(a: Seq<F>, k: int, l: int)
    requires
        settled(a),
    ensures
        shifted(shifted(a, k), l) == shifted(a, k + l),
{
    assert forall|i: int| 0 <= i < a.len() implies #[trigger] shifted(shifted(a, k), l)[i]
        == shifted(a, k + l)[i] by {
        lemma_shifts_compose_at(a, k, l, i);
    }
    assert(shifted(shifted(a, k), l) =~= shifted(a, k + l));
}

/// Two shifts at one place.
proof fn lemma_shifts_compose_at<F: Field>(a: Seq<F>, k: int, l: int, i: int)
    requires
        settled(a),
        0 <= i < a.len(),
    ensures
        signed(shifted(a, k), i - l) == signed(a, i - (k + l)),
{
    let d = a.len() as int;
    let t = (i - l) % (2 * d);
    lemma_mod_bound(i - l, 2 * d);
    if t < d {
        lemma_sub_mod_noop(i - l, k, 2 * d);
        lemma_sub_mod_noop(t, k, 2 * d);
        lemma_mod_twice(i - l, 2 * d);
        lemma_signed_period(a, t - k, i - l - k);
    } else {
        // One more change of sign on either side.
        let s = t - d;
        let u = (s - k) % (2 * d);
        lemma_mod_bound(s - k, 2 * d);
        lemma_sub_mod_noop(i - l, k, 2 * d);
        lemma_sub_mod_noop(t, k, 2 * d);
        lemma_mod_twice(i - l, 2 * d);
        assert((t - k) % (2 * d) == (i - l - k) % (2 * d));
        lemma_add_mod_noop(s - k, d, 2 * d);
        lemma_add_mod_noop(u, d, 2 * d);
        lemma_mod_twice(s - k, 2 * d);
        if u < d {
            lemma_small_mod((u + d) as nat, (2 * d) as nat);
        } else {
            lemma_fundamental_div_mod_converse(u + d, 2 * d, 1, u - d);
            rl::lemma_neg_neg(a[u - d]);
        }
        lemma_signed_period(a, t - k, i - l - k);
    }
}

/// A shift by `2D` places is the identity, and one by `D` a change of sign.
pub proof fn law_shift_period<F: Field>(a: Seq<F>, k: int, i: int)
    requires
        a.len() > 0,
        0 <= i < a.len(),
    ensures
        signed(a, i - (k + 2 * a.len())) == signed(a, i - k),
        signed(a, i) == a[i],
        signed(a, i - a.len()) == -a[i],
{
    let d = a.len() as int;
    lemma_mod_sub_multiples_vanish(i - k, 2 * d);
    lemma_signed_near(a, i);
    lemma_signed_near(a, i - d);
}

/// The power `X^k` as an element of degree `d`.
pub open spec fn monomial<F: Field>(d: nat, k: int) -> Seq<F> {
    Seq::new(d, |i: int| signed(unit::<F>(d), i - k))
}

/// One as an element of degree `d`.
pub open spec fn unit<F: Field>(d: nat) -> Seq<F> {
    Seq::new(
        d,
        |i: int|
            if i == 0 {
                F::one_spec()
            } else {
                F::zero_spec()
            },
    )
}

/// The product with `X^k` is the shift by `k` places.
pub proof fn law_shift_multiplies<F: Field>(a: Seq<F>, k: int, i: int)
    requires
        0 <= i < a.len(),
    ensures
        product_coeff(a, monomial(a.len(), k), i) == signed(a, i - k) + F::zero_spec(),
{
    let d = a.len() as int;
    let x = monomial::<F>(a.len(), k);
    let f = product_term(a, x, i);
    let p = (i - k) % (2 * d);
    lemma_mod_bound(i - k, 2 * d);
    let at = if p < d {
        p
    } else {
        p - d
    };
    assert forall|j: int| 0 <= j < d implies #[trigger] f(j) == a[j] * if j == at {
        if p < d {
            F::one_spec()
        } else {
            -F::one_spec()
        }
    } else {
        F::zero_spec()
    } by {
        lemma_monomial_at::<F>(a.len(), k, i, j);
    }
    assert forall|j: int| 0 <= j < d && j != at implies #[trigger] f(j) == F::zero_spec() by {
        rl::lemma_mul_identities(a[j]);
    }
    lemma_sum_at(f, at, d);
    rl::lemma_mul_identities(a[at]);
    rl::lemma_neg_mul(a[at], F::one_spec());
    rl::lemma_neg_add(a[at], F::zero_spec());
    rl::lemma_neg_zero::<F>();
    rl::lemma_results_reduced(a[at], F::zero_spec());
}

/// Multiplication distributes over addition.
pub proof fn law_product_distributes<F: Field>(a: Seq<F>, b: Seq<F>, c: Seq<F>, sum: Seq<F>, i: int)
    requires
        b.len() == a.len(),
        c.len() == a.len(),
        sum.len() == a.len(),
        forall|j: int| 0 <= j < a.len() ==> #[trigger] sum[j] == b[j] + c[j],
        0 <= i < a.len(),
    ensures
        product_coeff(a, sum, i) == product_coeff(a, b, i) + product_coeff(a, c, i),
{
    let d = a.len() as int;
    let (f, g, h) = (product_term(a, b, i), product_term(a, c, i), product_term(a, sum, i));
    assert forall|j: int| 0 <= j < d implies #[trigger] h(j) == f(j) + g(j) by {
        let at = if i >= j {
            i - j
        } else {
            i - j + d
        };
        lemma_signed_near(b, i - j);
        lemma_signed_near(c, i - j);
        lemma_signed_near(sum, i - j);
        assert(sum[at] == b[at] + c[at]);
        rl::lemma_neg_add(b[at], c[at]);
        F::law_distributes(a[j], signed(b, i - j), signed(c, i - j));
    }
    rl::lemma_sum_add(f, g, h, 0, d);
}

/// The sum `X^(k_1) + X^(k_2) + ...` of the first `n` powers.
pub open spec fn monomial_sum<F: Field>(d: nat, positions: Seq<usize>, n: int) -> Seq<F> {
    Seq::new(
        d,
        |i: int| rl::sum_range(|t: int| monomial::<F>(d, positions[t] as int)[i], 0, n),
    )
}

/// The sum of shifts is the product with the sum of the powers.
pub proof fn law_monomial_sum_multiplies<F: Field>(
    a: Seq<F>,
    positions: Seq<usize>,
    n: int,
    i: int,
)
    requires
        0 <= n <= positions.len(),
        0 <= i < a.len(),
    ensures
        rl::sum_range(shift_sum(a, positions, i), 0, n) == product_coeff(
            a,
            monomial_sum(a.len(), positions, n),
            i,
        ),
    decreases n,
{
    let d = a.len();
    let all = monomial_sum::<F>(d, positions, n);
    if n == 0 {
        let f = product_term(a, all, i);
        rl::lemma_neg_zero::<F>();
        assert forall|j: int| 0 <= j < d implies #[trigger] f(j) == F::zero_spec() by {
            lemma_signed_near(all, i - j);
            rl::lemma_mul_identities(a[j]);
        }
        rl::lemma_sum_zero(f, 0, d as int);
    } else {
        let k = positions[n - 1] as int;
        let before = monomial_sum::<F>(d, positions, n - 1);
        let last = monomial::<F>(d, k);
        law_monomial_sum_multiplies(a, positions, n - 1, i);
        law_product_distributes(a, before, last, all, i);
        law_shift_multiplies(a, k, i);
        rl::lemma_reduced_add(
            rl::sum_range(shift_sum(a, positions, i), 0, n - 1),
            signed(a, i - k),
        );
    }
}

/// What `X^k` contributes to coefficient `i` from place `j` of the other factor.
proof fn lemma_monomial_at<F: Field>(d: nat, k: int, i: int, j: int)
    requires
        0 <= i < d,
        0 <= j < d,
    ensures
        ({
            let p = (i - k) % (2 * d as int);
            signed(monomial::<F>(d, k), i - j) == if p == j {
                F::one_spec()
            } else if p == j + d {
                -F::one_spec()
            } else {
                F::zero_spec()
            }
        }),
{
    let one = unit::<F>(d);
    let x = monomial::<F>(d, k);
    let n = 2 * d as int;
    let p = (i - k) % n;
    rl::lemma_results_reduced(F::one_spec(), F::one_spec());
    rl::lemma_neg_zero::<F>();
    assert(x =~= shifted(one, k));
    lemma_shifts_compose_at(one, k, j, i);
    lemma_mod_bound(i - k, n);
    lemma_sub_mod_noop(i - k, j, n);
    lemma_sub_mod_noop(p, j, n);
    lemma_mod_twice(i - k, n);
    lemma_signed_period(one, p - j, i - k - j);
    lemma_signed_near(one, p - j);
}

/// A sum with one term that is not zero.
pub proof fn lemma_sum_at<F: Field>(f: spec_fn(int) -> F, at: int, d: int)
    requires
        0 <= at < d,
        forall|j: int| 0 <= j < d && j != at ==> #[trigger] f(j) == F::zero_spec(),
    ensures
        rl::sum_range(f, 0, d) == f(at) + F::zero_spec(),
{
    rl::lemma_sum_split(f, 0, at + 1, d);
    rl::lemma_sum_zero(f, 0, at);
    rl::lemma_sum_zero(f, at + 1, d);
    rl::lemma_zero_add(f(at));
    rl::lemma_results_reduced(f(at), F::zero_spec());
}

/// Coefficient `i` of `X^n`, by the remainder of the exponent.
proof fn lemma_power_coeff<F: Field>(d: nat, n: int, i: int)
    requires
        0 <= i < d,
    ensures
        monomial::<F>(d, n)[i] == if n % (2 * d as int) == i {
            F::one_spec()
        } else if n % (2 * d as int) == i + d {
            -F::one_spec()
        } else {
            F::zero_spec()
        },
{
    let one = unit::<F>(d);
    let m = 2 * d as int;
    let q = n % m;
    lemma_mod_bound(n, m);
    lemma_sub_mod_noop_right(i, n, m);
    lemma_signed_period(one, i - q, i - n);
    lemma_signed_near(one, i - q);
    rl::lemma_neg_zero::<F>();
}

/// The automorphism `X -> X^k` takes every `X^n` to `X^(n k)`.
pub proof fn law_automorphism_of_powers<F: Field>(d: nat, k: int, n: int, i: int)
    requires
        0 <= i < d,
        k % 2 == 1,
    ensures
        rl::sum_range(automorphism_term(monomial::<F>(d, n), k, i), 0, d as int) == monomial::<F>(
            d,
            n * k,
        )[i],
{
    let m = 2 * d as int;
    let x = monomial::<F>(d, n);
    let f = automorphism_term(x, k, i);
    let p = n % m;
    let q = (n * k) % m;
    lemma_mod_bound(n, m);
    lemma_mod_bound(n * k, m);
    lemma_mul_mod_noop_left(n, k, m);
    let at = if p < d {
        p
    } else {
        p - d
    };
    rl::lemma_neg_zero::<F>();
    rl::lemma_neg_neg(F::one_spec());
    rl::lemma_results_reduced(F::one_spec(), F::one_spec());
    assert forall|j: int| 0 <= j < d && j != at implies #[trigger] f(j) == F::zero_spec() by {
        lemma_power_coeff::<F>(d, n, j);
    }
    lemma_power_coeff::<F>(d, n, at);
    lemma_power_coeff::<F>(d, n * k, i);
    if p >= d {
        let h = (k - 1) / 2;
        assert((p - d) * k == p * k - d - m * h) by (nonlinear_arith)
            requires
                k == 2 * h + 1,
                m == 2 * d,
        ;
        lemma_mod_multiples_vanish(-h, p * k - d, m);
        assert(m * (-h) == -(m * h)) by (nonlinear_arith);
        lemma_sub_mod_noop(p * k, d as int, m);
        lemma_small_mod(d, m as nat);
        if q >= d {
            lemma_small_mod((q - d) as nat, m as nat);
        } else {
            lemma_fundamental_div_mod_converse(q - d, m, -1, q + d);
        }
    }
    lemma_sum_at(f, at, d as int);
    rl::lemma_results_reduced(F::zero_spec(), F::zero_spec());
}

/// The automorphism `X -> X^k` adds up.
pub proof fn law_automorphism_adds<F: Field>(a: Seq<F>, b: Seq<F>, sum: Seq<F>, k: int, i: int)
    requires
        b.len() == a.len(),
        sum.len() == a.len(),
        forall|j: int| 0 <= j < a.len() ==> #[trigger] sum[j] == a[j] + b[j],
        0 <= i < a.len(),
    ensures
        rl::sum_range(automorphism_term(sum, k, i), 0, a.len() as int) == rl::sum_range(
            automorphism_term(a, k, i),
            0,
            a.len() as int,
        ) + rl::sum_range(automorphism_term(b, k, i), 0, a.len() as int),
{
    let (f, g, h) = (
        automorphism_term(a, k, i),
        automorphism_term(b, k, i),
        automorphism_term(sum, k, i),
    );
    assert forall|j: int| 0 <= j < a.len() implies #[trigger] h(j) == f(j) + g(j) by {
        rl::lemma_neg_add(a[j], b[j]);
        rl::lemma_results_reduced(F::zero_spec(), F::zero_spec());
    }
    rl::lemma_sum_add(f, g, h, 0, a.len() as int);
}

/// What coefficient `j` contributes to coefficient `i` under `X -> X^k`, as a
/// product with a power.
spec fn power_term<F: Field>(a: Seq<F>, k: int, i: int) -> spec_fn(int) -> F {
    |j: int| a[j] * monomial::<F>(a.len(), j * k)[i]
}

/// The automorphism as a sum of products with powers.
proof fn lemma_automorphism_sum<F: Field>(a: Seq<F>, k: int, i: int)
    requires
        0 <= i < a.len(),
    ensures
        rl::sum_range(power_term(a, k, i), 0, a.len() as int) == automorphism(a, k)[i],
{
    let f = automorphism_term(a, k, i);
    let g = power_term(a, k, i);
    assert forall|j: int| 0 <= j < a.len() implies #[trigger] g(j) == f(j) + F::zero_spec() by {
        lemma_power_coeff::<F>(a.len(), j * k, i);
        rl::lemma_mul_identities(a[j]);
        rl::lemma_neg_mul(a[j], F::one_spec());
        rl::lemma_neg_add(a[j], F::zero_spec());
        rl::lemma_neg_zero::<F>();
        rl::lemma_results_reduced(F::zero_spec(), F::zero_spec());
    }
    rl::lemma_sum_settles(f, g, 0, a.len() as int);
}

/// The shift of a power is the power of the sum.
proof fn lemma_power_shifts<F: Field>(d: nat, n: int, l: int, i: int)
    requires
        0 <= i < d,
    ensures
        signed(monomial::<F>(d, n), i - l) == monomial::<F>(d, n + l)[i],
{
    let one = unit::<F>(d);
    rl::lemma_results_reduced(F::one_spec(), F::one_spec());
    assert(monomial::<F>(d, n) =~= shifted(one, n));
    lemma_shifts_compose_at(one, n, l, i);
}

/// The image of the product with `X` is the product of the image with `X^k`.
proof fn lemma_automorphism_of_step<F: Field>(b: Seq<F>, k: int, i: int)
    requires
        0 <= i < b.len(),
        k % 2 == 1,
    ensures
        automorphism(shifted(b, 1), k)[i] == signed(automorphism(b, k), i - k),
{
    let d = b.len();
    let n = d as int;
    let f = power_term(shifted(b, 1), k, i);
    let g = |q: int| b[q] * monomial::<F>(d, (q + 1) * k)[i];
    lemma_automorphism_sum(shifted(b, 1), k, i);
    // The first term of `f` is the last of `g`.
    rl::lemma_sum_split(f, 0, 1, n);
    reveal_with_fuel(rl::sum_range, 2);
    rl::lemma_zero_add(f(0));
    assert(f(0) + F::zero_spec() == g(n - 1) + F::zero_spec()) by {
        lemma_signed_near(b, -1);
        lemma_power_coeff::<F>(d, 0 * k, i);
        lemma_power_coeff::<F>(d, n * k, i);
        lemma_half_turn(n, k);
        assert((n - 1 + 1) * k == n * k);
        assert(0 * k == 0) by (nonlinear_arith);
        lemma_small_mod(0, (2 * n) as nat);
        rl::lemma_neg_mul(b[n - 1], F::one_spec());
        rl::lemma_neg_zero::<F>();
        rl::lemma_mul_identities(b[n - 1]);
        rl::lemma_mul_identities(-b[n - 1]);
    }
    assert forall|p: int| 1 <= p < n implies #[trigger] f(p) == g(p - 1) by {
        lemma_signed_near(b, p - 1);
        assert((p - 1 + 1) * k == p * k);
    }
    rl::lemma_sum_shift(f, g, -1, 1, n);
    rl::lemma_reduced_add(rl::sum_range(g, 0, n - 1), g(n - 1));
    rl::lemma_reduced_add(rl::sum_range(g, 0, n - 1), f(0));
    F::law_add_commutes(rl::sum_range(g, 0, n - 1), f(0));
    rl::lemma_reduced_add(f(0), rl::sum_range(g, 0, n - 1));
    assert(rl::sum_range(f, 0, n) == rl::sum_range(g, 0, n));
    // Each term of `g` is one of the image, read `k` places back.
    let t = (i - k) % (2 * n);
    lemma_mod_bound(i - k, 2 * n);
    let at = if t < n {
        t
    } else {
        t - n
    };
    let h = power_term(b, k, at);
    lemma_automorphism_sum(b, k, at);
    assert forall|q: int| 0 <= q < n implies #[trigger] g(q) == if t < n {
        h(q)
    } else {
        -h(q)
    } by {
        lemma_power_shifts::<F>(d, q * k, k, i);
        assert((q + 1) * k == q * k + k) by (nonlinear_arith);
        rl::lemma_neg_mul(b[q], monomial::<F>(d, q * k)[at]);
    }
    if t < n {
        rl::lemma_sum_congruent(g, h, 0, n);
    } else {
        rl::lemma_sum_negates(h, g, 0, n);
    }
}

/// `X^(d k)` is `-1` for odd `k`.
proof fn lemma_half_turn(d: int, k: int)
    requires
        d > 0,
        k % 2 == 1,
    ensures
        (d * k) % (2 * d) == d,
{
    let h = (k - 1) / 2;
    assert(d * k == 2 * d * h + d) by (nonlinear_arith)
        requires
            k == 2 * h + 1,
    ;
    lemma_fundamental_div_mod_converse(d * k, 2 * d, h, d);
}

/// The image of the product with `X^n` is the product of the image with
/// `X^(n k)`.
proof fn lemma_automorphism_of_shift<F: Field>(b: Seq<F>, n: nat, k: int)
    requires
        settled(b),
        k % 2 == 1,
    ensures
        automorphism(shifted(b, n as int), k) == shifted(automorphism(b, k), n * k),
    decreases n,
{
    let image = automorphism(b, k);
    assert(settled(image)) by {
        assert forall|i: int| 0 <= i < b.len() implies rl::reduced(#[trigger] image[i]) by {
            rl::lemma_sum_reduced(automorphism_term(b, k, i), 0, b.len() as int);
        }
    }
    if n == 0 {
        assert forall|i: int| 0 <= i < b.len() implies #[trigger] shifted(b, 0)[i] == b[i] by {
            lemma_signed_near(b, i);
        }
        assert(shifted(b, 0) =~= b);
        assert(0 * k == 0) by (nonlinear_arith);
        assert forall|i: int| 0 <= i < b.len() implies #[trigger] shifted(image, 0)[i]
            == image[i] by {
            lemma_signed_near(image, i);
        }
        assert(shifted(image, 0) =~= image);
    } else {
        let before = shifted(b, n - 1);
        lemma_automorphism_of_shift(b, (n - 1) as nat, k);
        law_shifts_compose(b, n - 1, 1);
        law_shifts_compose(image, (n - 1) * k, k);
        assert((n - 1) * k + k == n * k) by (nonlinear_arith);
        assert forall|i: int| 0 <= i < b.len() implies #[trigger] automorphism(
            shifted(b, n as int),
            k,
        )[i] == shifted(image, n * k)[i] by {
            lemma_automorphism_of_step(before, k, i);
        }
        assert(automorphism(shifted(b, n as int), k) =~= shifted(image, n * k));
    }
}

/// Coefficients as they are once reduced.
spec fn settle<F: Field>(a: Seq<F>) -> Seq<F> {
    Seq::new(a.len(), |i: int| a[i] + F::zero_spec())
}

/// Reducing the coefficients changes neither a product nor an image.
proof fn lemma_settle<F: Field>(a: Seq<F>, b: Seq<F>, k: int)
    requires
        a.len() == b.len(),
    ensures
        settled(settle(b)),
        product(a, settle(b)) == product(a, b),
        automorphism(settle(b), k) == automorphism(b, k),
{
    let c = settle(b);
    assert forall|i: int| 0 <= i < b.len() implies rl::reduced(#[trigger] c[i]) by {
        rl::lemma_results_reduced(b[i], F::zero_spec());
    }
    assert forall|i: int| 0 <= i < b.len() implies #[trigger] product(a, c)[i] == product(
        a,
        b,
    )[i] by {
        let f = product_term(a, c, i);
        let g = product_term(a, b, i);
        assert forall|j: int| 0 <= j < a.len() implies #[trigger] f(j) == g(j) by {
            lemma_signed_near(b, i - j);
            lemma_signed_near(c, i - j);
            let at = if i >= j {
                i - j
            } else {
                i - j + b.len()
            };
            rl::lemma_reduced_mul(b[at], a[j]);
            rl::lemma_neg_mul(a[j], b[at]);
            rl::lemma_neg_mul(a[j], c[at]);
        }
        rl::lemma_sum_congruent(f, g, 0, a.len() as int);
    }
    assert(product(a, c) =~= product(a, b));
    assert forall|i: int| 0 <= i < b.len() implies #[trigger] automorphism(c, k)[i]
        == automorphism(b, k)[i] by {
        lemma_automorphism_sum(c, k, i);
        lemma_automorphism_sum(b, k, i);
        let f = power_term(c, k, i);
        let g = power_term(b, k, i);
        assert forall|j: int| 0 <= j < b.len() implies #[trigger] f(j) == g(j) by {
            rl::lemma_reduced_mul(b[j], monomial::<F>(b.len(), j * k)[i]);
        }
        rl::lemma_sum_congruent(f, g, 0, b.len() as int);
    }
    assert(automorphism(c, k) =~= automorphism(b, k));
}

/// The automorphism `X -> X^k` takes products to products.
pub proof fn law_automorphism_multiplies<F: Field>(a: Seq<F>, b: Seq<F>, k: int)
    requires
        a.len() == b.len(),
        k % 2 == 1,
    ensures
        automorphism(product(a, b), k) == product(automorphism(a, k), automorphism(b, k)),
{
    lemma_settle(a, b, k);
    lemma_automorphism_multiplies_settled(a, settle(b), k);
}

proof fn lemma_automorphism_multiplies_settled<F: Field>(a: Seq<F>, b: Seq<F>, k: int)
    requires
        a.len() == b.len(),
        settled(b),
        k % 2 == 1,
    ensures
        automorphism(product(a, b), k) == product(automorphism(a, k), automorphism(b, k)),
{
    let n = a.len() as int;
    let ab = product(a, b);
    let v = automorphism(b, k);
    assert forall|i: int| 0 <= i < n implies #[trigger] automorphism(ab, k)[i] == product(
        automorphism(a, k),
        v,
    )[i] by {
        lemma_image_of_product(a, b, k, i);
        lemma_product_of_images(a, v, k, i);
    }
    assert(automorphism(ab, k) =~= product(automorphism(a, k), v));
}

/// The terms that the powers of `a` contribute to an image: each moves `v`.
spec fn moved_term<F: Field>(a: Seq<F>, v: Seq<F>, k: int, i: int) -> spec_fn(int) -> F {
    |j: int| a[j] * signed(v, i - j * k)
}

/// The image of a product, power by power of its first factor.
proof fn lemma_image_of_product<F: Field>(a: Seq<F>, b: Seq<F>, k: int, i: int)
    requires
        a.len() == b.len(),
        settled(b),
        k % 2 == 1,
        0 <= i < a.len(),
    ensures
        automorphism(product(a, b), k)[i] == rl::sum_range(
            moved_term(a, automorphism(b, k), k, i),
            0,
            a.len() as int,
        ),
{
    let n = a.len() as int;
    let ab = product(a, b);
    let v = automorphism(b, k);
    let factor = |j: int| a[j];
    let u = |j: int, p: int| signed(b, p - j);
    let w = |p: int| monomial::<F>(a.len(), p * k)[i];
    let by_row = power_term(ab, k, i);
    let by_column = moved_term(a, v, k, i);
    lemma_automorphism_sum(ab, k, i);
    assert forall|p: int| 0 <= p < n implies #[trigger] by_row(p) == rl::sum_range(
        rl::row_term(factor, u, p),
        0,
        n,
    ) * w(p) by {
        rl::lemma_sum_congruent(product_term(a, b, p), rl::row_term(factor, u, p), 0, n);
        assert(ab[p] == product_coeff(a, b, p));
    }
    assert forall|j: int| 0 <= j < n implies #[trigger] by_column(j) == factor(j)
        * rl::sum_range(rl::column_term(u, w, j), 0, n) by {
        let moved = shifted(b, j);
        lemma_automorphism_of_shift(b, j as nat, k);
        lemma_automorphism_sum(moved, k, i);
        rl::lemma_sum_congruent(power_term(moved, k, i), rl::column_term(u, w, j), 0, n);
        assert(shifted(v, j * k)[i] == signed(v, i - j * k));
    }
    rl::lemma_sum_exchange(factor, u, w, by_row, by_column, n, n);
}

/// The product with an image, power by power.
proof fn lemma_product_of_images<F: Field>(a: Seq<F>, v: Seq<F>, k: int, i: int)
    requires
        a.len() == v.len(),
        0 <= i < a.len(),
    ensures
        product(automorphism(a, k), v)[i] == rl::sum_range(
            moved_term(a, v, k, i),
            0,
            a.len() as int,
        ),
{
    let d = a.len();
    let n = d as int;
    let image = automorphism(a, k);
    let factor = |j: int| a[j];
    let u = |j: int, p: int| monomial::<F>(d, j * k)[p];
    let w = |p: int| signed(v, i - p);
    let by_row = product_term(image, v, i);
    let by_column = moved_term(a, v, k, i);
    assert forall|p: int| 0 <= p < n implies #[trigger] by_row(p) == rl::sum_range(
        rl::row_term(factor, u, p),
        0,
        n,
    ) * w(p) by {
        lemma_automorphism_sum(a, k, p);
        rl::lemma_sum_congruent(power_term(a, k, p), rl::row_term(factor, u, p), 0, n);
    }
    assert forall|j: int| 0 <= j < n implies #[trigger] by_column(j) == factor(j)
        * rl::sum_range(rl::column_term(u, w, j), 0, n) by {
        let x = monomial::<F>(d, j * k);
        law_product_commutes(x, v, i);
        law_shift_multiplies(v, j * k, i);
        rl::lemma_sum_congruent(product_term(x, v, i), rl::column_term(u, w, j), 0, n);
        rl::lemma_reduced_mul(signed(v, i - j * k), a[j]);
    }
    rl::lemma_sum_exchange(factor, u, w, by_row, by_column, n, n);
}

/// One automorphism after another is the automorphism of the product of the
/// exponents.
pub proof fn law_automorphisms_compose<F: Field>(a: Seq<F>, j: int, k: int)
    requires
        k % 2 == 1,
    ensures
        automorphism(automorphism(a, j), k) == automorphism(a, j * k),
{
    let d = a.len();
    let n = d as int;
    let image = automorphism(a, j);
    assert forall|i: int| 0 <= i < n implies #[trigger] automorphism(image, k)[i] == automorphism(
        a,
        j * k,
    )[i] by {
        let factor = |q: int| a[q];
        let u = |q: int, p: int| monomial::<F>(d, q * j)[p];
        let w = |p: int| monomial::<F>(d, p * k)[i];
        let by_row = power_term(image, k, i);
        let by_column = power_term(a, j * k, i);
        lemma_automorphism_sum(image, k, i);
        lemma_automorphism_sum(a, j * k, i);
        assert forall|p: int| 0 <= p < n implies #[trigger] by_row(p) == rl::sum_range(
            rl::row_term(factor, u, p),
            0,
            n,
        ) * w(p) by {
            lemma_automorphism_sum(a, j, p);
            rl::lemma_sum_congruent(power_term(a, j, p), rl::row_term(factor, u, p), 0, n);
        }
        assert forall|q: int| 0 <= q < n implies #[trigger] by_column(q) == factor(q)
            * rl::sum_range(rl::column_term(u, w, q), 0, n) by {
            let x = monomial::<F>(d, q * j);
            lemma_automorphism_sum(x, k, i);
            law_automorphism_of_powers::<F>(d, k, q * j, i);
            rl::lemma_sum_congruent(power_term(x, k, i), rl::column_term(u, w, q), 0, n);
            assert((q * j) * k == q * (j * k)) by (nonlinear_arith);
        }
        rl::lemma_sum_exchange(factor, u, w, by_row, by_column, n, n);
    }
    assert(automorphism(image, k) =~= automorphism(a, j * k));
}

/// An automorphism depends on its exponent modulo `2D` alone.
pub proof fn law_automorphism_period<F: Field>(a: Seq<F>, j: int, k: int)
    requires
        j % (2 * a.len() as int) == k % (2 * a.len() as int),
    ensures
        automorphism(a, j) == automorphism(a, k),
{
    let n = a.len() as int;
    assert forall|i: int| 0 <= i < n implies #[trigger] automorphism(a, j)[i] == automorphism(
        a,
        k,
    )[i] by {
        let f = automorphism_term(a, j, i);
        let g = automorphism_term(a, k, i);
        assert forall|q: int| 0 <= q < n implies #[trigger] f(q) == g(q) by {
            lemma_mul_mod_noop_right(q, j, 2 * n);
            lemma_mul_mod_noop_right(q, k, 2 * n);
        }
        rl::lemma_sum_congruent(f, g, 0, n);
    }
    assert(automorphism(a, j) =~= automorphism(a, k));
}

/// An automorphism keeps one.
pub proof fn law_automorphism_keeps_one<F: Field>(d: nat, k: int)
    requires
        k % 2 == 1,
    ensures
        automorphism(unit::<F>(d), k) == unit::<F>(d),
{
    let one = unit::<F>(d);
    assert forall|i: int| 0 <= i < d implies #[trigger] monomial::<F>(d, 0)[i] == one[i] by {
        lemma_signed_near(one, i);
    }
    assert(monomial::<F>(d, 0) =~= one);
    assert(0 * k == 0) by (nonlinear_arith);
    assert forall|i: int| 0 <= i < d implies #[trigger] automorphism(one, k)[i] == one[i] by {
        law_automorphism_of_powers::<F>(d, k, 0, i);
    }
    assert(automorphism(one, k) =~= one);
}

/// The automorphism `X -> X` is the identity.
pub proof fn law_identity_automorphism<F: Field>(a: Seq<F>)
    requires
        settled(a),
    ensures
        automorphism(a, 1) == a,
{
    let n = a.len() as int;
    assert forall|i: int| 0 <= i < n implies #[trigger] automorphism(a, 1)[i] == a[i] by {
        let f = automorphism_term(a, 1, i);
        assert forall|j: int| 0 <= j < n implies #[trigger] f(j) == if j == i {
            a[j]
        } else {
            F::zero_spec()
        } by {
            lemma_small_mod(j as nat, (2 * n) as nat);
        }
        lemma_sum_at(f, i, n);
    }
    assert(automorphism(a, 1) =~= a);
}

/// The automorphism `X -> X^{-1}` undoes itself.
pub proof fn law_conjugation_is_an_involution<F: Field>(a: Seq<F>)
    requires
        settled(a),
    ensures
        automorphism(automorphism(a, 2 * a.len() - 1), 2 * a.len() - 1) == a,
{
    let m = 2 * a.len() as int;
    if a.len() == 0 {
        assert(automorphism(automorphism(a, m - 1), m - 1) =~= a);
    } else {
        law_automorphisms_compose(a, m - 1, m - 1);
        assert((m - 1) * (m - 1) == m * (m - 2) + 1) by (nonlinear_arith);
        lemma_fundamental_div_mod_converse((m - 1) * (m - 1), m, m - 2, 1);
        lemma_small_mod(1, m as nat);
        law_automorphism_period(a, (m - 1) * (m - 1), 1);
        law_identity_automorphism(a);
    }
}

// ---------------------------------------------------------------------------
// The ring
// ---------------------------------------------------------------------------

/// An element `a_0 + a_1 X + ... + a_{D-1} X^{D-1}`.
#[derive(Clone, Copy, Debug, PartialEq, Eq)]
pub struct CyclotomicRing<F: Field, const D: usize> {
    /// Coefficients in ascending degree order.
    pub coeffs: [F; D],
}

impl<F: Field, const D: usize> CyclotomicRing<F, D> {
    /// The coefficients as a sequence.
    pub open spec fn view(self) -> Seq<F> {
        self.coeffs@
    }

    /// The element with the given coefficients.
    pub fn from_coefficients(coeffs: [F; D]) -> (r: Self)
        ensures
            r@ == coeffs@,
    {
        CyclotomicRing { coeffs }
    }

    /// The element with the given leading coefficients, cut off or filled up
    /// with zeros to length `D`.
    pub fn from_slice(slice: &[F]) -> (r: Self)
        ensures
            forall|i: int|
                0 <= i < D ==> #[trigger] r@[i] == if i < slice@.len() {
                    slice@[i]
                } else {
                    F::zero_spec()
                },
    {
        let mut coeffs = [F::zero();D];
        let mut i: usize = 0;
        while i < D && i < slice.len()
            invariant
                i <= D,
                i <= slice@.len(),
                forall|j: int|
                    0 <= j < D ==> #[trigger] coeffs@[j] == if j < i {
                        slice@[j]
                    } else {
                        F::zero_spec()
                    },
            decreases D - i,
        {
            coeffs[i] = slice[i];
            i += 1;
        }
        CyclotomicRing { coeffs }
    }

    /// The coefficients.
    pub fn coefficients(&self) -> (r: &[F; D])
        ensures
            r@ == self@,
    {
        &self.coeffs
    }

    /// The coefficients, for writing.
    pub fn coefficients_mut(&mut self) -> (r: &mut [F; D])
        ensures
            *r == old(self).coeffs,
            final(self).coeffs == *final(r),
    {
        &mut self.coeffs
    }

    /// Establishes that the coefficients are reduced, as those of every element
    /// are.
    pub fn settle(&self)
        ensures
            settled(self@),
    {
        let mut i: usize = 0;
        while i < D
            invariant
                i <= D,
                forall|j: int| 0 <= j < i ==> rl::reduced(#[trigger] self@[j]),
            decreases D - i,
        {
            let _ = self.coeffs[i].settled();
            i += 1;
        }
    }

    /// The additive identity.
    pub fn zero() -> (r: Self)
        ensures
            forall|i: int| 0 <= i < D ==> #[trigger] r@[i] == F::zero_spec(),
    {
        CyclotomicRing { coeffs: [F::zero();D] }
    }

    /// The multiplicative identity.
    pub fn one() -> (r: Self)
        requires
            D > 0,
        ensures
            forall|i: int|
                0 <= i < D ==> #[trigger] r@[i] == if i == 0 {
                    F::one_spec()
                } else {
                    F::zero_spec()
                },
    {
        let mut coeffs = [F::zero();D];
        coeffs[0] = F::one();
        CyclotomicRing { coeffs }
    }

    /// The monomial `X`.
    pub fn x() -> (r: Self)
        requires
            D >= 2,
        ensures
            forall|i: int|
                0 <= i < D ==> #[trigger] r@[i] == if i == 1 {
                    F::one_spec()
                } else {
                    F::zero_spec()
                },
    {
        let mut coeffs = [F::zero();D];
        coeffs[1] = F::one();
        CyclotomicRing { coeffs }
    }

    /// The additive inverse.
    pub fn neg(&self) -> (r: Self)
        ensures
            forall|i: int| 0 <= i < D ==> #[trigger] r@[i] == -self@[i],
    {
        let mut out = self.coeffs;
        let mut i: usize = 0;
        while i < D
            invariant
                i <= D,
                forall|j: int|
                    0 <= j < D ==> #[trigger] out@[j] == if j < i {
                        -self@[j]
                    } else {
                        self@[j]
                    },
            decreases D - i,
        {
            out[i] = out[i].neg();
            i += 1;
        }
        CyclotomicRing { coeffs: out }
    }

    /// Adds another element.
    pub fn add_assign(&mut self, rhs: &Self)
        ensures
            forall|i: int| 0 <= i < D ==> #[trigger] final(self)@[i] == old(self)@[i] + rhs@[i],
    {
        let ghost before = self@;
        let mut out = self.coeffs;
        let mut i: usize = 0;
        while i < D
            invariant
                i <= D,
                before.len() == D,
                forall|j: int|
                    0 <= j < D ==> #[trigger] out@[j] == if j < i {
                        before[j] + rhs@[j]
                    } else {
                        before[j]
                    },
            decreases D - i,
        {
            out[i] = out[i].add(rhs.coeffs[i]);
            i += 1;
        }
        self.coeffs = out;
    }

    /// Subtracts another element.
    pub fn sub_assign(&mut self, rhs: &Self)
        ensures
            forall|i: int| 0 <= i < D ==> #[trigger] final(self)@[i] == old(self)@[i] - rhs@[i],
    {
        let ghost before = self@;
        let mut out = self.coeffs;
        let mut i: usize = 0;
        while i < D
            invariant
                i <= D,
                before.len() == D,
                forall|j: int|
                    0 <= j < D ==> #[trigger] out@[j] == if j < i {
                        before[j] - rhs@[j]
                    } else {
                        before[j]
                    },
            decreases D - i,
        {
            out[i] = out[i].sub(rhs.coeffs[i]);
            i += 1;
        }
        self.coeffs = out;
    }

    /// Multiplies every coefficient by a scalar.
    pub fn scale(&self, k: &F) -> (r: Self)
        ensures
            forall|i: int| 0 <= i < D ==> #[trigger] r@[i] == self@[i] * *k,
    {
        let mut out = self.coeffs;
        let mut i: usize = 0;
        while i < D
            invariant
                i <= D,
                forall|j: int|
                    0 <= j < D ==> #[trigger] out@[j] == if j < i {
                        self@[j] * *k
                    } else {
                        self@[j]
                    },
            decreases D - i,
        {
            out[i] = out[i].mul(*k);
            i += 1;
        }
        CyclotomicRing { coeffs: out }
    }

    /// Adds a scalar multiple of this element to `dst`.
    pub fn scale_accumulate_into(&self, dst: &mut Self, k: F)
        ensures
            forall|i: int|
                0 <= i < D ==> #[trigger] final(dst)@[i] == old(dst)@[i] + self@[i] * k,
    {
        let ghost before = dst@;
        let mut out = dst.coeffs;
        let mut i: usize = 0;
        while i < D
            invariant
                i <= D,
                before.len() == D,
                forall|j: int|
                    0 <= j < D ==> #[trigger] out@[j] == if j < i {
                        before[j] + self@[j] * k
                    } else {
                        before[j]
                    },
            decreases D - i,
        {
            out[i] = out[i].add(self.coeffs[i].mul(k));
            i += 1;
        }
        dst.coeffs = out;
    }

    /// The automorphism `X -> X^k` for odd `k`.
    pub fn sigma(&self, k: usize) -> (r: Self)
        requires
            D > 0,
            2 * D * D <= usize::MAX,
            (k as int % (2 * D as int)) % 2 == 1,
        ensures
            r@ == automorphism(self@, k as int),
    {
        assert(2 * D <= 2 * D * D) by (nonlinear_arith)
            requires
                D > 0,
        ;
        let two_d: usize = 2 * D;
        let k_mod: usize = k % two_d;
        let mut out = [F::zero();D];
        let mut j: usize = 0;
        while j < D
            invariant
                j <= D,
                D > 0,
                two_d == 2 * D,
                2 * D * D <= usize::MAX,
                k_mod == k as int % (2 * D as int),
                forall|i: int|
                    0 <= i < D ==> #[trigger] out@[i] == rl::sum_range(
                        automorphism_term(self@, k as int, i),
                        0,
                        j as int,
                    ),
            decreases D - j,
        {
            assert(j * k_mod <= 2 * D * D) by (nonlinear_arith)
                requires
                    0 <= j < D,
                    0 <= k_mod < 2 * D,
            ;
            let place: usize = (j * k_mod) % two_d;
            let ghost before = out@;
            proof {
                lemma_mul_mod_noop_right(j as int, k as int, two_d as int);
            }
            if place < D {
                out[place] = out[place].add(self.coeffs[j]);
            } else {
                out[place - D] = out[place - D].sub(self.coeffs[j]);
                proof {
                    F::law_negation(before[place - D], self@[j as int]);
                }
            }
            proof {
                assert forall|i: int| 0 <= i < D implies #[trigger] out@[i] == rl::sum_range(
                    automorphism_term(self@, k as int, i),
                    0,
                    j + 1,
                ) by {
                    rl::lemma_sum_reduced(automorphism_term(self@, k as int, i), 0, j as int);
                    assert(before[i] == rl::sum_range(
                        automorphism_term(self@, k as int, i),
                        0,
                        j as int,
                    ));
                }
            }
            j += 1;
        }
        assert(out@ =~= automorphism(self@, k as int));
        CyclotomicRing { coeffs: out }
    }

    /// The automorphism `X -> X^{-1}`.
    pub fn sigma_m1(&self) -> (r: Self)
        requires
            D > 0,
            2 * D * D <= usize::MAX,
        ensures
            r@ == automorphism(self@, 2 * D - 1),
            automorphism(r@, 2 * D - 1) == self@,
    {
        assert(2 * D <= 2 * D * D) by (nonlinear_arith)
            requires
                D > 0,
        ;
        proof {
            lemma_small_mod((2 * D - 1) as nat, (2 * D) as nat);
        }
        self.settle();
        proof {
            law_conjugation_is_an_involution(self@);
        }
        self.sigma(2 * D - 1)
    }

    /// Multiplies by `X^k`. A shift of the result by `l` places is one of the
    /// element by `k + l`; one by `D` places changes the sign, and one by `2D`
    /// places is the identity.
    pub fn negacyclic_shift(&self, k: usize) -> (r: Self)
        requires
            D > 0,
            2 * D <= usize::MAX,
        ensures
            r@ == shifted(self@, k as int),
            forall|i: int| 0 <= i < D ==> #[trigger] r@[i] == signed(self@, i - k),
            r@ == product(self@, monomial(D as nat, k as int)),
            forall|l: int| #[trigger] shifted(r@, l) == shifted(self@, k + l),
            k == D ==> forall|i: int| 0 <= i < D ==> #[trigger] r@[i] == -self@[i],
            k == 2 * D ==> r@ == self@,
    {
        let r = self.moved(k);
        self.settle();
        proof {
            assert(r@ =~= shifted(self@, k as int));
            assert forall|i: int| 0 <= i < D implies #[trigger] r@[i] == product(
                self@,
                monomial(D as nat, k as int),
            )[i] by {
                law_shift_multiplies(self@, k as int, i);
                lemma_signed_settled(self@, i - k);
            }
            assert(r@ =~= product(self@, monomial(D as nat, k as int)));
            assert forall|l: int| #[trigger] shifted(r@, l) == shifted(self@, k + l) by {
                law_shifts_compose(self@, k as int, l);
            }
            if k == D || k == 2 * D {
                assert forall|i: int| 0 <= i < D implies #[trigger] r@[i] == if k == D {
                    -self@[i]
                } else {
                    self@[i]
                } by {
                    law_shift_period(self@, 0, i);
                    assert(i - k == i - D || i - k == i - (0 + 2 * D));
                }
                assert(k == 2 * D ==> r@ =~= self@);
            }
        }
        r
    }

    /// The coefficients read `k` places back.
    fn moved(&self, k: usize) -> (r: Self)
        requires
            D > 0,
            2 * D <= usize::MAX,
        ensures
            forall|i: int| 0 <= i < D ==> #[trigger] r@[i] == signed(self@, i - k),
    {
        let e: usize = k % (2 * D);
        proof {
            assert forall|i: int| 0 <= i < D implies #[trigger] signed(self@, i - k) == signed(
                self@,
                i - e,
            ) by {
                lemma_sub_mod_noop_right(i, k as int, 2 * D as int);
                lemma_signed_period(self@, i - k, i - e);
            }
        }
        if e == 0 {
            proof {
                assert forall|i: int| 0 <= i < D implies #[trigger] self@[i] == signed(
                    self@,
                    i - k,
                ) by {
                    lemma_signed_near(self@, i);
                }
            }
            return *self;
        }
        let global_neg = e >= D;
        let shift: usize = if global_neg {
            e - D
        } else {
            e
        };
        if shift == 0 {
            proof {
                assert forall|i: int| 0 <= i < D implies -self@[i] == #[trigger] signed(
                    self@,
                    i - k,
                ) by {
                    lemma_signed_near(self@, i - D);
                }
            }
            return self.neg();
        }
        let mut out = [F::zero();D];
        let mut i: usize = 0;
        while i < D
            invariant
                i <= D,
                D > 0,
                2 * D <= usize::MAX,
                e < 2 * D,
                global_neg == (e >= D),
                shift == if global_neg {
                    e - D
                } else {
                    e as int
                },
                0 < shift < D,
                forall|t: int|
                    0 <= t < D && (shift <= t < i + shift || t < i + shift - D)
                        ==> #[trigger] out@[t] == signed(self@, t - e),
            decreases D - i,
        {
            let target: usize = i + shift;
            let wrap_neg = target >= D;
            let coeff = if global_neg != wrap_neg {
                self.coeffs[i].neg()
            } else {
                self.coeffs[i]
            };
            let place: usize = if wrap_neg {
                target - D
            } else {
                target
            };
            proof {
                lemma_signed_near(self@, place - e);
            }
            out[place] = coeff;
            i += 1;
        }
        CyclotomicRing { coeffs: out }
    }

    /// Multiplies by the sum of the monomials at the given exponents.
    pub fn mul_by_monomial_sum(&self, nonzero_positions: &[usize]) -> (r: Self)
        requires
            D > 0,
            2 * D <= usize::MAX,
        ensures
            forall|i: int|
                0 <= i < D ==> #[trigger] r@[i] == rl::sum_range(
                    shift_sum(self@, nonzero_positions@, i),
                    0,
                    nonzero_positions@.len() as int,
                ),
    {
        let mut result = Self::zero();
        let ghost before = result@;
        self.mul_by_monomial_sum_into(&mut result, nonzero_positions);
        proof {
            assert forall|i: int| 0 <= i < D implies #[trigger] result@[i] == rl::sum_range(
                shift_sum(self@, nonzero_positions@, i),
                0,
                nonzero_positions@.len() as int,
            ) by {
                assert(before[i] == F::zero_spec());
                let f = shift_sum(self@, nonzero_positions@, i);
                let total = rl::sum_range(f, 0, nonzero_positions@.len() as int);
                rl::lemma_sum_reduced(f, 0, nonzero_positions@.len() as int);
                rl::lemma_zero_add(total);
                rl::lemma_results_reduced(F::zero_spec(), F::zero_spec());
            }
        }
        result
    }

    /// Adds `self * X^k` to `dst`.
    pub fn shift_accumulate_into(&self, dst: &mut Self, k: usize)
        requires
            k < D,
        ensures
            forall|i: int|
                0 <= i < D ==> #[trigger] final(dst)@[i] == old(dst)@[i] + signed(self@, i - k),
    {
        let ghost before = dst@;
        let mut out = dst.coeffs;
        let mut i: usize = 0;
        while i < D
            invariant
                i <= D,
                k < D,
                before.len() == D,
                forall|j: int|
                    0 <= j < D ==> #[trigger] out@[j] == if j < i {
                        before[j] + signed(self@, j - k)
                    } else {
                        before[j]
                    },
            decreases D - i,
        {
            proof {
                lemma_signed_near(self@, i - k);
            }
            if i >= k {
                out[i] = out[i].add(self.coeffs[i - k]);
            } else {
                proof {
                    F::law_negation(before[i as int], self@[i - k + D]);
                }
                out[i] = out[i].sub(self.coeffs[D - (k - i)]);
            }
            i += 1;
        }
        dst.coeffs = out;
    }

    /// Subtracts `self * X^k` from `dst`.
    pub fn shift_sub_into(&self, dst: &mut Self, k: usize)
        requires
            k < D,
        ensures
            forall|i: int|
                0 <= i < D ==> #[trigger] final(dst)@[i] == old(dst)@[i] - signed(self@, i - k),
    {
        let ghost before = dst@;
        let mut out = dst.coeffs;
        let mut i: usize = 0;
        while i < D
            invariant
                i <= D,
                k < D,
                before.len() == D,
                forall|j: int|
                    0 <= j < D ==> #[trigger] out@[j] == if j < i {
                        before[j] - signed(self@, j - k)
                    } else {
                        before[j]
                    },
            decreases D - i,
        {
            proof {
                lemma_signed_near(self@, i - k);
            }
            if i >= k {
                out[i] = out[i].sub(self.coeffs[i - k]);
            } else {
                proof {
                    let c = self@[i - k + D];
                    F::law_negation(before[i as int], -c);
                    rl::lemma_neg_neg(c);
                    rl::lemma_reduced_add(before[i as int], c);
                }
                out[i] = out[i].add(self.coeffs[D - (k - i)]);
            }
            i += 1;
        }
        dst.coeffs = out;
    }

    /// Adds `scale * self * X^k` to `dst`.
    pub fn shift_scale_accumulate_into(&self, dst: &mut Self, k: usize, scale: F)
        requires
            k < D,
        ensures
            forall|i: int|
                0 <= i < D ==> #[trigger] final(dst)@[i] == old(dst)@[i] + signed(self@, i - k)
                    * scale,
    {
        let ghost before = dst@;
        let mut out = dst.coeffs;
        let mut i: usize = 0;
        while i < D
            invariant
                i <= D,
                k < D,
                before.len() == D,
                forall|j: int|
                    0 <= j < D ==> #[trigger] out@[j] == if j < i {
                        before[j] + signed(self@, j - k) * scale
                    } else {
                        before[j]
                    },
            decreases D - i,
        {
            proof {
                lemma_signed_near(self@, i - k);
            }
            if i >= k {
                out[i] = out[i].add(self.coeffs[i - k].mul(scale));
            } else {
                proof {
                    let c = self@[i - k + D];
                    rl::lemma_neg_mul(c, scale);
                    F::law_negation(before[i as int], c * scale);
                }
                out[i] = out[i].sub(self.coeffs[D - (k - i)].mul(scale));
            }
            i += 1;
        }
        dst.coeffs = out;
    }

    /// Adds the product with a sum of monomials to `dst`.
    pub fn mul_by_monomial_sum_into(&self, dst: &mut Self, nonzero_positions: &[usize])
        requires
            D > 0,
            2 * D <= usize::MAX,
        ensures
            forall|i: int|
                0 <= i < D ==> accumulated(
                    old(dst)@[i],
                    #[trigger] final(dst)@[i],
                    rl::sum_range(
                        shift_sum(self@, nonzero_positions@, i),
                        0,
                        nonzero_positions@.len() as int,
                    ),
                ),
    {
        dst.settle();
        let ghost before = dst@;
        let ghost positions = nonzero_positions@;
        let mut t: usize = 0;
        while t < nonzero_positions.len()
            invariant
                D > 0,
                2 * D <= usize::MAX,
                t <= positions.len(),
                positions == nonzero_positions@,
                before.len() == D,
                forall|i: int|
                    0 <= i < D ==> accumulated(
                        before[i],
                        #[trigger] dst@[i],
                        rl::sum_range(shift_sum(self@, positions, i), 0, t as int),
                    ),
            decreases positions.len() - t,
        {
            let ghost middle = dst@;
            let shifted = self.negacyclic_shift(nonzero_positions[t]);
            dst.add_assign(&shifted);
            proof {
                assert forall|i: int| 0 <= i < D implies accumulated(
                    before[i],
                    #[trigger] dst@[i],
                    rl::sum_range(shift_sum(self@, positions, i), 0, t + 1),
                ) by {
                    assert(accumulated(
                        before[i],
                        middle[i],
                        rl::sum_range(shift_sum(self@, positions, i), 0, t as int),
                    ));
                    lemma_accumulate_step(
                        before[i],
                        middle[i],
                        dst@[i],
                        rl::sum_range(shift_sum(self@, positions, i), 0, t as int),
                        shifted@[i],
                    );
                }
            }
            t += 1;
        }
    }

    /// Adds `self * rhs` to `dst`, with work in proportion to the number of
    /// nonzero coefficients of `rhs`.
    pub fn mul_accumulate_sparse_rhs_into(&self, rhs: &Self, dst: &mut Self)
        ensures
            forall|i: int|
                0 <= i < D ==> accumulated(
                    old(dst)@[i],
                    #[trigger] final(dst)@[i],
                    product_coeff(self@, rhs@, i),
                ),
    {
        dst.settle();
        let ghost before = dst@;
        let one = F::one();
        let minus_one = one.neg();
        let mut pos: usize = 0;
        while pos < D
            invariant
                pos <= D,
                one == F::one_spec(),
                minus_one == -F::one_spec(),
                before.len() == D,
                forall|i: int|
                    0 <= i < D ==> accumulated(
                        before[i],
                        #[trigger] dst@[i],
                        rl::sum_range(product_term(rhs@, self@, i), 0, pos as int),
                    ),
            decreases D - pos,
        {
            let coeff = rhs.coeffs[pos];
            let ghost middle = dst@;
            if coeff.is_zero() {
                proof {
                    assert forall|i: int| 0 <= i < D implies accumulated(
                        before[i],
                        #[trigger] dst@[i],
                        rl::sum_range(product_term(rhs@, self@, i), 0, pos + 1),
                    ) by {
                        rl::lemma_mul_identities(signed(self@, i - pos));
                        lemma_accumulate_skip(
                            before[i],
                            middle[i],
                            rl::sum_range(product_term(rhs@, self@, i), 0, pos as int),
                            coeff * signed(self@, i - pos),
                        );
                    }
                }
            } else {
                if coeff.equals(one) {
                    self.shift_accumulate_into(dst, pos);
                } else if coeff.equals(minus_one) {
                    self.shift_sub_into(dst, pos);
                } else {
                    self.shift_scale_accumulate_into(dst, pos, coeff);
                }
                proof {
                    assert forall|i: int| 0 <= i < D implies accumulated(
                        before[i],
                        #[trigger] dst@[i],
                        rl::sum_range(product_term(rhs@, self@, i), 0, pos + 1),
                    ) by {
                        let s = signed(self@, i - pos);
                        assert(accumulated(
                            before[i],
                            middle[i],
                            rl::sum_range(product_term(rhs@, self@, i), 0, pos as int),
                        ));
                        rl::lemma_mul_identities(s);
                        rl::lemma_reduced_add(middle[i], s);
                        rl::lemma_neg_mul(F::one_spec(), s);
                        rl::lemma_neg_add(s, F::zero_spec());
                        rl::lemma_neg_zero::<F>();
                        rl::lemma_results_reduced(s, s);
                        F::law_negation(middle[i], s);
                        F::law_mul_commutes(coeff, s);
                        assert(dst@[i] == middle[i] + coeff * s);
                        lemma_accumulate_step(
                            before[i],
                            middle[i],
                            dst@[i],
                            rl::sum_range(product_term(rhs@, self@, i), 0, pos as int),
                            coeff * s,
                        );
                    }
                }
            }
            pos += 1;
        }
        proof {
            assert forall|i: int| 0 <= i < D implies accumulated(
                before[i],
                #[trigger] dst@[i],
                product_coeff(self@, rhs@, i),
            ) by {
                law_product_commutes(self@, rhs@, i);
            }
        }
    }

    /// Adds `self * rhs` to `dst` by schoolbook convolution.
    pub fn mul_accumulate_into(&self, rhs: &Self, dst: &mut Self)
        ensures
            forall|i: int|
                0 <= i < D ==> accumulated(
                    old(dst)@[i],
                    #[trigger] final(dst)@[i],
                    product_coeff(self@, rhs@, i),
                ),
    {
        dst.settle();
        let ghost before = dst@;
        let mut j: usize = 0;
        while j < D
            invariant
                j <= D,
                before.len() == D,
                forall|i: int|
                    0 <= i < D ==> accumulated(
                        before[i],
                        #[trigger] dst@[i],
                        rl::sum_range(product_term(self@, rhs@, i), 0, j as int),
                    ),
            decreases D - j,
        {
            let a = self.coeffs[j];
            let ghost middle = dst@;
            if a.is_zero() {
                proof {
                    assert forall|i: int| 0 <= i < D implies accumulated(
                        before[i],
                        #[trigger] dst@[i],
                        rl::sum_range(product_term(self@, rhs@, i), 0, j + 1),
                    ) by {
                        rl::lemma_mul_identities(signed(rhs@, i - j));
                        lemma_accumulate_skip(
                            before[i],
                            middle[i],
                            rl::sum_range(product_term(self@, rhs@, i), 0, j as int),
                            a * signed(rhs@, i - j),
                        );
                    }
                }
            } else {
                rhs.shift_scale_accumulate_into(dst, j, a);
                proof {
                    assert forall|i: int| 0 <= i < D implies accumulated(
                        before[i],
                        #[trigger] dst@[i],
                        rl::sum_range(product_term(self@, rhs@, i), 0, j + 1),
                    ) by {
                        F::law_mul_commutes(a, signed(rhs@, i - j));
                        assert(accumulated(
                            before[i],
                            middle[i],
                            rl::sum_range(product_term(self@, rhs@, i), 0, j as int),
                        ));
                        lemma_accumulate_step(
                            before[i],
                            middle[i],
                            dst@[i],
                            rl::sum_range(product_term(self@, rhs@, i), 0, j as int),
                            a * signed(rhs@, i - j),
                        );
                    }
                }
            }
            j += 1;
        }
    }

    /// Whether every coefficient is zero.
    pub fn is_zero(&self) -> (b: bool)
        ensures
            b == forall|i: int| 0 <= i < D ==> #[trigger] self@[i] == F::zero_spec(),
    {
        let mut i: usize = 0;
        while i < D
            invariant
                i <= D,
                forall|j: int| 0 <= j < i ==> #[trigger] self@[j] == F::zero_spec(),
            decreases D - i,
        {
            if !self.coeffs[i].is_zero() {
                assert(self@[i as int] != F::zero_spec());
                return false;
            }
            i += 1;
        }
        true
    }

    /// The number of nonzero coefficients.
    pub fn hamming_weight(&self) -> (w: usize)
        ensures
            w == nonzero_count(self@, D as int),
            w <= D,
    {
        let mut count: usize = 0;
        let mut i: usize = 0;
        while i < D
            invariant
                i <= D,
                count <= i,
                count == nonzero_count(self@, i as int),
            decreases D - i,
        {
            if !self.coeffs[i].is_zero() {
                count += 1;
            }
            i += 1;
        }
        count
    }
}

impl<const P: u128, const D: usize> CyclotomicRing<PrimeField<P>, D> {
    /// The representatives of the coefficients of least magnitude.
    pub fn centered_coefficients_i128(&self) -> (r: [i128; D])
        ensures
            forall|i: int|
                0 <= i < D ==> #[trigger] r@[i] == centered::<P>(self@[i].value_spec()),
    {
        let modulus: u128 = PrimeField::<P>::modulus();
        let half: u128 = modulus / 2;
        let mut out = [0i128;D];
        let mut i: usize = 0;
        while i < D
            invariant
                i <= D,
                modulus == PrimeField::<P>::modulus_spec(),
                half == modulus / 2,
                forall|j: int|
                    0 <= j < i ==> #[trigger] out@[j] == centered::<P>(self@[j].value_spec()),
            decreases D - i,
        {
            let canonical: u128 = self.coeffs[i].to_u128();
            out[i] = if canonical > half {
                -((modulus - canonical) as i128)
            } else {
                canonical as i128
            };
            i += 1;
        }
        out
    }
}

/// The representative of least magnitude of a residue, the positive one of two.
pub open spec fn centered<const P: u128>(value: int) -> int {
    let m = PrimeField::<P>::modulus_spec();
    if value > m / 2 {
        value - m
    } else {
        value
    }
}

/// The centred representative maps back to the coefficient.
pub proof fn law_centered_is_congruent<const P: u128>(value: int)
    requires
        0 <= value < PrimeField::<P>::modulus_spec(),
    ensures
        PrimeField::<P>::of_int(centered::<P>(value)) == PrimeField::<P>::of_int(value),
        -PrimeField::<P>::modulus_spec() < 2 * centered::<P>(value)
            <= PrimeField::<P>::modulus_spec(),
{
    let m = PrimeField::<P>::modulus_spec();
    lemma_mod_sub_multiples_vanish(value, m);
    PrimeField::<P>::lemma_residue_congruent(centered::<P>(value), value);
}

/// The coefficients that are counted are those that are not zero: none where all are
/// zero, all where none is, and one more for each that is not.
pub proof fn law_nonzero_coefficients_are_counted<F: Field>(a: Seq<F>, n: int)
    requires
        0 <= n < a.len(),
    ensures
        nonzero_count(a, 0) == 0,
        a[n] == F::zero_spec() ==> nonzero_count(a, n + 1) == nonzero_count(a, n),
        a[n] != F::zero_spec() ==> nonzero_count(a, n + 1) == nonzero_count(a, n) + 1,
        0 <= nonzero_count(a, n) <= n,
    decreases n,
{
    if n > 0 {
        law_nonzero_coefficients_are_counted(a, n - 1);
    }
}

} // verus!
