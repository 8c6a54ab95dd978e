//! Univariate polynomials in coefficient form.

use crate::field::Field;
use crate::l2_norm;
use crate::ring_lemmas as rl;
use vstd::prelude::*;

verus! {

/// The value at `x` of the polynomial whose coefficients are given in
/// ascending degree order.
pub open spec fn poly_eval<E: Field>(coeffs: Seq<E>, x: E) -> E
    decreases coeffs.len(),
{
    if coeffs.len() == 0 {
        E::zero_spec()
    } else {
        coeffs[0] + x * poly_eval(coeffs.drop_first(), x)
    }
}

/// The coefficients of `carry + (constant + slope X) q(X)`.
pub open spec fn linear_product<E: Field>(q: Seq<E>, constant: E, slope: E, carry: E) -> Seq<E>
    decreases q.len(),
{
    if q.len() == 0 {
        seq![carry]
    } else {
        seq![carry + q[0] * constant] + linear_product(
            q.drop_first(),
            constant,
            slope,
            q[0] * slope,
        )
    }
}

/// The product has one coefficient more, each made of the two terms of its degree.
pub proof fn lemma_linear_product_coefficients<E: Field>(
    q: Seq<E>,
    constant: E,
    slope: E,
    carry: E,
)
    ensures
        linear_product(q, constant, slope, carry).len() == q.len() + 1,
        forall|i: int|
            0 <= i < q.len() ==> #[trigger] linear_product(q, constant, slope, carry)[i] == (if i
                == 0 {
                carry
            } else {
                q[i - 1] * slope
            }) + q[i] * constant,
        linear_product(q, constant, slope, carry).last() == if q.len() == 0 {
            carry
        } else {
            q.last() * slope
        },
    decreases q.len(),
{
    if q.len() > 0 {
        let rest = q.drop_first();
        lemma_linear_product_coefficients(rest, constant, slope, q[0] * slope);
        let whole = linear_product(q, constant, slope, carry);
        let tail = linear_product(rest, constant, slope, q[0] * slope);
        assert forall|i: int| 0 <= i < q.len() implies #[trigger] whole[i] == (if i == 0 {
            carry
        } else {
            q[i - 1] * slope
        }) + q[i] * constant by {
            if i > 0 {
                assert(whole[i] == tail[i - 1]);
            }
        }
        assert(whole.last() == tail.last());
    }
}

/// The value of the product is the product of the values.
pub proof fn lemma_linear_product_eval<E: Field>(
    q: Seq<E>,
    constant: E,
    slope: E,
    carry: E,
    x: E,
)
    ensures
        poly_eval(linear_product(q, constant, slope, carry), x) == carry + (constant + slope * x)
            * poly_eval(q, x),
    decreases q.len(),
{
    let whole = linear_product(q, constant, slope, carry);
    let l = constant + slope * x;
    if q.len() == 0 {
        assert(whole.drop_first().len() == 0);
        reveal_with_fuel(poly_eval, 2);
        rl::lemma_mul_identities(x);
        rl::lemma_mul_identities(l);
    } else {
        let rest = q.drop_first();
        let q0 = q[0];
        let v = poly_eval(rest, x);
        lemma_linear_product_eval(rest, constant, slope, q0 * slope, x);
        assert(whole.drop_first() =~= linear_product(rest, constant, slope, q0 * slope));
        // whole(x) = (carry + q0 a) + x (q0 b + l v)
        let a = q0 * constant;
        let b = q0 * slope;
        E::law_distributes(x, b, l * v);
        // l q(x) = l q0 + l (x v)
        E::law_distributes(l, q0, x * v);
        rl::lemma_distributes_right(constant, slope * x, q0);
        E::law_mul_commutes(constant, q0);
        // (slope x) q0 = x (q0 slope)
        E::law_mul_commutes(slope * x, q0);
        E::law_mul_associates(q0, slope, x);
        E::law_mul_commutes(b, x);
        // l (x v) = x (l v)
        E::law_mul_associates(l, x, v);
        E::law_mul_commutes(l, x);
        E::law_mul_associates(x, l, v);
        E::law_add_associates(a, x * b, x * (l * v));
        E::law_add_associates(carry, a, x * b + x * (l * v));
    }
}

/// At one the value is the sum of the coefficients.
pub proof fn lemma_eval_at_one<E: Field>(coeffs: Seq<E>)
    ensures
        poly_eval(coeffs, E::one_spec()) == rl::sum_range(
            |i: int| coeffs[i],
            0,
            coeffs.len() as int,
        ),
    decreases coeffs.len(),
{
    let one = E::one_spec();
    let f = |i: int| coeffs[i];
    let n = coeffs.len() as int;
    if n > 0 {
        let rest = coeffs.drop_first();
        let g = |i: int| rest[i];
        lemma_eval_at_one(rest);
        rl::lemma_sum_reduced(g, 0, n - 1);
        rl::lemma_mul_identities(poly_eval(rest, one));
        rl::lemma_sum_shift(g, f, 1, 0, n - 1);
        rl::lemma_sum_split(f, 0, 1, n);
        reveal_with_fuel(rl::sum_range, 2);
        assert(rl::sum_range(f, 0, 1) == E::zero_spec() + f(0));
        rl::lemma_zero_add(f(0));
        rl::lemma_reduced_add(coeffs[0], poly_eval(rest, one));
    }
}

/// At zero the value is the constant coefficient.
pub proof fn lemma_eval_at_zero<E: Field>(coeffs: Seq<E>)
    requires
        coeffs.len() > 0,
    ensures
        poly_eval(coeffs, E::zero_spec()) == coeffs[0] + E::zero_spec(),
{
    rl::lemma_mul_identities(poly_eval(coeffs.drop_first(), E::zero_spec()));
}

/// A polynomial given by its coefficients in ascending degree order.
#[derive(Clone, Debug, PartialEq, Eq)]
pub struct UniPoly<E: Field> {
    /// The coefficients.
    pub coeffs: Vec<E>,
}

impl<E: Field> UniPoly<E> {
    /// The polynomial with the given coefficients.
    pub fn from_coeffs(coeffs: Vec<E>) -> (p: Self)
        ensures
            p.coeffs@ == coeffs@,
    {
        UniPoly { coeffs }
    }

    /// The value at a point.
    pub fn evaluate(&self, x: E) -> (v: E)
        ensures
            v == poly_eval(self.coeffs@, x),
    {
        let mut acc = E::zero();
        let mut k: usize = self.coeffs.len();
        let ghost n = self.coeffs@.len() as int;
        proof {
            assert(self.coeffs@.subrange(n, n).len() == 0);
        }
        while k > 0
            invariant
                k <= n,
                n == self.coeffs@.len(),
                acc == poly_eval(self.coeffs@.subrange(k as int, n), x),
            decreases k,
        {
            proof {
                assert(self.coeffs@.subrange(k - 1, n).drop_first() =~= self.coeffs@.subrange(
                    k as int,
                    n,
                ));
            }
            k -= 1;
            acc = self.coeffs[k].add(x.mul(acc));
        }
        proof {
            assert(self.coeffs@.subrange(0, n) =~= self.coeffs@);
        }
        acc
    }
}

/// The value at a point is the sum of every coefficient times its power of the
/// point.
pub proof fn law_values_are_sums_of_powers<E: Field>(coeffs: Seq<E>, x: E)
    ensures
        poly_eval(coeffs, x) == rl::sum_range(
            |k: int| coeffs[k] * l2_norm::power(x, k as nat),
            0,
            coeffs.len() as int,
        ),
{
    let n = coeffs.len() as int;
    lemma_value_of_tail(coeffs, x, 0);
    assert(coeffs.subrange(0, n) =~= coeffs);
    l2_norm::law_leaf_is_a_polynomial(coeffs, x);
    let f = l2_norm::polynomial_terms(coeffs, x);
    let g = |k: int| coeffs[k] * l2_norm::power(x, k as nat);
    rl::lemma_sum_congruent(f, g, 0, n);
}

proof fn lemma_value_of_tail<E: Field>(coeffs: Seq<E>, x: E, k: int)
    requires
        0 <= k <= coeffs.len(),
    ensures
        poly_eval(coeffs.subrange(k, coeffs.len() as int), x) == l2_norm::horner(coeffs, x, k),
    decreases coeffs.len() - k,
{
    let n = coeffs.len() as int;
    let tail = coeffs.subrange(k, n);
    if k < n {
        lemma_value_of_tail(coeffs, x, k + 1);
        assert(tail.drop_first() =~= coeffs.subrange(k + 1, n));
        let v = poly_eval(tail.drop_first(), x);
        E::law_mul_commutes(x, v);
        E::law_add_commutes(coeffs[k], v * x);
    }
}

} // verus!
