//! Products of ring elements modulo `X^D - 1`, and their carries.
//!
//! The product of two polynomials of degree below `D` is `low + high * X^D`.
//! Modulo `X^D - 1` it is `low + high`, modulo `X^D + 1` it is `low - high`:
//! half the difference of the two is the carry `high`.

use crate::cyclotomic;
use crate::cyclotomic::CyclotomicRing;
use crate::field::Field;
use crate::ring_lemmas as rl;
use vstd::arithmetic::div_mod::*;
use vstd::prelude::*;

verus! {

/// The term of `a[j]` in coefficient `i` of the product modulo `X^D - 1`.
pub open spec fn cyclic_term<F: Field>(a: Seq<F>, b: Seq<F>, i: int) -> spec_fn(int) -> F {
    |j: int| a[j] * b[(i - j) % (b.len() as int)]
}

/// Coefficient `i` of the product modulo `X^D - 1`.
pub open spec fn cyclic_coeff<F: Field>(a: Seq<F>, b: Seq<F>, i: int) -> F {
    rl::sum_range(cyclic_term(a, b, i), 0, a.len() as int)
}

/// The term of `a[j]` in coefficient `i` of the carry.
pub open spec fn carry_term<F: Field>(a: Seq<F>, b: Seq<F>, i: int) -> spec_fn(int) -> F {
    |j: int|
        if j > i {
            a[j] * b[i - j + b.len()]
        } else {
            F::zero_spec()
        }
}

/// Coefficient `i` of the carry: coefficient `D + i` of the full product.
pub open spec fn carry_coeff<F: Field>(a: Seq<F>, b: Seq<F>, i: int) -> F {
    rl::sum_range(carry_term(a, b, i), 0, a.len() as int)
}

/// Whether the field has a half of every value.
pub open spec fn halvable<F: Field>() -> bool {
    exists|h: F| is_half(h)
}

/// Whether a value is one half.
pub open spec fn is_half<F: Field>(h: F) -> bool {
    (F::one_spec() + F::one_spec()) * h == F::one_spec()
}

/// Modulo `X^D - 1` a product exceeds the one modulo `X^D + 1` by twice its
/// carry.
pub proof fn law_products_differ_by_carries<F: Field>(a: Seq<F>, b: Seq<F>, i: int)
    requires
        a.len() == b.len(),
        0 <= i < a.len(),
    ensures
        cyclic_coeff(a, b, i) == cyclotomic::product_coeff(a, b, i) + (carry_coeff(a, b, i)
            + carry_coeff(a, b, i)),
{
    let d = a.len() as int;
    let cyc = cyclic_term(a, b, i);
    let neg = cyclotomic::product_term(a, b, i);
    let carry = carry_term(a, b, i);
    let twice = |j: int| carry(j) + carry(j);
    assert forall|j: int| 0 <= j < d implies #[trigger] cyc(j) == neg(j) + twice(j) by {
        cyclotomic::lemma_signed_near(b, i - j);
        if j > i {
            let p = a[j] * b[i - j + d];
            lemma_fundamental_div_mod_converse(i - j, d, -1, i - j + d);
            rl::lemma_neg_mul(a[j], b[i - j + d]);
            rl::lemma_results_reduced(a[j], b[i - j + d]);
            // -p + (p + p) == p
            F::law_add_associates(-p, p, p);
            F::law_add_commutes(-p, p);
            F::law_negation(p, p);
            rl::lemma_zero_add(p);
        } else {
            lemma_small_mod((i - j) as nat, d as nat);
            rl::lemma_results_reduced(a[j], b[i - j]);
            rl::lemma_results_reduced(F::zero_spec(), F::zero_spec());
        }
    }
    rl::lemma_sum_add(neg, twice, cyc, 0, d);
    rl::lemma_sum_add(carry, carry, twice, 0, d);
}

/// A product with a zero element is zero.
pub proof fn lemma_cyclic_zero<F: Field>(a: Seq<F>, b: Seq<F>, i: int)
    requires
        b.len() > 0,
        forall|j: int| 0 <= j < b.len() ==> #[trigger] b[j] == F::zero_spec(),
    ensures
        cyclic_coeff(a, b, i) == F::zero_spec(),
{
    assert forall|j: int| 0 <= j < a.len() implies #[trigger] cyclic_term(a, b, i)(j)
        == F::zero_spec() by {
        lemma_mod_bound(i - j, b.len() as int);
        assert(b[(i - j) % (b.len() as int)] == F::zero_spec());
        rl::lemma_mul_identities(a[j]);
    }
    rl::lemma_sum_zero(cyclic_term(a, b, i), 0, a.len() as int);
}

/// A product with a zero element is zero.
pub proof fn lemma_negacyclic_zero<F: Field>(a: Seq<F>, b: Seq<F>, i: int)
    requires
        b.len() > 0,
        forall|j: int| 0 <= j < b.len() ==> #[trigger] b[j] == F::zero_spec(),
    ensures
        cyclotomic::product_coeff(a, b, i) == F::zero_spec(),
{
    let d = b.len() as int;
    assert forall|j: int|
        0 <= j < a.len() implies #[trigger] cyclotomic::product_term(a, b, i)(j)
        == F::zero_spec() by {
        lemma_mod_bound(i - j, 2 * d);
        let t = (i - j) % (2 * d);
        rl::lemma_neg_zero::<F>();
        if t < d {
            assert(b[t] == F::zero_spec());
        } else {
            assert(b[t - d] == F::zero_spec());
        }
        rl::lemma_mul_identities(a[j]);
    }
    rl::lemma_sum_zero(cyclotomic::product_term(a, b, i), 0, a.len() as int);
}

/// Half the difference of two values that differ by twice a third is the third.
pub proof fn lemma_half_difference<F: Field>(cyc: F, neg: F, carry: F, half: F)
    requires
        is_half(half),
        cyc == neg + (carry + carry),
        rl::reduced(carry),
    ensures
        (cyc - neg) * half == carry,
{
    let one = F::one_spec();
    let two = one + one;
    rl::lemma_sub_add_cancel(carry + carry, neg);
    F::law_add_commutes(neg, carry + carry);
    rl::lemma_results_reduced(carry, carry);
    assert(cyc - neg == carry + carry);
    rl::lemma_mul_identities(carry);
    F::law_distributes(carry, one, one);
    assert(carry * two == carry + carry);
    F::law_mul_associates(carry, two, half);
}

/// Adds `a` times `rhs`, moved `j` places round, to `dst`.
fn rotate_scale_accumulate<F: Field, const D: usize>(
    rhs: &CyclotomicRing<F, D>,
    dst: &mut CyclotomicRing<F, D>,
    j: usize,
    a: F,
)
    requires
        j < D,
    ensures
        forall|i: int|
            0 <= i < D ==> #[trigger] final(dst)@[i] == old(dst)@[i] + a * rhs@[(i - j) % (
            D as int)],
{
    let ghost before = dst@;
    let mut out = dst.coeffs;
    let mut i: usize = 0;
    while i < D
        invariant
            i <= D,
            j < D,
            before.len() == D,
            forall|k: int|
                0 <= k < D ==> #[trigger] out@[k] == if k < i {
                    before[k] + a * rhs@[(k - j) % (D as int)]
                } else {
                    before[k]
                },
        decreases D - i,
    {
        let place: usize = if i >= j {
            i - j
        } else {
            i + (D - j)
        };
        proof {
            if i >= j {
                lemma_small_mod((i - j) as nat, D as nat);
            } else {
                lemma_fundamental_div_mod_converse(i - j, D as int, -1, i - j + D);
            }
        }
        out[i] = out[i].add(a.mul(rhs.coeffs[place]));
        i += 1;
    }
    dst.coeffs = out;
}

/// Adds the product modulo `X^D - 1` to `dst`.
pub fn add_cyclic_product_into<F: Field, const D: usize>(
    dst: &mut CyclotomicRing<F, D>,
    lhs: &CyclotomicRing<F, D>,
    rhs: &CyclotomicRing<F, D>,
)
    ensures
        forall|i: int|
            0 <= i < D ==> cyclotomic::accumulated(
                old(dst)@[i],
                #[trigger] final(dst)@[i],
                cyclic_coeff(lhs@, rhs@, i),
            ),
{
    dst.settle();
    let ghost before = dst@;
    let mut j: usize = 0;
    while j < D
        invariant
            j <= D,
            before.len() == D,
            forall|i: int|
                0 <= i < D ==> cyclotomic::accumulated(
                    before[i],
                    #[trigger] dst@[i],
                    rl::sum_range(cyclic_term(lhs@, rhs@, i), 0, j as int),
                ),
        decreases D - j,
    {
        let a = lhs.coeffs[j];
        let ghost middle = dst@;
        if a.is_zero() {
            proof {
                assert forall|i: int| 0 <= i < D implies cyclotomic::accumulated(
                    before[i],
                    #[trigger] dst@[i],
                    rl::sum_range(cyclic_term(lhs@, rhs@, i), 0, j + 1),
                ) by {
                    let b = rhs@[(i - j) % (D as int)];
                    rl::lemma_mul_identities(b);
                    cyclotomic::lemma_accumulate_skip(
                        before[i],
                        middle[i],
                        rl::sum_range(cyclic_term(lhs@, rhs@, i), 0, j as int),
                        a * b,
                    );
                }
            }
        } else {
            rotate_scale_accumulate(rhs, dst, j, a);
            proof {
                assert forall|i: int| 0 <= i < D implies cyclotomic::accumulated(
                    before[i],
                    #[trigger] dst@[i],
                    rl::sum_range(cyclic_term(lhs@, rhs@, i), 0, j + 1),
                ) by {
                    let b = rhs@[(i - j) % (D as int)];
                    assert(cyclotomic::accumulated(
                        before[i],
                        middle[i],
                        rl::sum_range(cyclic_term(lhs@, rhs@, i), 0, j as int),
                    ));
                    cyclotomic::lemma_accumulate_step(
                        before[i],
                        middle[i],
                        dst@[i],
                        rl::sum_range(cyclic_term(lhs@, rhs@, i), 0, j as int),
                        a * b,
                    );
                }
            }
        }
        j += 1;
    }
}

/// Half the difference of two elements.
pub fn quotient_from_cyclic_and_negacyclic<F: Field, const D: usize>(
    cyclic: &CyclotomicRing<F, D>,
    negacyclic: &CyclotomicRing<F, D>,
    half: F,
) -> (r: CyclotomicRing<F, D>)
    ensures
        forall|i: int| 0 <= i < D ==> #[trigger] r@[i] == (cyclic@[i] - negacyclic@[i]) * half,
{
    let mut out = cyclic.coeffs;
    let mut i: usize = 0;
    while i < D
        invariant
            i <= D,
            forall|k: int|
                0 <= k < D ==> #[trigger] out@[k] == if k < i {
                    (cyclic@[k] - negacyclic@[k]) * half
                } else {
                    cyclic@[k]
                },
        decreases D - i,
    {
        out[i] = out[i].sub(negacyclic.coeffs[i]).mul(half);
        i += 1;
    }
    CyclotomicRing { coeffs: out }
}

/// One half, in a field that has it.
pub fn half<F: Field>() -> (h: F)
    requires
        halvable::<F>(),
    ensures
        is_half(h),
{
    let two = F::one().add(F::one());
    match two.inverse() {
        Some(h) => h,
        None => {
            proof {
                let h = choose|h: F| is_half(h);
                assert(two * h != F::one_spec());
            }
            two
        },
    }
}

} // verus!
