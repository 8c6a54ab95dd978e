//! Split equality polynomial for sumcheck.
//!
//! `eq(tau, x)` is kept as a running scalar, a linear factor for the current
//! variable and two cached tables for the variables after it, so that no table
//! over all variables is ever folded.
//!
//! Variables are bound from the first to the last. Behind the current one come
//! `m = (n - 1) / 2` variables of the first half and then those of the second;
//! each bound variable takes one layer off the first half's tables, and once
//! these are used up off the second half's.

use crate::eq_poly;
use crate::eq_poly::EqPolynomial;
use crate::error::AkitaError;
use crate::field;
use crate::field::{DivisionField, Field};
use crate::ring_lemmas as rl;
use crate::uni_poly;
use crate::uni_poly::UniPoly;
use vstd::arithmetic::power2::*;
use vstd::prelude::*;

verus! {

broadcast use vstd::arithmetic::power2::lemma_pow2_pos;

/// The number of variables in the first half.
pub open spec fn first_half_len(n: int) -> int {
    (n - 1) / 2
}

/// Binding the lowest variable of a table to `r`.
pub open spec fn folded<E: Field>(table: Seq<E>, r: E) -> Seq<E> {
    Seq::new(
        table.len() / 2,
        |j: int| table[2 * j] + r * (table[2 * j + 1] - table[2 * j]),
    )
}

/// The linear coefficient that makes the claim come out, given an inverse of
/// the linear factor at one.
pub open spec fn recovered_linear<E: Field>(
    l_at_0: E,
    inverse: E,
    q_except_linear: Seq<E>,
    claim: E,
) -> E {
    (claim - l_at_0 * q_except_linear[0]) * inverse - rl::sum_range(
        |i: int| q_except_linear[i],
        0,
        q_except_linear.len() as int,
    )
}

/// Split equality polynomial with an accumulated scalar.
pub struct GruenSplitEq<E: Field> {
    tau: Vec<E>,
    current_round: usize,
    current_scalar: E,
    e_first: Vec<Vec<E>>,
    e_second: Vec<Vec<E>>,
}

impl<E: Field> GruenSplitEq<E> {
    /// The challenge point.
    pub closed spec fn point(self) -> Seq<E> {
        self.tau@
    }

    /// The number of variables bound so far.
    pub closed spec fn round(self) -> int {
        self.current_round as int
    }

    /// The accumulated scalar.
    pub closed spec fn scalar(self) -> E {
        self.current_scalar
    }

    /// The factor of the current variable at zero.
    pub open spec fn linear_at_0(self) -> E {
        eq_poly::lagrange_child(self.scalar(), self.point()[self.round()], false)
    }

    /// The factor of the current variable at one.
    pub open spec fn linear_at_1(self) -> E {
        eq_poly::lagrange_child(self.scalar(), self.point()[self.round()], true)
    }

    /// The coordinates of the first half behind the current variable.
    pub open spec fn first_rest(self) -> Seq<E> {
        let n = self.point().len() as int;
        let split = 1 + first_half_len(n);
        if self.round() + 1 <= split {
            self.point().subrange(self.round() + 1, split)
        } else {
            Seq::empty()
        }
    }

    /// The coordinates of the second half behind the current variable.
    pub open spec fn second_rest(self) -> Seq<E> {
        let n = self.point().len() as int;
        let split = 1 + first_half_len(n);
        if self.round() + 1 <= split {
            self.point().subrange(split, n)
        } else if self.round() < n {
            self.point().subrange(self.round() + 1, n)
        } else {
            Seq::empty()
        }
    }

    /// The table layers match the point and the round.
    pub closed spec fn wf(self) -> bool {
        let n = self.tau@.len() as int;
        let k = self.current_round as int;
        let split = 1 + first_half_len(n);
        &&& 1 <= n
        &&& 0 <= k <= n
        &&& self.e_first@.len() == if k < split {
            split - k
        } else {
            1
        }
        &&& self.e_second@.len() == if k < split {
            n - split + 1
        } else if k < n {
            n - k
        } else {
            1
        }
        &&& forall|j: int|
            0 <= j < self.e_first@.len() ==> (#[trigger] self.e_first@[j])@ == eq_poly::eq_table(
                E::one_spec(),
                self.tau@.subrange(split - j, split),
            )
        &&& forall|j: int|
            0 <= j < self.e_second@.len() ==> (#[trigger] self.e_second@[j])@ == eq_poly::eq_table(
                E::one_spec(),
                self.tau@.subrange(n - j, n),
            )
    }

    /// A split table of `tau` with leading scalar one.
    pub fn new(tau: &[E]) -> (s: Result<Self, AkitaError>)
        ensures
            s is Ok <==> tau@.len() > 0 && halves_within_budget::<E>(tau@.len() as int),
            match s {
                Ok(split) => split.wf() && split.point() == tau@ && split.round() == 0
                    && split.scalar() == E::one_spec(),
                Err(e) => if tau@.len() == 0 {
                    e == (AkitaError::InvalidSize { expected: 1, actual: 0 })
                } else {
                    e is InvalidInput
                },
            },
    {
        Self::with_initial_scalar(tau, E::one())
    }

    /// A split table of `tau` with the given leading scalar.
    pub fn with_initial_scalar(tau: &[E], initial_scalar: E) -> (s: Result<Self, AkitaError>)
        ensures
            s is Ok <==> tau@.len() > 0 && halves_within_budget::<E>(tau@.len() as int),
            match s {
                Ok(split) => split.wf() && split.point() == tau@ && split.round() == 0
                    && split.scalar() == initial_scalar,
                Err(e) => if tau@.len() == 0 {
                    e == (AkitaError::InvalidSize { expected: 1, actual: 0 })
                } else {
                    e is InvalidInput
                },
            },
    {
        let n: usize = tau.len();
        if n == 0 {
            return Err(AkitaError::InvalidSize { expected: 1, actual: 0 });
        }
        let m: usize = (n - 1) / 2;
        let split: usize = 1 + m;
        let e_first = match EqPolynomial::suffix_tables(&tau[1..split]) {
            Ok(layers) => layers,
            Err(e) => {
                return Err(e);
            },
        };
        let e_second = match EqPolynomial::suffix_tables(&tau[split..n]) {
            Ok(layers) => layers,
            Err(e) => {
                return Err(e);
            },
        };
        let mut copy: Vec<E> = Vec::with_capacity(n);
        let mut k: usize = 0;
        while k < n
            invariant
                k <= n,
                n == tau@.len(),
                copy@ == tau@.take(k as int),
            decreases n - k,
        {
            copy.push(tau[k]);
            proof {
                assert(tau@.take(k + 1) =~= tau@.take(k as int).push(tau@[k as int]));
            }
            k += 1;
        }
        proof {
            assert(copy@ =~= tau@);
            let first = tau@.subrange(1, split as int);
            let second = tau@.subrange(split as int, n as int);
            assert forall|j: int| 0 <= j < e_first@.len() implies (#[trigger] e_first@[j])@
                == eq_poly::eq_table(E::one_spec(), tau@.subrange(split - j, split as int)) by {
                assert(first.subrange(m - j, m as int) =~= tau@.subrange(split - j, split as int));
            }
            assert forall|j: int| 0 <= j < e_second@.len() implies (#[trigger] e_second@[j])@
                == eq_poly::eq_table(E::one_spec(), tau@.subrange(n - j, n as int)) by {
                assert(second.subrange(n - split - j, n - split) =~= tau@.subrange(
                    n - j,
                    n as int,
                ));
            }
        }
        Ok(
            GruenSplitEq {
                tau: copy,
                current_round: 0,
                current_scalar: initial_scalar,
                e_first,
                e_second,
            },
        )
    }

    /// The scalar accumulated from the bound variables.
    pub fn current_scalar(&self) -> (v: E)
        ensures
            v == self.scalar(),
    {
        self.current_scalar
    }

    /// The coordinate of the variable about to be bound.
    pub fn current_tau(&self) -> (v: E)
        requires
            self.wf(),
            self.round() < self.point().len(),
        ensures
            v == self.point()[self.round()],
    {
        self.tau[self.current_round]
    }

    /// The tables over the variables behind the current one.
    pub fn remaining_eq_tables(&self) -> (r: (&[E], &[E]))
        requires
            self.wf(),
        ensures
            r.0@ == eq_poly::eq_table(E::one_spec(), self.first_rest()),
            r.1@ == eq_poly::eq_table(E::one_spec(), self.second_rest()),
    {
        let a: usize = self.e_first.len() - 1;
        let b: usize = self.e_second.len() - 1;
        proof {
            let n = self.tau@.len() as int;
            let split = 1 + first_half_len(n);
            assert(self.tau@.subrange(split - a, split) =~= self.first_rest());
            assert(self.tau@.subrange(n - b, n) =~= self.second_rest());
            assert(self.e_first@[a as int]@ == eq_poly::eq_table(
                E::one_spec(),
                self.tau@.subrange(split - a, split),
            ));
            assert(self.e_second@[b as int]@ == eq_poly::eq_table(
                E::one_spec(),
                self.tau@.subrange(n - b, n),
            ));
        }
        (self.e_first[a].as_slice(), self.e_second[b].as_slice())
    }

    /// Binds the current variable to `r`.
    pub fn bind(&mut self, r: E)
        requires
            old(self).wf(),
            old(self).round() < old(self).point().len(),
        ensures
            final(self).wf(),
            final(self).point() == old(self).point(),
            final(self).round() == old(self).round() + 1,
            final(self).scalar() == old(self).scalar() * eq_poly::eq_term(
                old(self).point()[old(self).round()],
                r,
            ),
    {
        let tau_k = self.tau[self.current_round];
        assert(self.current_round < self.tau.len());
        self.current_scalar = self.current_scalar.mul(eq_poly::eq_factor(tau_k, r));
        self.current_round = self.current_round + 1;
        if self.e_first.len() > 1 {
            let _ = self.e_first.pop();
        } else if self.e_second.len() > 1 {
            let _ = self.e_second.pop();
        }
    }

    /// The linear factor of the current variable at zero and one.
    pub fn linear_factor_evals(&self) -> (r: (E, E))
        requires
            self.wf(),
            self.round() < self.point().len(),
        ensures
            r.0 == self.linear_at_0(),
            r.1 == self.linear_at_1(),
            r.0 == self.scalar() * (E::one_spec() - self.point()[self.round()]),
            r.1 == self.scalar() * self.point()[self.round()],
            r.0 + r.1 == self.scalar(),
    {
        let scalar = self.current_scalar.settled();
        let l_at_1 = scalar.mul(self.current_tau());
        let l_at_0 = scalar.sub(l_at_1);
        proof {
            eq_poly::lemma_child_is_product(scalar, self.tau@[self.current_round as int]);
            eq_poly::lemma_children_sum(scalar, self.tau@[self.current_round as int]);
        }
        (l_at_0, l_at_1)
    }

    /// The round polynomial `l(X) q(X)`.
    pub fn gruen_mul(&self, q_poly: &UniPoly<E>) -> (s: UniPoly<E>)
        requires
            self.wf(),
            self.round() < self.point().len(),
            q_poly.coeffs@.len() < usize::MAX,
        ensures
            s.coeffs@ == uni_poly::linear_product(
                q_poly.coeffs@,
                self.linear_at_0(),
                self.linear_at_1() - self.linear_at_0(),
                E::zero_spec(),
            ),
            forall|x: E| #[trigger]
                uni_poly::poly_eval(s.coeffs@, x) == (self.scalar() * eq_poly::eq_term(
                    self.point()[self.round()],
                    x,
                )) * uni_poly::poly_eval(q_poly.coeffs@, x),
    {
        let (l_at_0, l_at_1) = self.linear_factor_evals();
        let slope = l_at_1.sub(l_at_0);
        let mut coeffs: Vec<E> = Vec::with_capacity(q_poly.coeffs.len() + 1);
        let mut carry = E::zero();
        let mut k: usize = 0;
        let ghost q = q_poly.coeffs@;
        let ghost n = q.len() as int;
        proof {
            assert(q.subrange(0, n) =~= q);
        }
        while k < q_poly.coeffs.len()
            invariant
                k <= n,
                n == q.len(),
                q == q_poly.coeffs@,
                coeffs@.len() == k,
                coeffs@ + uni_poly::linear_product(q.subrange(k as int, n), l_at_0, slope, carry)
                    == uni_poly::linear_product(q, l_at_0, slope, E::zero_spec()),
            decreases n - k,
        {
            let c = q_poly.coeffs[k];
            proof {
                let rest = q.subrange(k as int, n);
                assert(rest.drop_first() =~= q.subrange(k + 1, n));
                assert(coeffs@ + uni_poly::linear_product(rest, l_at_0, slope, carry)
                    =~= coeffs@.push(carry + c * l_at_0) + uni_poly::linear_product(
                    rest.drop_first(),
                    l_at_0,
                    slope,
                    c * slope,
                ));
            }
            coeffs.push(carry.add(c.mul(l_at_0)));
            carry = c.mul(slope);
            k += 1;
        }
        proof {
            assert(coeffs@ + uni_poly::linear_product(q.subrange(n, n), l_at_0, slope, carry)
                =~= coeffs@.push(carry));
        }
        coeffs.push(carry);
        proof {
            assert forall|x: E| #[trigger]
                uni_poly::poly_eval(coeffs@, x) == (self.scalar() * eq_poly::eq_term(
                    self.point()[self.round()],
                    x,
                )) * uni_poly::poly_eval(q, x) by {
                uni_poly::lemma_linear_product_eval(q, l_at_0, slope, E::zero_spec(), x);
                lemma_linear_factor(self.scalar(), self.point()[self.round()], x);
                let l = l_at_0 + slope * x;
                rl::lemma_results_reduced(l, uni_poly::poly_eval(q, x));
                rl::lemma_zero_add(l * uni_poly::poly_eval(q, x));
            }
        }
        UniPoly::from_coeffs(coeffs)
    }

    /// Whether the factor at one has an inverse.
    pub open spec fn recoverable(self) -> bool {
        exists|i: E| #[trigger] (self.linear_at_1() * i) == E::one_spec()
    }

    /// What recovery returns.
    pub open spec fn recovery(
        self,
        q_except_linear: Seq<E>,
        claim: E,
        r: Option<UniPoly<E>>,
    ) -> bool {
        let zero = E::zero_spec();
        let l0 = self.linear_at_0();
        let l1 = self.linear_at_1();
        if !self.recoverable() {
            r is None
        } else if q_except_linear.len() == 0 {
            r matches Some(s) && s.coeffs@ == seq![zero]
        } else {
            r matches Some(s) && forall|i: E|
                l1 * i == E::one_spec() ==> s.coeffs@ == uni_poly::linear_product(
                    with_linear(
                        q_except_linear,
                        #[trigger] recovered_linear(l0, i, q_except_linear, claim),
                    ),
                    l0,
                    l1 - l0,
                    zero,
                )
        }
    }

}

impl<E: DivisionField> GruenSplitEq<E> {
    /// Whether the claim determines an omitted linear coefficient.
    pub fn can_recover_linear_q_term_from_claim(&self) -> (b: bool)
        requires
            self.wf(),
            self.round() < self.point().len(),
        ensures
            b == self.recoverable(),
            b <==> self.linear_at_1() != E::zero_spec(),
            b <==> self.scalar() != E::zero_spec() && self.point()[self.round()]
                != E::zero_spec(),
    {
        let (_l_at_0, l_at_1) = self.linear_factor_evals();
        let _scalar = self.current_scalar.settled();
        let _tau = self.current_tau().settled();
        proof {
            E::law_inverses();
            lemma_unit_factor(self.scalar(), self.point()[self.round()]);
        }
        match l_at_1.inverse() {
            Some(_inverse) => true,
            None => false,
        }
    }

    /// Recovers the linear coefficient of `q` from the claim `s(0) + s(1)` and
    /// returns `l(X) q(X)`.
    ///
    /// The input holds every coefficient of `q` but the linear one. There is no
    /// answer where `l(1)` is zero: the claim does not determine the missing
    /// coefficient then. Without any coefficients the answer is the zero
    /// polynomial.
    pub fn try_gruen_poly_from_coeffs_except_linear(
        &self,
        q_coeffs_except_linear: &[E],
        s_0_plus_s_1: E,
    ) -> (r: Option<UniPoly<E>>)
        requires
            self.wf(),
            self.round() < self.point().len(),
            q_coeffs_except_linear@.len() < usize::MAX - 1,
        ensures
            self.recovery(q_coeffs_except_linear@, s_0_plus_s_1, r),
            r is None <==> !self.recoverable(),
            r is None <==> self.linear_at_1() == E::zero_spec(),
            q_coeffs_except_linear@.len() > 0 ==> meets_claim(r, s_0_plus_s_1),
    {
        let (l_at_0, l_at_1) = self.linear_factor_evals();
        let _claim = s_0_plus_s_1.settled();
        proof {
            E::law_inverses();
            lemma_unit_factor(self.scalar(), self.point()[self.round()]);
        }
        let inverse = match l_at_1.inverse() {
            Some(inverse) => inverse,
            None => {
                return None;
            },
        };
        assert(self.linear_at_1() * inverse == E::one_spec());
        if q_coeffs_except_linear.len() == 0 {
            let mut zeros: Vec<E> = Vec::new();
            zeros.push(E::zero());
            return Some(UniPoly::from_coeffs(zeros));
        }
        let ghost given = q_coeffs_except_linear@;
        let ghost f = |i: int| given[i];
        let q_at_0 = q_coeffs_except_linear[0];
        let q_at_1 = s_0_plus_s_1.sub(l_at_0.mul(q_at_0)).mul(inverse);
        let mut sum = E::zero();
        let mut k: usize = 0;
        while k < q_coeffs_except_linear.len()
            invariant
                k <= given.len(),
                given == q_coeffs_except_linear@,
                f == (|i: int| given[i]),
                sum == rl::sum_range(f, 0, k as int),
            decreases given.len() - k,
        {
            sum = sum.add(q_coeffs_except_linear[k]);
            k += 1;
        }
        let q_linear = q_at_1.sub(sum);
        let mut q_coeffs: Vec<E> = Vec::with_capacity(q_coeffs_except_linear.len() + 1);
        q_coeffs.push(q_at_0);
        q_coeffs.push(q_linear);
        let mut k: usize = 1;
        while k < q_coeffs_except_linear.len()
            invariant
                1 <= k <= given.len(),
                given == q_coeffs_except_linear@,
                q_coeffs@ == seq![q_at_0, q_linear] + given.subrange(1, k as int),
            decreases given.len() - k,
        {
            q_coeffs.push(q_coeffs_except_linear[k]);
            proof {
                assert(given.subrange(1, k + 1) =~= given.subrange(1, k as int).push(
                    given[k as int],
                ));
            }
            k += 1;
        }
        proof {
            assert(q_coeffs@ =~= with_linear(given, q_linear));
            assert forall|i: E| self.linear_at_1() * i == E::one_spec() implies recovered_linear(
                self.linear_at_0(),
                i,
                given,
                s_0_plus_s_1,
            ) == q_linear by {
                lemma_inverse_unique(l_at_1, i, inverse);
                let d = s_0_plus_s_1 - l_at_0 * q_at_0;
                rl::lemma_reduced_mul(i, d);
                rl::lemma_reduced_mul(inverse, d);
            }
        }
        proof {
            rl::lemma_results_reduced(self.scalar(), self.point()[self.round()]);
            rl::lemma_results_reduced(self.scalar(), l_at_1);
            lemma_recovered_claim(l_at_0, l_at_1, inverse, given, s_0_plus_s_1);
        }
        Some(self.gruen_mul(&UniPoly::from_coeffs(q_coeffs)))
    }

    /// Recovers the middle coefficient of a quadratic `q` from the claim
    /// `s(0) + s(1)` and returns `l(X) q(X)`.
    pub fn try_gruen_poly_deg_3(
        &self,
        q_constant: E,
        q_quadratic_coeff: E,
        s_0_plus_s_1: E,
    ) -> (r: Option<UniPoly<E>>)
        requires
            self.wf(),
            self.round() < self.point().len(),
        ensures
            self.recovery(seq![q_constant, q_quadratic_coeff], s_0_plus_s_1, r),
            r is None <==> !self.recoverable(),
            r is None <==> self.linear_at_1() == E::zero_spec(),
            meets_claim(r, s_0_plus_s_1),
    {
        let mut given: Vec<E> = Vec::new();
        given.push(q_constant);
        given.push(q_quadratic_coeff);
        proof {
            assert(given@ =~= seq![q_constant, q_quadratic_coeff]);
        }
        self.try_gruen_poly_from_coeffs_except_linear(given.as_slice(), s_0_plus_s_1)
    }
}

/// Whether a round polynomial takes values at zero and one that add up to a
/// claim, where there is one.
pub open spec fn meets_claim<E: Field>(r: Option<UniPoly<E>>, claim: E) -> bool {
    r matches Some(s) ==> uni_poly::poly_eval(s.coeffs@, E::zero_spec()) + uni_poly::poly_eval(
        s.coeffs@,
        E::one_spec(),
    ) == claim
}

/// The factor at one has an inverse where both of its factors have one; zero has
/// none.
proof fn lemma_unit_factor<E: Field>(s: E, c: E)
    ensures
        ({
            let l = eq_poly::lagrange_child(s, c, true);
            let unit = exists|i: E| #[trigger] (l * i) == E::one_spec();
            &&& l == E::zero_spec() ==> !unit
            &&& field::is_field::<E>() ==> (unit <==> l != E::zero_spec())
            &&& field::is_field::<E>() && rl::reduced(s) && rl::reduced(c) ==> (unit <==> s
                != E::zero_spec() && c != E::zero_spec())
        }),
{
    let zero = E::zero_spec();
    let one = E::one_spec();
    let l = eq_poly::lagrange_child(s, c, true);
    rl::lemma_results_reduced(s, c);
    E::law_nontrivial();
    if l == zero {
        assert forall|i: E| #[trigger] (l * i) != one by {
            rl::lemma_mul_identities(i);
        }
    }
    rl::lemma_mul_identities(c);
    rl::lemma_mul_identities(s);
    if field::is_field::<E>() && rl::reduced(s) && rl::reduced(c) && s != zero && c != zero {
        assert(s + zero != zero);
        assert(c + zero != zero);
        let i = choose|i: E| #[trigger] (s * i) == one;
        let j = choose|j: E| #[trigger] (c * j) == one;
        // (s c) (i j) = (s i) (c j) = 1
        E::law_mul_associates(s, c, i * j);
        E::law_mul_associates(c, i, j);
        E::law_mul_commutes(c, i);
        E::law_mul_associates(i, c, j);
        rl::lemma_mul_identities(i);
        rl::lemma_reduced_mul(i, s);
        assert(l * (i * j) == one);
    }
}

/// The recovered coefficient makes the claim come out.
proof fn lemma_recovered_claim<E: Field>(l0: E, l1: E, inverse: E, given: Seq<E>, claim: E)
    requires
        rl::reduced(l0),
        rl::reduced(l1),
        l1 * inverse == E::one_spec(),
        given.len() > 0,
    ensures
        ({
            let t = recovered_linear(l0, inverse, given, claim);
            let s = uni_poly::linear_product(
                with_linear(given, t),
                l0,
                l1 - l0,
                E::zero_spec(),
            );
            uni_poly::poly_eval(s, E::zero_spec()) + uni_poly::poly_eval(s, E::one_spec()) == claim
                + E::zero_spec()
        }),
{
    let zero = E::zero_spec();
    let one = E::one_spec();
    let slope = l1 - l0;
    let t = recovered_linear(l0, inverse, given, claim);
    let q = with_linear(given, t);
    let q0 = given[0];
    let n = given.len() as int;
    uni_poly::lemma_linear_product_eval(q, l0, slope, zero, zero);
    uni_poly::lemma_linear_product_eval(q, l0, slope, zero, one);
    uni_poly::lemma_eval_at_zero(q);
    uni_poly::lemma_eval_at_one(q);
    rl::lemma_mul_identities(slope);
    rl::lemma_results_reduced(l1, l0);
    rl::lemma_sub_add_cancel(l1, l0);
    rl::lemma_reduced_mul(q0, l0);
    let q1 = uni_poly::poly_eval(q, one);
    rl::lemma_results_reduced(l0, q0);
    rl::lemma_results_reduced(l1, q1);
    rl::lemma_zero_add(l0 * q0);
    rl::lemma_zero_add(l1 * q1);
    // The coefficients add up to what the claim asks for at one.
    let f = |i: int| q[i];
    let g = |i: int| given[i];
    let total = rl::sum_range(g, 0, n);
    rl::lemma_sum_split(f, 0, 2, n + 1);
    rl::lemma_sum_split(g, 0, 1, n);
    rl::lemma_sum_shift(g, f, 1, 1, n);
    let tail = rl::sum_range(g, 1, n);
    reveal_with_fuel(rl::sum_range, 3);
    assert(rl::sum_range(f, 0, 2) == (zero + f(0)) + f(1));
    assert(rl::sum_range(g, 0, 1) == zero + g(0));
    let z0 = zero + q0;
    rl::lemma_add_swap_last(z0, t, tail);
    assert(q1 == total + t);
    let wanted = (claim - l0 * q0) * inverse;
    rl::lemma_sub_add_cancel(wanted, total);
    rl::lemma_results_reduced(claim - l0 * q0, inverse);
    assert(q1 == wanted);
    // l1 times it is the rest of the claim.
    let d = claim - l0 * q0;
    E::law_mul_commutes(l1, d * inverse);
    E::law_mul_associates(d, inverse, l1);
    E::law_mul_commutes(inverse, l1);
    rl::lemma_mul_identities(d);
    rl::lemma_results_reduced(claim, l0 * q0);
    rl::lemma_sub_add_cancel(claim, l0 * q0);
}

/// Whether the cached tables of both halves stay within budget.
pub open spec fn halves_within_budget<E: Field>(n: int) -> bool {
    &&& eq_poly::within_budget::<E>(2 * pow2(first_half_len(n) as nat) - 1)
    &&& eq_poly::within_budget::<E>(2 * pow2((n - 1 - first_half_len(n)) as nat) - 1)
}

/// Coefficients with a linear one put in.
pub open spec fn with_linear<E: Field>(except_linear: Seq<E>, linear: E) -> Seq<E> {
    seq![except_linear[0], linear] + except_linear.subrange(1, except_linear.len() as int)
}

/// Inverses agree up to reduction.
proof fn lemma_inverse_unique<E: Field>(a: E, i: E, j: E)
    requires
        a * i == E::one_spec(),
        a * j == E::one_spec(),
    ensures
        i + E::zero_spec() == j + E::zero_spec(),
{
    // i = i (a j) = (i a) j = j
    E::law_mul_associates(i, a, j);
    E::law_mul_commutes(i, a);
    rl::lemma_mul_identities(i);
    rl::lemma_mul_identities(j);
}

/// The linear factor `s eq(c, x)` in terms of its values at zero and one.
proof fn lemma_linear_factor<E: Field>(s: E, c: E, x: E)
    ensures
        eq_poly::lagrange_child(s, c, false) + (eq_poly::lagrange_child(s, c, true)
            - eq_poly::lagrange_child(s, c, false)) * x == s * eq_poly::eq_term(c, x),
{
    let one = E::one_spec();
    let u = one - c;
    let l0 = eq_poly::lagrange_child(s, c, false);
    let l1 = eq_poly::lagrange_child(s, c, true);
    eq_poly::lemma_child_is_product(s, c);
    // s eq(c, x) = s (c x) + s (u (1 - x)) = l1 x + (l0 - l0 x)
    E::law_distributes(s, c * x, u * (one - x));
    E::law_mul_associates(s, c, x);
    E::law_mul_associates(s, u, one - x);
    rl::lemma_distributes_sub(l0, one, x);
    rl::lemma_results_reduced(s, u);
    rl::lemma_mul_identities(l0);
    // l0 + (l1 - l0) x = l0 + (l1 x - l0 x)
    rl::lemma_distributes_sub(x, l1, l0);
    E::law_negation(l1 * x, l0 * x);
    E::law_negation(l0, l0 * x);
    E::law_add_associates(l0, l1 * x, -(l0 * x));
    E::law_add_commutes(l0, l1 * x);
    E::law_add_associates(l1 * x, l0, -(l0 * x));
}

/// In every round the scalar, the current variable and the remaining tables
/// together are the table that remains to be summed over.
pub proof fn law_round_table<E: Field>(state: GruenSplitEq<E>, j: int, high: bool)
    requires
        state.wf(),
        state.round() < state.point().len(),
        0 <= j < pow2((state.point().len() - 1 - state.round()) as nat),
    ensures
        ({
            let rest = state.point().subrange(state.round(), state.point().len() as int);
            let first = eq_poly::eq_table(E::one_spec(), state.first_rest());
            let second = eq_poly::eq_table(E::one_spec(), state.second_rest());
            let l = if high {
                state.linear_at_1()
            } else {
                state.linear_at_0()
            };
            eq_poly::eq_table(state.scalar(), rest)[2 * j + if high {
                1int
            } else {
                0
            }] == l * (first[j % first.len() as int] * second[j / first.len() as int])
        }),
{
    let one = E::one_spec();
    let n = state.point().len() as int;
    let k = state.round();
    let rest = state.point().subrange(k, n);
    let behind = state.point().subrange(k + 1, n);
    let lo = state.first_rest();
    let hi = state.second_rest();
    let s = state.scalar();
    let b: int = if high {
        1
    } else {
        0
    };
    assert(lo + hi =~= behind);
    assert(rest.drop_first() =~= behind);
    lemma_pow2_unfold((n - k) as nat);
    assert((2 * j + b) / 2 == j);
    let c = rest[0];
    // The entry is the child of the entry behind it; scaling moves the child's
    // factor to the front.
    let w = eq_poly::eq_weight(s, behind, j);
    let u = eq_poly::eq_weight(one, behind, j);
    eq_poly::lemma_weight_scales(s, behind, j);
    eq_poly::lemma_weight_concat(one, lo, hi, j);
    lemma_pow2_adds(lo.len(), hi.len());
    let inner = pow2(lo.len()) as int;
    let outer = pow2(hi.len()) as int;
    assert(0 <= j / inner < outer && 0 <= j % inner < inner) by (nonlinear_arith)
        requires
            0 <= j < inner * outer,
            inner > 0,
    ;
    let a = eq_poly::eq_weight(one, lo, j % inner);
    let d = eq_poly::eq_weight(one, hi, j / inner);
    rl::lemma_results_reduced(one, one);
    eq_poly::lemma_weight_scales(one, hi, j / inner);
    eq_poly::lemma_weight_scales(d, lo, j % inner);
    eq_poly::lemma_weight_scales(one, behind, j);
    E::law_mul_commutes(d, a);
    assert(u == a * d);
    // child(w) with w + 0 = s u
    rl::lemma_reduced_mul(w, c);
    E::law_negation(w, w * c);
    E::law_negation(s * u, w * c);
    rl::lemma_reduced_add(w, -(w * c));
    rl::lemma_mul_swap_last(s, u, c);
    rl::lemma_distributes_sub(u, s, s * c);
}

/// Binding the current variable folds the table that remains to be summed over.
pub proof fn law_bind_folds_table<E: Field>(scalar: E, rest: Seq<E>, r: E, j: int)
    requires
        rest.len() > 0,
        0 <= j < pow2((rest.len() - 1) as nat),
    ensures
        folded(eq_poly::eq_table(scalar, rest), r)[j] == eq_poly::eq_table(
            scalar * eq_poly::eq_term(rest[0], r),
            rest.drop_first(),
        )[j],
{
    let behind = rest.drop_first();
    let c = rest[0];
    let s = scalar;
    lemma_pow2_unfold(rest.len());
    assert((2 * j) / 2 == j && (2 * j + 1) / 2 == j);
    let w = eq_poly::eq_weight(s, behind, j);
    let l0 = eq_poly::lagrange_child(w, c, false);
    let l1 = eq_poly::lagrange_child(w, c, true);
    lemma_linear_factor(w, c, r);
    E::law_mul_commutes(r, l1 - l0);
    let t = eq_poly::eq_term(c, r);
    let u = eq_poly::eq_weight(E::one_spec(), behind, j);
    eq_poly::lemma_weight_scales(s, behind, j);
    eq_poly::lemma_weight_scales(s * t, behind, j);
    rl::lemma_results_reduced(s, t);
    rl::lemma_reduced_mul(w, t);
    rl::lemma_mul_swap_last(s, u, t);
}

/// Recovery is a function of the coefficients and the claim: the form for a
/// quadratic gives what the general form gives.
pub proof fn law_recovery_is_unique<E: Field>(
    state: GruenSplitEq<E>,
    q_except_linear: Seq<E>,
    claim: E,
    r1: Option<UniPoly<E>>,
    r2: Option<UniPoly<E>>,
)
    requires
        state.recovery(q_except_linear, claim, r1),
        state.recovery(q_except_linear, claim, r2),
    ensures
        r1 is Some <==> r2 is Some,
        r1 is Some ==> (r1->0).coeffs@ == (r2->0).coeffs@,
{
    if state.recoverable() && q_except_linear.len() > 0 {
        let i = choose|i: E| #[trigger] (state.linear_at_1() * i) == E::one_spec();
        let t = recovered_linear(state.linear_at_0(), i, q_except_linear, claim);
        assert((r1->0).coeffs@ == (r2->0).coeffs@);
    }
}

/// Recovery gives back the round polynomial that the claim was made from.
pub proof fn law_recovery_inverts_gruen_mul<E: Field>(
    state: GruenSplitEq<E>,
    q: Seq<E>,
    r: Option<UniPoly<E>>,
)
    requires
        state.wf(),
        state.round() < state.point().len(),
        q.len() >= 2,
        state.recoverable(),
        ({
            let s = uni_poly::linear_product(
                q,
                state.linear_at_0(),
                state.linear_at_1() - state.linear_at_0(),
                E::zero_spec(),
            );
            state.recovery(
                seq![q[0]] + q.subrange(2, q.len() as int),
                uni_poly::poly_eval(s, E::zero_spec()) + uni_poly::poly_eval(s, E::one_spec()),
                r,
            )
        }),
    ensures
        r matches Some(p) && p.coeffs@ == uni_poly::linear_product(
            q,
            state.linear_at_0(),
            state.linear_at_1() - state.linear_at_0(),
            E::zero_spec(),
        ),
{
    let zero = E::zero_spec();
    let l0 = state.linear_at_0();
    let l1 = state.linear_at_1();
    let slope = l1 - l0;
    let settled = settled_all(q);
    let s = uni_poly::linear_product(q, l0, slope, zero);
    let given = seq![q[0]] + q.subrange(2, q.len() as int);
    let claim = uni_poly::poly_eval(s, zero) + uni_poly::poly_eval(s, E::one_spec());
    lemma_settled_product(q, l0, slope);
    assert(settled_all(given) =~= seq![settled[0]] + settled.subrange(2, q.len() as int));
    assert forall|i: E| #[trigger] (l1 * i) == E::one_spec() implies uni_poly::linear_product(
        with_linear(given, recovered_linear(l0, i, given, claim)),
        l0,
        slope,
        zero,
    ) == uni_poly::linear_product(
        with_linear(settled_all(given), recovered_linear(l0, i, settled_all(given), claim)),
        l0,
        slope,
        zero,
    ) by {
        let t = recovered_linear(l0, i, given, claim);
        lemma_settled_recovery(l0, i, given, claim);
        assert(settled_all(with_linear(given, t)) =~= with_linear(settled_all(given), t));
        lemma_settled_product(with_linear(given, t), l0, slope);
    }
    assert(state.recovery(settled_all(given), claim, r));
    assert forall|i: int| 0 <= i < settled.len() implies rl::reduced(#[trigger] settled[i]) by {
        rl::lemma_results_reduced(q[i], zero);
    }
    lemma_recovery_inverts(state, settled, r);
}

/// Coefficients, each reduced.
spec fn settled_all<E: Field>(q: Seq<E>) -> Seq<E> {
    q.map_values(|c: E| c + E::zero_spec())
}

/// A product does not change where its coefficients are reduced first.
proof fn lemma_settled_product<E: Field>(q: Seq<E>, constant: E, slope: E)
    ensures
        uni_poly::linear_product(q, constant, slope, E::zero_spec()) == uni_poly::linear_product(
            settled_all(q),
            constant,
            slope,
            E::zero_spec(),
        ),
{
    let zero = E::zero_spec();
    let p = settled_all(q);
    let a = uni_poly::linear_product(q, constant, slope, zero);
    let b = uni_poly::linear_product(p, constant, slope, zero);
    uni_poly::lemma_linear_product_coefficients(q, constant, slope, zero);
    uni_poly::lemma_linear_product_coefficients(p, constant, slope, zero);
    assert forall|i: int| 0 <= i < a.len() implies #[trigger] a[i] == b[i] by {
        if i < q.len() {
            rl::lemma_reduced_mul(q[i], constant);
        }
        if i > 0 {
            rl::lemma_reduced_mul(q[i - 1], slope);
        }
    }
    assert(a =~= b);
}

/// What is recovered is reduced and does not change where the coefficients are
/// reduced first.
proof fn lemma_settled_recovery<E: Field>(l0: E, inverse: E, given: Seq<E>, claim: E)
    requires
        given.len() > 0,
    ensures
        recovered_linear(l0, inverse, given, claim) == recovered_linear(
            l0,
            inverse,
            settled_all(given),
            claim,
        ),
        rl::reduced(recovered_linear(l0, inverse, given, claim)),
{
    let zero = E::zero_spec();
    let n = given.len() as int;
    let p = settled_all(given);
    let f = |i: int| given[i];
    let g = |i: int| p[i];
    let zeros = |i: int| zero;
    rl::lemma_reduced_mul(given[0], l0);
    assert forall|i: int| 0 <= i < n implies #[trigger] g(i) == f(i) + zeros(i) by {}
    rl::lemma_sum_add(f, zeros, g, 0, n);
    rl::lemma_sum_zero(zeros, 0, n);
    rl::lemma_sum_reduced(f, 0, n);
    rl::lemma_results_reduced(
        (claim - l0 * given[0]) * inverse,
        rl::sum_range(f, 0, n),
    );
}

proof fn lemma_recovery_inverts<E: Field>(
    state: GruenSplitEq<E>,
    q: Seq<E>,
    r: Option<UniPoly<E>>,
)
    requires
        state.wf(),
        state.round() < state.point().len(),
        q.len() >= 2,
        forall|i: int| 0 <= i < q.len() ==> rl::reduced(#[trigger] q[i]),
        state.recoverable(),
        ({
            let s = uni_poly::linear_product(
                q,
                state.linear_at_0(),
                state.linear_at_1() - state.linear_at_0(),
                E::zero_spec(),
            );
            state.recovery(
                seq![q[0]] + q.subrange(2, q.len() as int),
                uni_poly::poly_eval(s, E::zero_spec()) + uni_poly::poly_eval(s, E::one_spec()),
                r,
            )
        }),
    ensures
        r matches Some(p) && p.coeffs@ == uni_poly::linear_product(
            q,
            state.linear_at_0(),
            state.linear_at_1() - state.linear_at_0(),
            E::zero_spec(),
        ),
{
    let zero = E::zero_spec();
    let one = E::one_spec();
    let l0 = state.linear_at_0();
    let l1 = state.linear_at_1();
    let slope = l1 - l0;
    let s = uni_poly::linear_product(q, l0, slope, zero);
    let given = seq![q[0]] + q.subrange(2, q.len() as int);
    let claim = uni_poly::poly_eval(s, zero) + uni_poly::poly_eval(s, one);
    let inverse = choose|i: E| #[trigger] (l1 * i) == one;
    let n = q.len() as int;
    // s(0) = l0 q[0] and s(1) = l1 q(1).
    uni_poly::lemma_linear_product_eval(q, l0, slope, zero, zero);
    uni_poly::lemma_linear_product_eval(q, l0, slope, zero, one);
    uni_poly::lemma_eval_at_zero(q);
    rl::lemma_mul_identities(slope);
    rl::lemma_results_reduced(l1, l0);
    rl::lemma_results_reduced(state.scalar(), state.point()[state.round()]);
    rl::lemma_results_reduced(
        state.scalar(),
        state.scalar() * state.point()[state.round()],
    );
    assert(rl::reduced(l0) && rl::reduced(l1));
    rl::lemma_sub_add_cancel(l1, l0);
    let q0 = q[0];
    let q1 = uni_poly::poly_eval(q, one);
    rl::lemma_results_reduced(l0, q0);
    rl::lemma_results_reduced(l1, q1);
    rl::lemma_zero_add(l0 * q0);
    rl::lemma_zero_add(l1 * q1);
    assert(claim == l0 * q0 + l1 * q1);
    // (claim - l0 q[0]) inverse = q(1).
    E::law_add_commutes(l0 * q0, l1 * q1);
    rl::lemma_sub_add_cancel(l1 * q1, l0 * q0);
    E::law_mul_commutes(l1, q1);
    E::law_mul_associates(q1, l1, inverse);
    rl::lemma_mul_identities(q1);
    // q(1) minus the other coefficients is q[1].
    let f = |i: int| q[i];
    let g = |i: int| given[i];
    uni_poly::lemma_eval_at_one(q);
    rl::lemma_sum_reduced(f, 0, n);
    rl::lemma_sum_split(f, 0, 2, n);
    rl::lemma_sum_split(g, 0, 1, n - 1);
    rl::lemma_sum_shift(g, f, 1, 1, n - 1);
    let tail = rl::sum_range(f, 2, n);
    reveal_with_fuel(rl::sum_range, 3);
    assert(rl::sum_range(f, 0, 2) == (zero + f(0)) + f(1));
    assert(rl::sum_range(g, 0, 1) == zero + g(0));
    rl::lemma_zero_add(q0);
    rl::lemma_add_swap_last(q0, q[1], tail);
    rl::lemma_sub_add_cancel(q[1], q0 + tail);
    E::law_add_commutes(q[1], q0 + tail);
    assert(recovered_linear(l0, inverse, given, claim) == q[1]);
    assert(with_linear(given, q[1]) =~= q);
}

} // verus!
