//! Ring elements with a given number of coefficients that are one or minus one,
//! placed by random words that come from outside.
//!
//! The sampler says for each word whether the position that it names is still
//! free. Only then does it take a second word for the sign.

use crate::cyclotomic;
use crate::cyclotomic::CyclotomicRing;
use crate::field::Field;
use vstd::prelude::*;

verus! {

/// A sampler that has placed some of its coefficients.
pub struct SparseSampler<F: Field, const D: usize> {
    pub ring: CyclotomicRing<F, D>,
    pub placed: usize,
    pub omega: usize,
}

/// Whether a coefficient is zero, one or minus one.
pub open spec fn ternary<F: Field>(c: F) -> bool {
    c == F::zero_spec() || c == F::one_spec() || c == -F::one_spec()
}

/// The coefficient that a word stands for: one for an even word, minus one for
/// an odd one.
pub open spec fn sign_of<F: Field>(word: u32) -> F {
    if word % 2 == 0 {
        F::one_spec()
    } else {
        -F::one_spec()
    }
}

/// Minus one is not zero.
proof fn lemma_minus_one<F: Field>()
    ensures
        -F::one_spec() != F::zero_spec(),
{
    F::law_negation(F::one_spec(), F::one_spec());
    F::law_reduced(F::one_spec(), F::one_spec());
    F::law_nontrivial();
}

/// Filling an empty place adds one to the count of nonzero coefficients behind
/// it.
proof fn lemma_count_fill<F: Field>(a: Seq<F>, at: int, c: F, n: int)
    requires
        0 <= at < a.len(),
        0 <= n <= a.len(),
        a[at] == F::zero_spec(),
        c != F::zero_spec(),
    ensures
        cyclotomic::nonzero_count(a.update(at, c), n) == cyclotomic::nonzero_count(a, n) + (if at
            < n {
            1int
        } else {
            0int
        }),
    decreases n,
{
    if n > 0 {
        lemma_count_fill(a, at, c, n - 1);
    }
}

/// A ring element without coefficients has none that are not zero.
proof fn lemma_count_zero<F: Field>(a: Seq<F>, n: int)
    requires
        0 <= n <= a.len(),
        forall|i: int| 0 <= i < a.len() ==> #[trigger] a[i] == F::zero_spec(),
    ensures
        cyclotomic::nonzero_count(a, n) == 0,
    decreases n,
{
    if n > 0 {
        lemma_count_zero(a, n - 1);
    }
}

impl<F: Field, const D: usize> SparseSampler<F, D> {
    /// Whether the placed coefficients are all that there are.
    pub open spec fn wf(&self) -> bool {
        &&& self.placed <= self.omega <= D
        &&& cyclotomic::nonzero_count(self.ring@, D as int) == self.placed
        &&& forall|i: int| 0 <= i < D ==> ternary(#[trigger] self.ring@[i])
    }

    /// The position that a word names.
    pub open spec fn position(word: u64) -> int {
        word as int % D as int
    }

    /// A sampler of so many coefficients that has placed none.
    pub fn new(omega: usize) -> (r: Self)
        requires
            omega <= D,
        ensures
            r.wf(),
            r.placed == 0,
            r.omega == omega,
            forall|i: int| 0 <= i < D ==> #[trigger] r.ring@[i] == F::zero_spec(),
    {
        let ring = CyclotomicRing::<F, D>::zero();
        proof {
            lemma_count_zero(ring@, D as int);
        }
        SparseSampler { ring, placed: 0, omega }
    }

    /// Whether every coefficient has been placed.
    pub fn is_done(&self) -> (b: bool)
        ensures
            b == (self.placed == self.omega),
    {
        self.placed == self.omega
    }

    /// Whether the position that a word names is free, so that a sign is wanted.
    pub fn is_free(&self, word: u64) -> (b: bool)
        requires
            0 < D <= u64::MAX,
        ensures
            b == (self.ring@[Self::position(word)] == F::zero_spec()),
    {
        let at: usize = (word % (D as u64)) as usize;
        self.ring.coeffs[at].is_zero()
    }

    /// Places a coefficient at the free position that a word names.
    pub fn place(&mut self, word: u64, sign: u32)
        requires
            old(self).wf(),
            0 < D <= u64::MAX,
            old(self).placed < old(self).omega,
            old(self).ring@[Self::position(word)] == F::zero_spec(),
        ensures
            final(self).wf(),
            final(self).placed == old(self).placed + 1,
            final(self).omega == old(self).omega,
            final(self).ring@ == old(self).ring@.update(Self::position(word), sign_of::<F>(sign)),
    {
        let at: usize = (word % (D as u64)) as usize;
        let c: F = if sign % 2 == 0 {
            F::one()
        } else {
            F::one().neg()
        };
        let ghost before = self.ring@;
        proof {
            lemma_minus_one::<F>();
            F::law_nontrivial();
            lemma_count_fill(before, at as int, c, D as int);
        }
        self.ring.coeffs[at] = c;
        self.placed = self.placed + 1;
        proof {
            assert(self.ring@ =~= before.update(at as int, c));
        }
    }

    /// The sampled element.
    pub fn finish(self) -> (r: CyclotomicRing<F, D>)
        requires
            self.wf(),
            self.placed == self.omega,
        ensures
            r@ == self.ring@,
            cyclotomic::nonzero_count(r@, D as int) == self.omega,
            forall|i: int| 0 <= i < D ==> ternary(#[trigger] r@[i]),
    {
        self.ring
    }
}

/// A word stands for one less twice its parity, and names the position that it
/// leaves over when divided by the degree.
pub proof fn law_words_name_places_and_signs<F: Field, const D: usize>(word: u64, sign: u32)
    requires
        D > 0,
    ensures
        sign_of::<F>(sign) == F::of_int(1 - 2 * (sign as int % 2)),
        0 <= SparseSampler::<F, D>::position(word) < D,
        (word - SparseSampler::<F, D>::position(word)) % D as int == 0,
{
    F::law_of_int(1, 1);
    F::law_of_int(0, 0);
    lemma_minus_one::<F>();
    let (w, d) = (word as int, D as int);
    vstd::arithmetic::div_mod::lemma_fundamental_div_mod(w, d);
    vstd::arithmetic::div_mod::lemma_mod_multiples_basic(w / d, d);
    assert(w - w % d == (w / d) * d) by (nonlinear_arith)
        requires
            w == d * (w / d) + w % d,
    ;
}

} // verus!
