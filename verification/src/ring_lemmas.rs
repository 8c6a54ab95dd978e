//! Consequences of the ring laws that the proofs of the other modules share,
//! and finite sums.

use crate::field::Field;
use vstd::prelude::*;

verus! {

/// A value that adding zero leaves alone. Every result of an operation is one.
pub open spec fn reduced<E: Field>(a: E) -> bool {
    a + E::zero_spec() == a
}

/// Results of the operations are reduced.
pub proof fn lemma_results_reduced<E: Field>(a: E, b: E)
    ensures
        reduced(a + b),
        reduced(a - b),
        reduced(a * b),
        reduced(-a),
        reduced(E::zero_spec()),
        reduced(E::one_spec()),
{
    let z = E::zero_spec();
    E::law_reduced(a, b);
    E::law_reduced(b, a);
    E::law_add_associates(a, b, z);
    E::law_add_commutes(a, b + z);
    E::law_add_commutes(a, b);
    E::law_negation(a, b);
    let n = -b;
    E::law_reduced(n, a);
    E::law_add_associates(a, n, z);
    E::law_add_commutes(a, n + z);
    E::law_add_commutes(a, n);
}

/// The additive identity on either side.
pub proof fn lemma_zero_add<E: Field>(a: E)
    ensures
        E::zero_spec() + a == a + E::zero_spec(),
        reduced(a) ==> E::zero_spec() + a == a,
        reduced(a) ==> a + E::zero_spec() == a,
{
    E::law_add_commutes(E::zero_spec(), a);
}

/// A summand of zero drops out of any sum.
pub proof fn lemma_reduced_add<E: Field>(a: E, b: E)
    ensures
        (a + E::zero_spec()) + b == a + b,
        a + (b + E::zero_spec()) == a + b,
{
    E::law_reduced(a, b);
    E::law_reduced(b, a);
    E::law_add_commutes(a, b + E::zero_spec());
    E::law_add_commutes(a, b);
}

/// Products with the identities on either side.
pub proof fn lemma_mul_identities<E: Field>(a: E)
    ensures
        a * E::one_spec() == a + E::zero_spec(),
        E::one_spec() * a == a + E::zero_spec(),
        reduced(a) ==> a * E::one_spec() == a && E::one_spec() * a == a,
        a * E::zero_spec() == E::zero_spec(),
        E::zero_spec() * a == E::zero_spec(),
{
    E::law_identities(a);
    E::law_mul_commutes(a, E::one_spec());
    E::law_mul_commutes(a, E::zero_spec());
}

/// A factor may be reduced first.
pub proof fn lemma_reduced_mul<E: Field>(a: E, b: E)
    ensures
        (a + E::zero_spec()) * b == a * b,
        b * (a + E::zero_spec()) == b * a,
{
    let z = E::zero_spec();
    E::law_distributes(b, a, z);
    lemma_mul_identities(b);
    E::law_reduced(b, a);
    E::law_mul_commutes(b, a + z);
    E::law_mul_commutes(b, a);
}

/// Multiplication distributes from the right.
pub proof fn lemma_distributes_right<E: Field>(a: E, b: E, c: E)
    ensures
        (a + b) * c == a * c + b * c,
{
    E::law_distributes(c, a, b);
    E::law_mul_commutes(a + b, c);
    E::law_mul_commutes(a, c);
    E::law_mul_commutes(b, c);
}

/// The additive inverse is unique among reduced values.
pub proof fn lemma_neg_unique<E: Field>(x: E, y: E)
    requires
        x + y == E::zero_spec(),
        reduced(y),
    ensures
        y == -x,
{
    let z = E::zero_spec();
    E::law_negation(x, x);
    E::law_add_associates(y, x, -x);
    E::law_add_commutes(x, y);
    lemma_zero_add(-x);
    lemma_results_reduced(x, x);
}

/// Inverses move through products.
pub proof fn lemma_neg_mul<E: Field>(a: E, b: E)
    ensures
        (-a) * b == -(a * b),
        a * (-b) == -(a * b),
{
    E::law_negation(a, a);
    lemma_distributes_right(a, -a, b);
    lemma_mul_identities(b);
    lemma_results_reduced(-a, b);
    lemma_neg_unique(a * b, (-a) * b);
    E::law_negation(b, b);
    E::law_distributes(a, b, -b);
    lemma_mul_identities(a);
    lemma_results_reduced(a, -b);
    lemma_neg_unique(a * b, a * (-b));
}

/// Multiplication distributes over subtraction.
pub proof fn lemma_distributes_sub<E: Field>(a: E, b: E, c: E)
    ensures
        a * (b - c) == a * b - a * c,
        (b - c) * a == b * a - c * a,
{
    E::law_negation(b, c);
    E::law_distributes(a, b, -c);
    lemma_neg_mul(a, c);
    E::law_negation(a * b, a * c);
    E::law_mul_commutes(a, b - c);
    E::law_mul_commutes(a, b);
    E::law_mul_commutes(a, c);
}

/// Four summands exchange their middle pair.
pub proof fn lemma_add_exchange<E: Field>(a: E, b: E, c: E, d: E)
    ensures
        (a + b) + (c + d) == (a + c) + (b + d),
{
    E::law_add_associates(a, b, c + d);
    E::law_add_associates(b, c, d);
    E::law_add_commutes(b, c);
    E::law_add_associates(c, b, d);
    E::law_add_associates(a, c, b + d);
}

/// Three summands exchange the last two.
pub proof fn lemma_add_swap_last<E: Field>(a: E, b: E, c: E)
    ensures
        (a + b) + c == (a + c) + b,
{
    E::law_add_associates(a, b, c);
    E::law_add_commutes(b, c);
    E::law_add_associates(a, c, b);
}

/// Three factors exchange the last two.
pub proof fn lemma_mul_swap_last<E: Field>(a: E, b: E, c: E)
    ensures
        (a * b) * c == (a * c) * b,
{
    E::law_mul_associates(a, b, c);
    E::law_mul_commutes(b, c);
    E::law_mul_associates(a, c, b);
}

/// The inverse of a sum.
pub proof fn lemma_neg_add<E: Field>(a: E, b: E)
    ensures
        -(a + b) == (-a) + (-b),
{
    lemma_add_exchange(a, b, -a, -b);
    E::law_negation(a, a);
    E::law_negation(b, b);
    lemma_results_reduced(-a, -b);
    lemma_zero_add(E::zero_spec());
    lemma_results_reduced(a, b);
    lemma_neg_unique(a + b, (-a) + (-b));
}

/// Inverting twice reduces.
pub proof fn lemma_neg_neg<E: Field>(a: E)
    ensures
        -(-a) == a + E::zero_spec(),
{
    let z = E::zero_spec();
    E::law_negation(a, a);
    E::law_add_commutes(a, -a);
    lemma_reduced_add(-a, a);
    lemma_results_reduced(a, z);
    lemma_neg_unique(-a, a + z);
}

/// The inverse of zero.
pub proof fn lemma_neg_zero<E: Field>()
    ensures
        -E::zero_spec() == E::zero_spec(),
{
    lemma_results_reduced(E::zero_spec(), E::zero_spec());
    lemma_neg_unique(E::zero_spec(), E::zero_spec());
}

/// Subtracting and adding back reduces.
pub proof fn lemma_sub_add_cancel<E: Field>(a: E, b: E)
    ensures
        (a - b) + b == a + E::zero_spec(),
        (a + b) - b == a + E::zero_spec(),
        b + (a - b) == a + E::zero_spec(),
{
    E::law_negation(a, b);
    E::law_add_associates(a, -b, b);
    E::law_add_commutes(-b, b);
    E::law_negation(b, b);
    E::law_negation(a + b, b);
    E::law_add_associates(a, b, -b);
    E::law_add_commutes(b, a - b);
}

/// The sum of `f` over the integers from `lo` up to but not including `hi`.
pub open spec fn sum_range<E: Field>(f: spec_fn(int) -> E, lo: int, hi: int) -> E
    decreases hi - lo,
{
    if hi <= lo {
        E::zero_spec()
    } else {
        sum_range(f, lo, hi - 1) + f(hi - 1)
    }
}

/// Sums are reduced.
pub proof fn lemma_sum_reduced<E: Field>(f: spec_fn(int) -> E, lo: int, hi: int)
    ensures
        reduced(sum_range(f, lo, hi)),
{
    lemma_results_reduced(E::zero_spec(), E::zero_spec());
    if lo < hi {
        lemma_results_reduced(sum_range(f, lo, hi - 1), f(hi - 1));
    }
}

/// Sums of equal terms are equal.
pub proof fn lemma_sum_congruent<E: Field>(
    f: spec_fn(int) -> E,
    g: spec_fn(int) -> E,
    lo: int,
    hi: int,
)
    requires
        forall|i: int| lo <= i < hi ==> #[trigger] f(i) == g(i),
    ensures
        sum_range(f, lo, hi) == sum_range(g, lo, hi),
    decreases hi - lo,
{
    if lo < hi {
        lemma_sum_congruent(f, g, lo, hi - 1);
        assert(f(hi - 1) == g(hi - 1));
    }
}

/// A sum over shifted indices.
pub proof fn lemma_sum_shift<E: Field>(
    f: spec_fn(int) -> E,
    g: spec_fn(int) -> E,
    shift: int,
    lo: int,
    hi: int,
)
    requires
        forall|i: int| lo <= i < hi ==> #[trigger] f(i) == g(i + shift),
    ensures
        sum_range(f, lo, hi) == sum_range(g, lo + shift, hi + shift),
    decreases hi - lo,
{
    if lo < hi {
        lemma_sum_shift(f, g, shift, lo, hi - 1);
        assert(f(hi - 1) == g(hi - 1 + shift));
    }
}

/// A sum splits at an inner index.
pub proof fn lemma_sum_split<E: Field>(f: spec_fn(int) -> E, lo: int, mid: int, hi: int)
    requires
        lo <= mid <= hi,
    ensures
        sum_range(f, lo, hi) == sum_range(f, lo, mid) + sum_range(f, mid, hi),
    decreases hi - mid,
{
    if mid == hi {
        lemma_sum_reduced(f, lo, mid);
    } else {
        lemma_sum_split(f, lo, mid, hi - 1);
        E::law_add_associates(sum_range(f, lo, mid), sum_range(f, mid, hi - 1), f(hi - 1));
    }
}

/// A sum of sums.
pub proof fn lemma_sum_add<E: Field>(
    f: spec_fn(int) -> E,
    g: spec_fn(int) -> E,
    h: spec_fn(int) -> E,
    lo: int,
    hi: int,
)
    requires
        forall|i: int| lo <= i < hi ==> #[trigger] h(i) == f(i) + g(i),
    ensures
        sum_range(h, lo, hi) == sum_range(f, lo, hi) + sum_range(g, lo, hi),
    decreases hi - lo,
{
    if lo < hi {
        lemma_sum_add(f, g, h, lo, hi - 1);
        assert(h(hi - 1) == f(hi - 1) + g(hi - 1));
        lemma_add_exchange(
            sum_range(f, lo, hi - 1),
            sum_range(g, lo, hi - 1),
            f(hi - 1),
            g(hi - 1),
        );
    } else {
        lemma_results_reduced(E::zero_spec(), E::zero_spec());
    }
}

/// A constant factor comes out of a sum.
pub proof fn lemma_sum_scale<E: Field>(
    f: spec_fn(int) -> E,
    h: spec_fn(int) -> E,
    c: E,
    lo: int,
    hi: int,
)
    requires
        forall|i: int| lo <= i < hi ==> #[trigger] h(i) == c * f(i),
    ensures
        sum_range(h, lo, hi) == c * sum_range(f, lo, hi),
    decreases hi - lo,
{
    if lo < hi {
        lemma_sum_scale(f, h, c, lo, hi - 1);
        assert(h(hi - 1) == c * f(hi - 1));
        E::law_distributes(c, sum_range(f, lo, hi - 1), f(hi - 1));
    } else {
        lemma_mul_identities(c);
    }
}

/// A sum of zeros.
pub proof fn lemma_sum_zero<E: Field>(f: spec_fn(int) -> E, lo: int, hi: int)
    requires
        forall|i: int| lo <= i < hi ==> #[trigger] f(i) == E::zero_spec(),
    ensures
        sum_range(f, lo, hi) == E::zero_spec(),
    decreases hi - lo,
{
    lemma_results_reduced(E::zero_spec(), E::zero_spec());
    if lo < hi {
        lemma_sum_zero(f, lo, hi - 1);
        assert(f(hi - 1) == E::zero_spec());
    }
}

/// Terms that come from others by a reduction have the same sum.
pub proof fn lemma_sum_settles<E: Field>(
    f: spec_fn(int) -> E,
    g: spec_fn(int) -> E,
    lo: int,
    hi: int,
)
    requires
        forall|i: int| lo <= i < hi ==> #[trigger] g(i) == f(i) + E::zero_spec(),
    ensures
        sum_range(g, lo, hi) == sum_range(f, lo, hi),
    decreases hi - lo,
{
    if lo < hi {
        lemma_sum_settles(f, g, lo, hi - 1);
        assert(g(hi - 1) == f(hi - 1) + E::zero_spec());
        lemma_reduced_add(sum_range(f, lo, hi - 1), f(hi - 1));
    }
}

/// The sum of the inverses is the inverse of the sum.
pub proof fn lemma_sum_negates<E: Field>(
    f: spec_fn(int) -> E,
    g: spec_fn(int) -> E,
    lo: int,
    hi: int,
)
    requires
        forall|i: int| lo <= i < hi ==> #[trigger] g(i) == -f(i),
    ensures
        sum_range(g, lo, hi) == -sum_range(f, lo, hi),
    decreases hi - lo,
{
    if lo < hi {
        lemma_sum_negates(f, g, lo, hi - 1);
        assert(g(hi - 1) == -f(hi - 1));
        lemma_neg_add(sum_range(f, lo, hi - 1), f(hi - 1));
    } else {
        lemma_neg_zero::<E>();
    }
}

/// The terms `a(j) u(j, p)` of one `p`.
pub open spec fn row_term<E: Field>(
    a: spec_fn(int) -> E,
    u: spec_fn(int, int) -> E,
    p: int,
) -> spec_fn(int) -> E {
    |j: int| a(j) * u(j, p)
}

/// The terms `u(j, p) w(p)` of one `j`.
pub open spec fn column_term<E: Field>(
    u: spec_fn(int, int) -> E,
    w: spec_fn(int) -> E,
    j: int,
) -> spec_fn(int) -> E {
    |p: int| u(j, p) * w(p)
}

/// A double sum of the products `a(j) u(j, p) w(p)` may be taken in either
/// order.
pub proof fn lemma_sum_exchange<E: Field>(
    a: spec_fn(int) -> E,
    u: spec_fn(int, int) -> E,
    w: spec_fn(int) -> E,
    by_row: spec_fn(int) -> E,
    by_column: spec_fn(int) -> E,
    m: int,
    n: int,
)
    requires
        forall|p: int|
            0 <= p < n ==> #[trigger] by_row(p) == sum_range(row_term(a, u, p), 0, m) * w(p),
        forall|j: int|
            0 <= j < m ==> #[trigger] by_column(j) == a(j) * sum_range(
                column_term(u, w, j),
                0,
                n,
            ),
    ensures
        sum_range(by_row, 0, n) == sum_range(by_column, 0, m),
    decreases n,
{
    if n <= 0 {
        assert forall|j: int| 0 <= j < m implies #[trigger] by_column(j) == E::zero_spec() by {
            lemma_mul_identities(a(j));
        }
        lemma_sum_zero(by_column, 0, m);
    } else {
        let p = n - 1;
        let before = |j: int| a(j) * sum_range(column_term(u, w, j), 0, p);
        let last = |j: int| w(p) * row_term(a, u, p)(j);
        lemma_sum_exchange(a, u, w, by_row, before, m, p);
        lemma_sum_scale(row_term(a, u, p), last, w(p), 0, m);
        assert(by_row(p) == sum_range(row_term(a, u, p), 0, m) * w(p));
        E::law_mul_commutes(sum_range(row_term(a, u, p), 0, m), w(p));
        assert forall|j: int| 0 <= j < m implies #[trigger] by_column(j) == before(j) + last(
            j,
        ) by {
            E::law_distributes(a(j), sum_range(column_term(u, w, j), 0, p), u(j, p) * w(p));
            E::law_mul_associates(a(j), u(j, p), w(p));
            E::law_mul_commutes(a(j) * u(j, p), w(p));
        }
        lemma_sum_add(before, last, by_column, 0, m);
    }
}

/// Adjacent terms of a sum may be paired.
pub proof fn lemma_sum_pairs<E: Field>(f: spec_fn(int) -> E, g: spec_fn(int) -> E, n: int)
    requires
        n >= 0,
        forall|i: int| 0 <= i < n ==> #[trigger] g(i) == f(2 * i) + f(2 * i + 1),
    ensures
        sum_range(f, 0, 2 * n) == sum_range(g, 0, n),
    decreases n,
{
    if n > 0 {
        lemma_sum_pairs(f, g, n - 1);
        assert(g(n - 1) == f(2 * (n - 1)) + f(2 * (n - 1) + 1));
        reveal_with_fuel(sum_range, 3);
        E::law_add_associates(sum_range(f, 0, 2 * n - 2), f(2 * n - 2), f(2 * n - 1));
    }
}

} // verus!
