//! The equality polynomial `eq(x, y) = prod_i (x_i y_i + (1 - x_i)(1 - y_i))`.
//!
//! Over the Boolean hypercube it is one where `x = y` and zero elsewhere. The
//! tables of this module list `eq(r, x)` for every Boolean `x` in little-endian
//! order: bit `k` of an index is the coordinate that meets `r[k]`.

use crate::checked::checked_pow2;
use crate::error::AkitaError;
use crate::field::Field;
use crate::ring_lemmas as rl;
use crate::text;
use crate::text::push_decimal;
use rayon::iter::{
    IndexedParallelIterator, IntoParallelRefIterator, IntoParallelRefMutIterator, ParallelIterator,
};
use rayon::slice::ParallelSliceMut;
use vstd::arithmetic::power2::*;
use vstd::prelude::*;

verus! {

broadcast use vstd::arithmetic::power2::lemma_pow2_pos;

/// The memory a materialized family of equality tables may take, in bytes.
pub const MAX_MATERIALIZED_EQ_TABLE_BYTES: usize = 1073741824;

// ---------------------------------------------------------------------------
// Model
// ---------------------------------------------------------------------------

/// One coordinate's factor of the equality polynomial.
pub open spec fn eq_term<E: Field>(x: E, y: E) -> E {
    x * y + (E::one_spec() - x) * (E::one_spec() - y)
}

/// The equality polynomial at two points of equal length.
pub open spec fn eq_product<E: Field>(x: Seq<E>, y: Seq<E>) -> E
    decreases x.len(),
{
    if x.len() == 0 {
        E::one_spec()
    } else {
        eq_product(x.drop_last(), y.drop_last()) * eq_term(x.last(), y.last())
    }
}

/// The point of the Boolean hypercube that the bits of `index` spell.
pub open spec fn bit_point<E: Field>(index: int, num_vars: nat) -> Seq<E> {
    Seq::new(
        num_vars,
        |k: int|
            if (index / pow2(k as nat) as int) % 2 == 1 {
                E::one_spec()
            } else {
                E::zero_spec()
            },
    )
}

/// The share of `value` that goes to one of its two children.
pub open spec fn lagrange_child<E: Field>(value: E, coordinate: E, high: bool) -> E {
    if high {
        value * coordinate
    } else {
        value - value * coordinate
    }
}

/// Entry `index` of the table that splits `initial` by every coordinate of `r`,
/// where bit `k` of the index selects the child for `r[k]`.
pub open spec fn eq_weight<E: Field>(initial: E, r: Seq<E>, index: int) -> E
    decreases r.len(),
{
    if r.len() == 0 {
        initial
    } else {
        lagrange_child(eq_weight(initial, r.drop_first(), index / 2), r[0], index % 2 == 1)
    }
}

/// The entries of a table with initial value one, as a function of the index.
pub open spec fn eq_weights<E: Field>(r: Seq<E>) -> spec_fn(int) -> E {
    |i: int| eq_weight(E::one_spec(), r, i)
}

/// The whole table.
pub open spec fn eq_table<E: Field>(initial: E, r: Seq<E>) -> Seq<E> {
    Seq::new(pow2(r.len()), |i: int| eq_weight(initial, r, i))
}

/// Whether a table is the unscaled one with every entry multiplied by a factor,
/// so that its entries add up to the factor.
pub open spec fn scaled_uniformly<E: Field>(table: Seq<E>, scale: E, r: Seq<E>) -> bool {
    &&& table.len() == pow2(r.len())
    &&& forall|b: int|
        0 <= b < table.len() ==> #[trigger] table[b] == eq_table(E::one_spec(), r)[b] * scale
    &&& rl::sum_range(|b: int| table[b], 0, table.len() as int) == scale
}

/// Whether a family of `len` elements stays within the memory budget.
pub open spec fn within_budget<E: Field>(len: int) -> bool {
    let size = vstd::layout::size_of::<E>();
    let bytes = if size == 0 {
        len
    } else {
        len * size
    };
    bytes <= MAX_MATERIALIZED_EQ_TABLE_BYTES
}

/// What is said of a family of `len` elements beyond the memory budget.
pub open spec fn budget_text<E: Field>(label: Seq<char>, len: usize) -> Seq<char> {
    let size = vstd::layout::size_of::<E>();
    let bytes = if size == 0 {
        len as nat
    } else {
        len as nat * size
    };
    if bytes <= usize::MAX {
        label + " requires "@ + text::decimal(bytes) + " bytes for "@ + text::decimal(len as nat)
            + " elements, exceeding equality-table budget of "@ + text::decimal(
            MAX_MATERIALIZED_EQ_TABLE_BYTES as nat,
        ) + " bytes"@
    } else {
        label + " byte-size overflow for "@ + text::decimal(len as nat) + " elements"@
    }
}

/// The leading scalar of a table.
pub open spec fn scaling<E: Field>(factor: Option<E>) -> E {
    match factor {
        Some(s) => s,
        None => E::one_spec(),
    }
}

// ---------------------------------------------------------------------------
// Lemmas
// ---------------------------------------------------------------------------

/// Splitting by two coordinates does not depend on their order.
proof fn lemma_children_commute<E: Field>(v: E, a: E, x: bool, b: E, y: bool)
    ensures
        lagrange_child(lagrange_child(v, a, x), b, y) == lagrange_child(
            lagrange_child(v, b, y),
            a,
            x,
        ),
{
    rl::lemma_mul_swap_last(v, a, b);
    if x && !y {
        rl::lemma_distributes_sub(a, v, v * b);
    } else if !x && y {
        rl::lemma_distributes_sub(b, v, v * a);
    } else if !x && !y {
        // Both orders give ((v - va) - vb) + vab, up to the order of the summands.
        let va = v * a;
        let vb = v * b;
        let vab = va * b;
        rl::lemma_distributes_sub(b, v, va);
        rl::lemma_distributes_sub(a, v, vb);
        lemma_double_difference(v, va, vb, vab);
    }
}

/// `(v - p) - (q - s)` does not depend on the order of `p` and `q`.
proof fn lemma_double_difference<E: Field>(v: E, p: E, q: E, s: E)
    ensures
        (v - p) - (q - s) == (v - q) - (p - s),
{
    E::law_negation(v - p, q - s);
    E::law_negation(v - q, p - s);
    E::law_negation(v, p);
    E::law_negation(v, q);
    E::law_negation(q, s);
    E::law_negation(p, s);
    rl::lemma_neg_add(q, -s);
    rl::lemma_neg_add(p, -s);
    rl::lemma_add_exchange(v, -p, -q, -(-s));
    E::law_add_commutes(-p, -(-s));
    E::law_add_associates(v + -q, -p, -(-s));
    E::law_add_associates(v + -p, -q, -(-s));
    rl::lemma_add_swap_last(v, -p, -q);
}

/// The two children of a value add up to it.
pub proof fn lemma_children_sum<E: Field>(v: E, c: E)
    ensures
        lagrange_child(v, c, false) + lagrange_child(v, c, true) == v + E::zero_spec(),
{
    rl::lemma_sub_add_cancel(v, v * c);
}

/// A child is the value times the coordinate's factor.
pub proof fn lemma_child_is_product<E: Field>(v: E, c: E)
    ensures
        lagrange_child(v, c, true) == v * eq_term(c, E::one_spec()),
        lagrange_child(v, c, false) == v * eq_term(c, E::zero_spec()),
        lagrange_child(v, c, false) == v * (E::one_spec() - c),
{
    let one = E::one_spec();
    let zero = E::zero_spec();
    rl::lemma_results_reduced(one, c);
    rl::lemma_results_reduced(c, zero);
    // (1 - c)(1 - 1) = 0 and c 1 + 0 = c + 0.
    E::law_negation(one, one);
    rl::lemma_mul_identities(one - c);
    rl::lemma_mul_identities(c);
    rl::lemma_results_reduced(c, one);
    rl::lemma_reduced_mul(c, v);
    // c 0 = 0 and (1 - c)(1 - 0) = 1 - c.
    E::law_negation(one, zero);
    rl::lemma_neg_zero::<E>();
    rl::lemma_zero_add(one - c);
    rl::lemma_mul_identities(v);
    rl::lemma_distributes_sub(v, one, c);
    E::law_negation(v + zero, v * c);
    E::law_negation(v, v * c);
    rl::lemma_reduced_add(v, -(v * c));
}

/// Halving an index below `2^n` leaves one below `2^(n-1)`, and the low bits
/// of the half are the half of the low bits.
proof fn lemma_half_index(index: int, n: nat)
    requires
        n >= 1,
        0 <= index < pow2(n),
    ensures
        0 <= index / 2 < pow2((n - 1) as nat),
        index / pow2((n - 1) as nat) as int == 0 || index / pow2((n - 1) as nat) as int == 1,
        n >= 2 ==> (index / 2) / pow2((n - 2) as nat) as int == index / pow2(
            (n - 1) as nat,
        ) as int,
        n >= 2 ==> (index % pow2((n - 1) as nat) as int) / 2 == (index / 2) % pow2(
            (n - 2) as nat,
        ) as int,
        n >= 2 ==> (index % pow2((n - 1) as nat) as int) % 2 == index % 2,
        0 <= (index % pow2((n - 1) as nat) as int) < pow2((n - 1) as nat),
{
    lemma_pow2_unfold(n);
    let h = pow2((n - 1) as nat) as int;
    assert(index / h == 0 || index / h == 1) by (nonlinear_arith)
        requires
            0 <= index < 2 * h,
            h > 0,
    ;
    vstd::arithmetic::div_mod::lemma_mod_bound(index, h);
    if n >= 2 {
        lemma_pow2_unfold((n - 1) as nat);
        let q = pow2((n - 2) as nat) as int;
        vstd::arithmetic::div_mod::lemma_div_denominator(index, 2, q);
        vstd::arithmetic::div_mod::lemma_fundamental_div_mod(index, h);
        vstd::arithmetic::div_mod::lemma_fundamental_div_mod(index / 2, q);
        let c = index / h;
        assert(h * c == 2 * (q * c)) by (nonlinear_arith)
            requires
                h == 2 * q,
        ;
    }
}

/// The last coordinate may be split off instead of the first.
pub proof fn lemma_weight_peel_last<E: Field>(initial: E, r: Seq<E>, index: int)
    requires
        r.len() >= 1,
        0 <= index < pow2(r.len()),
    ensures
        eq_weight(initial, r, index) == lagrange_child(
            eq_weight(initial, r.drop_last(), index % pow2((r.len() - 1) as nat) as int),
            r.last(),
            index / pow2((r.len() - 1) as nat) as int == 1,
        ),
    decreases r.len(),
{
    let n = r.len();
    lemma_half_index(index, n);
    if n == 1 {
        lemma2_to64();
        assert(r.drop_first().len() == 0);
        assert(r.drop_last().len() == 0);
        assert(pow2(1) == 2);
        reveal_with_fuel(eq_weight, 2);
    } else {
        let rest = r.drop_first();
        lemma_weight_peel_last(initial, rest, index / 2);
        assert(rest.drop_last() =~= r.drop_last().drop_first());
        assert(rest.last() == r.last());
        let low = index % pow2((n - 1) as nat) as int;
        let inner = eq_weight(initial, r.drop_last().drop_first(), low / 2);
        let hi = index / pow2((n - 1) as nat) as int == 1;
        lemma_children_commute(inner, r.last(), hi, r[0], index % 2 == 1);
        assert(r.drop_last()[0] == r[0]);
    }
}

/// A table over concatenated coordinates splits each entry of the table over
/// the later ones by the earlier ones.
pub proof fn lemma_weight_concat<E: Field>(initial: E, lo: Seq<E>, hi: Seq<E>, index: int)
    requires
        0 <= index,
    ensures
        eq_weight(initial, lo + hi, index) == eq_weight(
            eq_weight(initial, hi, index / pow2(lo.len()) as int),
            lo,
            index % pow2(lo.len()) as int,
        ),
    decreases lo.len(),
{
    let m = lo.len();
    if m == 0 {
        lemma2_to64();
        assert(lo + hi =~= hi);
        assert(index / 1 == index);
    } else {
        let all = lo + hi;
        assert(all.drop_first() =~= lo.drop_first() + hi);
        lemma_weight_concat(initial, lo.drop_first(), hi, index / 2);
        lemma_pow2_unfold(m);
        let q = pow2((m - 1) as nat) as int;
        vstd::arithmetic::div_mod::lemma_div_denominator(index, 2, q);
        vstd::arithmetic::div_mod::lemma_fundamental_div_mod(index, 2 * q);
        vstd::arithmetic::div_mod::lemma_fundamental_div_mod(index / 2, q);
        let c = index / (2 * q);
        assert((2 * q) * c == 2 * (q * c)) by (nonlinear_arith);
        let low = index % (2 * q);
        assert(low / 2 == (index / 2) % q);
        assert(low % 2 == index % 2);
        assert(all[0] == lo[0]);
    }
}

/// Scaling the initial value scales every entry.
pub proof fn lemma_weight_scales<E: Field>(initial: E, r: Seq<E>, index: int)
    ensures
        eq_weight(initial, r, index) + E::zero_spec() == initial * eq_weight(
            E::one_spec(),
            r,
            index,
        ),
        r.len() > 0 ==> rl::reduced(eq_weight(initial, r, index)),
        rl::reduced(initial) ==> rl::reduced(eq_weight(initial, r, index)),
    decreases r.len(),
{
    if r.len() == 0 {
        rl::lemma_mul_identities(initial);
    } else {
        let one = E::one_spec();
        let rest = r.drop_first();
        lemma_weight_scales(initial, rest, index / 2);
        let v = eq_weight(initial, rest, index / 2);
        let u = eq_weight(one, rest, index / 2);
        let c = r[0];
        rl::lemma_results_reduced(v, c);
        rl::lemma_results_reduced(v, v * c);
        // v c = (initial u) c and v - v c = initial u - (initial u) c.
        rl::lemma_reduced_mul(v, c);
        E::law_mul_associates(initial, u, c);
        rl::lemma_distributes_sub(initial, u, u * c);
        E::law_negation(v, v * c);
        E::law_negation(initial * u, v * c);
        rl::lemma_reduced_add(v, -(v * c));
    }
}

/// The whole table adds up to its initial value.
pub proof fn lemma_table_total<E: Field>(initial: E, r: Seq<E>)
    ensures
        rl::sum_range(|i: int| eq_weight(initial, r, i), 0, pow2(r.len()) as int) == initial
            + E::zero_spec(),
    decreases r.len(),
{
    let f = |i: int| eq_weight(initial, r, i);
    if r.len() == 0 {
        lemma2_to64();
        reveal_with_fuel(rl::sum_range, 2);
        rl::lemma_zero_add(initial);
        assert(rl::sum_range(f, 0, 1) == E::zero_spec() + f(0));
    } else {
        let rest = r.drop_first();
        let g = |i: int| eq_weight(initial, rest, i);
        let g0 = |i: int| g(i) + E::zero_spec();
        let n = pow2(rest.len()) as int;
        lemma_pow2_unfold(r.len());
        lemma_table_total(initial, rest);
        assert forall|i: int| 0 <= i < n implies #[trigger] g0(i) == f(2 * i) + f(2 * i + 1) by {
            lemma_children_sum(g(i), r[0]);
            assert((2 * i) / 2 == i && (2 * i + 1) / 2 == i);
        }
        rl::lemma_sum_pairs(f, g0, n);
        let zeros = |i: int| E::zero_spec();
        rl::lemma_sum_add(g, zeros, g0, 0, n);
        rl::lemma_sum_zero(zeros, 0, n);
        rl::lemma_sum_reduced(g, 0, n);
    }
}

/// The sum over one aligned block of entries is the entry of the table over
/// the coordinates above the block.
proof fn lemma_block_sum<E: Field>(r: Seq<E>, b: nat, q: int)
    requires
        b <= r.len(),
        q >= 0,
    ensures
        rl::sum_range(eq_weights(r), q * pow2(b) as int, (q + 1) * pow2(b) as int) == eq_weight(E::one_spec(), r.subrange(b as int, r.len() as int), q),
{
    let one = E::one_spec();
    let lo = r.subrange(0, b as int);
    let hi = r.subrange(b as int, r.len() as int);
    let n = pow2(b) as int;
    let v = eq_weight(one, hi, q);
    let f = eq_weights(r);
    let g = |j: int| eq_weight(v, lo, j);
    assert(lo + hi =~= r);
    assert forall|j: int| 0 <= j < n implies #[trigger] g(j) == f(j + q * n) by {
        assert(q * n >= 0) by (nonlinear_arith)
            requires
                q >= 0,
                n > 0,
        ;
        lemma_weight_concat(one, lo, hi, j + q * n);
        vstd::arithmetic::div_mod::lemma_fundamental_div_mod_converse(j + q * n, n, q, j);
    }
    rl::lemma_sum_shift(g, f, q * n, 0, n);
    lemma_table_total(v, lo);
    assert((q + 1) * n == n + q * n) by (nonlinear_arith);
    rl::lemma_results_reduced(one, one);
    lemma_weight_scales(one, hi, q);
}

// ---------------------------------------------------------------------------
// Laws
// ---------------------------------------------------------------------------

/// Every entry of the table is the equality polynomial at the point of the
/// hypercube that the entry's index spells.
pub proof fn law_table_entry_is_mle<E: Field>(r: Seq<E>, index: int)
    requires
        0 <= index < pow2(r.len()),
    ensures
        eq_table(E::one_spec(), r)[index] == eq_product(r, bit_point::<E>(index, r.len())),
    decreases r.len(),
{
    let n = r.len();
    let one = E::one_spec();
    let bits = bit_point::<E>(index, n);
    if n > 0 {
        let p = pow2((n - 1) as nat) as int;
        lemma_half_index(index, n);
        lemma_weight_peel_last(one, r, index);
        let low = index % p;
        law_table_entry_is_mle(r.drop_last(), low);
        assert(bits.drop_last() =~= bit_point::<E>(low, (n - 1) as nat)) by {
            assert forall|k: int| 0 <= k < n - 1 implies #[trigger] bits[k] == bit_point::<E>(
                low,
                (n - 1) as nat,
            )[k] by {
                lemma_low_bit(index, (n - 1) as nat, k as nat);
            }
        }
        assert(index / p == 0 || index / p == 1);
        lemma_child_is_product(eq_weight(one, r.drop_last(), low), r.last());
        assert(bits.last() == if index / p == 1 {
            one
        } else {
            E::zero_spec()
        });
    }
}

/// Whether every coordinate of a point is zero or one.
pub open spec fn is_boolean<E: Field>(x: Seq<E>) -> bool {
    forall|i: int|
        0 <= i < x.len() ==> #[trigger] x[i] == E::zero_spec() || x[i] == E::one_spec()
}

/// Over the Boolean hypercube the equality polynomial is one where the points
/// agree and zero elsewhere.
pub proof fn law_equality_on_the_hypercube<E: Field>(x: Seq<E>, y: Seq<E>)
    requires
        x.len() == y.len(),
        is_boolean(x),
        is_boolean(y),
    ensures
        eq_product(x, y) == if x == y {
            E::one_spec()
        } else {
            E::zero_spec()
        },
    decreases x.len(),
{
    let zero = E::zero_spec();
    let one = E::one_spec();
    E::law_nontrivial();
    if x.len() == 0 {
        assert(x =~= y);
    } else {
        let (a, b) = (x.last(), y.last());
        let (u, v) = (x.drop_last(), y.drop_last());
        assert(is_boolean(u) && is_boolean(v)) by {
            assert forall|i: int| 0 <= i < u.len() implies (#[trigger] u[i] == zero || u[i] == one)
                && (v[i] == zero || v[i] == one) by {
                assert(u[i] == x[i] && v[i] == y[i]);
            }
        }
        law_equality_on_the_hypercube(u, v);
        assert(x[x.len() - 1] == a && y[y.len() - 1] == b);
        // One less itself is zero, and one less zero is one.
        E::law_negation(one, one);
        E::law_negation(one, zero);
        rl::lemma_neg_zero::<E>();
        rl::lemma_results_reduced(one, one);
        rl::lemma_mul_identities(one);
        rl::lemma_mul_identities(zero);
        rl::lemma_zero_add(one);
        rl::lemma_zero_add(zero);
        assert(eq_term(a, b) == if a == b {
            one
        } else {
            zero
        });
        rl::lemma_mul_identities(eq_product(u, v));
        assert(x =~= u.push(a));
        assert(y =~= v.push(b));
        if x == y {
            assert(u =~= v);
        }
    }
}

/// Bits below the top one are those of the remainder.
proof fn lemma_low_bit(index: int, top: nat, k: nat)
    requires
        k < top,
        0 <= index,
    ensures
        ((index % pow2(top) as int) / pow2(k) as int) % 2 == (index / pow2(k) as int) % 2,
{
    let p = pow2(k) as int;
    let d = pow2((top - k) as nat) as int;
    lemma_pow2_adds(k, (top - k) as nat);
    vstd::arithmetic::div_mod::lemma_fundamental_div_mod(index, p * d);
    let c = index / (p * d);
    let rem = index % (p * d);
    // index / p = d c + rem / p, and d is even.
    assert((p * d) * c == (d * c) * p) by (nonlinear_arith);
    vstd::arithmetic::div_mod::lemma_hoist_over_denominator(rem, d * c, p as nat);
    lemma_pow2_unfold((top - k) as nat);
    let e = pow2((top - k - 1) as nat) as int;
    assert(d * c == 2 * (e * c)) by (nonlinear_arith)
        requires
            d == 2 * e,
    ;
}

// ---------------------------------------------------------------------------
// Executable functions
// ---------------------------------------------------------------------------

/// Evaluates one coordinate's factor with a single multiplication.
pub fn eq_factor<E: Field>(x: E, y: E) -> (r: E)
    ensures
        r == eq_term(x, y),
{
    let xy = x.mul(y);
    proof {
        lemma_factor_expansion(x, y);
    }
    E::one().sub(x).sub(y).add(xy).add(xy)
}

/// `1 - x - y + xy + xy` is the factor.
proof fn lemma_factor_expansion<E: Field>(x: E, y: E)
    ensures
        (((E::one_spec() - x) - y) + x * y) + x * y == eq_term(x, y),
{
    let one = E::one_spec();
    let xy = x * y;
    let u = one - x;
    // u (1 - y) = u - u y, and u y = y - x y.
    rl::lemma_results_reduced(one, x);
    rl::lemma_distributes_sub(u, one, y);
    rl::lemma_mul_identities(u);
    rl::lemma_distributes_sub(y, one, x);
    rl::lemma_mul_identities(y);
    let yz = y + E::zero_spec();
    assert(u * y == yz - xy);
    // u - (y - xy) = (u - y) + xy.
    E::law_negation(u, yz - xy);
    E::law_negation(yz, xy);
    rl::lemma_neg_add(yz, -xy);
    rl::lemma_neg_neg(xy);
    rl::lemma_results_reduced(x, y);
    rl::lemma_neg_add(y, E::zero_spec());
    rl::lemma_neg_zero::<E>();
    rl::lemma_results_reduced(y, y);
    assert(-yz == -y);
    E::law_add_associates(u, -y, xy);
    E::law_negation(u, y);
    E::law_add_commutes(xy, (u - y) + xy);
}

/// Utilities for the equality polynomial.
pub struct EqPolynomial<E: Field>(core::marker::PhantomData<E>);

impl<E: Field> EqPolynomial<E> {
    /// Splits a table entry into its two children.
    pub fn split_lagrange_parent(value: E, coordinate: E) -> (r: (E, E))
        ensures
            r.0 == lagrange_child(value, coordinate, false),
            r.1 == lagrange_child(value, coordinate, true),
    {
        let right = value.mul(coordinate);
        let left = value.sub(right);
        (left, right)
    }

    fn table_len(num_vars: usize) -> (r: Result<usize, AkitaError>)
        ensures
            match r {
                Ok(len) => len == pow2(num_vars as nat),
                Err(e) => pow2(num_vars as nat) > usize::MAX && e.is_input(
                    "eq table dimension overflow"@,
                ),
            },
    {
        match checked_pow2(num_vars) {
            Some(len) => Ok(len),
            None => Err(AkitaError::input("eq table dimension overflow")),
        }
    }

    /// Refuses a family of tables that would not stay within the memory budget.
    pub fn check_element_budget(label: &str, len: usize) -> (r: Result<(), AkitaError>)
        ensures
            r is Ok <==> within_budget::<E>(len as int),
            r matches Err(e) ==> e.is_input(budget_text::<E>(label@, len)),
    {
        let size: usize = core::mem::size_of::<E>();
        let unit: usize = if size == 0 {
            1
        } else {
            size
        };
        let mut out = String::from_str(label);
        match len.checked_mul(unit) {
            Some(bytes) => {
                if bytes > MAX_MATERIALIZED_EQ_TABLE_BYTES {
                    out.append(" requires ");
                    push_decimal(&mut out, bytes as u128);
                    out.append(" bytes for ");
                    push_decimal(&mut out, len as u128);
                    out.append(" elements, exceeding equality-table budget of ");
                    push_decimal(&mut out, MAX_MATERIALIZED_EQ_TABLE_BYTES as u128);
                    out.append(" bytes");
                    Err(AkitaError::InvalidInput(out))
                } else {
                    Ok(())
                }
            },
            None => {
                out.append(" byte-size overflow for ");
                push_decimal(&mut out, len as u128);
                out.append(" elements");
                Err(AkitaError::InvalidInput(out))
            },
        }
    }

    fn materialized_table_len(label: &str, num_vars: usize) -> (r: Result<usize, AkitaError>)
        ensures
            r is Ok <==> within_budget::<E>(pow2(num_vars as nat) as int),
            match r {
                Ok(len) => len == pow2(num_vars as nat),
                Err(e) => e is InvalidInput,
            },
    {
        match Self::table_len(num_vars) {
            Ok(len) => match Self::check_element_budget(label, len) {
                Ok(()) => Ok(len),
                Err(e) => Err(e),
            },
            Err(e) => {
                proof {
                    let n = pow2(num_vars as nat) as int;
                    let size = vstd::layout::size_of::<E>() as int;
                    assert(size > 0 ==> n * size >= n) by (nonlinear_arith)
                        requires
                            n >= 0,
                    ;
                }
                Err(e)
            },
        }
    }

    /// A vector of zeros.
    fn zero_vec(len: usize) -> (out: Vec<E>)
        ensures
            out@.len() == len,
            forall|i: int| 0 <= i < len ==> out@[i] == E::zero_spec(),
    {
        let mut out: Vec<E> = Vec::with_capacity(len);
        let mut k: usize = 0;
        while k < len
            invariant
                k <= len,
                out@.len() == k,
                forall|i: int| 0 <= i < k ==> out@[i] == E::zero_spec(),
            decreases len - k,
        {
            out.push(E::zero());
            k += 1;
        }
        out
    }

    /// The equality polynomial at two points.
    pub fn mle(x: &[E], y: &[E]) -> (r: Result<E, AkitaError>)
        ensures
            match r {
                Ok(v) => x@.len() == y@.len() && v == eq_product(x@, y@),
                Err(e) => x@.len() != y@.len() && e == (AkitaError::InvalidSize {
                    expected: x@.len() as usize,
                    actual: y@.len() as usize,
                }),
            },
    {
        if x.len() != y.len() {
            return Err(AkitaError::InvalidSize { expected: x.len(), actual: y.len() });
        }
        let mut acc = E::one();
        let mut k: usize = 0;
        while k < x.len()
            invariant
                k <= x@.len(),
                x@.len() == y@.len(),
                acc == eq_product(x@.take(k as int), y@.take(k as int)),
            decreases x@.len() - k,
        {
            proof {
                assert(x@.take(k + 1).drop_last() =~= x@.take(k as int));
                assert(y@.take(k + 1).drop_last() =~= y@.take(k as int));
            }
            acc = acc.mul(eq_factor(x[k], y[k]));
            k += 1;
        }
        proof {
            assert(x@.take(k as int) =~= x@);
            assert(y@.take(k as int) =~= y@);
        }
        Ok(acc)
    }

    /// The value at the origin of the second point, `prod_i (1 - r_i)`.
    pub fn zero_selector(r: &[E]) -> (v: E)
        ensures
            v == eq_product(r@, zero_point::<E>(r@.len())),
    {
        let mut acc = E::one();
        let mut k: usize = 0;
        while k < r.len()
            invariant
                k <= r@.len(),
                acc == eq_product(r@.take(k as int), zero_point::<E>(k as nat)),
            decreases r@.len() - k,
        {
            proof {
                assert(r@.take(k + 1).drop_last() =~= r@.take(k as int));
                assert(zero_point::<E>((k + 1) as nat).drop_last() =~= zero_point::<E>(k as nat));
                lemma_child_is_product(acc, r@[k as int]);
            }
            acc = acc.mul(E::one().sub(r[k]));
            k += 1;
        }
        proof {
            assert(r@.take(k as int) =~= r@);
        }
        acc
    }

    /// The full table of `eq(r, x)` over the Boolean hypercube.
    pub fn evals(r: &[E]) -> (t: Result<Vec<E>, AkitaError>)
        ensures
            t is Ok <==> within_budget::<E>(pow2(r@.len()) as int),
            match t {
                Ok(table) => table@ == eq_table(E::one_spec(), r@),
                Err(e) => e is InvalidInput,
            },
    {
        Self::evals_with_scaling(r, None)
    }

    /// The full table with every entry multiplied by a scaling factor.
    ///
    /// Tables of many variables are built layer by layer in parallel.
    pub fn evals_with_scaling(r: &[E], scaling_factor: Option<E>) -> (t: Result<
        Vec<E>,
        AkitaError,
    >)
        ensures
            t is Ok <==> within_budget::<E>(pow2(r@.len()) as int),
            match t {
                Ok(table) => table@ == eq_table(scaling(scaling_factor), r@) && scaled_uniformly(
                    table@,
                    scaling(scaling_factor),
                    r@,
                ),
                Err(e) => e is InvalidInput,
            },
    {
        let scale = match scaling_factor {
            Some(s) => s.settled(),
            None => E::one().settled(),
        };
        proof {
            assert forall|b: int| 0 <= b < pow2(r@.len()) implies #[trigger] eq_table(scale, r@)[b]
                == eq_table(E::one_spec(), r@)[b] * scale by {
                law_scaling_is_uniform(scale, r@, b);
                E::law_mul_commutes(scale, eq_table(E::one_spec(), r@)[b]);
            }
            lemma_table_total(scale, r@);
            rl::lemma_sum_congruent(
                |b: int| eq_weight(scale, r@, b),
                |b: int| eq_table(scale, r@)[b],
                0,
                pow2(r@.len()) as int,
            );
        }
        if r.len() > PARALLEL_THRESHOLD {
            return Self::evals_parallel(r, scaling_factor);
        }
        Self::evals_serial(r, scaling_factor)
    }

    /// Single-threaded version of [`Self::evals_with_scaling`].
    pub fn evals_serial(r: &[E], scaling_factor: Option<E>) -> (t: Result<Vec<E>, AkitaError>)
        ensures
            t is Ok <==> within_budget::<E>(pow2(r@.len()) as int),
            match t {
                Ok(table) => table@ == eq_table(scaling(scaling_factor), r@),
                Err(e) => e is InvalidInput,
            },
    {
        let initial = match scaling_factor {
            Some(s) => s,
            None => E::one(),
        };
        let identity = |value: E| -> (out: E)
            ensures
                out == value,
            { value };
        let t = Self::evals_serial_with_final_map("eq evaluation table", r, initial, &identity);
        proof {
            assert(t is Ok ==> t->Ok_0@ =~= eq_table(initial, r@));
        }
        t
    }

    fn evals_serial_with_final_map<G>(label: &str, r: &[E], initial: E, map: &G) -> (t: Result<
        Vec<E>,
        AkitaError,
    >) where G: Fn(E) -> E
        requires
            forall|i: int|
                0 <= i < pow2(r@.len()) ==> call_requires(
                    *map,
                    (#[trigger] eq_weight(initial, r@, i),),
                ),
        ensures
            t is Ok <==> within_budget::<E>(pow2(r@.len()) as int),
            match t {
                Ok(table) => mapped_table(*map, initial, r@, table@),
                Err(e) => e is InvalidInput,
            },
    {
        match Self::materialized_table_len(label, r.len()) {
            Ok(size) => {
                let mut table = Self::zero_vec(size);
                Self::fill_serial_with_final_map(table.as_mut_slice(), r, initial, map);
                Ok(table)
            },
            Err(e) => Err(e),
        }
    }

    /// Fills a table in place: each layer splits the entries of the one before
    /// from the last to the first, so that no parent is overwritten before it
    /// has been split. The last layer maps each entry as it is written.
    pub fn fill_serial_with_final_map<G>(evals: &mut [E], r: &[E], initial: E, map: &G) where
        G: Fn(E) -> E,

        requires
            old(evals)@.len() == pow2(r@.len()),
            forall|i: int|
                0 <= i < pow2(r@.len()) ==> call_requires(
                    *map,
                    (#[trigger] eq_weight(initial, r@, i),),
                ),
        ensures
            mapped_table(*map, initial, r@, final(evals)@),
    {
        let n: usize = r.len();
        if n == 0 {
            proof {
                lemma2_to64();
                assert(eq_weight(initial, r@, 0) == initial);
            }
            evals[0] = map(initial);
            return;
        }
        evals[0] = initial;
        let mut len: usize = 1;
        let mut k: usize = n - 1;
        let ghost total = pow2(n as nat) as int;
        proof {
            lemma2_to64();
            lemma_pow2_unfold(n as nat);
            assert(r@.subrange(n as int, n as int).len() == 0);
        }
        while k > 0
            invariant
                n == r@.len(),
                k < n,
                total == pow2(n as nat),
                total <= usize::MAX,
                len == pow2((n - 1 - k) as nat),
                evals@.len() == total,
                forall|j: int|
                    0 <= j < len ==> evals@[j] == eq_weight(
                        initial,
                        r@.subrange(k + 1, n as int),
                        j,
                    ),
            decreases k,
        {
            let coordinate = r[k];
            let ghost before = evals@;
            let ghost suffix = r@.subrange(k as int, n as int);
            proof {
                lemma_pow2_unfold((n - k) as nat);
                lemma_pow2_strictly_increases((n - k) as nat, n as nat);
                assert(suffix.drop_first() =~= r@.subrange(k + 1, n as int));
                assert(suffix[0] == coordinate);
            }
            let mut parent: usize = len;
            while parent > 0
                invariant
                    parent <= len,
                    2 * len <= evals@.len(),
                    evals@.len() == total,
                    total <= usize::MAX,
                    before.len() == total,
                    forall|j: int| 0 <= j < parent ==> evals@[j] == before[j],
                    forall|j: int|
                        2 * parent <= j < 2 * len ==> evals@[j] == lagrange_child(
                            before[j / 2],
                            coordinate,
                            j % 2 == 1,
                        ),
                decreases parent,
            {
                parent -= 1;
                let (left, right) = Self::split_lagrange_parent(evals[parent], coordinate);
                evals[2 * parent] = left;
                evals[2 * parent + 1] = right;
            }
            proof {
                assert forall|j: int| 0 <= j < 2 * len implies #[trigger] evals@[j] == eq_weight(
                    initial,
                    suffix,
                    j,
                ) by {
                    assert(before[j / 2] == eq_weight(
                        initial,
                        r@.subrange(k + 1, n as int),
                        j / 2,
                    ));
                }
            }
            len *= 2;
            k -= 1;
        }
        let coordinate = r[0];
        let ghost before = evals@;
        proof {
            assert(r@.drop_first() =~= r@.subrange(1, n as int));
        }
        let mut parent: usize = len;
        while parent > 0
            invariant
                parent <= len,
                n == r@.len(),
                n > 0,
                total == pow2(n as nat),
                total == 2 * len,
                total <= usize::MAX,
                evals@.len() == total,
                before.len() == total,
                coordinate == r@[0],
                forall|j: int|
                    0 <= j < len ==> #[trigger] before[j] == eq_weight(initial, r@.drop_first(), j),
                forall|j: int| 0 <= j < parent ==> evals@[j] == before[j],
                forall|i: int|
                    0 <= i < total ==> call_requires(
                        *map,
                        (#[trigger] eq_weight(initial, r@, i),),
                    ),
                forall|j: int|
                    2 * parent <= j < 2 * len ==> call_ensures(
                        *map,
                        (eq_weight(initial, r@, j),),
                        #[trigger] evals@[j],
                    ),
            decreases parent,
        {
            parent -= 1;
            let (left, right) = Self::split_lagrange_parent(evals[parent], coordinate);
            proof {
                assert(before[parent as int] == eq_weight(
                    initial,
                    r@.drop_first(),
                    parent as int,
                ));
                assert((2 * parent) / 2 == parent && (2 * parent + 1) / 2 == parent as int);
                assert(left == eq_weight(initial, r@, 2 * parent));
                assert(right == eq_weight(initial, r@, 2 * parent + 1));
            }
            evals[2 * parent] = map(left);
            evals[2 * parent + 1] = map(right);
        }
    }
}

/// The largest number of variables whose table is built by one thread.
const PARALLEL_THRESHOLD: usize = 16;

/// The origin.
pub open spec fn zero_point<E: Field>(n: nat) -> Seq<E> {
    Seq::new(n, |k: int| E::zero_spec())
}

/// Whether every entry of `table` is an outcome of `map` on the entry of the
/// equality table at the same index.
pub open spec fn mapped_table<E: Field, G: Fn(E) -> E>(
    map: G,
    initial: E,
    r: Seq<E>,
    table: Seq<E>,
) -> bool {
    &&& table.len() == pow2(r.len())
    &&& forall|i: int|
        0 <= i < pow2(r.len()) ==> call_ensures(
            map,
            (eq_weight(initial, r, i),),
            #[trigger] table[i],
        )
}

/// Splits one entry into itself and a second place.
fn split_in_place<E: Field>(low: &mut E, high: &mut E, coordinate: E)
    ensures
        *final(low) == lagrange_child(*old(low), coordinate, false),
        *final(high) == lagrange_child(*old(low), coordinate, true),
{
    let (left, right) = EqPolynomial::split_lagrange_parent(*low, coordinate);
    *low = left;
    *high = right;
}

/// Replaces one entry by its image.
fn map_in_place<E: Field, G: Fn(E) -> E>(value: &mut E, map: &G)
    requires
        call_requires(*map, (*old(value),)),
    ensures
        call_ensures(*map, (*old(value),), *final(value)),
{
    *value = map(*value);
}

/// `rayon::current_num_threads`: how many threads the current pool has, which
/// depends on the machine. Nothing is claimed of the number.
#[verifier::external_body]
fn pool_threads() -> (n: usize)
{
    rayon::current_num_threads()
}

/// Rayon's `par_iter_mut`, `zip` and `for_each`: the closure runs once on every
/// pair of elements at equal positions, here [`split_in_place`].
#[verifier::external_body]
fn par_split_layer<E: Field>(low: &mut [E], high: &mut [E], coordinate: E)
    requires
        old(low)@.len() == old(high)@.len(),
    ensures
        final(low)@.len() == old(low)@.len(),
        final(high)@.len() == old(high)@.len(),
        forall|i: int|
            0 <= i < old(low)@.len() ==> #[trigger] final(low)@[i] == lagrange_child(
                old(low)@[i],
                coordinate,
                false,
            ),
        forall|i: int|
            0 <= i < old(low)@.len() ==> #[trigger] final(high)@[i] == lagrange_child(
                old(low)@[i],
                coordinate,
                true,
            ),
{
    low.par_iter_mut().zip(high.par_iter_mut()).for_each(
        |(x, y)| split_in_place(x, y, coordinate),
    );
}

/// Rayon's `par_iter_mut` and `for_each`: the closure runs once on every
/// element, here [`map_in_place`].
#[verifier::external_body]
fn par_map_layer<E: Field, G: Fn(E) -> E + Sync>(values: &mut [E], map: &G)
    requires
        forall|i: int|
            0 <= i < old(values)@.len() ==> call_requires(*map, (#[trigger] old(values)@[i],)),
    ensures
        final(values)@.len() == old(values)@.len(),
        forall|i: int|
            0 <= i < old(values)@.len() ==> call_ensures(
                *map,
                (old(values)@[i],),
                #[trigger] final(values)@[i],
            ),
{
    values.par_iter_mut().for_each(|value| map_in_place(value, map));
}

/// Rayon's `par_chunks_mut`, `par_iter`, `zip` and `for_each`: the closure runs
/// once on every consecutive chunk of `slab_len` entries together with the seed
/// at the chunk's position, here [`EqPolynomial::fill_serial_with_final_map`].
#[verifier::external_body]
fn par_fill_slabs<E: Field, G: Fn(E) -> E + Sync>(
    out: &mut [E],
    slab_len: usize,
    seeds: &[E],
    low: &[E],
    map: &G,
)
    requires
        slab_len == pow2(low@.len()),
        old(out)@.len() == seeds@.len() * slab_len,
        forall|j: int, i: int|
            0 <= j < seeds@.len() && 0 <= i < slab_len ==> call_requires(
                *map,
                (#[trigger] eq_weight(seeds@[j], low@, i),),
            ),
    ensures
        final(out)@.len() == old(out)@.len(),
        forall|j: int, i: int|
            0 <= j < seeds@.len() && 0 <= i < slab_len ==> call_ensures(
                *map,
                (eq_weight(seeds@[j], low@, i),),
                #[trigger] final(out)@[j * slab_len + i],
            ),
{
    out.par_chunks_mut(slab_len).zip(seeds.par_iter()).for_each(
        |(slab, seed)| EqPolynomial::fill_serial_with_final_map(slab, low, *seed, map),
    );
}

impl<E: Field> EqPolynomial<E> {
    /// Parallel version of [`Self::evals_with_scaling`]: the coordinates are
    /// taken from the first to the last, and each layer doubles the table.
    pub fn evals_parallel(r: &[E], scaling_factor: Option<E>) -> (t: Result<Vec<E>, AkitaError>)
        ensures
            t is Ok <==> within_budget::<E>(pow2(r@.len()) as int),
            match t {
                Ok(table) => table@ == eq_table(scaling(scaling_factor), r@),
                Err(e) => e is InvalidInput,
            },
    {
        let initial = match scaling_factor {
            Some(s) => s,
            None => E::one(),
        };
        let final_size: usize = match Self::materialized_table_len("eq evaluation table", r.len()) {
            Ok(len) => len,
            Err(e) => {
                return Err(e);
            },
        };
        let mut evals = Self::zero_vec(final_size);
        evals[0] = initial;
        let mut size: usize = 1;
        let mut k: usize = 0;
        let ghost n = r@.len();
        proof {
            lemma2_to64();
        }
        while k < r.len()
            invariant
                k <= r@.len(),
                n == r@.len(),
                final_size == pow2(n),
                evals@.len() == final_size,
                size == pow2(k as nat),
                forall|j: int|
                    0 <= j < size ==> #[trigger] evals@[j] == eq_weight(
                        initial,
                        r@.take(k as int),
                        j,
                    ),
            decreases r@.len() - k,
        {
            let ghost before = evals@;
            let ghost prefix = r@.take(k + 1);
            let coordinate = r[k];
            proof {
                lemma_pow2_unfold((k + 1) as nat);
                if k + 1 < n {
                    lemma_pow2_strictly_increases((k + 1) as nat, n);
                }
                assert(prefix.drop_last() =~= r@.take(k as int));
            }
            let (low, rest) = evals.as_mut_slice().split_at_mut(size);
            let (high, _tail) = rest.split_at_mut(size);
            par_split_layer(low, high, coordinate);
            proof {
                assert forall|j: int| 0 <= j < 2 * size implies #[trigger] evals@[j] == eq_weight(
                    initial,
                    prefix,
                    j,
                ) by {
                    lemma_weight_peel_last(initial, prefix, j);
                    if j < size {
                        vstd::arithmetic::div_mod::lemma_fundamental_div_mod_converse(
                            j,
                            size as int,
                            0,
                            j,
                        );
                        assert(evals@[j] == lagrange_child(before[j], coordinate, false));
                    } else {
                        vstd::arithmetic::div_mod::lemma_fundamental_div_mod_converse(
                            j,
                            size as int,
                            1,
                            j - size,
                        );
                        assert(evals@[j] == lagrange_child(before[j - size], coordinate, true));
                    }
                }
            }
            size *= 2;
            k += 1;
        }
        proof {
            assert(r@.take(n as int) =~= r@);
            assert(evals@ =~= eq_table(initial, r@));
        }
        Ok(evals)
    }

    /// The full table with every entry replaced by its image under `map`.
    ///
    /// With several threads, tables of a middling size are cut into slabs that
    /// are filled side by side, and larger ones are built and then mapped in
    /// parallel; the order of the table is the same on every path.
    pub fn evals_mapped<G>(r: &[E], map: &G) -> (t: Result<Vec<E>, AkitaError>) where
        G: Fn(E) -> E + Sync,

        requires
            forall|i: int|
                0 <= i < pow2(r@.len()) ==> call_requires(
                    *map,
                    (#[trigger] eq_weight(E::one_spec(), r@, i),),
                ),
        ensures
            t is Ok <==> within_budget::<E>(pow2(r@.len()) as int),
            match t {
                Ok(table) => mapped_table(*map, E::one_spec(), r@, table@),
                Err(e) => e is InvalidInput,
            },
    {
        let threads: usize = pool_threads();
        if threads > 1 && r.len() >= PARALLEL_SLAB_MIN_VARS {
            if r.len() <= PARALLEL_SLAB_MAX_VARS {
                return Self::evals_mapped_parallel_slabs(r, map, threads);
            }
            let mut out = match Self::evals(r) {
                Ok(table) => table,
                Err(e) => {
                    return Err(e);
                },
            };
            proof {
                assert forall|i: int| 0 <= i < out@.len() implies call_requires(
                    *map,
                    (#[trigger] out@[i],),
                ) by {
                    assert(out@[i] == eq_weight(E::one_spec(), r@, i));
                }
            }
            par_map_layer(out.as_mut_slice(), map);
            return Ok(out);
        }
        let one = E::one();
        Self::evals_serial_with_final_map("mapped eq evaluation table", r, one, map)
    }

    /// Expands each entry of the table over the high variables into a mapped
    /// slab over the low ones. How many variables count as high depends on the
    /// number of threads; the result does not.
    pub fn evals_mapped_parallel_slabs<G>(r: &[E], map: &G, threads: usize) -> (t: Result<
        Vec<E>,
        AkitaError,
    >) where G: Fn(E) -> E + Sync
        requires
            forall|i: int|
                0 <= i < pow2(r@.len()) ==> call_requires(
                    *map,
                    (#[trigger] eq_weight(E::one_spec(), r@, i),),
                ),
        ensures
            t is Ok <==> within_budget::<E>(pow2(r@.len()) as int),
            match t {
                Ok(table) => mapped_table(*map, E::one_spec(), r@, table@),
                Err(e) => e is InvalidInput,
            },
    {
        let ghost one = E::one_spec();
        let n: usize = r.len();
        let final_size: usize = match Self::materialized_table_len("mapped eq evaluation table", n) {
            Ok(len) => len,
            Err(e) => {
                return Err(e);
            },
        };
        let target_tasks: usize = match threads.checked_mul(4) {
            Some(tasks) => tasks,
            None => usize::MAX,
        };
        let target_outer: usize = floor_log2(if target_tasks == 0 {
            1
        } else {
            target_tasks
        });
        let room: usize = n.saturating_sub(MINIMUM_SLAB_VARS);
        let outer_vars: usize = if target_outer < room {
            target_outer
        } else {
            room
        };
        let low_vars: usize = n - outer_vars;
        proof {
            lemma_pow2_adds(low_vars as nat, outer_vars as nat);
            let a = pow2(low_vars as nat) as int;
            let b = pow2(outer_vars as nat) as int;
            let size = vstd::layout::size_of::<E>() as int;
            assert(a * b >= a && a * b >= b) by (nonlinear_arith)
                requires
                    a > 0,
                    b > 0,
            ;
            assert(b * size <= (a * b) * size) by (nonlinear_arith)
                requires
                    a * b >= b,
                    size >= 0,
            ;
        }
        let slab_len: usize = match checked_pow2(low_vars) {
            Some(len) => len,
            None => 1,
        };
        let low = &r[0..low_vars];
        let high = &r[low_vars..n];
        let seeds = match Self::evals_serial(high, None) {
            Ok(table) => table,
            Err(e) => {
                return Err(e);
            },
        };
        let mut out = Self::zero_vec(final_size);
        proof {
            assert(low@ + high@ =~= r@);
            vstd::arithmetic::mul::lemma_mul_is_commutative(seeds@.len() as int, slab_len as int);
            assert forall|j: int, i: int| 0 <= j < seeds@.len() && 0 <= i < slab_len implies (
            #[trigger] eq_weight(seeds@[j], low@, i)) == eq_weight(one, r@, j * slab_len + i)
                && 0 <= j * slab_len + i < pow2(n as nat) by {
                assert(0 <= j * slab_len && j * slab_len + slab_len <= seeds@.len() * slab_len)
                    by (nonlinear_arith)
                    requires
                        0 <= j < seeds@.len(),
                        slab_len >= 0,
                ;
                lemma_weight_concat(one, low@, high@, j * slab_len + i);
                vstd::arithmetic::div_mod::lemma_fundamental_div_mod_converse(
                    j * slab_len + i,
                    slab_len as int,
                    j,
                    i,
                );
            }
        }
        par_fill_slabs(out.as_mut_slice(), slab_len, seeds.as_slice(), low, map);
        proof {
            assert forall|x: int| 0 <= x < pow2(n as nat) implies call_ensures(
                *map,
                (eq_weight(one, r@, x),),
                #[trigger] out@[x],
            ) by {
                let j = x / slab_len as int;
                let i = x % slab_len as int;
                vstd::arithmetic::div_mod::lemma_fundamental_div_mod(x, slab_len as int);
                vstd::arithmetic::mul::lemma_mul_is_commutative(j, slab_len as int);
                assert(0 <= j < seeds@.len()) by (nonlinear_arith)
                    requires
                        x == j * slab_len + i,
                        0 <= x < seeds@.len() * slab_len,
                        0 <= i < slab_len,
                ;
                assert(eq_weight(seeds@[j], low@, i) == eq_weight(one, r@, x));
                assert(out@[j * slab_len + i] == out@[x]);
            }
        }
        Ok(out)
    }

    /// The first `len` entries of the table, without building the rest.
    pub fn evals_prefix(r: &[E], len: usize) -> (t: Result<Vec<E>, AkitaError>)
        ensures
            t is Ok <==> split_within_budget::<E>(r@.len()) && len <= pow2(r@.len()),
            match t {
                Ok(prefix) => prefix@ == eq_table(E::one_spec(), r@).take(len as int),
                Err(e) => if split_within_budget::<E>(r@.len()) {
                    e == (AkitaError::InvalidSize {
                        expected: pow2(r@.len()) as usize,
                        actual: len,
                    })
                } else {
                    e is InvalidInput
                },
            },
    {
        let split = match SplitEqEvals::new(r) {
            Ok(split) => split,
            Err(e) => {
                return Err(e);
            },
        };
        match split.in_len().checked_mul(split.out_len()) {
            Some(total) => {
                if len > total {
                    return Err(AkitaError::InvalidSize { expected: total, actual: len });
                }
            },
            None => {},
        }
        let mut out: Vec<E> = Vec::new();
        let mut k: usize = 0;
        while k < len
            invariant
                k <= len,
                len <= pow2(r@.len()),
                split.represents(r@),
                split.spec_len() == pow2(r@.len()),
                out@.len() == k,
                forall|i: int| 0 <= i < k ==> out@[i] == eq_weight(E::one_spec(), r@, i),
            decreases len - k,
        {
            proof {
                law_split_factorizes(split, r@, k as int);
            }
            out.push(split.entry(k));
            k += 1;
        }
        proof {
            assert(out@ =~= eq_table(E::one_spec(), r@).take(len as int));
        }
        Ok(out)
    }

    /// The sum of the first `len` entries, with one split per coordinate.
    pub fn prefix_sum(r: &[E], len: usize) -> (s: Result<E, AkitaError>)
        ensures
            s is Ok <==> pow2(r@.len()) <= usize::MAX && len <= pow2(r@.len()),
            match s {
                Ok(v) => v == rl::sum_range(eq_weights(r@), 0, len as int),
                Err(e) => if pow2(r@.len()) <= usize::MAX {
                    e == (AkitaError::InvalidSize {
                        expected: pow2(r@.len()) as usize,
                        actual: len,
                    })
                } else {
                    e.is_input("eq table dimension overflow"@)
                },
            },
    {
        let ghost one = E::one_spec();
        let ghost f = eq_weights(r@);
        let table_len: usize = match Self::table_len(r.len()) {
            Ok(total) => total,
            Err(e) => {
                return Err(e);
            },
        };
        if len > table_len {
            return Err(AkitaError::InvalidSize { expected: table_len, actual: len });
        }
        if len == table_len {
            proof {
                lemma_table_total(one, r@);
                rl::lemma_results_reduced(one, one);
            }
            return Ok(E::one());
        }
        let mut below = E::zero();
        let mut equal_prefix = E::one();
        let mut bit: usize = r.len();
        let mut step: usize = table_len;
        let ghost n = r@.len() as int;
        proof {
            assert(r@.subrange(n, n).len() == 0);
            vstd::arithmetic::div_mod::lemma_fundamental_div_mod_converse(
                len as int,
                step as int,
                0,
                len as int,
            );
            assert(0 * step == 0);
        }
        while bit > 0
            invariant
                n == r@.len(),
                bit <= n,
                one == E::one_spec(),
                f == eq_weights(r@),
                step == pow2(bit as nat),
                below == rl::sum_range(f, 0, (len as int / step as int) * step),
                equal_prefix == eq_weight(
                    one,
                    r@.subrange(bit as int, n),
                    len as int / step as int,
                ),
            decreases bit,
        {
            let ghost full = step as int;
            let ghost q = len as int / full;
            proof {
                lemma_pow2_unfold(bit as nat);
                assert(r@.subrange(bit - 1, n).drop_first() =~= r@.subrange(bit as int, n));
            }
            bit -= 1;
            step = step / 2;
            let (left, right) = Self::split_lagrange_parent(equal_prefix, r[bit]);
            let ghost h = step as int;
            let ghost p = len as int / h;
            proof {
                vstd::arithmetic::div_mod::lemma_div_denominator(len as int, h, 2);
                assert(full == h * 2);
                assert(q == p / 2);
                vstd::arithmetic::div_mod::lemma_div_pos_is_pos(len as int, h);
            }
            if (len / step) % 2 == 1 {
                proof {
                    assert(p == 2 * q + 1);
                    let base = q * (2 * h);
                    assert(base == (2 * q) * h && (2 * q + 1) * h == base + h) by (nonlinear_arith)
                        requires
                            base == q * (2 * h),
                    ;
                    assert(base >= 0) by (nonlinear_arith)
                        requires
                            base == q * (2 * h),
                            q >= 0,
                            h >= 0,
                    ;
                    rl::lemma_sum_split(f, 0, base, base + h);
                    lemma_block_sum(r@, bit as nat, 2 * q);
                    assert((2 * q) / 2 == q);
                }
                below = below.add(left);
                equal_prefix = right;
            } else {
                proof {
                    assert(p == 2 * q);
                    assert(q * (2 * h) == p * h) by (nonlinear_arith)
                        requires
                            p == 2 * q,
                    ;
                }
                equal_prefix = left;
            }
        }
        proof {
            lemma2_to64();
            assert((len as int / step as int) * step == len) by (nonlinear_arith)
                requires
                    step == 1,
            ;
        }
        Ok(below)
    }

    /// Every layer of the table: `result[j]` is the table over the first `j`
    /// coordinates, so that the last layer is the full table.
    pub fn evals_cached(r: &[E]) -> (t: Result<Vec<Vec<E>>, AkitaError>)
        ensures
            t is Ok <==> within_budget::<E>(2 * pow2(r@.len()) - 1),
            match t {
                Ok(layers) => cached_layers(layers@, E::one_spec(), r@),
                Err(e) => e is InvalidInput,
            },
    {
        Self::evals_cached_with_scaling(r, None)
    }

    /// Like [`Self::evals_cached`], with every entry multiplied by a scaling factor.
    pub fn evals_cached_with_scaling(r: &[E], scaling_factor: Option<E>) -> (t: Result<
        Vec<Vec<E>>,
        AkitaError,
    >)
        ensures
            t is Ok <==> within_budget::<E>(2 * pow2(r@.len()) - 1),
            match t {
                Ok(layers) => cached_layers(layers@, scaling(scaling_factor), r@),
                Err(e) => e is InvalidInput,
            },
    {
        let initial = match scaling_factor {
            Some(s) => s,
            None => E::one(),
        };
        match Self::check_layer_budget(r.len()) {
            Ok(()) => {},
            Err(e) => {
                return Err(e);
            },
        }
        let n: usize = r.len();
        let mut result: Vec<Vec<E>> = Vec::new();
        let mut first: Vec<E> = Vec::new();
        first.push(initial);
        proof {
            lemma2_to64();
            assert(r@.subrange(0, 0).len() == 0);
            assert(first@ =~= eq_table(initial, r@.subrange(0, 0)));
        }
        result.push(first);
        let mut j: usize = 0;
        while j < n
            invariant
                n == r@.len(),
                j <= n,
                result@.len() == j + 1,
                forall|i: int|
                    0 <= i <= j ==> (#[trigger] result@[i])@ == eq_table(
                        initial,
                        r@.subrange(0, i),
                    ),
            decreases n - j,
        {
            let ghost prefix = r@.subrange(0, j + 1);
            proof {
                assert(prefix.drop_last() =~= r@.subrange(0, j as int));
                assert(prefix.last() == r@[j as int]);
            }
            let next = Self::grown_layer(&result[j], r[j], Ghost(initial), Ghost(prefix));
            result.push(next);
            j += 1;
        }
        Ok(result)
    }

    /// The table with one coordinate more behind those of a layer: a copy of the
    /// layer for its value zero, and one for its value one.
    fn grown_layer(
        layer: &Vec<E>,
        coordinate: E,
        Ghost(initial): Ghost<E>,
        Ghost(prefix): Ghost<Seq<E>>,
    ) -> (next: Vec<E>)
        requires
            prefix.len() > 0,
            prefix.last() == coordinate,
            layer@ == eq_table(initial, prefix.drop_last()),
        ensures
            next@ == eq_table(initial, prefix),
    {
        let ghost size = layer@.len() as int;
        let mut next: Vec<E> = Vec::new();
        let mut i: usize = 0;
        proof {
            lemma_pow2_unfold(prefix.len());
        }
        while i < layer.len()
            invariant
                i <= layer@.len(),
                next@.len() == i,
                forall|x: int|
                    0 <= x < i ==> #[trigger] next@[x] == lagrange_child(
                        layer@[x],
                        coordinate,
                        false,
                    ),
            decreases layer@.len() - i,
        {
            let (left, _right) = Self::split_lagrange_parent(layer[i], coordinate);
            next.push(left);
            i += 1;
        }
        let mut i: usize = 0;
        while i < layer.len()
            invariant
                i <= layer@.len(),
                size == layer@.len(),
                next@.len() == size + i,
                forall|x: int|
                    0 <= x < size ==> #[trigger] next@[x] == lagrange_child(
                        layer@[x],
                        coordinate,
                        false,
                    ),
                forall|x: int|
                    size <= x < size + i ==> #[trigger] next@[x] == lagrange_child(
                        layer@[x - size],
                        coordinate,
                        true,
                    ),
            decreases layer@.len() - i,
        {
            let (_left, right) = Self::split_lagrange_parent(layer[i], coordinate);
            next.push(right);
            i += 1;
        }
        proof {
            assert forall|x: int| 0 <= x < 2 * size implies #[trigger] next@[x] == eq_weight(
                initial,
                prefix,
                x,
            ) by {
                lemma_weight_peel_last(initial, prefix, x);
                if x < size {
                    vstd::arithmetic::div_mod::lemma_fundamental_div_mod_converse(x, size, 0, x);
                } else {
                    vstd::arithmetic::div_mod::lemma_fundamental_div_mod_converse(
                        x,
                        size,
                        1,
                        x - size,
                    );
                }
            }
            assert(next@ =~= eq_table(initial, prefix));
        }
        next
    }

    /// Refuses layers over so many coordinates that they exceed the budget.
    fn check_layer_budget(n: usize) -> (r: Result<(), AkitaError>)
        ensures
            r is Ok <==> within_budget::<E>(2 * pow2(n as nat) - 1),
            match r {
                Ok(()) => 2 * pow2(n as nat) <= usize::MAX,
                Err(e) => e is InvalidInput,
            },
    {
        proof {
            lemma_budget_bounds::<E>(2 * pow2(n as nat) - 1);
        }
        let final_len: usize = match Self::table_len(n) {
            Ok(len) => len,
            Err(e) => {
                return Err(e);
            },
        };
        let doubled: usize = match final_len.checked_mul(2) {
            Some(doubled) => doubled,
            None => {
                return Err(AkitaError::input("cached eq table total length overflow"));
            },
        };
        match Self::check_element_budget("cached eq tables", doubled - 1) {
            Ok(()) => {},
            Err(e) => {
                return Err(e);
            },
        }
        Ok(())
    }

    /// The tables over the last coordinates: `result[j]` is the table over the
    /// last `j` of them, so that the last layer is the full table. Each layer
    /// serves a variable that is bound from the first on.
    pub fn suffix_tables(r: &[E]) -> (t: Result<Vec<Vec<E>>, AkitaError>)
        ensures
            t is Ok <==> within_budget::<E>(2 * pow2(r@.len()) - 1),
            match t {
                Ok(layers) => suffix_layers(layers@, r@),
                Err(e) => e is InvalidInput,
            },
    {
        let initial = E::one();
        match Self::check_layer_budget(r.len()) {
            Ok(()) => {},
            Err(e) => {
                return Err(e);
            },
        }
        let n: usize = r.len();
        let mut result: Vec<Vec<E>> = Vec::new();
        let mut first: Vec<E> = Vec::new();
        first.push(initial);
        proof {
            lemma2_to64();
            assert(r@.subrange(n as int, n as int).len() == 0);
            assert(first@ =~= eq_table(initial, r@.subrange(n as int, n as int)));
        }
        result.push(first);
        let mut j: usize = 0;
        while j < n
            invariant
                n == r@.len(),
                j <= n,
                result@.len() == j + 1,
                2 * pow2(n as nat) <= usize::MAX,
                forall|i: int|
                    0 <= i <= j ==> (#[trigger] result@[i])@ == eq_table(
                        initial,
                        r@.subrange(n - i, n as int),
                    ),
            decreases n - j,
        {
            let coordinate = r[n - 1 - j];
            let ghost parents = r@.subrange(n - j, n as int);
            let ghost suffix = r@.subrange(n - 1 - j, n as int);
            let layer = &result[j];
            let mut next: Vec<E> = Vec::new();
            let mut i: usize = 0;
            proof {
                assert(suffix.drop_first() =~= parents);
                assert(suffix[0] == coordinate);
                lemma_pow2_unfold((j + 1) as nat);
                if j + 1 < n {
                    lemma_pow2_strictly_increases((j + 1) as nat, n as nat);
                }
            }
            while i < layer.len()
                invariant
                    i <= layer@.len(),
                    layer@ == eq_table(initial, parents),
                    layer@.len() == pow2(j as nat),
                    2 * layer@.len() <= usize::MAX,
                    suffix.drop_first() == parents,
                    suffix.len() > 0,
                    suffix[0] == coordinate,
                    next@.len() == 2 * i,
                    forall|x: int| 0 <= x < 2 * i ==> next@[x] == eq_weight(initial, suffix, x),
                decreases layer@.len() - i,
            {
                let (left, right) = Self::split_lagrange_parent(layer[i], coordinate);
                proof {
                    assert((2 * i) / 2 == i && (2 * i + 1) / 2 == i as int);
                }
                next.push(left);
                next.push(right);
                i += 1;
            }
            proof {
                assert(next@ =~= eq_table(initial, suffix));
            }
            result.push(next);
            j += 1;
        }
        Ok(result)
    }
}

/// With several threads, tables of at least this many variables are mapped in
/// parallel.
const PARALLEL_SLAB_MIN_VARS: usize = 14;

/// Tables of more variables than this are built whole before they are mapped.
const PARALLEL_SLAB_MAX_VARS: usize = 16;

/// The least number of variables a slab covers.
const MINIMUM_SLAB_VARS: usize = 8;

/// The position of the highest set bit.
fn floor_log2(value: usize) -> (k: usize)
    requires
        value > 0,
    ensures
        pow2(k as nat) <= value < pow2((k + 1) as nat),
{
    let mut k: usize = 0;
    let mut left: usize = value;
    proof {
        lemma2_to64();
    }
    while left > 1
        invariant
            left > 0,
            k + left <= value,
            left * pow2(k as nat) <= value < (left + 1) * pow2(k as nat),
        decreases left,
    {
        let ghost before = left as int;
        let ghost p = pow2(k as nat) as int;
        left = left / 2;
        proof {
            lemma_pow2_unfold((k + 1) as nat);
            assert(left * (2 * p) <= before * p && (before + 1) * p <= (left + 1) * (2 * p))
                by (nonlinear_arith)
                requires
                    2 * left <= before <= 2 * left + 1,
                    p > 0,
            ;
        }
        k += 1;
    }
    proof {
        lemma_pow2_unfold((k + 1) as nat);
    }
    k
}

/// What the layers of a cached table hold.
pub open spec fn cached_layers<E: Field>(layers: Seq<Vec<E>>, initial: E, r: Seq<E>) -> bool {
    &&& layers.len() == r.len() + 1
    &&& forall|j: int|
        0 <= j <= r.len() ==> (#[trigger] layers[j])@ == eq_table(
            initial,
            r.subrange(0, j),
        )
}

/// What the layers over the last coordinates hold.
pub open spec fn suffix_layers<E: Field>(layers: Seq<Vec<E>>, r: Seq<E>) -> bool {
    &&& layers.len() == r.len() + 1
    &&& forall|j: int|
        0 <= j <= r.len() ==> (#[trigger] layers[j])@ == eq_table(
            E::one_spec(),
            r.subrange(r.len() - j, r.len() as int),
        )
}

/// Whether both halves of a split table over `n` variables stay within budget.
pub open spec fn split_within_budget<E: Field>(n: nat) -> bool {
    within_budget::<E>(pow2(n / 2) as int) && within_budget::<E>(pow2((n - n / 2) as nat) as int)
}

/// A family within budget has at most as many elements as the budget has bytes.
proof fn lemma_budget_bounds<E: Field>(len: int)
    requires
        len >= 0,
    ensures
        within_budget::<E>(len) ==> len <= MAX_MATERIALIZED_EQ_TABLE_BYTES,
{
    let size = vstd::layout::size_of::<E>() as int;
    assert(size > 0 ==> len * size >= len) by (nonlinear_arith)
        requires
            len >= 0,
    ;
}

/// The table over a point as the product of two half-size tables.
///
/// With the low half of the coordinates in `e_in` and the rest in `e_out`, the
/// entry at `x_out * in_len + x_in` is `e_out[x_out] * e_in[x_in]`.
#[derive(Clone, Debug)]
pub struct SplitEqEvals<E: Field> {
    /// Table over the high coordinates.
    pub e_out: Vec<E>,
    /// Table over the low coordinates.
    pub e_in: Vec<E>,
}

impl<E: Field> SplitEqEvals<E> {
    /// Number of entries of the product table.
    pub open spec fn spec_len(self) -> int {
        (self.e_in@.len() * self.e_out@.len()) as int
    }

    /// Whether the product table can be indexed.
    pub open spec fn wf(self) -> bool {
        self.spec_len() <= usize::MAX
    }

    /// Whether the halves are those of the table over `point`.
    pub open spec fn represents(self, point: Seq<E>) -> bool {
        let m = point.len() / 2;
        &&& self.e_in@ == eq_table(E::one_spec(), point.subrange(0, m as int))
        &&& self.e_out@ == eq_table(E::one_spec(), point.subrange(m as int, point.len() as int))
    }

    /// Builds the two tables of a point.
    pub fn new(point: &[E]) -> (s: Result<Self, AkitaError>)
        ensures
            s is Ok <==> split_within_budget::<E>(point@.len()),
            match s {
                Ok(split) => split.represents(point@) && split.spec_len() == pow2(point@.len()) && (
                split.wf() <==> pow2(point@.len()) <= usize::MAX),
                Err(e) => e is InvalidInput,
            },
    {
        let m: usize = point.len() / 2;
        let e_in = match EqPolynomial::evals(&point[0..m]) {
            Ok(table) => table,
            Err(e) => {
                return Err(e);
            },
        };
        let e_out = match EqPolynomial::evals(&point[m..point.len()]) {
            Ok(table) => table,
            Err(e) => {
                return Err(e);
            },
        };
        proof {
            let n = point@.len();
            lemma_pow2_adds(m as nat, (n - m) as nat);
        }
        Ok(SplitEqEvals { e_out, e_in })
    }

    /// Number of entries of the low table.
    pub fn in_len(&self) -> (n: usize)
        ensures
            n == self.e_in@.len(),
    {
        self.e_in.len()
    }

    /// Number of entries of the high table.
    pub fn out_len(&self) -> (n: usize)
        ensures
            n == self.e_out@.len(),
    {
        self.e_out.len()
    }

    /// Number of entries of the product table.
    pub fn len(&self) -> (n: usize)
        requires
            self.wf(),
        ensures
            n == self.spec_len(),
    {
        self.e_in.len() * self.e_out.len()
    }

    /// Whether the product table has no entries.
    pub fn is_empty(&self) -> (b: bool)
        ensures
            b == (self.spec_len() == 0),
    {
        proof {
            let a = self.e_in@.len() as int;
            let c = self.e_out@.len() as int;
            assert(a * c == 0 <==> a == 0 || c == 0) by (nonlinear_arith);
        }
        self.e_in.len() == 0 || self.e_out.len() == 0
    }

    /// One entry of the product table.
    pub fn eval_at(&self, index: usize) -> (r: Result<E, AkitaError>)
        requires
            self.wf(),
        ensures
            match r {
                Ok(v) => index < self.spec_len() && v == self.e_out@[index as int
                    / self.e_in@.len() as int] * self.e_in@[index as int
                    % self.e_in@.len() as int],
                Err(e) => index >= self.spec_len() && e.is_input(
                    "split equality index "@ + text::decimal(index as nat)
                        + " is outside table length "@ + text::decimal(self.spec_len() as nat),
                ),
            },
    {
        if index >= self.len() {
            let mut out = String::from_str("split equality index ");
            push_decimal(&mut out, index as u128);
            out.append(" is outside table length ");
            push_decimal(&mut out, self.len() as u128);
            return Err(AkitaError::InvalidInput(out));
        }
        Ok(self.entry(index))
    }

    fn entry(&self, index: usize) -> (v: E)
        requires
            index < self.spec_len(),
        ensures
            v == self.e_out@[index as int / self.e_in@.len() as int] * self.e_in@[index as int
                % self.e_in@.len() as int],
    {
        let in_len: usize = self.in_len();
        proof {
            lemma_split_index(index as int, self.e_in@.len() as int, self.e_out@.len() as int);
        }
        self.e_out[index / in_len].mul(self.e_in[index % in_len])
    }
}

/// Quotient and remainder of an index into a product table are in range.
proof fn lemma_split_index(index: int, inner: int, outer: int)
    requires
        0 <= index < inner * outer,
        inner >= 0,
        outer >= 0,
    ensures
        inner > 0,
        0 <= index / inner < outer,
        0 <= index % inner < inner,
{
    assert(inner > 0) by (nonlinear_arith)
        requires
            0 <= index < inner * outer,
            inner >= 0,
            outer >= 0,
    ;
    assert(0 <= index / inner < outer && 0 <= index % inner < inner) by (nonlinear_arith)
        requires
            0 <= index < inner * outer,
            inner > 0,
    ;
}

/// The product of the two halves is the full table.
pub proof fn law_split_factorizes<E: Field>(split: SplitEqEvals<E>, point: Seq<E>, index: int)
    requires
        split.represents(point),
        0 <= index < pow2(point.len()),
    ensures
        split.spec_len() == pow2(point.len()),
        eq_table(E::one_spec(), point)[index] == split.e_out@[index
            / split.e_in@.len() as int] * split.e_in@[index % split.e_in@.len() as int],
{
    let one = E::one_spec();
    let m = (point.len() / 2) as int;
    let lo = point.subrange(0, m);
    let hi = point.subrange(m, point.len() as int);
    assert(lo + hi =~= point);
    lemma_pow2_adds(lo.len(), hi.len());
    lemma_weight_concat(one, lo, hi, index);
    let inner = pow2(lo.len()) as int;
    lemma_split_index(index, inner, pow2(hi.len()) as int);
    let v = eq_weight(one, hi, index / inner);
    lemma_weight_scales(v, lo, index % inner);
    rl::lemma_results_reduced(one, one);
    lemma_weight_scales(one, hi, index / inner);
}

/// A scaled table is the plain table with every entry multiplied by the scale.
pub proof fn law_scaling_is_uniform<E: Field>(scale: E, r: Seq<E>, index: int)
    requires
        0 <= index < pow2(r.len()),
    ensures
        eq_table(scale, r)[index] + E::zero_spec() == scale * eq_table(E::one_spec(), r)[index],
        rl::reduced(scale) ==> eq_table(scale, r)[index] == scale * eq_table(
            E::one_spec(),
            r,
        )[index],
{
    lemma_weight_scales(scale, r, index);
}

/// The entries of a table add up to one.
pub proof fn law_table_sums_to_one<E: Field>(r: Seq<E>)
    ensures
        rl::sum_range(eq_weights(r), 0, pow2(r.len()) as int) == E::one_spec(),
{
    lemma_table_total(E::one_spec(), r);
    rl::lemma_results_reduced(E::one_spec(), E::one_spec());
}

/// The last layer of a cached table is the full table, and the first holds
/// the initial value alone.
pub proof fn law_cached_ends<E: Field>(layers: Seq<Vec<E>>, initial: E, r: Seq<E>)
    requires
        cached_layers(layers, initial, r),
    ensures
        layers.last()@ == eq_table(initial, r),
        layers[0]@ == seq![initial],
{
    lemma2_to64();
    let n = r.len() as int;
    assert(r.subrange(0, n) =~= r);
    assert(layers[n]@ == eq_table(initial, r.subrange(0, n)));
    assert(layers[0]@ == eq_table(initial, r.subrange(0, 0)));
    assert(eq_table(initial, r.subrange(0, 0)) =~= seq![initial]);
}

/// The equality of two values is linear in each: at any value it is what lies on the
/// line through its values at zero and at one, which are one minus the other value
/// and the other value. It is the same both ways round.
pub proof fn law_equality_is_linear_in_each_value<E: Field>(x: E, y: E)
    ensures
        eq_term(E::zero_spec(), y) == E::one_spec() - y,
        eq_term(E::one_spec(), y) == y + E::zero_spec(),
        eq_term(x, y) == (E::one_spec() - x) * eq_term(E::zero_spec(), y) + x * eq_term(
            E::one_spec(),
            y,
        ),
        eq_term(x, y) == eq_term(y, x),
{
    let (zero, one) = (E::zero_spec(), E::one_spec());
    let (a, b) = (one - x, one - y);
    rl::lemma_results_reduced(one, y);
    rl::lemma_results_reduced(y, zero);
    rl::lemma_results_reduced(one, zero);
    rl::lemma_results_reduced(one, one);
    // at zero
    rl::lemma_mul_identities(y);
    rl::lemma_sub_add_cancel(one, zero);
    lemma_minus_zero(one);
    rl::lemma_mul_identities(b);
    rl::lemma_zero_add(b);
    // at one
    lemma_minus_itself(one);
    rl::lemma_zero_add(y + zero);
    // between
    rl::lemma_reduced_mul(y, x);
    E::law_add_commutes(x * y, a * b);
    E::law_mul_commutes(x, y);
    E::law_mul_commutes(a, b);
}

proof fn lemma_minus_zero<E: Field>(a: E)
    ensures
        a - E::zero_spec() == a + E::zero_spec(),
{
    rl::lemma_neg_zero::<E>();
    E::law_negation(a, E::zero_spec());
}

proof fn lemma_minus_itself<E: Field>(a: E)
    ensures
        a - a == E::zero_spec(),
{
    E::law_negation(a, a);
}

/// The equality of two points is the product over their coordinates, and the same
/// both ways round.
pub proof fn law_equality_goes_by_coordinates<E: Field>(x: Seq<E>, y: Seq<E>, a: E, b: E)
    requires
        x.len() == y.len(),
    ensures
        eq_product(x.push(a), y.push(b)) == eq_product(x, y) * eq_term(a, b),
        eq_product(Seq::<E>::empty(), Seq::<E>::empty()) == E::one_spec(),
        eq_product(x, y) == eq_product(y, x),
    decreases x.len(),
{
    assert(x.push(a).drop_last() =~= x);
    assert(y.push(b).drop_last() =~= y);
    if x.len() > 0 {
        law_equality_goes_by_coordinates(x.drop_last(), y.drop_last(), x.last(), y.last());
        law_equality_is_linear_in_each_value(x.last(), y.last());
    }
}

/// A family is within the budget exactly when its elements, of at least a byte each,
/// take no more bytes than the budget has.
pub proof fn law_budgets_count_bytes<E: Field>(len: int)
    ensures
        vstd::layout::size_of::<E>() > 0 ==> (within_budget::<E>(len) <==> len
            * vstd::layout::size_of::<E>() <= MAX_MATERIALIZED_EQ_TABLE_BYTES),
        vstd::layout::size_of::<E>() == 0 ==> (within_budget::<E>(len) <==> len
            <= MAX_MATERIALIZED_EQ_TABLE_BYTES),
{
}

} // verus!
