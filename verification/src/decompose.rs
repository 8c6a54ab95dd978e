//! Folds of balanced digits under sparse challenges.
//!
//! Every coefficient is centered and written in balanced digits of a power of
//! two; the digits of one place make up a plane of small ring elements. A fold
//! multiplies the planes of each block by the block's sparse challenge and adds
//! the blocks up, position by position, over the integers.

use crate::cyclotomic;
use crate::cyclotomic::CyclotomicRing;
use crate::dense;
use crate::dense::DensePoly;
use crate::field::Field;
use crate::parallel::par_map_range;
use crate::prime_field::PrimeField;
use crate::quotients;
use crate::quotients::{centered_i32_ring, centered_rows_abs_bound};
use crate::ring_lemmas as rl;
use vstd::arithmetic::div_mod::*;
use vstd::arithmetic::power::*;
use vstd::arithmetic::power2::*;
use vstd::prelude::*;

verus! {

// ---------------------------------------------------------------------------
// Digits
// ---------------------------------------------------------------------------

/// The representative of a residue: residues above the threshold are negative.
pub open spec fn representative(value: int, modulus: int, threshold: int) -> int {
    if value > threshold {
        value - modulus
    } else {
        value
    }
}

/// An integer by its sign and its magnitude.
pub open spec fn signed(negative: bool, magnitude: int) -> int {
    if negative {
        -magnitude
    } else {
        magnitude
    }
}

/// The least digit of a balanced expansion.
pub open spec fn balanced_digit(c: int, b: int) -> int {
    let low = c % b;
    if 2 * low >= b {
        low - b
    } else {
        low
    }
}

/// What the least digit leaves of a balanced expansion.
pub open spec fn balanced_rest(c: int, b: int) -> int {
    let low = c % b;
    if 2 * low >= b {
        c / b + 1
    } else {
        c / b
    }
}

/// Digit `n` of a balanced expansion.
pub open spec fn digit_of(c: int, b: int, n: nat) -> int
    decreases n,
{
    if n == 0 {
        balanced_digit(c, b)
    } else {
        digit_of(balanced_rest(c, b), b, (n - 1) as nat)
    }
}

/// What the first `n` digits leave of a balanced expansion.
pub open spec fn rest_after(c: int, b: int, n: nat) -> int
    decreases n,
{
    if n == 0 {
        c
    } else {
        rest_after(balanced_rest(c, b), b, (n - 1) as nat)
    }
}

/// The value of the first `n` digits with the rest `last` behind them.
pub open spec fn recomposed(c: int, b: int, n: nat, last: int) -> int
    decreases n,
{
    if n == 0 {
        last
    } else {
        balanced_digit(c, b) + b * recomposed(balanced_rest(c, b), b, (n - 1) as nat, last)
    }
}

/// The digits and the rest of an integer make it up.
pub proof fn law_digits_recompose(c: int, b: int, n: nat)
    requires
        b > 0,
    ensures
        recomposed(c, b, n, rest_after(c, b, n)) == c,
    decreases n,
{
    if n > 0 {
        law_digits_recompose(balanced_rest(c, b), b, (n - 1) as nat);
        lemma_split(c, b);
    }
}

/// Balanced digits are at most half the base in magnitude.
pub proof fn law_digits_are_balanced(c: int, b: int, n: nat)
    requires
        b > 0,
    ensures
        -b <= 2 * digit_of(c, b, n) < b,
    decreases n,
{
    if n == 0 {
        lemma_mod_bound(c, b);
    } else {
        law_digits_are_balanced(balanced_rest(c, b), b, (n - 1) as nat);
    }
}

proof fn lemma_split(c: int, b: int)
    requires
        b > 0,
    ensures
        balanced_digit(c, b) + b * balanced_rest(c, b) == c,
{
    lemma_fundamental_div_mod(c, b);
    assert(b * (c / b + 1) == b * (c / b) + b) by (nonlinear_arith);
}

/// The least digit and the rest of an integer.
fn split_digit(c: i128, b: i128) -> (r: (i32, i128))
    requires
        2 <= b <= 0x1_0000,
    ensures
        r.0 == balanced_digit(c as int, b as int),
        r.1 == balanced_rest(c as int, b as int),
        -0x1_0000 < r.0 < 0x1_0000,
{
    let (low, floor): (i128, i128) = if c >= 0 {
        (c % b, c / b)
    } else {
        let shifted: i128 = -(c + 1);
        let m: i128 = shifted % b;
        let q: i128 = shifted / b;
        proof {
            lemma_fundamental_div_mod(shifted as int, b as int);
            lemma_mod_bound(shifted as int, b as int);
            assert(c == b * (-q - 1) + (b - 1 - m)) by (nonlinear_arith)
                requires
                    c == -shifted - 1,
                    shifted == b * q + m,
            ;
            lemma_fundamental_div_mod_converse(c as int, b as int, -q - 1, b - 1 - m);
            lemma_div_basics_5(shifted as int, b as int);
        }
        (b - 1 - m, -q - 1)
    };
    proof {
        lemma_mod_bound(c as int, b as int);
        lemma_fundamental_div_mod(c as int, b as int);
        assert(floor < 0x4fff_ffff_ffff_ffff_ffff_ffff_ffff_ffff) by (nonlinear_arith)
            requires
                c == b * floor + low,
                0 <= low,
                b >= 2,
                c <= 0x7fff_ffff_ffff_ffff_ffff_ffff_ffff_ffff,
        ;
    }
    if 2 * low >= b {
        ((low - b) as i32, floor + 1)
    } else {
        (low as i32, floor)
    }
}

/// The least digit and the rest of a representative, which may be too large
/// for a signed integer.
fn split_first_digit(negative: bool, magnitude: u128, b: u128) -> (r: (i32, i128))
    requires
        2 <= b <= 0x1_0000,
        magnitude < u128::MAX,
    ensures
        r.0 == balanced_digit(signed(negative, magnitude as int), b as int),
        r.1 == balanced_rest(signed(negative, magnitude as int), b as int),
{
    let q: u128 = magnitude / b;
    let m: u128 = magnitude % b;
    proof {
        lemma_fundamental_div_mod(magnitude as int, b as int);
        lemma_mod_bound(magnitude as int, b as int);
        assert(2 * q + m < u128::MAX) by (nonlinear_arith)
            requires
                magnitude == b * q + m,
                b >= 2,
                0 <= m,
                0 <= q,
                magnitude < u128::MAX,
        ;
        assert(b >= 3 ==> 3 * q < u128::MAX) by (nonlinear_arith)
            requires
                magnitude == b * q + m,
                0 <= m,
                0 <= q,
                magnitude < u128::MAX,
        ;
    }
    let (low, floor): (u128, i128) = if !negative {
        (m, q as i128)
    } else if m == 0 {
        proof {
            assert(-magnitude == b * (-q) + 0) by (nonlinear_arith)
                requires
                    magnitude == b * q,
            ;
            lemma_fundamental_div_mod_converse(-magnitude as int, b as int, -q as int, 0);
        }
        (0, -(q as i128))
    } else {
        proof {
            assert(-magnitude == b * (-q - 1) + (b - m)) by (nonlinear_arith)
                requires
                    magnitude == b * q + m,
            ;
            lemma_fundamental_div_mod_converse(-magnitude as int, b as int, -q - 1, b - m);
        }
        (b - m, -(q as i128) - 1)
    };
    if 2 * low >= b {
        (-((b - low) as i32), floor + 1)
    } else {
        (low as i32, floor)
    }
}

// ---------------------------------------------------------------------------
// Challenges
// ---------------------------------------------------------------------------

/// A ring element with few nonzero coefficients.
#[derive(Clone, Debug, PartialEq, Eq)]
pub struct SparseChallenge {
    pub positions: Vec<usize>,
    pub coeffs: Vec<i8>,
}

/// The magnitude of a small coefficient.
pub open spec fn size8(x: i8) -> int {
    if x < 0 {
        -(x as int)
    } else {
        x as int
    }
}

/// The sum of the magnitudes of the first `n` coefficients.
pub open spec fn weight(coeffs: Seq<i8>, n: nat) -> int
    decreases n,
{
    if n == 0 {
        0
    } else {
        weight(coeffs, (n - 1) as nat) + size8(coeffs[n - 1])
    }
}

/// The sum of the magnitudes of the first `n` challenges.
pub open spec fn total_weight(challenges: Seq<SparseChallenge>, n: nat) -> int
    decreases n,
{
    if n == 0 {
        0
    } else {
        total_weight(challenges, (n - 1) as nat) + weight(
            challenges[n - 1].coeffs@,
            challenges[n - 1].coeffs@.len(),
        )
    }
}

impl SparseChallenge {
    /// Whether the challenge is an element of a ring of some degree.
    pub open spec fn wf(self, d: int) -> bool {
        &&& self.positions@.len() == self.coeffs@.len()
        &&& forall|t: int| 0 <= t < self.positions@.len() ==> #[trigger] self.positions@[t] < d
    }
}

/// Coefficient `k` of a plane moved up by `position` places.
pub open spec fn moved(plane: Seq<int>, position: int, k: int) -> int {
    if k >= position {
        plane[k - position]
    } else {
        -plane[k - position + plane.len()]
    }
}

/// Coefficient `k` of a plane times the first `n` terms of a challenge.
pub open spec fn challenged(plane: Seq<int>, challenge: SparseChallenge, k: int, n: nat) -> int
    decreases n,
{
    if n == 0 {
        0
    } else {
        challenged(plane, challenge, k, (n - 1) as nat) + challenge.coeffs@[n - 1] * moved(
            plane,
            challenge.positions@[n - 1] as int,
            k,
        )
    }
}

/// Coefficient `k` of the fold of position `element` over the first `n` blocks.
pub open spec fn folded(
    planes: spec_fn(int) -> Seq<int>,
    count: int,
    challenges: Seq<SparseChallenge>,
    positions: int,
    element: int,
    k: int,
    n: nat,
) -> int
    decreases n,
{
    if n == 0 {
        0
    } else {
        let place = (n - 1) * positions + element;
        folded(planes, count, challenges, positions, element, k, (n - 1) as nat) + if place
            < count {
            challenged(
                planes(place),
                challenges[n - 1],
                k,
                challenges[n - 1].coeffs@.len(),
            )
        } else {
            0
        }
    }
}

/// The integers of a plane.
pub open spec fn plane_view<const D: usize>(plane: [i32; D]) -> Seq<int> {
    plane@.map_values(|x: i32| x as int)
}

/// Whether integers stay within a bound.
pub open spec fn within(values: Seq<i32>, bound: int) -> bool {
    forall|k: int| 0 <= k < values.len() ==> -bound <= #[trigger] values[k] <= bound
}

proof fn lemma_weight_bounds(coeffs: Seq<i8>, a: nat, b: nat)
    requires
        a <= b <= coeffs.len(),
    ensures
        0 <= weight(coeffs, a) <= weight(coeffs, b),
    decreases b,
{
    if b > 0 {
        if a < b {
            lemma_weight_bounds(coeffs, a, (b - 1) as nat);
        } else {
            lemma_weight_bounds(coeffs, (a - 1) as nat, (b - 1) as nat);
        }
    }
}

proof fn lemma_total_bounds(challenges: Seq<SparseChallenge>, a: nat, b: nat)
    requires
        a <= b <= challenges.len(),
    ensures
        0 <= total_weight(challenges, a) <= total_weight(challenges, b),
    decreases b,
{
    if b > 0 {
        lemma_weight_bounds(
            challenges[b - 1].coeffs@,
            0,
            challenges[b - 1].coeffs@.len(),
        );
        if a < b {
            lemma_total_bounds(challenges, a, (b - 1) as nat);
        } else {
            lemma_total_bounds(challenges, (a - 1) as nat, (b - 1) as nat);
        }
    }
}

/// Adds a plane times a challenge.
fn sparse_mul_acc<const D: usize>(
    plane: &[i32; D],
    challenge: &SparseChallenge,
    acc: &mut [i32; D],
    Ghost(bound): Ghost<int>,
    Ghost(so_far): Ghost<int>,
)
    requires
        challenge.wf(D as int),
        0 <= bound <= 0x8000,
        0 <= so_far,
        within(plane@, bound),
        within(old(acc)@, bound * so_far),
        bound * (so_far + weight(challenge.coeffs@, challenge.coeffs@.len())) <= i32::MAX,
    ensures
        forall|k: int|
            0 <= k < D ==> #[trigger] final(acc)@[k] == old(acc)@[k] + challenged(
                plane_view(*plane),
                *challenge,
                k,
                challenge.coeffs@.len(),
            ),
        within(
            final(acc)@,
            bound * (so_far + weight(challenge.coeffs@, challenge.coeffs@.len())),
        ),
{
    let ghost before = acc@;
    let ghost view = plane_view(*plane);
    let mut t: usize = 0;
    while t < challenge.positions.len()
        invariant
            challenge.wf(D as int),
            0 <= bound <= 0x8000,
            0 <= so_far,
            within(plane@, bound),
            bound * (so_far + weight(challenge.coeffs@, challenge.coeffs@.len())) <= i32::MAX,
            t <= challenge.coeffs@.len(),
            before.len() == D,
            view == plane_view(*plane),
            forall|k: int|
                0 <= k < D ==> #[trigger] acc@[k] == before[k] + challenged(
                    view,
                    *challenge,
                    k,
                    t as nat,
                ),
            within(acc@, bound * (so_far + weight(challenge.coeffs@, t as nat))),
        decreases challenge.coeffs@.len() - t,
    {
        let position: usize = challenge.positions[t];
        let factor: i32 = challenge.coeffs[t] as i32;
        let ghost middle = acc@;
        let ghost reach = bound * (so_far + weight(challenge.coeffs@, t as nat));
        let ghost next = bound * (so_far + weight(challenge.coeffs@, (t + 1) as nat));
        proof {
            lemma_weight_bounds(
                challenge.coeffs@,
                (t + 1) as nat,
                challenge.coeffs@.len(),
            );
            lemma_weight_bounds(challenge.coeffs@, 0, t as nat);
            let w0 = weight(challenge.coeffs@, t as nat);
            assert(0 <= reach) by (nonlinear_arith)
                requires
                    reach == bound * (so_far + w0),
                    0 <= bound,
                    0 <= so_far,
                    0 <= w0,
            ;
            let s = size8(challenge.coeffs@[t as int]);
            let w1 = weight(challenge.coeffs@, challenge.coeffs@.len());
            assert(next == reach + bound * s) by (nonlinear_arith)
                requires
                    next == bound * (so_far + (w0 + s)),
                    reach == bound * (so_far + w0),
            ;
            assert(next <= bound * (so_far + w1)) by (nonlinear_arith)
                requires
                    next == bound * (so_far + (w0 + s)),
                    w0 + s <= w1,
                    0 <= bound,
            ;
        }
        let mut out = *acc;
        let mut k: usize = 0;
        while k < D
            invariant
                k <= D,
                position < D,
                0 <= bound <= 0x8000,
                within(plane@, bound),
                view == plane_view(*plane),
                middle.len() == D,
                within(middle, reach),
                factor == challenge.coeffs@[t as int],
                next == reach + bound * size8(challenge.coeffs@[t as int]),
                next <= i32::MAX,
                0 <= reach,
                forall|i: int|
                    0 <= i < D ==> #[trigger] out@[i] == if i < k {
                        middle[i] + factor * moved(view, position as int, i)
                    } else {
                        middle[i] as int
                    },
                forall|i: int| 0 <= i < k ==> -next <= #[trigger] out@[i] <= next,
            decreases D - k,
        {
            let entry: i32 = if k >= position {
                plane[k - position]
            } else {
                -plane[k + (D - position)]
            };
            proof {
                assert(entry == moved(view, position as int, k as int));
                assert(-bound <= entry <= bound);
                let s = size8(challenge.coeffs@[t as int]);
                assert(-(bound * s) <= factor * entry <= bound * s) by (nonlinear_arith)
                    requires
                        -bound <= entry <= bound,
                        s == if factor < 0 {
                            -factor
                        } else {
                            factor as int
                        },
                        0 <= bound,
                ;
                assert(-reach <= middle[k as int] <= reach);
            }
            out[k] = out[k] + factor * entry;
            k += 1;
        }
        *acc = out;
        t += 1;
    }
}

// ---------------------------------------------------------------------------
// Folds
// ---------------------------------------------------------------------------

/// How coefficients are centered and written in digits.
#[derive(Clone, Copy, Debug, PartialEq, Eq, Structural)]
pub struct DecomposeParams {
    /// Residues above it stand for negative integers.
    pub threshold: u128,
    pub num_digits: usize,
    pub log_basis: u32,
}

/// Half of two to a small power.
pub open spec fn half_base(log_basis: u32) -> int
    decreases log_basis,
{
    if log_basis <= 1 {
        1
    } else {
        2 * half_base((log_basis - 1) as u32)
    }
}

/// Half of two to a small power.
fn half_base_of(log_basis: u32) -> (half: i128)
    requires
        1 <= log_basis <= 16,
    ensures
        half == half_base(log_basis),
        half <= 0x8000,
{
    proof {
        lemma_half_base(log_basis);
    }
    let mut half: i128 = 1;
    let mut n: u32 = 1;
    while n < log_basis
        invariant
            1 <= n <= log_basis <= 16,
            half == half_base(n),
        decreases log_basis - n,
    {
        proof {
            lemma_half_base(n);
        }
        half = 2 * half;
        n += 1;
    }
    half
}

proof fn lemma_half_base(log_basis: u32)
    requires
        1 <= log_basis <= 16,
    ensures
        1 <= half_base(log_basis) <= 0x8000,
{
    reveal_with_fuel(half_base, 16);
}

/// Two to a small power.
pub open spec fn base_of(log_basis: u32) -> int {
    2 * half_base(log_basis)
}

impl DecomposeParams {
    /// Whether digits fit two bytes.
    pub open spec fn wf(self) -> bool {
        1 <= self.log_basis <= 16
    }
}

/// Plane `digit` of a ring element.
pub open spec fn digit_plane<const P: u128>(
    entry: Seq<PrimeField<P>>,
    params: DecomposeParams,
    digit: nat,
) -> Seq<int> {
    Seq::new(
        entry.len(),
        |k: int|
            digit_of(
                representative(
                    entry[k].value_spec(),
                    PrimeField::<P>::modulus_spec(),
                    params.threshold as int,
                ),
                base_of(params.log_basis),
                digit,
            ),
    )
}

/// Plane `digit` of every ring element.
pub open spec fn digit_planes<const P: u128>(
    entries: spec_fn(int) -> Seq<PrimeField<P>>,
    params: DecomposeParams,
    digit: nat,
) -> spec_fn(int) -> Seq<int> {
    |i: int| digit_plane(entries(i), params, digit)
}

/// The digits of a residue, from the least on.
fn digits_of_value(value: u128, modulus: u128, params: DecomposeParams) -> (digits: Vec<i32>)
    requires
        value < modulus,
        params.wf(),
    ensures
        digits@.len() == params.num_digits,
        forall|n: int|
            0 <= n < digits@.len() ==> #[trigger] digits@[n] == digit_of(
                representative(value as int, modulus as int, params.threshold as int),
                base_of(params.log_basis),
                n as nat,
            ),
{
    proof {
        lemma_half_base(params.log_basis);
    }
    let half: i128 = half_base_of(params.log_basis);
    let base: i128 = 2 * half;
    let negative: bool = value > params.threshold;
    let magnitude: u128 = if negative {
        modulus - value
    } else {
        value
    };
    let ghost start = representative(value as int, modulus as int, params.threshold as int);
    let mut digits: Vec<i32> = Vec::new();
    if params.num_digits == 0 {
        return digits;
    }
    let (first, left): (i32, i128) = split_first_digit(negative, magnitude, base as u128);
    let mut rest: i128 = left;
    digits.push(first);
    let mut n: usize = 1;
    proof {
        reveal_with_fuel(rest_after, 2);
    }
    while n < params.num_digits
        invariant
            2 <= base <= 0x1_0000,
            base == base_of(params.log_basis),
            1 <= n <= params.num_digits,
            digits@.len() == n,
            rest == rest_after(start, base as int, n as nat),
            forall|m: int|
                0 <= m < n ==> #[trigger] digits@[m] == digit_of(start, base as int, m as nat),
        decreases params.num_digits - n,
    {
        let (digit, next): (i32, i128) = split_digit(rest, base);
        proof {
            lemma_digit_step(start, base as int, n as nat);
        }
        digits.push(digit);
        rest = next;
        n += 1;
    }
    digits
}

/// Digit `n` is the least digit of what the digits before it leave.
proof fn lemma_digit_step(c: int, b: int, n: nat)
    ensures
        digit_of(c, b, n) == balanced_digit(rest_after(c, b, n), b),
        rest_after(c, b, n + 1) == balanced_rest(rest_after(c, b, n), b),
    decreases n,
{
    reveal_with_fuel(rest_after, 2);
    if n > 0 {
        lemma_digit_step(balanced_rest(c, b), b, (n - 1) as nat);
    }
}

/// All planes of a ring element.
fn planes_of<const P: u128, const D: usize>(
    ring: &CyclotomicRing<PrimeField<P>, D>,
    params: DecomposeParams,
) -> (planes: Vec<[i32; D]>)
    requires
        params.wf(),
    ensures
        planes@.len() == params.num_digits,
        forall|n: int|
            0 <= n < planes@.len() ==> plane_view(#[trigger] planes@[n]) == digit_plane(
                ring@,
                params,
                n as nat,
            ),
{
    let mut planes: Vec<[i32; D]> = Vec::new();
    let modulus: u128 = PrimeField::<P>::modulus();
    let mut n: usize = 0;
    while n < params.num_digits
        invariant
            n <= params.num_digits,
            planes@.len() == n,
        decreases params.num_digits - n,
    {
        planes.push([0i32;D]);
        n += 1;
    }
    let mut k: usize = 0;
    while k < D
        invariant
            k <= D,
            modulus == PrimeField::<P>::modulus_spec(),
            params.wf(),
            planes@.len() == params.num_digits,
            forall|n: int, i: int|
                0 <= n < planes@.len() && 0 <= i < k ==> #[trigger] planes@[n]@[i] == digit_plane(
                    ring@,
                    params,
                    n as nat,
                )[i],
        decreases D - k,
    {
        let digits = digits_of_value(ring.coeffs[k].to_u128(), modulus, params);
        let mut n: usize = 0;
        while n < params.num_digits
            invariant
                n <= params.num_digits,
                k < D,
                modulus == PrimeField::<P>::modulus_spec(),
                planes@.len() == params.num_digits,
                digits@.len() == params.num_digits,
                forall|m: int|
                    0 <= m < digits@.len() ==> #[trigger] digits@[m] == digit_plane(
                        ring@,
                        params,
                        m as nat,
                    )[k as int],
                forall|m: int, i: int|
                    0 <= m < planes@.len() && 0 <= i < (if m < n {
                        k + 1
                    } else {
                        k as int
                    }) ==> #[trigger] planes@[m]@[i] == digit_plane(ring@, params, m as nat)[i],
            decreases params.num_digits - n,
        {
            let mut plane = planes[n];
            plane[k] = digits[n];
            planes.set(n, plane);
            n += 1;
        }
        k += 1;
    }
    proof {
        assert forall|n: int| 0 <= n < planes@.len() implies plane_view(#[trigger] planes@[n])
            == digit_plane(ring@, params, n as nat) by {
            assert forall|i: int| 0 <= i < D implies #[trigger] plane_view(planes@[n])[i]
                == digit_plane(ring@, params, n as nat)[i] by {
                assert(planes@[n]@[i] == digit_plane(ring@, params, n as nat)[i]);
            }
            assert(plane_view(planes@[n]) =~= digit_plane(ring@, params, n as nat));
        }
    }
    planes
}

/// Planes are within half the base.
proof fn lemma_plane_within<const P: u128, const D: usize>(
    plane: [i32; D],
    entry: Seq<PrimeField<P>>,
    params: DecomposeParams,
    digit: nat,
)
    requires
        1 <= params.log_basis <= 16,
        entry.len() == D,
        plane_view(plane) == digit_plane(entry, params, digit),
    ensures
        within(plane@, half_base(params.log_basis)),
{
    lemma_half_base(params.log_basis);
    assert forall|k: int| 0 <= k < plane@.len() implies -half_base(params.log_basis)
        <= #[trigger] plane@[k] <= half_base(params.log_basis) by {
        assert(plane_view(plane)[k] == plane@[k]);
        law_digits_are_balanced(
            representative(
                entry[k].value_spec(),
                PrimeField::<P>::modulus_spec(),
                params.threshold as int,
            ),
            base_of(params.log_basis),
            digit,
        );
    }
}

/// Whether sums hold the folds of one position, digit by digit.
pub open spec fn element_folded<const P: u128, const D: usize>(
    sums: Seq<[i32; D]>,
    entries: spec_fn(int) -> Seq<PrimeField<P>>,
    count: int,
    challenges: Seq<SparseChallenge>,
    positions: int,
    params: DecomposeParams,
    element: int,
    blocks: nat,
) -> bool {
    &&& sums.len() == params.num_digits
    &&& forall|n: int, k: int|
        0 <= n < sums.len() && 0 <= k < D ==> #[trigger] sums[n]@[k] == folded(
            digit_planes(entries, params, n as nat),
            count,
            challenges,
            positions,
            element,
            k,
            blocks,
        )
}

/// Whether folds of this weight fit their integers.
pub open spec fn weights_fit(challenges: Seq<SparseChallenge>, log_basis: u32) -> bool {
    half_base(log_basis) * total_weight(challenges, challenges.len())
        <= i32::MAX
}

/// The folds of one position.
fn fold_element<const P: u128, const D: usize>(
    coeffs: &Vec<CyclotomicRing<PrimeField<P>, D>>,
    challenges: &Vec<SparseChallenge>,
    positions: usize,
    params: DecomposeParams,
    element: usize,
) -> (sums: Vec<[i32; D]>)
    requires
        params.wf(),
        element < positions,
        forall|i: int|
            0 <= i < challenges@.len() ==> (#[trigger] challenges@[i]).wf(D as int),
        weights_fit(challenges@, params.log_basis),
    ensures
        element_folded(
            sums@,
            dense::ring_list(coeffs@),
            coeffs@.len() as int,
            challenges@,
            positions as int,
            params,
            element as int,
            challenges@.len(),
        ),
{
    let count: usize = coeffs.len();
    let ghost entries = dense::ring_list(coeffs@);
    let ghost bound = half_base(params.log_basis);
    let mut sums: Vec<[i32; D]> = Vec::new();
    let mut n: usize = 0;
    while n < params.num_digits
        invariant
            n <= params.num_digits,
            sums@.len() == n,
            forall|m: int, k: int| 0 <= m < n && 0 <= k < D ==> #[trigger] sums@[m]@[k] == 0,
        decreases params.num_digits - n,
    {
        sums.push([0i32;D]);
        n += 1;
    }
    let mut live: bool = true;
    let mut place: usize = element;
    let mut i: usize = 0;
    proof {
        lemma_half_base(params.log_basis);
        assert(0 * positions == 0) by (nonlinear_arith);
        assert(bound * 0 == 0) by (nonlinear_arith);
    }
    while i < challenges.len()
        invariant
            params.wf(),
            bound == half_base(params.log_basis),
            1 <= bound <= 0x8000,
            element < positions,
            count == coeffs@.len(),
            entries == dense::ring_list(coeffs@),
            forall|i: int|
                0 <= i < challenges@.len() ==> (#[trigger] challenges@[i]).wf(D as int),
            weights_fit(challenges@, params.log_basis),
            i <= challenges@.len(),
            live ==> place == i * positions + element,
            !live ==> i * positions + element >= count,
            element_folded(
                sums@,
                entries,
                count as int,
                challenges@,
                positions as int,
                params,
                element as int,
                i as nat,
            ),
            forall|m: int|
                0 <= m < sums@.len() ==> within(
                    (#[trigger] sums@[m])@,
                    bound * total_weight(challenges@, i as nat),
                ),
        decreases challenges@.len() - i,
    {
        let challenge = &challenges[i];
        let ghost so_far = total_weight(challenges@, i as nat);
        let ghost grown = total_weight(challenges@, (i + 1) as nat);
        proof {
            lemma_total_bounds(challenges@, 0, i as nat);
            lemma_total_bounds(challenges@, i as nat, (i + 1) as nat);
            lemma_total_bounds(challenges@, (i + 1) as nat, challenges@.len());
            let all = total_weight(challenges@, challenges@.len());
            assert(bound * grown <= bound * all && bound * so_far <= bound * grown)
                by (nonlinear_arith)
                requires
                    0 <= bound,
                    so_far <= grown <= all,
            ;
            assert((i + 1) * positions + element == (i * positions + element) + positions)
                by (nonlinear_arith);
        }
        if live && place < count {
            let planes = planes_of(&coeffs[place], params);
            let ghost old_sums = sums@;
            let mut m: usize = 0;
            while m < params.num_digits
                invariant
                    bound == half_base(params.log_basis),
                    1 <= bound <= 0x8000,
                    1 <= params.log_basis <= 16,
                    m <= params.num_digits,
                    i < challenges@.len(),
                    *challenge == challenges@[i as int],
                    challenge.wf(D as int),
                    count == coeffs@.len(),
                    place < count,
                    place == i * positions + element,
                    entries == dense::ring_list(coeffs@),
                    so_far == total_weight(challenges@, i as nat),
                    0 <= so_far,
                    grown == so_far + weight(challenge.coeffs@, challenge.coeffs@.len()),
                    bound * grown <= i32::MAX,
                    bound * so_far <= bound * grown,
                    planes@.len() == params.num_digits,
                    forall|n: int|
                        0 <= n < planes@.len() ==> plane_view(#[trigger] planes@[n])
                            == digit_plane(entries(place as int), params, n as nat),
                    old_sums.len() == params.num_digits,
                    sums@.len() == params.num_digits,
                    element_folded(
                        old_sums,
                        entries,
                        count as int,
                        challenges@,
                        positions as int,
                        params,
                        element as int,
                        i as nat,
                    ),
                    forall|n: int| m <= n < sums@.len() ==> #[trigger] sums@[n] == old_sums[n],
                    forall|n: int|
                        0 <= n < old_sums.len() ==> within(
                            (#[trigger] old_sums[n])@,
                            bound * so_far,
                        ),
                    forall|n: int, k: int|
                        0 <= n < m && 0 <= k < D ==> #[trigger] sums@[n]@[k] == folded(
                            digit_planes(entries, params, n as nat),
                            count as int,
                            challenges@,
                            positions as int,
                            element as int,
                            k,
                            (i + 1) as nat,
                        ),
                    forall|n: int| 0 <= n < m ==> within((#[trigger] sums@[n])@, bound * grown),
                decreases params.num_digits - m,
            {
                let mut acc = sums[m];
                proof {
                    assert(sums@[m as int] == old_sums[m as int]);
                    assert(within(old_sums[m as int]@, bound * so_far));
                    lemma_plane_within(
                        planes@[m as int],
                        entries(place as int),
                        params,
                        m as nat,
                    );
                }
                sparse_mul_acc(&planes[m], challenge, &mut acc, Ghost(bound), Ghost(so_far));
                proof {
                    assert forall|k: int| 0 <= k < D implies #[trigger] acc@[k] == folded(
                        digit_planes(entries, params, m as nat),
                        count as int,
                        challenges@,
                        positions as int,
                        element as int,
                        k,
                        (i + 1) as nat,
                    ) by {
                        assert(old_sums[m as int]@[k] == folded(
                            digit_planes(entries, params, m as nat),
                            count as int,
                            challenges@,
                            positions as int,
                            element as int,
                            k,
                            i as nat,
                        ));
                    }
                }
                sums.set(m, acc);
                m += 1;
            }
        } else {
            proof {
                assert forall|n: int, k: int|
                    0 <= n < sums@.len() && 0 <= k < D implies #[trigger] sums@[n]@[k] == folded(
                    digit_planes(entries, params, n as nat),
                    count as int,
                    challenges@,
                    positions as int,
                    element as int,
                    k,
                    (i + 1) as nat,
                ) by {
                    assert(sums@[n]@[k] == folded(
                        digit_planes(entries, params, n as nat),
                        count as int,
                        challenges@,
                        positions as int,
                        element as int,
                        k,
                        i as nat,
                    ));
                }
                assert forall|n: int| 0 <= n < sums@.len() implies within(
                    (#[trigger] sums@[n])@,
                    bound * grown,
                ) by {
                    assert(within(sums@[n]@, bound * so_far));
                }
            }
        }
        if live {
            match place.checked_add(positions) {
                Some(next) => {
                    place = next;
                },
                None => {
                    live = false;
                },
            }
        }
        i += 1;
    }
    sums
}

/// A folded witness: its centered coefficients, the ring elements they stand
/// for, and the largest magnitude among them.
pub struct DecomposeFoldWitness<const P: u128, const D: usize> {
    pub z_folded_rings: Vec<CyclotomicRing<PrimeField<P>, D>>,
    pub centered_coeffs: Vec<[i32; D]>,
    pub centered_inf_norm: u64,
}

impl<const P: u128, const D: usize> DecomposeFoldWitness<P, D> {
    /// Whether the ring elements and the norm are those of the coefficients.
    pub open spec fn wf(self) -> bool {
        &&& self.z_folded_rings@.len() == self.centered_coeffs@.len()
        &&& forall|i: int|
            0 <= i < self.centered_coeffs@.len() ==> (#[trigger] self.z_folded_rings@[i])@
                == quotients::lift32::<PrimeField<P>>(self.centered_coeffs@[i]@)
        &&& self.centered_inf_norm == quotients::least_bound(self.centered_coeffs@)
    }
}

/// The witness with given coefficients.
pub fn build_decompose_fold_witness<const P: u128, const D: usize>(
    centered_coeffs: Vec<[i32; D]>,
) -> (r: DecomposeFoldWitness<P, D>)
    ensures
        r.wf(),
        r.centered_coeffs@ == centered_coeffs@,
{
    let mut rings: Vec<CyclotomicRing<PrimeField<P>, D>> = Vec::new();
    let mut i: usize = 0;
    while i < centered_coeffs.len()
        invariant
            i <= centered_coeffs@.len(),
            rings@.len() == i,
            forall|m: int|
                0 <= m < i ==> (#[trigger] rings@[m])@ == quotients::lift32::<PrimeField<P>>(
                    centered_coeffs@[m]@,
                ),
        decreases centered_coeffs@.len() - i,
    {
        rings.push(centered_i32_ring::<PrimeField<P>, D>(&centered_coeffs[i]));
        i += 1;
    }
    let norm: u64 = centered_rows_abs_bound(centered_coeffs.as_slice(), centered_coeffs.len());
    assert(quotients::is_least_bound(centered_coeffs@, norm as int));
    DecomposeFoldWitness { z_folded_rings: rings, centered_coeffs, centered_inf_norm: norm }
}

/// Whether coefficients are the folds of all positions: those of a position
/// stand together, from the least digit on.
pub open spec fn all_folded<const P: u128, const D: usize>(
    coeffs: Seq<[i32; D]>,
    entries: spec_fn(int) -> Seq<PrimeField<P>>,
    count: int,
    challenges: Seq<SparseChallenge>,
    positions: int,
    params: DecomposeParams,
) -> bool {
    &&& coeffs.len() == positions * params.num_digits
    &&& forall|p: int|
        0 <= p < positions ==> #[trigger] element_folded(
            coeffs.subrange(p * params.num_digits, (p + 1) * params.num_digits),
            entries,
            count,
            challenges,
            positions,
            params,
            p,
            challenges.len(),
        )
}

impl<const P: u128> DensePoly<PrimeField<P>> {
    /// The fold of the digits of the polynomial under one challenge per block.
    pub fn decompose_fold<const D: usize>(
        &self,
        challenges: &Vec<SparseChallenge>,
        num_positions_per_block: usize,
        params: DecomposeParams,
    ) -> (r: DecomposeFoldWitness<P, D>)
        requires
            self.viewable(D as int),
            params.wf(),
            forall|i: int|
                0 <= i < challenges@.len() ==> (#[trigger] challenges@[i]).wf(D as int),
            weights_fit(challenges@, params.log_basis),
        ensures
            r.wf(),
            all_folded(
                r.centered_coeffs@,
                self.entries(D as int),
                dense::ring_count(self.coeffs@.len() as int, D as int),
                challenges@,
                num_positions_per_block as int,
                params,
            ),
    {
        let coeffs = self.ring_view::<D>();
        let positions: usize = num_positions_per_block;
        let list = &coeffs;
        let work = |p: usize| -> (sums: Vec<[i32; D]>)
            requires
                p < positions,
            ensures
                element_folded(
                    sums@,
                    dense::ring_list(list@),
                    list@.len() as int,
                    challenges@,
                    positions as int,
                    params,
                    p as int,
                    challenges@.len(),
                ),
            { fold_element(list, challenges, positions, params, p) };
        let parts = par_map_range(positions, &work);
        let ghost entries = self.entries(D as int);
        let ghost count = list@.len() as int;
        proof {
            assert forall|p: int| 0 <= p < positions implies element_folded(
                (#[trigger] parts@[p])@,
                entries,
                count,
                challenges@,
                positions as int,
                params,
                p,
                challenges@.len(),
            ) by {
                assert(call_ensures(work, (p as usize,), parts@[(p as usize) as int]));
                lemma_same_entries(
                    parts@[p]@,
                    dense::ring_list(list@),
                    entries,
                    count,
                    challenges@,
                    positions as int,
                    params,
                    p,
                    challenges@.len(),
                );
            }
        }
        let mut flat: Vec<[i32; D]> = Vec::new();
        let ghost digits = params.num_digits as int;
        let mut p: usize = 0;
        assert(0 * digits == 0) by (nonlinear_arith);
        while p < positions
            invariant
                p <= positions,
                parts@.len() == positions,
                digits == params.num_digits,
                flat@.len() == p * digits,
                forall|q: int|
                    0 <= q < positions ==> element_folded(
                        (#[trigger] parts@[q])@,
                        entries,
                        count,
                        challenges@,
                        positions as int,
                        params,
                        q,
                        challenges@.len(),
                    ),
                forall|q: int|
                    0 <= q < p ==> #[trigger] element_folded(
                        flat@.subrange(q * digits, (q + 1) * digits),
                        entries,
                        count,
                        challenges@,
                        positions as int,
                        params,
                        q,
                        challenges@.len(),
                    ),
            decreases positions - p,
        {
            let ghost before = flat@;
            let mut part = crate::assignments::copy_list(&parts[p]);
            let ghost added = part@;
            flat.append(&mut part);
            proof {
                assert((p + 1) * digits == p * digits + digits) by (nonlinear_arith);
                assert(0 <= p * digits) by (nonlinear_arith)
                    requires
                        0 <= p,
                        0 <= digits,
                ;
                assert forall|q: int| 0 <= q < p + 1 implies #[trigger] element_folded(
                    flat@.subrange(q * digits, (q + 1) * digits),
                    entries,
                    count,
                    challenges@,
                    positions as int,
                    params,
                    q,
                    challenges@.len(),
                ) by {
                    if q < p {
                        assert(0 <= q * digits && q * digits + digits <= p * digits && (q + 1)
                            * digits == q * digits + digits) by (nonlinear_arith)
                            requires
                                0 <= q < p,
                                0 <= digits,
                        ;
                        assert(element_folded(
                            before.subrange(q * digits, (q + 1) * digits),
                            entries,
                            count,
                            challenges@,
                            positions as int,
                            params,
                            q,
                            challenges@.len(),
                        ));
                        assert(flat@.subrange(q * digits, (q + 1) * digits) =~= before.subrange(
                            q * digits,
                            (q + 1) * digits,
                        ));
                    } else {
                        assert(flat@.subrange(q * digits, (q + 1) * digits) =~= added);
                    }
                }
            }
            p += 1;
        }
        build_decompose_fold_witness(flat)
    }
}

/// Folds of the same entries are the same.
proof fn lemma_same_entries<const P: u128, const D: usize>(
    sums: Seq<[i32; D]>,
    e1: spec_fn(int) -> Seq<PrimeField<P>>,
    e2: spec_fn(int) -> Seq<PrimeField<P>>,
    count: int,
    challenges: Seq<SparseChallenge>,
    positions: int,
    params: DecomposeParams,
    element: int,
    blocks: nat,
)
    requires
        element_folded(sums, e1, count, challenges, positions, params, element, blocks),
        0 <= element,
        0 <= positions,
        forall|i: int| 0 <= i < count ==> #[trigger] e1(i) == e2(i),
    ensures
        element_folded(sums, e2, count, challenges, positions, params, element, blocks),
{
    assert forall|n: int, k: int| 0 <= n < sums.len() && 0 <= k < D implies #[trigger] sums[n]@[k]
        == folded(
        digit_planes(e2, params, n as nat),
        count,
        challenges,
        positions,
        element,
        k,
        blocks,
    ) by {
        lemma_folded_same(
            digit_planes(e1, params, n as nat),
            digit_planes(e2, params, n as nat),
            count,
            challenges,
            positions,
            element,
            k,
            blocks,
        );
    }
}

proof fn lemma_folded_same(
    p1: spec_fn(int) -> Seq<int>,
    p2: spec_fn(int) -> Seq<int>,
    count: int,
    challenges: Seq<SparseChallenge>,
    positions: int,
    element: int,
    k: int,
    n: nat,
)
    requires
        0 <= element,
        0 <= positions,
        forall|i: int| 0 <= i < count ==> #[trigger] p1(i) == p2(i),
    ensures
        folded(p1, count, challenges, positions, element, k, n) == folded(
            p2,
            count,
            challenges,
            positions,
            element,
            k,
            n,
        ),
    decreases n,
{
    if n > 0 {
        lemma_folded_same(p1, p2, count, challenges, positions, element, k, (n - 1) as nat);
        let place = (n - 1) * positions + element;
        assert(0 <= place) by (nonlinear_arith)
            requires
                place == (n - 1) * positions + element,
                n > 0,
                0 <= positions,
                0 <= element,
        ;
        if place < count {
            assert(p1(place) == p2(place));
        }
    }
}

// ---------------------------------------------------------------------------
// What folded digits make up
// ---------------------------------------------------------------------------

/// What the first `n` digits leave of the coefficients of a ring element; with
/// no digits, their representatives.
pub open spec fn rest_plane<const P: u128>(
    entry: Seq<PrimeField<P>>,
    params: DecomposeParams,
    n: nat,
) -> Seq<int> {
    Seq::new(
        entry.len(),
        |k: int|
            rest_after(
                representative(
                    entry[k].value_spec(),
                    PrimeField::<P>::modulus_spec(),
                    params.threshold as int,
                ),
                base_of(params.log_basis),
                n,
            ),
    )
}

/// What the first `n` digits leave of every ring element.
pub open spec fn rest_planes<const P: u128>(
    entries: spec_fn(int) -> Seq<PrimeField<P>>,
    params: DecomposeParams,
    n: nat,
) -> spec_fn(int) -> Seq<int> {
    |i: int| rest_plane(entries(i), params, n)
}

/// The folds of the digits from `n` on, with the fold of what `end` digits
/// leave behind them.
pub open spec fn recomposed_folds<const P: u128>(
    entries: spec_fn(int) -> Seq<PrimeField<P>>,
    count: int,
    challenges: Seq<SparseChallenge>,
    positions: int,
    params: DecomposeParams,
    element: int,
    k: int,
    n: nat,
    end: nat,
) -> int
    decreases end - n,
{
    if n >= end {
        folded(
            rest_planes(entries, params, n),
            count,
            challenges,
            positions,
            element,
            k,
            challenges.len(),
        )
    } else {
        folded(
            digit_planes(entries, params, n),
            count,
            challenges,
            positions,
            element,
            k,
            challenges.len(),
        ) + base_of(params.log_basis) * recomposed_folds(
            entries,
            count,
            challenges,
            positions,
            params,
            element,
            k,
            n + 1,
            end,
        )
    }
}

/// The folds of the digits, scaled by the powers of the base, and the fold of
/// what the digits leave make up the fold of the representatives.
pub proof fn law_folded_digits_recompose<const P: u128>(
    entries: spec_fn(int) -> Seq<PrimeField<P>>,
    count: int,
    challenges: Seq<SparseChallenge>,
    positions: int,
    params: DecomposeParams,
    element: int,
    d: int,
    k: int,
    end: nat,
)
    requires
        params.wf(),
        0 <= element < positions,
        0 <= k < d,
        forall|i: int| 0 <= i < count ==> (#[trigger] entries(i)).len() == d,
        forall|i: int| 0 <= i < challenges.len() ==> (#[trigger] challenges[i]).wf(d),
    ensures
        recomposed_folds(entries, count, challenges, positions, params, element, k, 0, end)
            == folded(
            rest_planes(entries, params, 0),
            count,
            challenges,
            positions,
            element,
            k,
            challenges.len(),
        ),
{
    lemma_recomposed(entries, count, challenges, positions, params, element, d, k, 0, end);
}

proof fn lemma_recomposed<const P: u128>(
    entries: spec_fn(int) -> Seq<PrimeField<P>>,
    count: int,
    challenges: Seq<SparseChallenge>,
    positions: int,
    params: DecomposeParams,
    element: int,
    d: int,
    k: int,
    n: nat,
    end: nat,
)
    requires
        params.wf(),
        0 <= element < positions,
        0 <= k < d,
        forall|i: int| 0 <= i < count ==> (#[trigger] entries(i)).len() == d,
        forall|i: int| 0 <= i < challenges.len() ==> (#[trigger] challenges[i]).wf(d),
    ensures
        recomposed_folds(entries, count, challenges, positions, params, element, k, n, end)
            == folded(
            rest_planes(entries, params, n),
            count,
            challenges,
            positions,
            element,
            k,
            challenges.len(),
        ),
    decreases end - n,
{
    if n < end {
        lemma_recomposed(entries, count, challenges, positions, params, element, d, k, n + 1, end);
        let b = base_of(params.log_basis);
        lemma_half_base(params.log_basis);
        let whole = rest_planes(entries, params, n);
        let digit = digit_planes(entries, params, n);
        let rest = rest_planes(entries, params, n + 1);
        assert forall|i: int| 0 <= i < count implies splits(
            #[trigger] whole(i),
            digit(i),
            rest(i),
            b,
            d,
        ) by {
            assert(entries(i).len() == d);
            assert forall|j: int| 0 <= j < d implies #[trigger] whole(i)[j] == digit(i)[j] + b
                * rest(i)[j] by {
                let c = representative(
                    entries(i)[j].value_spec(),
                    PrimeField::<P>::modulus_spec(),
                    params.threshold as int,
                );
                lemma_digit_step(c, b, n);
                lemma_split(rest_after(c, b, n), b);
            }
        }
        lemma_folds_add(
            whole,
            digit,
            rest,
            b,
            count,
            challenges,
            positions,
            element,
            d,
            k,
            challenges.len(),
        );
    }
}

/// Whether a plane is the sum of a plane and a multiple of another.
spec fn splits(whole: Seq<int>, digit: Seq<int>, rest: Seq<int>, b: int, d: int) -> bool {
    &&& whole.len() == d
    &&& digit.len() == d
    &&& rest.len() == d
    &&& forall|j: int| 0 <= j < d ==> #[trigger] whole[j] == digit[j] + b * rest[j]
}

proof fn lemma_folds_add(
    whole: spec_fn(int) -> Seq<int>,
    digit: spec_fn(int) -> Seq<int>,
    rest: spec_fn(int) -> Seq<int>,
    b: int,
    count: int,
    challenges: Seq<SparseChallenge>,
    positions: int,
    element: int,
    d: int,
    k: int,
    n: nat,
)
    requires
        0 <= element < positions,
        0 <= k < d,
        n <= challenges.len(),
        forall|i: int| 0 <= i < count ==> splits(#[trigger] whole(i), digit(i), rest(i), b, d),
        forall|i: int| 0 <= i < challenges.len() ==> (#[trigger] challenges[i]).wf(d),
    ensures
        folded(whole, count, challenges, positions, element, k, n) == folded(
            digit,
            count,
            challenges,
            positions,
            element,
            k,
            n,
        ) + b * folded(rest, count, challenges, positions, element, k, n),
    decreases n,
{
    if n > 0 {
        let m = (n - 1) as nat;
        lemma_folds_add(
            whole,
            digit,
            rest,
            b,
            count,
            challenges,
            positions,
            element,
            d,
            k,
            m,
        );
        let place = m * positions + element;
        assert(0 <= place) by (nonlinear_arith)
            requires
                place == m * positions + element,
                0 <= m,
                0 <= positions,
                0 <= element,
        ;
        let before = folded(rest, count, challenges, positions, element, k, m);
        if place < count {
            let challenge = challenges[m as int];
            let terms = challenge.coeffs@.len();
            assert(splits(whole(place), digit(place), rest(place), b, d));
            lemma_challenged_adds(
                whole(place),
                digit(place),
                rest(place),
                b,
                challenge,
                d,
                k,
                terms,
            );
            let added = challenged(rest(place), challenge, k, terms);
            assert(b * (before + added) == b * before + b * added) by (nonlinear_arith);
        } else {
            assert(before + 0 == before);
        }
    } else {
        assert(b * 0 == 0);
    }
}

proof fn lemma_challenged_adds(
    whole: Seq<int>,
    digit: Seq<int>,
    rest: Seq<int>,
    b: int,
    challenge: SparseChallenge,
    d: int,
    k: int,
    n: nat,
)
    requires
        0 <= k < d,
        splits(whole, digit, rest, b, d),
        challenge.wf(d),
        n <= challenge.coeffs@.len(),
    ensures
        challenged(whole, challenge, k, n) == challenged(digit, challenge, k, n) + b * challenged(
            rest,
            challenge,
            k,
            n,
        ),
    decreases n,
{
    if n > 0 {
        let m = (n - 1) as nat;
        lemma_challenged_adds(whole, digit, rest, b, challenge, d, k, m);
        let position = challenge.positions@[m as int] as int;
        assert(position < d);
        let (w, x, y) = (
            moved(whole, position, k),
            moved(digit, position, k),
            moved(rest, position, k),
        );
        let at = if k >= position {
            k - position
        } else {
            k - position + d
        };
        assert(whole[at] == digit[at] + b * rest[at]);
        assert(-(b * rest[at]) == b * (-rest[at])) by (nonlinear_arith);
        assert(w == x + b * y);
        let c = challenge.coeffs@[m as int] as int;
        let before = challenged(rest, challenge, k, m);
        assert(c * (x + b * y) == c * x + b * (c * y)) by (nonlinear_arith);
        assert(b * (before + c * y) == b * before + b * (c * y)) by (nonlinear_arith);
    } else {
        assert(b * 0 == 0);
    }
}

// ---------------------------------------------------------------------------
// What a fold is
// ---------------------------------------------------------------------------

/// A representative is the one integer of its residue among those that end at
/// the threshold.
pub proof fn law_representatives_end_at_the_threshold<const P: u128>(
    value: PrimeField<P>,
    threshold: int,
)
    requires
        0 <= threshold < PrimeField::<P>::modulus_spec(),
        0 <= value.value_spec() < PrimeField::<P>::modulus_spec(),
    ensures
        ({
            let m = PrimeField::<P>::modulus_spec();
            let c = representative(value.value_spec(), m, threshold);
            &&& threshold - m < c <= threshold
            &&& c % m == value.value_spec()
            &&& PrimeField::<P>::of_int(c) == value + PrimeField::<P>::zero_spec()
        }),
{
    let m = PrimeField::<P>::modulus_spec();
    lemma_small_mod(value.value_spec() as nat, m as nat);
    lemma_mod_sub_multiples_vanish(value.value_spec(), m);
    lemma_representative(value, threshold);
}

proof fn lemma_representative<const P: u128>(value: PrimeField<P>, threshold: int)
    ensures
        PrimeField::<P>::of_int(
            representative(value.value_spec(), PrimeField::<P>::modulus_spec(), threshold),
        ) == value + PrimeField::<P>::zero_spec(),
{
    let m = PrimeField::<P>::modulus_spec();
    let v = value.value_spec();
    let c = representative(v, m, threshold);
    PrimeField::<P>::lemma_residue_value(0);
    assert(0int % m == 0) by {
        lemma_small_mod(0, m as nat);
    }
    lemma_mod_sub_multiples_vanish(v, m);
    PrimeField::<P>::lemma_residue_congruent(c, v);
}

/// The value of digits, the least first.
pub open spec fn digits_value(digits: Seq<int>, b: int) -> int
    decreases digits.len(),
{
    if digits.len() == 0 {
        0
    } else {
        digits[0] + b * digits_value(digits.drop_first(), b)
    }
}

/// Whatever balanced digits make up an integer are its digits, and leave
/// nothing.
pub proof fn law_balanced_digits_are_unique(digits: Seq<int>, b: int, n: int)
    requires
        b > 0,
        forall|i: int| 0 <= i < digits.len() ==> -b <= 2 * #[trigger] digits[i] < b,
        0 <= n < digits.len(),
    ensures
        digit_of(digits_value(digits, b), b, n as nat) == digits[n],
        rest_after(digits_value(digits, b), b, digits.len()) == 0,
    decreases digits.len(),
{
    let c = digits_value(digits, b);
    let tail = digits.drop_first();
    let q = digits_value(tail, b);
    let low = digits[0];
    if low >= 0 {
        lemma_fundamental_div_mod_converse(c, b, q, low);
    } else {
        assert(b * (q - 1) + (low + b) == c) by (nonlinear_arith)
            requires
                c == low + b * q,
        ;
        lemma_fundamental_div_mod_converse(c, b, q - 1, low + b);
    }
    assert(balanced_digit(c, b) == low);
    assert(balanced_rest(c, b) == q);
    assert forall|i: int| 0 <= i < tail.len() implies -b <= 2 * #[trigger] tail[i] < b by {
        assert(tail[i] == digits[i + 1]);
    }
    if tail.len() > 0 {
        law_balanced_digits_are_unique(
            tail,
            b,
            if n > 0 {
                n - 1
            } else {
                0
            },
        );
    } else {
        assert(rest_after(q, b, 0) == 0);
    }
    assert(rest_after(c, b, digits.len()) == rest_after(q, b, tail.len()));
}

/// The base of the digits is two to its logarithm.
pub proof fn law_bases_are_powers_of_two(log_basis: u32)
    requires
        1 <= log_basis <= 16,
    ensures
        base_of(log_basis) == pow2(log_basis as nat),
        half_base(log_basis) == pow2((log_basis - 1) as nat),
    decreases log_basis,
{
    if log_basis > 1 {
        law_bases_are_powers_of_two((log_basis - 1) as u32);
        lemma_pow2_unfold((log_basis - 1) as nat);
    } else {
        lemma2_to64();
    }
    lemma_pow2_unfold(log_basis as nat);
}

/// What a challenge holds at a place: the sum of those of its first `n`
/// coefficients that stand there.
pub open spec fn held_at(challenge: SparseChallenge, place: int, n: nat) -> int
    decreases n,
{
    if n == 0 {
        0
    } else if challenge.positions@[n - 1] == place {
        held_at(challenge, place, (n - 1) as nat) + challenge.coeffs@[n - 1]
    } else {
        held_at(challenge, place, (n - 1) as nat)
    }
}

/// The first `n` terms of a challenge as a ring element of degree `d`.
pub open spec fn terms_element<F: Field>(challenge: SparseChallenge, d: nat, n: nat) -> Seq<F> {
    Seq::new(d, |place: int| F::of_int(held_at(challenge, place, n)))
}

/// A challenge as a ring element of degree `d`.
pub open spec fn challenge_element<F: Field>(challenge: SparseChallenge, d: nat) -> Seq<F> {
    terms_element(challenge, d, challenge.coeffs@.len())
}

/// Integers as a ring element.
pub open spec fn lift_plane<F: Field>(plane: Seq<int>) -> Seq<F> {
    Seq::new(plane.len(), |k: int| F::of_int(plane[k]))
}

/// A plane times a challenge is their product in the ring.
pub proof fn law_challenges_multiply<F: Field>(plane: Seq<int>, challenge: SparseChallenge, k: int)
    requires
        challenge.wf(plane.len() as int),
        0 <= k < plane.len(),
    ensures
        F::of_int(challenged(plane, challenge, k, challenge.coeffs@.len()))
            == cyclotomic::product_coeff(
            lift_plane::<F>(plane),
            challenge_element::<F>(challenge, plane.len()),
            k,
        ),
{
    lemma_terms_multiply::<F>(plane, challenge, k, challenge.coeffs@.len());
}

proof fn lemma_terms_multiply<F: Field>(
    plane: Seq<int>,
    challenge: SparseChallenge,
    k: int,
    n: nat,
)
    requires
        challenge.wf(plane.len() as int),
        0 <= k < plane.len(),
        n <= challenge.coeffs@.len(),
    ensures
        F::of_int(challenged(plane, challenge, k, n)) == cyclotomic::product_coeff(
            lift_plane::<F>(plane),
            terms_element::<F>(challenge, plane.len(), n),
            k,
        ),
    decreases n,
{
    let d = plane.len();
    let a = lift_plane::<F>(plane);
    let all = terms_element::<F>(challenge, d, n);
    F::law_of_int(0, 0);
    if n == 0 {
        let f = cyclotomic::product_term(a, all, k);
        rl::lemma_neg_zero::<F>();
        assert forall|j: int| 0 <= j < d implies #[trigger] f(j) == F::zero_spec() by {
            cyclotomic::lemma_signed_near(all, k - j);
            rl::lemma_mul_identities(a[j]);
        }
        rl::lemma_sum_zero(f, 0, d as int);
    } else {
        let m = (n - 1) as nat;
        let place = challenge.positions@[n - 1] as int;
        let c = challenge.coeffs@[n - 1] as int;
        assert(challenge.positions@[n - 1] < d);
        let before = terms_element::<F>(challenge, d, m);
        let last = Seq::new(
            d,
            |j: int|
                if j == place {
                    F::of_int(c)
                } else {
                    F::zero_spec()
                },
        );
        lemma_terms_multiply::<F>(plane, challenge, k, m);
        assert forall|j: int| 0 <= j < d implies #[trigger] all[j] == before[j] + last[j] by {
            F::law_of_int(held_at(challenge, j, m), c);
            F::law_of_int(held_at(challenge, j, m), 0);
        }
        cyclotomic::law_product_distributes(a, before, last, all, k);
        lemma_term_multiplies::<F>(plane, place, c, last, k);
        F::law_of_int(challenged(plane, challenge, k, m), c * moved(plane, place, k));
    }
}

/// A plane times one term is the plane moved and scaled.
proof fn lemma_term_multiplies<F: Field>(
    plane: Seq<int>,
    place: int,
    c: int,
    last: Seq<F>,
    k: int,
)
    requires
        0 <= place < plane.len(),
        0 <= k < plane.len(),
        last.len() == plane.len(),
        forall|j: int|
            0 <= j < last.len() ==> #[trigger] last[j] == if j == place {
                F::of_int(c)
            } else {
                F::zero_spec()
            },
    ensures
        cyclotomic::product_coeff(lift_plane::<F>(plane), last, k) == F::of_int(
            c * moved(plane, place, k),
        ),
{
    let d = plane.len() as int;
    let a = lift_plane::<F>(plane);
    let f = cyclotomic::product_term(a, last, k);
    let at = if k >= place {
        k - place
    } else {
        k - place + d
    };
    rl::lemma_neg_zero::<F>();
    assert forall|j: int| 0 <= j < d && j != at implies #[trigger] f(j) == F::zero_spec() by {
        cyclotomic::lemma_signed_near(last, k - j);
        rl::lemma_mul_identities(a[j]);
    }
    cyclotomic::lemma_sum_at(f, at, d);
    cyclotomic::lemma_signed_near(last, k - at);
    F::law_of_int(c, plane[at]);
    F::law_of_int(c, -plane[at]);
    F::law_of_int(plane[at], 0);
    F::law_mul_commutes(a[at], F::of_int(c));
    rl::lemma_neg_mul(a[at], F::of_int(c));
    rl::lemma_neg_mul(F::of_int(c), a[at]);
    rl::lemma_results_reduced(a[at], F::of_int(c));
    rl::lemma_results_reduced(a[at] * F::of_int(c), F::of_int(c));
}

/// What each block contributes to coefficient `k` of position `element`: its
/// ring element there times its challenge, in a block that reaches so far.
pub open spec fn block_products<F: Field>(
    elements: spec_fn(int) -> Seq<F>,
    count: int,
    challenges: Seq<SparseChallenge>,
    positions: int,
    element: int,
    d: nat,
    k: int,
) -> spec_fn(int) -> F {
    |i: int|
        if i * positions + element < count {
            cyclotomic::product_coeff(
                elements(i * positions + element),
                challenge_element::<F>(challenges[i], d),
                k,
            )
        } else {
            F::zero_spec()
        }
}

/// Planes as ring elements.
pub open spec fn lift_planes<F: Field>(planes: spec_fn(int) -> Seq<int>) -> spec_fn(int) -> Seq<F> {
    |i: int| lift_plane::<F>(planes(i))
}

proof fn lemma_folded_products<F: Field>(
    planes: spec_fn(int) -> Seq<int>,
    count: int,
    challenges: Seq<SparseChallenge>,
    positions: int,
    element: int,
    d: nat,
    k: int,
    n: nat,
)
    requires
        0 <= element < positions,
        0 <= k < d,
        n <= challenges.len(),
        forall|i: int| 0 <= i < count ==> (#[trigger] planes(i)).len() == d,
        forall|i: int| 0 <= i < challenges.len() ==> (#[trigger] challenges[i]).wf(d as int),
    ensures
        F::of_int(folded(planes, count, challenges, positions, element, k, n)) == rl::sum_range(
            block_products(lift_planes::<F>(planes), count, challenges, positions, element, d, k),
            0,
            n as int,
        ),
    decreases n,
{
    F::law_of_int(0, 0);
    if n > 0 {
        let m = (n - 1) as nat;
        lemma_folded_products::<F>(planes, count, challenges, positions, element, d, k, m);
        let place = m * positions + element;
        assert(0 <= place) by (nonlinear_arith)
            requires
                place == m * positions + element,
                0 <= m,
                0 <= positions,
                0 <= element,
        ;
        let before = folded(planes, count, challenges, positions, element, k, m);
        let challenge = challenges[m as int];
        if place < count {
            assert(planes(place).len() == d);
            law_challenges_multiply::<F>(planes(place), challenge, k);
            F::law_of_int(
                before,
                challenged(planes(place), challenge, k, challenge.coeffs@.len()),
            );
        } else {
            F::law_of_int(before, 0);
        }
    }
}

/// Every folded digit is the sum, over the blocks that reach its position, of
/// the digits there times the challenge of the block, in the ring. This holds in
/// every field, and so of the integers.
pub proof fn law_folds_are_ring_products<const P: u128, const D: usize, F: Field>(
    coeffs: Seq<[i32; D]>,
    entries: spec_fn(int) -> Seq<PrimeField<P>>,
    count: int,
    challenges: Seq<SparseChallenge>,
    positions: int,
    params: DecomposeParams,
    element: int,
    digit: int,
    k: int,
)
    requires
        all_folded(coeffs, entries, count, challenges, positions, params),
        0 <= element < positions,
        0 <= digit < params.num_digits,
        0 <= k < D,
        forall|i: int| 0 <= i < count ==> (#[trigger] entries(i)).len() == D,
        forall|i: int| 0 <= i < challenges.len() ==> (#[trigger] challenges[i]).wf(D as int),
    ensures
        F::of_int(coeffs[element * params.num_digits + digit]@[k] as int) == rl::sum_range(
            block_products(
                lift_planes::<F>(digit_planes(entries, params, digit as nat)),
                count,
                challenges,
                positions,
                element,
                D as nat,
                k,
            ),
            0,
            challenges.len() as int,
        ),
{
    let planes = digit_planes(entries, params, digit as nat);
    lemma_fold_at(coeffs, entries, count, challenges, positions, params, element, digit, k);
    assert forall|i: int| 0 <= i < count implies (#[trigger] planes(i)).len() == D by {
        assert(entries(i).len() == D);
    }
    lemma_folded_products::<F>(
        planes,
        count,
        challenges,
        positions,
        element,
        D as nat,
        k,
        challenges.len(),
    );
}

proof fn lemma_fold_at<const P: u128, const D: usize>(
    coeffs: Seq<[i32; D]>,
    entries: spec_fn(int) -> Seq<PrimeField<P>>,
    count: int,
    challenges: Seq<SparseChallenge>,
    positions: int,
    params: DecomposeParams,
    element: int,
    digit: int,
    k: int,
)
    requires
        all_folded(coeffs, entries, count, challenges, positions, params),
        0 <= element < positions,
        0 <= digit < params.num_digits,
        0 <= k < D,
    ensures
        0 <= element * params.num_digits + digit < coeffs.len(),
        coeffs[element * params.num_digits + digit]@[k] == folded(
            digit_planes(entries, params, digit as nat),
            count,
            challenges,
            positions,
            element,
            k,
            challenges.len(),
        ),
{
    let n = params.num_digits as int;
    assert(0 <= element * n && (element + 1) * n == element * n + n && (element + 1) * n
        <= positions * n) by (nonlinear_arith)
        requires
            0 <= element < positions,
            0 <= n,
    ;
    let part = coeffs.subrange(element * n, (element + 1) * n);
    assert(element_folded(
        part,
        entries,
        count,
        challenges,
        positions,
        params,
        element,
        challenges.len(),
    ));
    assert(part[digit]@[k] == coeffs[element * n + digit]@[k]);
}

/// The folded digits of a position, scaled by the powers of the base.
pub open spec fn scaled_digits<const P: u128, const D: usize>(
    w: DecomposeFoldWitness<P, D>,
    params: DecomposeParams,
    element: int,
    k: int,
) -> spec_fn(int) -> PrimeField<P> {
    |n: int|
        PrimeField::<P>::of_int(pow(pow2(params.log_basis as nat) as int, n as nat))
            * w.z_folded_rings@[element * params.num_digits + n]@[k]
}

/// The folded digits of a position, scaled by the powers of the base, make up
/// the sum over the blocks of the ring element at the position times the
/// challenge of the block, but for what the digits leave. Where they leave
/// nothing, they make up all of it.
pub proof fn law_folds_make_up_the_products<const P: u128, const D: usize>(
    w: DecomposeFoldWitness<P, D>,
    entries: spec_fn(int) -> Seq<PrimeField<P>>,
    count: int,
    challenges: Seq<SparseChallenge>,
    positions: int,
    params: DecomposeParams,
    element: int,
    k: int,
)
    requires
        w.wf(),
        all_folded(w.centered_coeffs@, entries, count, challenges, positions, params),
        params.wf(),
        0 <= element < positions,
        0 <= k < D,
        forall|i: int| 0 <= i < count ==> (#[trigger] entries(i)).len() == D,
        forall|i: int| 0 <= i < challenges.len() ==> (#[trigger] challenges[i]).wf(D as int),
    ensures
        ({
            let n = params.num_digits as int;
            let left = lift_planes::<PrimeField<P>>(rest_planes(entries, params, n as nat));
            let made = rl::sum_range(scaled_digits(w, params, element, k), 0, n);
            let whole = rl::sum_range(
                block_products(entries, count, challenges, positions, element, D as nat, k),
                0,
                challenges.len() as int,
            );
            &&& whole == made + PrimeField::<P>::of_int(
                pow(pow2(params.log_basis as nat) as int, n as nat),
            ) * rl::sum_range(
                block_products(left, count, challenges, positions, element, D as nat, k),
                0,
                challenges.len() as int,
            )
            &&& (forall|i: int, j: int|
                0 <= i < count && 0 <= j < D ==> #[trigger] rest_plane(
                    entries(i),
                    params,
                    n as nat,
                )[j] == 0) ==> whole == made
        }),
{
    let n = params.num_digits as nat;
    let all = challenges.len();
    let d = D as nat;
    let first = rest_planes(entries, params, 0);
    let last = rest_planes(entries, params, n);
    let lifted = lift_planes::<PrimeField<P>>(first);
    let left = lift_planes::<PrimeField<P>>(last);
    assert forall|i: int| 0 <= i < count implies (#[trigger] first(i)).len() == D by {
        assert(entries(i).len() == D);
    }
    assert forall|i: int| 0 <= i < count implies (#[trigger] last(i)).len() == D by {
        assert(entries(i).len() == D);
    }
    lemma_folded_products::<PrimeField<P>>(
        first,
        count,
        challenges,
        positions,
        element,
        d,
        k,
        all,
    );
    lemma_folded_products::<PrimeField<P>>(last, count, challenges, positions, element, d, k, all);
    lemma_scaled_digits(w, entries, count, challenges, positions, params, element, k, n);
    let f = block_products(entries, count, challenges, positions, element, d, k);
    let g = block_products(lifted, count, challenges, positions, element, d, k);
    assert forall|i: int| 0 <= i < all implies #[trigger] f(i) == g(i) by {
        let place = i * positions + element;
        assert(0 <= place) by (nonlinear_arith)
            requires
                place == i * positions + element,
                0 <= i,
                0 <= element < positions,
        ;
        if place < count {
            assert(entries(place).len() == D);
            lemma_lifted_products(
                entries(place),
                params,
                challenge_element::<PrimeField<P>>(challenges[i], d),
                k,
            );
        }
    }
    rl::lemma_sum_congruent(f, g, 0, all as int);
    if forall|i: int, j: int|
        0 <= i < count && 0 <= j < D ==> #[trigger] rest_plane(entries(i), params, n)[j] == 0 {
        let h = block_products(left, count, challenges, positions, element, d, k);
        PrimeField::<P>::law_of_int(0, 0);
        assert forall|i: int| 0 <= i < all implies #[trigger] h(i)
            == PrimeField::<P>::zero_spec() by {
            let place = i * positions + element;
            assert(0 <= place) by (nonlinear_arith)
                requires
                    place == i * positions + element,
                    0 <= i,
                    0 <= element < positions,
            ;
            if place < count {
                let b = challenge_element::<PrimeField<P>>(challenges[i], d);
                let t = cyclotomic::product_term(left(place), b, k);
                assert(entries(place).len() == D);
                assert(left(place).len() == D);
                assert forall|j: int| 0 <= j < D implies #[trigger] t(j)
                    == PrimeField::<P>::zero_spec() by {
                    assert(rest_plane(entries(place), params, n)[j] == 0);
                    rl::lemma_mul_identities(cyclotomic::signed(b, k - j));
                }
                rl::lemma_sum_zero(t, 0, D as int);
            }
        }
        rl::lemma_sum_zero(h, 0, all as int);
        rl::lemma_mul_identities(
            PrimeField::<P>::of_int(pow(pow2(params.log_basis as nat) as int, n)),
        );
        rl::lemma_sum_reduced(scaled_digits(w, params, element, k), 0, n as int);
    }
}

proof fn lemma_lifted_products<const P: u128>(
    entry: Seq<PrimeField<P>>,
    params: DecomposeParams,
    b: Seq<PrimeField<P>>,
    k: int,
)
    ensures
        cyclotomic::product_coeff(entry, b, k) == cyclotomic::product_coeff(
            lift_plane::<PrimeField<P>>(rest_plane(entry, params, 0)),
            b,
            k,
        ),
{
    let a = lift_plane::<PrimeField<P>>(rest_plane(entry, params, 0));
    let f = cyclotomic::product_term(entry, b, k);
    let g = cyclotomic::product_term(a, b, k);
    assert forall|j: int| 0 <= j < entry.len() implies #[trigger] f(j) == g(j) by {
        lemma_representative(entry[j], params.threshold as int);
        rl::lemma_reduced_mul(entry[j], cyclotomic::signed(b, k - j));
    }
    rl::lemma_sum_congruent(f, g, 0, entry.len() as int);
}

proof fn lemma_scaled_digits<const P: u128, const D: usize>(
    w: DecomposeFoldWitness<P, D>,
    entries: spec_fn(int) -> Seq<PrimeField<P>>,
    count: int,
    challenges: Seq<SparseChallenge>,
    positions: int,
    params: DecomposeParams,
    element: int,
    k: int,
    n: nat,
)
    requires
        w.wf(),
        all_folded(w.centered_coeffs@, entries, count, challenges, positions, params),
        params.wf(),
        n <= params.num_digits,
        0 <= element < positions,
        0 <= k < D,
        forall|i: int| 0 <= i < count ==> (#[trigger] entries(i)).len() == D,
        forall|i: int| 0 <= i < challenges.len() ==> (#[trigger] challenges[i]).wf(D as int),
    ensures
        PrimeField::<P>::of_int(
            folded(
                rest_planes(entries, params, 0),
                count,
                challenges,
                positions,
                element,
                k,
                challenges.len(),
            ),
        ) == rl::sum_range(scaled_digits(w, params, element, k), 0, n as int)
            + PrimeField::<P>::of_int(pow(pow2(params.log_basis as nat) as int, n))
            * PrimeField::<P>::of_int(
            folded(
                rest_planes(entries, params, n),
                count,
                challenges,
                positions,
                element,
                k,
                challenges.len(),
            ),
        ),
    decreases n,
{
    let b = pow2(params.log_basis as nat) as int;
    let all = challenges.len();
    law_bases_are_powers_of_two(params.log_basis);
    let rest = folded(
        rest_planes(entries, params, n),
        count,
        challenges,
        positions,
        element,
        k,
        all,
    );
    if n == 0 {
        lemma_pow0(b);
        PrimeField::<P>::law_of_int(rest, 0);
        rl::lemma_mul_identities(PrimeField::<P>::of_int(rest));
        rl::lemma_zero_add(PrimeField::<P>::of_int(rest));
    } else {
        let m = (n - 1) as nat;
        lemma_scaled_digits(w, entries, count, challenges, positions, params, element, k, m);
        lemma_fold_at(
            w.centered_coeffs@,
            entries,
            count,
            challenges,
            positions,
            params,
            element,
            m as int,
            k,
        );
        lemma_recomposed(entries, count, challenges, positions, params, element, D as int, k, m, n);
        lemma_recomposed(entries, count, challenges, positions, params, element, D as int, k, n, n);
        reveal_with_fuel(recomposed_folds, 2);
        let whole = folded(
            rest_planes(entries, params, m),
            count,
            challenges,
            positions,
            element,
            k,
            all,
        );
        let digit = folded(
            digit_planes(entries, params, m),
            count,
            challenges,
            positions,
            element,
            k,
            all,
        );
        assert(whole == digit + b * rest);
        let p = pow(b, m);
        assert(pow(b, n) == b * p) by {
            reveal(pow);
        }
        assert(p * whole == p * digit + (b * p) * rest) by (nonlinear_arith)
            requires
                whole == digit + b * rest,
        ;
        let at = element * params.num_digits + m;
        assert(w.z_folded_rings@[at]@ == quotients::lift32::<PrimeField<P>>(
            w.centered_coeffs@[at]@,
        ));
        assert(w.z_folded_rings@[at]@[k] == PrimeField::<P>::of_int(digit));
        PrimeField::<P>::law_of_int(p, whole);
        PrimeField::<P>::law_of_int(p, digit);
        PrimeField::<P>::law_of_int(b * p, rest);
        PrimeField::<P>::law_of_int(p * digit, (b * p) * rest);
        let f = scaled_digits(w, params, element, k);
        assert(f(m as int) == PrimeField::<P>::of_int(p * digit));
        PrimeField::<P>::law_add_associates(
            rl::sum_range(f, 0, m as int),
            PrimeField::<P>::of_int(p * digit),
            PrimeField::<P>::of_int((b * p) * rest),
        );
    }
}

/// A fold witness holds its coefficients as ring elements, and its norm is the
/// largest magnitude among them.
pub proof fn law_witnesses_hold_their_coefficients<const P: u128, const D: usize>(
    witness: DecomposeFoldWitness<P, D>,
    i: int,
    k: int,
)
    requires
        witness.wf(),
        0 <= i < witness.centered_coeffs@.len(),
        0 <= k < D,
    ensures
        witness.z_folded_rings@.len() == witness.centered_coeffs@.len(),
        witness.z_folded_rings@[i]@[k] == PrimeField::<P>::of_int(
            witness.centered_coeffs@[i]@[k] as int,
        ),
        -witness.centered_inf_norm <= witness.centered_coeffs@[i]@[k] <= witness.centered_inf_norm,
        witness.centered_inf_norm > 0 ==> exists|j: int, l: int|
            0 <= j < witness.centered_coeffs@.len() && 0 <= l < D && (
            #[trigger] witness.centered_coeffs@[j]@[l] == witness.centered_inf_norm
                || witness.centered_coeffs@[j]@[l] == -witness.centered_inf_norm),
{
    quotients::law_least_bounds_are_reached(witness.centered_coeffs@);
}

} // verus!
