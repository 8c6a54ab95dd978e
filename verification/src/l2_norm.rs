//! The proof that a folded response is short.
//!
//! The squared norm of the response is either proved directly, as a sum of
//! squares that cannot wrap, or limb by limb: the response is cut into blocks,
//! every block comes with the inner products of its limbs, small enough to be
//! read back as integers, and the norm follows from those over the integers.
//! Both are reduced, together with a range claim, to the values of the limbs at
//! one point.

use crate::eq_poly;
use crate::eq_poly::EqPolynomial;
use crate::error;
use crate::error::{AkitaError, ErrorModel};
use crate::field::Field;
use crate::params::SisModulusProfileId;
use crate::prime_field::PrimeField;
use crate::ring_lemmas as rl;
use crate::transcript::{ChallengeSite, Replies, TranscriptEntry, VerifierTranscript};
use vstd::arithmetic::power2::*;
use vstd::prelude::*;

verus! {

// ---------------------------------------------------------------------------
// Fields
// ---------------------------------------------------------------------------

/// An extension of a prime field, seen through coordinates.
pub trait Extension<const P: u128>: Field {
    /// The coordinates over the prime field.
    spec fn coords(self) -> Seq<PrimeField<P>>;

    fn ext_coords(self) -> (r: Vec<PrimeField<P>>)
        ensures
            r@ == self.coords(),
    ;

    /// The image of a wide integer.
    fn from_u128(value: u128) -> (r: Self)
        ensures
            r == Self::of_int(value as int),
    ;
}

impl<const P: u128> Extension<P> for PrimeField<P> {
    open spec fn coords(self) -> Seq<PrimeField<P>> {
        seq![self]
    }

    fn ext_coords(self) -> (r: Vec<PrimeField<P>>) {
        let mut coords: Vec<PrimeField<P>> = Vec::new();
        coords.push(self);
        assert(coords@ =~= seq![self]);
        coords
    }

    fn from_u128(value: u128) -> (r: Self) {
        PrimeField::from_u128_reduced(value)
    }
}

/// Whether a value lies in the prime field.
pub open spec fn in_prime_field<const P: u128, E: Extension<P>>(value: E) -> bool {
    let coords = value.coords();
    &&& coords.len() > 0
    &&& forall|i: int|
        1 <= i < coords.len() ==> #[trigger] coords[i] == PrimeField::<P>::zero_spec()
}

/// The integer of least magnitude that a value stands for: only values of the
/// prime field stand for one, and only small fields have them.
pub open spec fn lifted<const P: u128, E: Extension<P>>(value: E, modulus: int) -> Option<int> {
    if !in_prime_field::<P, E>(value) || modulus > i128::MAX {
        None
    } else {
        let canonical = value.coords()[0].value_spec();
        if canonical <= modulus / 2 {
            Some(canonical)
        } else {
            Some(canonical - modulus)
        }
    }
}

/// What is said where a field is too large for integers of least magnitude.
pub open spec fn lift_text() -> Seq<char> {
    "centered limb lifting is only defined for small fields"@
}

/// The integer of least magnitude that a value stands for.
pub fn centered_lift<const P: u128, E: Extension<P>>(
    value: E,
    profile: SisModulusProfileId,
) -> (r: Result<i128, AkitaError>)
    requires
        in_prime_field::<P, E>(value) && profile.prime() <= i128::MAX && profile.prime()
            < PrimeField::<P>::modulus_spec() ==> value.coords()[0].value_spec()
            <= profile.prime(),
    ensures
        match r {
            Ok(n) => lifted::<P, E>(value, profile.prime()) == Some(n as int),
            Err(e) => lifted::<P, E>(value, profile.prime()) is None && if in_prime_field::<P, E>(
                value,
            ) {
                e.is_setup(lift_text())
            } else {
                e is InvalidProof
            },
        },
{
    let coords = value.ext_coords();
    if coords.len() == 0 {
        return Err(AkitaError::InvalidProof);
    }
    let mut i: usize = 1;
    while i < coords.len()
        invariant
            1 <= i,
            coords@ == value.coords(),
            coords@.len() > 0,
            i <= coords@.len(),
            forall|j: int| 1 <= j < i ==> #[trigger] coords@[j] == PrimeField::<P>::zero_spec(),
        decreases coords@.len() - i,
    {
        if !coords[i].is_zero() {
            assert(value.coords()[i as int] != PrimeField::<P>::zero_spec());
            return Err(AkitaError::InvalidProof);
        }
        i += 1;
    }
    let modulus: u128 = profile.modulus();
    if modulus > 0x7fff_ffff_ffff_ffff_ffff_ffff_ffff_ffff {
        return Err(
            AkitaError::setup("centered limb lifting is only defined for small fields"),
        );
    }
    let canonical: u128 = coords[0].to_u128();
    if canonical <= modulus / 2 {
        Ok(canonical as i128)
    } else {
        Ok(-((modulus - canonical) as i128))
    }
}

// ---------------------------------------------------------------------------
// Layouts
// ---------------------------------------------------------------------------

/// How the norm of a response is proved.
#[derive(Clone, Copy, Debug, PartialEq, Eq, Structural)]
pub enum PhysicalL2NormProofShape {
    /// As one sum of squares.
    Direct { response_len: usize },
    /// From the inner products of the limbs of every block.
    LimbGram { response_len: usize, block_len: usize, limb_count: usize },
}

/// The plan of a response: its proof, its domain and its digits.
#[derive(Clone, Copy, Debug, PartialEq, Eq, Structural)]
pub struct PhysicalResponsePlan {
    pub shape: PhysicalL2NormProofShape,
    pub num_vars: usize,
    pub fold_basis: usize,
    pub fold_digit_count: usize,
}

/// Blocks and limbs.
#[derive(Clone, Copy, Debug, PartialEq, Eq, Structural)]
pub struct LimbGramLayout {
    pub response_len: usize,
    pub block_len: usize,
    pub limb_count: usize,
}

/// The number of pairs of limbs, each with itself and with every later one.
pub open spec fn pairs(limbs: int) -> int {
    limbs * (limbs + 1) / 2
}

/// The pairs whose first limb comes before `left`.
pub open spec fn pairs_before(limbs: int, left: int) -> int
    decreases left,
{
    if left <= 0 {
        0
    } else {
        pairs_before(limbs, left - 1) + (limbs - (left - 1))
    }
}

impl LimbGramLayout {
    pub open spec fn blocks(self) -> int {
        crate::checked::ceil_div(self.response_len as int, self.block_len as int)
    }

    /// Whether the layout has blocks and its counts fit.
    pub open spec fn wf(self) -> bool {
        &&& self.block_len > 0
        &&& self.limb_count > 0
        &&& self.response_len > 0
        &&& self.limb_count * (self.limb_count + 1) <= usize::MAX
        &&& self.blocks() * self.pair_total() <= usize::MAX
    }

    pub open spec fn pair_total(self) -> int {
        pairs_before(self.limb_count as int, self.limb_count as int)
    }

    /// The place of a pair of limbs among the pairs.
    pub open spec fn pair_place(self, left: int, right: int) -> int {
        pairs_before(self.limb_count as int, left) + (right - left)
    }

    /// Where block `b` begins.
    pub open spec fn cut(self, b: int) -> int {
        if b * self.block_len < self.response_len {
            b * self.block_len
        } else {
            self.response_len as int
        }
    }
}

/// The layout of a limb-by-limb proof, if it has one.
pub open spec fn layout_of(shape: PhysicalL2NormProofShape) -> Option<LimbGramLayout> {
    match shape {
        PhysicalL2NormProofShape::Direct { .. } => None,
        PhysicalL2NormProofShape::LimbGram { response_len, block_len, limb_count } => {
            let layout = LimbGramLayout { response_len, block_len, limb_count };
            if layout.wf() {
                Some(layout)
            } else {
                None
            }
        },
    }
}

proof fn lemma_pairs(limbs: int, left: int)
    requires
        0 <= left <= limbs,
    ensures
        2 * pairs_before(limbs, left) == left * (2 * limbs - left + 1),
        0 <= pairs_before(limbs, left),
    decreases left,
{
    if left > 0 {
        lemma_pairs(limbs, left - 1);
        assert(left * (2 * limbs - left + 1) == (left - 1) * (2 * limbs - (left - 1) + 1) + 2 * (
        limbs - (left - 1))) by (nonlinear_arith);
    } else {
        assert(0 * (2 * limbs - 0 + 1) == 0);
    }
}

/// Places of pairs are within the pairs.
proof fn lemma_place(layout: LimbGramLayout, left: int, right: int)
    requires
        0 <= left <= right < layout.limb_count,
    ensures
        0 <= layout.pair_place(left, right) < layout.pair_total(),
{
    lemma_pairs(layout.limb_count as int, left);
    lemma_before_grows(layout.limb_count as int, left + 1, layout.limb_count as int);
}

proof fn lemma_before_grows(limbs: int, a: int, b: int)
    requires
        0 <= a <= b <= limbs,
    ensures
        pairs_before(limbs, a) <= pairs_before(limbs, b),
    decreases b - a,
{
    if a < b {
        lemma_before_grows(limbs, a, b - 1);
    }
}

// ---------------------------------------------------------------------------
// The integer claim
// ---------------------------------------------------------------------------

/// A proof of the norm: the claimed norm, the inner products, the values of the
/// limbs at the point.
pub struct PhysicalL2NormProof<E> {
    pub response_l2_sq: u128,
    pub subclaims: Vec<E>,
    pub virtual_evaluations: Vec<E>,
}

/// Two to the number of times that a pair of limbs occurs in a square.
pub open spec fn multiplicity(left: int, right: int) -> int {
    if left == right {
        1
    } else {
        2
    }
}

/// The power of the basis that a limb stands for.
pub open spec fn limb_scale(basis: int, limb: int) -> int
    decreases limb,
{
    if limb <= 0 {
        1
    } else {
        basis * limb_scale(basis, limb - 1)
    }
}

/// The contribution of one inner product to the norm.
pub open spec fn gram_term(basis: int, left: int, right: int, product: int) -> int {
    multiplicity(left, right) * (limb_scale(basis, left) * limb_scale(basis, right)) * product
}

/// The contributions of the pairs `(left, right)` with `right` from `left` up
/// to but not including `end`, in one block.
pub open spec fn row_norm(
    layout: LimbGramLayout,
    basis: int,
    products: Seq<int>,
    block: int,
    left: int,
    end: int,
) -> int
    decreases end - left,
{
    if end <= left {
        0
    } else {
        row_norm(layout, basis, products, block, left, end - 1) + gram_term(
            basis,
            left,
            end - 1,
            products[block * layout.pair_total() + layout.pair_place(left, end - 1)],
        )
    }
}

/// The contributions of all pairs whose first limb comes before `lefts`.
pub open spec fn block_norm(
    layout: LimbGramLayout,
    basis: int,
    products: Seq<int>,
    block: int,
    lefts: int,
) -> int
    decreases lefts,
{
    if lefts <= 0 {
        0
    } else {
        block_norm(layout, basis, products, block, lefts - 1) + row_norm(
            layout,
            basis,
            products,
            block,
            lefts - 1,
            layout.limb_count as int,
        )
    }
}

/// The norm that the inner products of the first `blocks` blocks make up.
pub open spec fn gram_norm(
    layout: LimbGramLayout,
    basis: int,
    products: Seq<int>,
    blocks: int,
) -> int
    decreases blocks,
{
    if blocks <= 0 {
        0
    } else {
        gram_norm(layout, basis, products, blocks - 1) + block_norm(
            layout,
            basis,
            products,
            blocks - 1,
            layout.limb_count as int,
        )
    }
}

// ---------------------------------------------------------------------------
// What the inner products of limbs make up
// ---------------------------------------------------------------------------

/// The inner product of two limbs over the places from `lo` up to `hi`.
pub open spec fn limb_dot(
    limbs: spec_fn(int, int) -> int,
    left: int,
    right: int,
    lo: int,
    hi: int,
) -> int
    decreases hi - lo,
{
    if hi <= lo {
        0
    } else {
        limb_dot(limbs, left, right, lo, hi - 1) + limbs(left, hi - 1) * limbs(right, hi - 1)
    }
}

/// What the first `count` limbs of a place make up.
pub open spec fn place_value(
    limbs: spec_fn(int, int) -> int,
    basis: int,
    count: int,
    place: int,
) -> int
    decreases count,
{
    if count <= 0 {
        0
    } else {
        place_value(limbs, basis, count - 1, place) + limb_scale(basis, count - 1) * limbs(
            count - 1,
            place,
        )
    }
}

/// The sum of the squares of the places from `lo` up to `hi`.
pub open spec fn squared_norm(
    limbs: spec_fn(int, int) -> int,
    basis: int,
    count: int,
    lo: int,
    hi: int,
) -> int
    decreases hi - lo,
{
    if hi <= lo {
        0
    } else {
        squared_norm(limbs, basis, count, lo, hi - 1) + place_value(limbs, basis, count, hi - 1)
            * place_value(limbs, basis, count, hi - 1)
    }
}

/// The contributions of [`row_norm`] from the inner product of every pair.
spec fn row_of(basis: int, dots: spec_fn(int, int) -> int, left: int, end: int) -> int
    decreases end - left,
{
    if end <= left {
        0
    } else {
        row_of(basis, dots, left, end - 1) + gram_term(basis, left, end - 1, dots(left, end - 1))
    }
}

/// The contributions of [`block_norm`] from the inner product of every pair.
spec fn block_of(basis: int, dots: spec_fn(int, int) -> int, lefts: int, count: int) -> int
    decreases lefts,
{
    if lefts <= 0 {
        0
    } else {
        block_of(basis, dots, lefts - 1, count) + row_of(basis, dots, lefts - 1, count)
    }
}

proof fn lemma_row_of(
    layout: LimbGramLayout,
    basis: int,
    products: Seq<int>,
    block: int,
    dots: spec_fn(int, int) -> int,
    left: int,
    end: int,
)
    requires
        0 <= left,
        end <= layout.limb_count,
        forall|l: int, r: int|
            0 <= l <= r < layout.limb_count ==> #[trigger] dots(l, r) == products[block
                * layout.pair_total() + layout.pair_place(l, r)],
    ensures
        row_norm(layout, basis, products, block, left, end) == row_of(basis, dots, left, end),
    decreases end - left,
{
    if left < end {
        lemma_row_of(layout, basis, products, block, dots, left, end - 1);
        assert(dots(left, end - 1) == products[block * layout.pair_total() + layout.pair_place(
            left,
            end - 1,
        )]);
    }
}

proof fn lemma_block_of(
    layout: LimbGramLayout,
    basis: int,
    products: Seq<int>,
    block: int,
    dots: spec_fn(int, int) -> int,
    lefts: int,
)
    requires
        forall|l: int, r: int|
            0 <= l <= r < layout.limb_count ==> #[trigger] dots(l, r) == products[block
                * layout.pair_total() + layout.pair_place(l, r)],
    ensures
        block_norm(layout, basis, products, block, lefts) == block_of(
            basis,
            dots,
            lefts,
            layout.limb_count as int,
        ),
    decreases lefts,
{
    if lefts > 0 {
        lemma_block_of(layout, basis, products, block, dots, lefts - 1);
        lemma_row_of(
            layout,
            basis,
            products,
            block,
            dots,
            lefts - 1,
            layout.limb_count as int,
        );
    }
}

/// Contributions add up with the inner products.
proof fn lemma_row_adds(
    basis: int,
    f: spec_fn(int, int) -> int,
    g: spec_fn(int, int) -> int,
    h: spec_fn(int, int) -> int,
    left: int,
    end: int,
)
    requires
        forall|l: int, r: int| #[trigger] h(l, r) == f(l, r) + g(l, r),
    ensures
        row_of(basis, h, left, end) == row_of(basis, f, left, end) + row_of(basis, g, left, end),
    decreases end - left,
{
    if left < end {
        lemma_row_adds(basis, f, g, h, left, end - 1);
        let scale = multiplicity(left, end - 1) * (limb_scale(basis, left) * limb_scale(
            basis,
            end - 1,
        ));
        let (x, y) = (f(left, end - 1), g(left, end - 1));
        assert(h(left, end - 1) == x + y);
        assert(scale * (x + y) == scale * x + scale * y) by (nonlinear_arith);
    }
}

proof fn lemma_block_adds(
    basis: int,
    f: spec_fn(int, int) -> int,
    g: spec_fn(int, int) -> int,
    h: spec_fn(int, int) -> int,
    lefts: int,
    count: int,
)
    requires
        forall|l: int, r: int| #[trigger] h(l, r) == f(l, r) + g(l, r),
    ensures
        block_of(basis, h, lefts, count) == block_of(basis, f, lefts, count) + block_of(
            basis,
            g,
            lefts,
            count,
        ),
    decreases lefts,
{
    if lefts > 0 {
        lemma_block_adds(basis, f, g, h, lefts - 1, count);
        lemma_row_adds(basis, f, g, h, lefts - 1, count);
    }
}

/// A limb with itself once and with every later limb twice.
proof fn lemma_row_of_place(
    limbs: spec_fn(int, int) -> int,
    basis: int,
    place: int,
    left: int,
    end: int,
)
    requires
        0 <= left < end,
    ensures
        ({
            let own = limb_scale(basis, left) * limbs(left, place);
            let later = place_value(limbs, basis, end, place) - place_value(
                limbs,
                basis,
                left + 1,
                place,
            );
            row_of(basis, |l: int, r: int| limbs(l, place) * limbs(r, place), left, end) == own
                * own + 2 * (own * later)
        }),
    decreases end - left,
{
    let dots = |l: int, r: int| limbs(l, place) * limbs(r, place);
    let (s, x) = (limb_scale(basis, left), limbs(left, place));
    let own = s * x;
    if end == left + 1 {
        assert(row_of(basis, dots, left, left) == 0);
        assert(dots(left, left) == x * x);
        assert(1 * (s * s) * (x * x) == (s * x) * (s * x) + 2 * ((s * x) * 0)) by (nonlinear_arith);
    } else {
        lemma_row_of_place(limbs, basis, place, left, end - 1);
        let (t, y) = (limb_scale(basis, end - 1), limbs(end - 1, place));
        let before = place_value(limbs, basis, end - 1, place) - place_value(
            limbs,
            basis,
            left + 1,
            place,
        );
        assert(dots(left, end - 1) == x * y);
        assert(2 * (s * t) * (x * y) == 2 * ((s * x) * (t * y))) by (nonlinear_arith);
        assert(own * (before + t * y) == own * before + own * (t * y)) by (nonlinear_arith);
    }
}

/// The contributions of the limbs before `lefts` leave the square of the rest.
proof fn lemma_block_of_place(
    limbs: spec_fn(int, int) -> int,
    basis: int,
    place: int,
    lefts: int,
    count: int,
)
    requires
        0 <= lefts <= count,
    ensures
        ({
            let whole = place_value(limbs, basis, count, place);
            let rest = whole - place_value(limbs, basis, lefts, place);
            block_of(basis, |l: int, r: int| limbs(l, place) * limbs(r, place), lefts, count)
                == whole * whole - rest * rest
        }),
    decreases lefts,
{
    let dots = |l: int, r: int| limbs(l, place) * limbs(r, place);
    let whole = place_value(limbs, basis, count, place);
    if lefts > 0 {
        lemma_block_of_place(limbs, basis, place, lefts - 1, count);
        lemma_row_of_place(limbs, basis, place, lefts - 1, count);
        let own = limb_scale(basis, lefts - 1) * limbs(lefts - 1, place);
        let rest = whole - place_value(limbs, basis, lefts, place);
        assert((rest + own) * (rest + own) == rest * rest + (own * own + 2 * (own * rest)))
            by (nonlinear_arith);
    } else {
        assert(block_of(basis, dots, 0, count) == 0);
        assert(whole - 0 == whole);
    }
}

/// The inner products over a range of places make up the squares of the range.
proof fn lemma_range_norm(
    limbs: spec_fn(int, int) -> int,
    basis: int,
    count: int,
    lo: int,
    hi: int,
)
    requires
        0 <= count,
        lo <= hi,
    ensures
        block_of(basis, |l: int, r: int| limb_dot(limbs, l, r, lo, hi), count, count)
            == squared_norm(limbs, basis, count, lo, hi),
    decreases hi - lo,
{
    let dots = |l: int, r: int| limb_dot(limbs, l, r, lo, hi);
    if lo < hi {
        lemma_range_norm(limbs, basis, count, lo, hi - 1);
        let before = |l: int, r: int| limb_dot(limbs, l, r, lo, hi - 1);
        let last = |l: int, r: int| limbs(l, hi - 1) * limbs(r, hi - 1);
        lemma_block_adds(basis, before, last, dots, count, count);
        lemma_block_of_place(limbs, basis, hi - 1, count, count);
        let whole = place_value(limbs, basis, count, hi - 1);
        assert((whole - whole) * (whole - whole) == 0) by (nonlinear_arith);
    } else {
        lemma_no_products(basis, dots, count, count);
    }
}

proof fn lemma_no_products(basis: int, dots: spec_fn(int, int) -> int, lefts: int, count: int)
    requires
        forall|l: int, r: int| #[trigger] dots(l, r) == 0,
    ensures
        block_of(basis, dots, lefts, count) == 0,
    decreases lefts,
{
    if lefts > 0 {
        lemma_no_products(basis, dots, lefts - 1, count);
        lemma_no_row(basis, dots, lefts - 1, count);
    }
}

proof fn lemma_no_row(basis: int, dots: spec_fn(int, int) -> int, left: int, end: int)
    requires
        forall|l: int, r: int| #[trigger] dots(l, r) == 0,
    ensures
        row_of(basis, dots, left, end) == 0,
    decreases end - left,
{
    if left < end {
        lemma_no_row(basis, dots, left, end - 1);
        assert(dots(left, end - 1) == 0);
        let scale = multiplicity(left, end - 1) * (limb_scale(basis, left) * limb_scale(
            basis,
            end - 1,
        ));
        assert(scale * 0 == 0);
    }
}

proof fn lemma_squares_join(
    limbs: spec_fn(int, int) -> int,
    basis: int,
    count: int,
    lo: int,
    mid: int,
    hi: int,
)
    requires
        lo <= mid <= hi,
    ensures
        squared_norm(limbs, basis, count, lo, hi) == squared_norm(limbs, basis, count, lo, mid)
            + squared_norm(limbs, basis, count, mid, hi),
    decreases hi - mid,
{
    if mid < hi {
        lemma_squares_join(limbs, basis, count, lo, mid, hi - 1);
    }
}

/// Whether integers are the inner products of the limbs of the first `blocks`
/// blocks.
pub open spec fn are_inner_products(
    layout: LimbGramLayout,
    limbs: spec_fn(int, int) -> int,
    products: Seq<int>,
    blocks: int,
) -> bool {
    forall|b: int, l: int, r: int|
        0 <= b < blocks && 0 <= l <= r < layout.limb_count ==> #[trigger] limb_dot(
            limbs,
            l,
            r,
            layout.cut(b),
            layout.cut(b + 1),
        ) == products[b * layout.pair_total() + layout.pair_place(l, r)]
}

/// The inner products of the limbs of a response make up its squared norm.
pub proof fn law_inner_products_make_up_the_norm(
    layout: LimbGramLayout,
    limbs: spec_fn(int, int) -> int,
    basis: int,
    products: Seq<int>,
)
    requires
        layout.wf(),
        are_inner_products(layout, limbs, products, layout.blocks()),
    ensures
        gram_norm(layout, basis, products, layout.blocks()) == squared_norm(
            limbs,
            basis,
            layout.limb_count as int,
            0,
            layout.response_len as int,
        ),
{
    let (n, d) = (layout.response_len as int, layout.block_len as int);
    let blocks = layout.blocks();
    vstd::arithmetic::div_mod::lemma_fundamental_div_mod(n + d - 1, d);
    vstd::arithmetic::div_mod::lemma_mod_bound(n + d - 1, d);
    assert(d * blocks == blocks * d) by (nonlinear_arith);
    vstd::arithmetic::div_mod::lemma_div_pos_is_pos(n + d - 1, d);
    lemma_blocks_norm(layout, limbs, basis, products, blocks);
}

proof fn lemma_blocks_norm(
    layout: LimbGramLayout,
    limbs: spec_fn(int, int) -> int,
    basis: int,
    products: Seq<int>,
    blocks: int,
)
    requires
        layout.wf(),
        0 <= blocks,
        are_inner_products(layout, limbs, products, blocks),
    ensures
        gram_norm(layout, basis, products, blocks) == squared_norm(
            limbs,
            basis,
            layout.limb_count as int,
            0,
            layout.cut(blocks),
        ),
    decreases blocks,
{
    let count = layout.limb_count as int;
    let d = layout.block_len as int;
    if blocks > 0 {
        let b = blocks - 1;
        let (lo, hi) = (layout.cut(b), layout.cut(blocks));
        lemma_blocks_norm(layout, limbs, basis, products, b);
        assert(0 <= b * d && blocks * d == b * d + d) by (nonlinear_arith)
            requires
                blocks == b + 1,
                0 <= b,
                0 < d,
        ;
        let dots = |l: int, r: int| limb_dot(limbs, l, r, lo, hi);
        assert forall|l: int, r: int|
            0 <= l <= r < layout.limb_count implies #[trigger] dots(l, r) == products[b
            * layout.pair_total() + layout.pair_place(l, r)] by {
            assert(limb_dot(limbs, l, r, layout.cut(b), layout.cut(b + 1)) == products[b
                * layout.pair_total() + layout.pair_place(l, r)]);
        }
        lemma_block_of(layout, basis, products, b, dots, count);
        lemma_range_norm(limbs, basis, count, lo, hi);
        lemma_squares_join(limbs, basis, count, 0, lo, hi);
    } else {
        assert(0 * d == 0);
    }
}

/// Whether an integer fits the arithmetic that norms are added up in.
pub open spec fn fits_wide(n: int) -> bool {
    i128::MIN <= n <= i128::MAX
}

/// Whether a contribution can be computed.
pub open spec fn term_fits(basis: int, left: int, right: int, product: int) -> bool {
    let scale = limb_scale(basis, left) * limb_scale(basis, right);
    &&& fits_wide(scale)
    &&& fits_wide(multiplicity(left, right) * scale)
    &&& fits_wide(gram_term(basis, left, right, product))
}

/// Whether the contributions of [`row_norm`] can be added up.
pub open spec fn row_fits(
    layout: LimbGramLayout,
    basis: int,
    products: Seq<int>,
    block: int,
    left: int,
    end: int,
) -> bool
    decreases end - left,
{
    if end <= left {
        true
    } else {
        &&& row_fits(layout, basis, products, block, left, end - 1)
        &&& term_fits(
            basis,
            left,
            end - 1,
            products[block * layout.pair_total() + layout.pair_place(left, end - 1)],
        )
        &&& fits_wide(row_norm(layout, basis, products, block, left, end))
    }
}

/// Whether the contributions of [`block_norm`] can be added up.
pub open spec fn block_fits(
    layout: LimbGramLayout,
    basis: int,
    products: Seq<int>,
    block: int,
    lefts: int,
) -> bool
    decreases lefts,
{
    if lefts <= 0 {
        true
    } else {
        &&& block_fits(layout, basis, products, block, lefts - 1)
        &&& row_fits(layout, basis, products, block, lefts - 1, layout.limb_count as int)
        &&& fits_wide(block_norm(layout, basis, products, block, lefts))
    }
}

/// Whether the contributions of [`gram_norm`] can be added up.
pub open spec fn gram_fits(
    layout: LimbGramLayout,
    basis: int,
    products: Seq<int>,
    blocks: int,
) -> bool
    decreases blocks,
{
    if blocks <= 0 {
        true
    } else {
        &&& gram_fits(layout, basis, products, blocks - 1)
        &&& block_fits(layout, basis, products, blocks - 1, layout.limb_count as int)
        &&& fits_wide(gram_norm(layout, basis, products, blocks))
    }
}

/// Whether the norm that inner products make up can be computed.
pub open spec fn norm_computable(layout: LimbGramLayout, basis: int, products: Seq<int>) -> bool {
    &&& limb_scale(basis, layout.limb_count - 1) <= i128::MAX
    &&& gram_fits(layout, basis, products, layout.blocks())
}

/// What the sizes of a plan mean for soundness.
pub trait NormSoundness: Sized {
    /// Whether integers of a plan cannot wrap in the field.
    spec fn sound(&self, plan: PhysicalResponsePlan, profile: SisModulusProfileId) -> bool;

    /// The error that a plan is refused with which is not sound.
    spec fn refusal_of(&self, plan: PhysicalResponsePlan, profile: SisModulusProfileId) -> Option<
        ErrorModel,
    >;

    fn check_sound(&self, plan: &PhysicalResponsePlan, profile: SisModulusProfileId) -> (r: Result<
        (),
        AkitaError,
    >)
        ensures
            error::settles(r, self.sound(*plan, profile), self.refusal_of(*plan, profile)),
    ;
}

/// The bound on an inner product of two limbs of a block.
pub open spec fn product_bound(plan: PhysicalResponsePlan, block_len: usize) -> int {
    let digit = plan.fold_basis as int / 2;
    block_len * (digit * digit)
}

/// The inner products of a proof as integers, where all of them are.
pub open spec fn lifted_claims<const P: u128, E: Extension<P>>(
    subclaims: Seq<E>,
    modulus: int,
) -> Seq<int> {
    subclaims.map_values(|c: E| lifted::<P, E>(c, modulus)->0)
}

/// Whether the integer claim of a proof holds.
pub open spec fn integer_claim_holds<const P: u128, E: Extension<P>, S: NormSoundness>(
    soundness: S,
    plan: PhysicalResponsePlan,
    proof: PhysicalL2NormProof<E>,
    profile: SisModulusProfileId,
    cap: u128,
) -> bool {
    let modulus = profile.prime();
    &&& PrimeField::<P>::modulus_spec() == modulus
    &&& proof.response_l2_sq <= cap
    &&& soundness.sound(plan, profile)
    &&& match plan.shape {
        PhysicalL2NormProofShape::Direct { .. } => {
            &&& proof.subclaims@.len() == 0
            &&& proof.virtual_evaluations@.len() == 1
            &&& proof.response_l2_sq < modulus
        },
        PhysicalL2NormProofShape::LimbGram { block_len, limb_count, .. } => {
            let layout = layout_of(plan.shape)->0;
            let bound = product_bound(plan, block_len);
            let products = lifted_claims::<P, E>(proof.subclaims@, modulus);
            &&& layout_of(plan.shape) is Some
            &&& proof.subclaims@.len() == layout.blocks() * layout.pair_total()
            &&& proof.virtual_evaluations@.len() == limb_count
            &&& bound <= u128::MAX
            &&& forall|i: int|
                0 <= i < proof.subclaims@.len() ==> {
                    &&& lifted::<P, E>(#[trigger] proof.subclaims@[i], modulus) is Some
                    &&& -bound <= products[i] <= bound
                }
            &&& norm_computable(layout, plan.fold_basis as int, products)
            &&& gram_norm(layout, plan.fold_basis as int, products, layout.blocks())
                == proof.response_l2_sq
        },
    }
}

/// Whether the inner products of a proof are refused for its setup rather than
/// for the proof.
pub open spec fn products_refused<const P: u128, E: Extension<P>>(
    plan: PhysicalResponsePlan,
    proof: PhysicalL2NormProof<E>,
    modulus: int,
) -> bool {
    match plan.shape {
        PhysicalL2NormProofShape::Direct { .. } => false,
        PhysicalL2NormProofShape::LimbGram { block_len, limb_count, .. } => {
            let layout = layout_of(plan.shape)->0;
            let bound = product_bound(plan, block_len);
            let products = lifted_claims::<P, E>(proof.subclaims@, modulus);
            &&& layout_of(plan.shape) is Some
            &&& proof.subclaims@.len() == layout.blocks() * layout.pair_total()
            &&& proof.virtual_evaluations@.len() == limb_count
            &&& {
                ||| bound > u128::MAX
                ||| modulus > i128::MAX && proof.subclaims@.len() > 0 && in_prime_field::<P, E>(
                    proof.subclaims@[0],
                )
                ||| {
                    &&& forall|i: int|
                        0 <= i < proof.subclaims@.len() ==> {
                            &&& lifted::<P, E>(#[trigger] proof.subclaims@[i], modulus) is Some
                            &&& -bound <= products[i] <= bound
                        }
                    &&& !norm_computable(layout, plan.fold_basis as int, products)
                }
            }
        },
    }
}

/// What is said of a norm that cannot be computed.
pub open spec fn norm_text(layout: LimbGramLayout, basis: int) -> Seq<char> {
    if limb_scale(basis, layout.limb_count - 1) > i128::MAX {
        "L2 limb scale overflow"@
    } else {
        "L2 norm overflow"@
    }
}

/// What is said of inner products that are refused for their setup.
pub open spec fn products_text(plan: PhysicalResponsePlan, modulus: int) -> Seq<char> {
    let layout = layout_of(plan.shape)->0;
    if product_bound(plan, layout.block_len) > u128::MAX {
        "L2 limb bound overflow"@
    } else if modulus > i128::MAX && layout.blocks() * layout.pair_total() > 0 {
        lift_text()
    } else {
        norm_text(layout, plan.fold_basis as int)
    }
}

/// Why the integer claim of a proof is refused that does not hold.
pub open spec fn claim_refusal<const P: u128, E: Extension<P>, S: NormSoundness>(
    soundness: S,
    plan: PhysicalResponsePlan,
    proof: PhysicalL2NormProof<E>,
    profile: SisModulusProfileId,
    cap: u128,
) -> Option<ErrorModel> {
    if PrimeField::<P>::modulus_spec() != profile.prime() {
        error::setup_refusal("L2 modulus profile disagrees with the proof base field"@)
    } else if proof.response_l2_sq > cap {
        Some(ErrorModel::InvalidProof)
    } else if !soundness.sound(plan, profile) {
        soundness.refusal_of(plan, profile)
    } else if products_refused::<P, E>(plan, proof, profile.prime()) {
        error::setup_refusal(products_text(plan, profile.prime()))
    } else {
        Some(ErrorModel::InvalidProof)
    }
}

/// The layout of a limb-by-limb proof.
pub fn limb_gram_layout(shape: PhysicalL2NormProofShape) -> (r: Option<LimbGramLayout>)
    ensures
        r == layout_of(shape),
{
    match shape {
        PhysicalL2NormProofShape::Direct { .. } => None,
        PhysicalL2NormProofShape::LimbGram { response_len, block_len, limb_count } => {
            if block_len == 0 || limb_count == 0 || response_len == 0 {
                return None;
            }
            let ghost layout = LimbGramLayout { response_len, block_len, limb_count };
            let next: usize = match limb_count.checked_add(1) {
                Some(n) => n,
                None => {
                    proof {
                        assert(limb_count * (limb_count + 1) > usize::MAX) by (nonlinear_arith)
                            requires
                                limb_count + 1 > usize::MAX,
                                limb_count > 0,
                        ;
                    }
                    return None;
                },
            };
            let twice: usize = match limb_count.checked_mul(next) {
                Some(n) => n,
                None => {
                    return None;
                },
            };
            let per_block: usize = twice / 2;
            let blocks: usize = crate::checked::div_ceil(response_len, block_len);
            proof {
                lemma_pairs(limb_count as int, limb_count as int);
                assert(limb_count * (2 * limb_count - limb_count + 1) == limb_count * (limb_count
                    + 1)) by (nonlinear_arith);
            }
            match blocks.checked_mul(per_block) {
                Some(_total) => Some(LimbGramLayout { response_len, block_len, limb_count }),
                None => None,
            }
        },
    }
}

impl LimbGramLayout {
    /// The number of pairs of limbs.
    pub fn pair_count(&self) -> (n: usize)
        requires
            self.wf(),
        ensures
            n == self.pair_total(),
    {
        proof {
            lemma_pairs(self.limb_count as int, self.limb_count as int);
            assert(self.limb_count * (2 * self.limb_count - self.limb_count + 1)
                == self.limb_count * (self.limb_count + 1)) by (nonlinear_arith);
            assert(self.limb_count + 1 <= usize::MAX) by (nonlinear_arith)
                requires
                    self.limb_count * (self.limb_count + 1) <= usize::MAX,
                    self.limb_count > 0,
            ;
        }
        self.limb_count * (self.limb_count + 1) / 2
    }

    /// The number of blocks.
    pub fn block_count(&self) -> (n: usize)
        requires
            self.wf(),
        ensures
            n == self.blocks(),
    {
        crate::checked::div_ceil(self.response_len, self.block_len)
    }

    /// The number of inner products.
    pub fn subclaim_count(&self) -> (n: usize)
        requires
            self.wf(),
        ensures
            n == self.blocks() * self.pair_total(),
    {
        self.block_count() * self.pair_count()
    }
}

/// The powers of the basis that limbs stand for, where they fit.
fn limb_scales(basis: i128, limbs: usize) -> (r: Option<Vec<i128>>)
    requires
        basis >= 0,
        limbs > 0,
    ensures
        match r {
            Some(scales) => {
                &&& limb_scale(basis as int, limbs - 1) <= i128::MAX
                &&& scales@.len() == limbs
                &&& forall|i: int|
                    0 <= i < limbs ==> #[trigger] scales@[i] == limb_scale(basis as int, i)
            },
            None => limb_scale(basis as int, limbs - 1) > i128::MAX,
        },
{
    let mut scales: Vec<i128> = Vec::new();
    scales.push(1);
    let mut last: i128 = 1;
    let mut k: usize = 1;
    while k < limbs
        invariant
            1 <= k <= limbs,
            basis >= 0,
            scales@.len() == k,
            last == limb_scale(basis as int, k - 1),
            last >= 0,
            forall|i: int| 0 <= i < k ==> #[trigger] scales@[i] == limb_scale(basis as int, i),
        decreases limbs - k,
    {
        match basis.checked_mul(last) {
            Some(next) => {
                proof {
                    assert(basis * last >= 0) by (nonlinear_arith)
                        requires
                            basis >= 0,
                            last >= 0,
                    ;
                }
                scales.push(next);
                last = next;
            },
            None => {
                proof {
                    assert(basis * last >= 0) by (nonlinear_arith)
                        requires
                            basis >= 0,
                            last >= 0,
                    ;
                    lemma_scale_grows(basis as int, k as int, limbs - 1);
                }
                return None;
            },
        }
        k += 1;
    }
    Some(scales)
}

proof fn lemma_scale_grows(basis: int, a: int, b: int)
    requires
        0 <= a <= b,
        basis >= 0,
        limb_scale(basis, a) > i128::MAX,
    ensures
        limb_scale(basis, b) > i128::MAX,
    decreases b - a,
{
    if a < b {
        lemma_scale_grows(basis, a, b - 1);
        let s = limb_scale(basis, b - 1);
        if basis == 0 {
            lemma_zero_scale(a);
        }
        assert(basis >= 1 ==> basis * s >= s) by (nonlinear_arith)
            requires
                s >= 0,
        ;
    }
}

proof fn lemma_zero_scale(a: int)
    ensures
        limb_scale(0, a) <= 1,
{
}

/// One contribution, where it can be computed.
fn checked_term(left_scale: i128, right_scale: i128, same: bool, product: i128) -> (r: Option<i128>)
    ensures
        ({
            let m = if same {
                1int
            } else {
                2
            };
            let scale = left_scale * right_scale;
            let fits = fits_wide(scale) && fits_wide(m * scale) && fits_wide(m * scale * product);
            match r {
                Some(n) => fits && n == m * scale * product,
                None => !fits,
            }
        }),
{
    let scale: i128 = match left_scale.checked_mul(right_scale) {
        Some(n) => n,
        None => {
            return None;
        },
    };
    let weighted: i128 = if same {
        scale
    } else {
        match scale.checked_mul(2) {
            Some(n) => n,
            None => {
                return None;
            },
        }
    };
    weighted.checked_mul(product)
}

/// The norm that inner products make up, over the integers.
pub fn reconstruct_l2_sq_from_gram(
    layout: LimbGramLayout,
    fold_basis: usize,
    integers: &Vec<i128>,
) -> (r: Result<i128, AkitaError>)
    requires
        layout.wf(),
        integers@.len() == layout.blocks() * layout.pair_total(),
    ensures
        ({
            let products = integers@.map_values(|n: i128| n as int);
            match r {
                Ok(n) => norm_computable(layout, fold_basis as int, products) && n == gram_norm(
                    layout,
                    fold_basis as int,
                    products,
                    layout.blocks(),
                ),
                Err(e) => !norm_computable(layout, fold_basis as int, products) && e.is_setup(
                    norm_text(layout, fold_basis as int),
                ),
            }
        }),
{
    let ghost products = integers@.map_values(|n: i128| n as int);
    let ghost basis = fold_basis as int;
    let limbs: usize = layout.limb_count;
    let pair_count: usize = layout.pair_count();
    let blocks: usize = layout.block_count();
    let scales = match limb_scales(fold_basis as i128, limbs) {
        Some(scales) => scales,
        None => {
            return Err(AkitaError::setup("L2 limb scale overflow"));
        },
    };
    let mut total: i128 = 0;
    let mut b: usize = 0;
    while b < blocks
        invariant
            layout.wf(),
            b <= blocks,
            blocks == layout.blocks(),
            limbs == layout.limb_count,
            pair_count == layout.pair_total(),
            basis == fold_basis,
            integers@.len() == blocks * pair_count,
            integers@.len() <= usize::MAX,
            products == integers@.map_values(|n: i128| n as int),
            scales@.len() == limbs,
            limb_scale(basis, limbs - 1) <= i128::MAX,
            forall|i: int| 0 <= i < limbs ==> #[trigger] scales@[i] == limb_scale(basis, i),
            gram_fits(layout, basis, products, b as int),
            total == gram_norm(layout, basis, products, b as int),
        decreases blocks - b,
    {
        proof {
            assert(b * pair_count + pair_count <= blocks * pair_count && 0 <= b * pair_count)
                by (nonlinear_arith)
                requires
                    0 <= b < blocks,
                    0 <= pair_count,
            ;
        }
        let start: usize = b * pair_count;
        let mut in_block: i128 = 0;
        let mut place: usize = 0;
        let mut left: usize = 0;
        while left < limbs
            invariant
                layout.wf(),
                b < blocks,
                blocks == layout.blocks(),
                left <= limbs,
                limbs == layout.limb_count,
                pair_count == layout.pair_total(),
                basis == fold_basis,
                start == b * pair_count,
                start + pair_count <= integers@.len(),
                integers@.len() <= usize::MAX,
                products == integers@.map_values(|n: i128| n as int),
                scales@.len() == limbs,
                limb_scale(basis, limbs - 1) <= i128::MAX,
                forall|i: int| 0 <= i < limbs ==> #[trigger] scales@[i] == limb_scale(basis, i),
                place == pairs_before(limbs as int, left as int),
                block_fits(layout, basis, products, b as int, left as int),
                in_block == block_norm(layout, basis, products, b as int, left as int),
            decreases limbs - left,
        {
            let mut in_row: i128 = 0;
            let mut right: usize = left;
            while right < limbs
                invariant
                    layout.wf(),
                    b < blocks,
                    blocks == layout.blocks(),
                    left <= right <= limbs,
                    left < limbs,
                    limbs == layout.limb_count,
                    pair_count == layout.pair_total(),
                    basis == fold_basis,
                    start == b * pair_count,
                    start + pair_count <= integers@.len(),
                    integers@.len() <= usize::MAX,
                    products == integers@.map_values(|n: i128| n as int),
                    scales@.len() == limbs,
                    limb_scale(basis, limbs - 1) <= i128::MAX,
                    forall|i: int|
                        0 <= i < limbs ==> #[trigger] scales@[i] == limb_scale(basis, i),
                    place == pairs_before(limbs as int, left as int) + (right - left),
                    row_fits(layout, basis, products, b as int, left as int, right as int),
                    in_row == row_norm(
                        layout,
                        basis,
                        products,
                        b as int,
                        left as int,
                        right as int,
                    ),
                decreases limbs - right,
            {
                proof {
                    lemma_place(layout, left as int, right as int);
                }
                let product: i128 = integers[start + place];
                assert(products[start + place] == product);
                let ghost next_row = right + 1;
                match checked_term(scales[left], scales[right], left == right, product) {
                    Some(term) => {
                        match in_row.checked_add(term) {
                            Some(sum) => {
                                in_row = sum;
                            },
                            None => {
                                proof {
                                    assert(!row_fits(
                                        layout,
                                        basis,
                                        products,
                                        b as int,
                                        left as int,
                                        next_row,
                                    ));
                                    lemma_row_unfit(
                                        layout,
                                        basis,
                                        products,
                                        b as int,
                                        left as int,
                                        next_row,
                                    );
                                }
                                return Err(AkitaError::setup("L2 norm overflow"));
                            },
                        }
                    },
                    None => {
                        proof {
                            assert(!row_fits(
                                layout,
                                basis,
                                products,
                                b as int,
                                left as int,
                                next_row,
                            ));
                            lemma_row_unfit(
                                layout,
                                basis,
                                products,
                                b as int,
                                left as int,
                                next_row,
                            );
                        }
                        return Err(AkitaError::setup("L2 norm overflow"));
                    },
                }
                place += 1;
                right += 1;
            }
            match in_block.checked_add(in_row) {
                Some(sum) => {
                    in_block = sum;
                },
                None => {
                    proof {
                        assert(!block_fits(layout, basis, products, b as int, left + 1));
                        lemma_block_unfit(layout, basis, products, b as int, left + 1);
                    }
                    return Err(AkitaError::setup("L2 norm overflow"));
                },
            }
            left += 1;
        }
        match total.checked_add(in_block) {
            Some(sum) => {
                total = sum;
            },
            None => {
                proof {
                    assert(!gram_fits(layout, basis, products, b + 1));
                    lemma_gram_unfit(layout, basis, products, b + 1, layout.blocks());
                }
                return Err(AkitaError::setup("L2 norm overflow"));
            },
        }
        b += 1;
    }
    Ok(total)
}

proof fn lemma_row_unfit(
    layout: LimbGramLayout,
    basis: int,
    products: Seq<int>,
    block: int,
    left: int,
    end: int,
)
    requires
        layout.wf(),
        0 <= block < layout.blocks(),
        0 <= left < layout.limb_count,
        left < end <= layout.limb_count,
        !row_fits(layout, basis, products, block, left, end),
    ensures
        !norm_computable(layout, basis, products),
    decreases layout.limb_count - end,
{
    if end < layout.limb_count {
        assert(!row_fits(layout, basis, products, block, left, end + 1));
        lemma_row_unfit(layout, basis, products, block, left, end + 1);
    } else {
        assert(!block_fits(layout, basis, products, block, left + 1));
        lemma_block_unfit(layout, basis, products, block, left + 1);
    }
}

proof fn lemma_block_unfit(
    layout: LimbGramLayout,
    basis: int,
    products: Seq<int>,
    block: int,
    lefts: int,
)
    requires
        layout.wf(),
        0 <= block < layout.blocks(),
        0 < lefts <= layout.limb_count,
        !block_fits(layout, basis, products, block, lefts),
    ensures
        !norm_computable(layout, basis, products),
    decreases layout.limb_count - lefts,
{
    if lefts < layout.limb_count {
        assert(!block_fits(layout, basis, products, block, lefts + 1));
        lemma_block_unfit(layout, basis, products, block, lefts + 1);
    } else {
        assert(!gram_fits(layout, basis, products, block + 1));
        lemma_gram_unfit(layout, basis, products, block + 1, layout.blocks());
    }
}

proof fn lemma_gram_unfit(
    layout: LimbGramLayout,
    basis: int,
    products: Seq<int>,
    a: int,
    b: int,
)
    requires
        0 < a <= b,
        !gram_fits(layout, basis, products, a),
    ensures
        !gram_fits(layout, basis, products, b),
    decreases b - a,
{
    if a < b {
        lemma_gram_unfit(layout, basis, products, a, b - 1);
    }
}

/// Refuses a proof whose integer claim does not hold.
pub fn validate_integer_claim<const P: u128, E: Extension<P>, S: NormSoundness>(
    soundness: &S,
    plan: &PhysicalResponsePlan,
    proof: &PhysicalL2NormProof<E>,
    profile: SisModulusProfileId,
    cap: u128,
) -> (r: Result<(), AkitaError>)
    ensures
        match r {
            Ok(()) => integer_claim_holds::<P, E, S>(*soundness, *plan, *proof, profile, cap),
            Err(e) => !integer_claim_holds::<P, E, S>(*soundness, *plan, *proof, profile, cap)
                && claim_refusal::<P, E, S>(*soundness, *plan, *proof, profile, cap) == Some(e@),
        },
{
    let modulus: u128 = profile.modulus();
    if PrimeField::<P>::modulus() != modulus {
        return Err(AkitaError::setup("L2 modulus profile disagrees with the proof base field"));
    }
    if proof.response_l2_sq > cap {
        return Err(AkitaError::InvalidProof);
    }
    if let Err(e) = soundness.check_sound(plan, profile) {
        return Err(e);
    }
    match plan.shape {
        PhysicalL2NormProofShape::Direct { .. } => {
            if proof.subclaims.len() != 0 || proof.virtual_evaluations.len() != 1
                || proof.response_l2_sq >= modulus {
                return Err(AkitaError::InvalidProof);
            }
            Ok(())
        },
        PhysicalL2NormProofShape::LimbGram { block_len, limb_count, .. } => {
            let layout = match limb_gram_layout(plan.shape) {
                Some(layout) => layout,
                None => {
                    return Err(AkitaError::InvalidProof);
                },
            };
            if proof.subclaims.len() != layout.subclaim_count() || proof.virtual_evaluations.len()
                != limb_count {
                return Err(AkitaError::InvalidProof);
            }
            let digit_abs: u128 = (plan.fold_basis / 2) as u128;
            let square: u128 = match digit_abs.checked_mul(digit_abs) {
                Some(n) => n,
                None => {
                    proof {
                        let d = digit_abs as int;
                        assert(block_len * (d * d) >= d * d) by (nonlinear_arith)
                            requires
                                block_len >= 1,
                                d * d >= 0,
                        ;
                    }
                    return Err(AkitaError::setup("L2 limb bound overflow"));
                },
            };
            let bound: u128 = match (block_len as u128).checked_mul(square) {
                Some(n) => n,
                None => {
                    return Err(AkitaError::setup("L2 limb bound overflow"));
                },
            };
            let ghost products = lifted_claims::<P, E>(proof.subclaims@, modulus as int);
            let mut integers: Vec<i128> = Vec::new();
            let mut i: usize = 0;
            while i < proof.subclaims.len()
                invariant
                    i <= proof.subclaims@.len(),
                    modulus == profile.prime(),
                    PrimeField::<P>::modulus_spec() == modulus,
                    proof.response_l2_sq <= cap,
                    soundness.sound(*plan, profile),
                    layout_of(plan.shape) == Some(layout),
                    proof.subclaims@.len() == layout.blocks() * layout.pair_total(),
                    proof.virtual_evaluations@.len() == limb_count,
                    limb_count == layout.limb_count,
                    0 < i ==> modulus <= i128::MAX,
                    products == lifted_claims::<P, E>(proof.subclaims@, modulus as int),
                    integers@.len() == i,
                    bound == product_bound(*plan, block_len),
                    plan.shape is LimbGram,
                    plan.shape->LimbGram_block_len == block_len,
                    forall|m: int|
                        0 <= m < i ==> {
                            &&& lifted::<P, E>(
                                #[trigger] proof.subclaims@[m],
                                modulus as int,
                            ) is Some
                            &&& integers@[m] == products[m]
                            &&& -(bound as int) <= products[m] <= bound
                        },
                decreases proof.subclaims@.len() - i,
            {
                let claim: E = proof.subclaims[i];
                let n: i128 = match centered_lift::<P, E>(claim, profile) {
                    Ok(n) => n,
                    Err(e) => {
                        assert(lifted::<P, E>(proof.subclaims@[i as int], modulus as int) is None);
                        return Err(e);
                    },
                };
                let size: u128 = if n < 0 {
                    (-(n + 1)) as u128 + 1
                } else {
                    n as u128
                };
                assert(products[i as int] == n);
                if size > bound {
                    assert(lifted::<P, E>(proof.subclaims@[i as int], modulus as int) is Some);
                    return Err(AkitaError::InvalidProof);
                }
                integers.push(n);
                i += 1;
            }
            assert(integers@.map_values(|n: i128| n as int) =~= products);
            let norm: i128 = match reconstruct_l2_sq_from_gram(
                layout,
                plan.fold_basis,
                &integers,
            ) {
                Ok(norm) => norm,
                Err(e) => {
                    return Err(e);
                },
            };
            if norm < 0 || norm as u128 != proof.response_l2_sq {
                return Err(AkitaError::InvalidProof);
            }
            Ok(())
        },
    }
}

// ---------------------------------------------------------------------------
// The claim at the point
// ---------------------------------------------------------------------------

/// The range claim that is proved along with the norm.
pub struct PhysicalL2RangeClaim<'a, E> {
    pub equality_point: &'a [E],
    pub input_claim: E,
    pub leaf_coefficients: &'a [E],
    pub image_evaluation: E,
}

/// What the reduction of a proof is held to.
pub struct PhysicalL2NormVerifier<'a, E> {
    pub plan: &'a PhysicalResponsePlan,
    pub proof: &'a PhysicalL2NormProof<E>,
    pub range_equality_point: &'a [E],
    pub range_leaf_coefficients: &'a [E],
    pub range_image_evaluation: E,
    pub subclaim_weights: Vec<E>,
    pub input_claim: E,
    pub norm_merge: E,
}

/// The value of the coefficients from `k` on at a point, by Horner's rule.
pub open spec fn horner<E: Field>(coefficients: Seq<E>, x: E, k: int) -> E
    decreases coefficients.len() - k,
{
    if k >= coefficients.len() || k < 0 {
        E::zero_spec()
    } else {
        horner(coefficients, x, k + 1) * x + coefficients[k]
    }
}

/// The weight of a block at a point: the sum of the equality weights of its
/// places.
pub open spec fn block_weight<E: Field>(layout: LimbGramLayout, point: Seq<E>, b: int) -> E {
    rl::sum_range(eq_poly::eq_weights(point), 0, layout.cut(b + 1)) - rl::sum_range(
        eq_poly::eq_weights(point),
        0,
        layout.cut(b),
    )
}

/// The weight of a pair of limbs over the first `blocks` blocks.
pub open spec fn selector<E: Field>(
    layout: LimbGramLayout,
    weights: Seq<E>,
    point: Seq<E>,
    place: int,
    blocks: int,
) -> E
    decreases blocks,
{
    if blocks <= 0 {
        E::zero_spec()
    } else {
        selector(layout, weights, point, place, blocks - 1) + weights[(blocks - 1)
            * layout.pair_total() + place] * block_weight(layout, point, blocks - 1)
    }
}

/// The weighed products of the values of limb `left` with those of the limbs
/// from `left` up to but not including `end`, onto `start`.
pub open spec fn row_value<E: Field>(
    layout: LimbGramLayout,
    weights: Seq<E>,
    point: Seq<E>,
    values: Seq<E>,
    start: E,
    left: int,
    end: int,
) -> E
    decreases end - left,
{
    if end <= left {
        start
    } else {
        row_value(layout, weights, point, values, start, left, end - 1) + selector(
            layout,
            weights,
            point,
            layout.pair_place(left, end - 1),
            layout.blocks(),
        ) * values[left] * values[end - 1]
    }
}

/// The weighed products of all pairs whose first limb comes before `lefts`.
pub open spec fn limb_value<E: Field>(
    layout: LimbGramLayout,
    weights: Seq<E>,
    point: Seq<E>,
    values: Seq<E>,
    lefts: int,
) -> E
    decreases lefts,
{
    if lefts <= 0 {
        E::zero_spec()
    } else {
        row_value(
            layout,
            weights,
            point,
            values,
            limb_value(layout, weights, point, values, lefts - 1),
            lefts - 1,
            layout.limb_count as int,
        )
    }
}

impl<'a, E: Field> PhysicalL2NormVerifier<'a, E> {
    /// The norm part of the claim at a point.
    pub open spec fn norm_at(self, point: Seq<E>) -> E {
        let values = self.proof.virtual_evaluations@;
        match self.plan.shape {
            PhysicalL2NormProofShape::Direct { .. } => values[0] * values[0],
            PhysicalL2NormProofShape::LimbGram { limb_count, .. } => limb_value(
                layout_of(self.plan.shape)->0,
                self.subclaim_weights@,
                point,
                values,
                limb_count as int,
            ),
        }
    }

    /// Whether the claim at a point is defined.
    pub open spec fn defined_at(self, point: Seq<E>) -> bool {
        let values = self.proof.virtual_evaluations@;
        &&& self.range_equality_point@.len() == point.len()
        &&& match self.plan.shape {
            PhysicalL2NormProofShape::Direct { .. } => values.len() > 0,
            PhysicalL2NormProofShape::LimbGram { limb_count, response_len, .. } => {
                let layout = layout_of(self.plan.shape)->0;
                &&& layout_of(self.plan.shape) is Some
                &&& pow2(point.len()) <= usize::MAX
                &&& response_len <= pow2(point.len())
                &&& layout.blocks() * layout.pair_total() <= self.subclaim_weights@.len()
                &&& limb_count <= values.len()
            },
        }
    }

    /// Whether an error is how a point is refused where no claim is defined.
    pub open spec fn refused_as(self, point: Seq<E>, e: AkitaError) -> bool {
        let values = self.proof.virtual_evaluations@;
        if self.range_equality_point@.len() != point.len() {
            e is InvalidSize
        } else {
            match self.plan.shape {
                PhysicalL2NormProofShape::Direct { .. } => e is InvalidProof,
                PhysicalL2NormProofShape::LimbGram { limb_count, .. } => {
                    let layout = layout_of(self.plan.shape)->0;
                    if layout_of(self.plan.shape) is None || layout.blocks() * layout.pair_total()
                        > self.subclaim_weights@.len() || limb_count > values.len() {
                        e is InvalidProof
                    } else if pow2(point.len()) <= usize::MAX {
                        e is InvalidSize
                    } else {
                        e is InvalidInput
                    }
                },
            }
        }
    }

    /// The claim at a point.
    pub open spec fn claim_at(self, point: Seq<E>) -> E {
        eq_poly::eq_product(self.range_equality_point@, point) * horner(
            self.range_leaf_coefficients@,
            self.range_image_evaluation,
            0,
        ) + self.norm_merge * self.norm_at(point)
    }

    /// The number of rounds of the reduction.
    pub fn num_rounds(&self) -> (n: usize)
        ensures
            n == self.plan.num_vars,
    {
        self.plan.num_vars
    }

    /// The degree of its round polynomials.
    pub fn degree_bound(&self) -> (n: usize)
        ensures
            n == self.range_leaf_coefficients@.len(),
    {
        self.range_leaf_coefficients.len()
    }

    /// The claim that the reduction starts from.
    pub fn input_claim(&self) -> (c: E)
        ensures
            c == self.input_claim,
    {
        self.input_claim
    }

    /// The range part of the claim: the leaf polynomial at the image.
    fn leaf(&self) -> (v: E)
        ensures
            v == horner(self.range_leaf_coefficients@, self.range_image_evaluation, 0),
    {
        let mut acc = E::zero();
        let mut k: usize = self.range_leaf_coefficients.len();
        while k > 0
            invariant
                k <= self.range_leaf_coefficients@.len(),
                acc == horner(
                    self.range_leaf_coefficients@,
                    self.range_image_evaluation,
                    k as int,
                ),
            decreases k,
        {
            k -= 1;
            acc = acc.mul(self.range_image_evaluation).add(self.range_leaf_coefficients[k]);
        }
        acc
    }

    /// The weights of all pairs of limbs at a point.
    fn selectors(&self, layout: LimbGramLayout, point: &[E]) -> (r: Result<Vec<E>, AkitaError>)
        requires
            layout.wf(),
            layout.blocks() * layout.pair_total() <= self.subclaim_weights@.len(),
        ensures
            match r {
                Ok(list) => {
                    &&& pow2(point@.len()) <= usize::MAX
                    &&& layout.response_len <= pow2(point@.len())
                    &&& list@.len() == layout.pair_total()
                    &&& forall|p: int|
                        0 <= p < list@.len() ==> #[trigger] list@[p] == selector(
                            layout,
                            self.subclaim_weights@,
                            point@,
                            p,
                            layout.blocks(),
                        )
                },
                Err(e) => !(pow2(point@.len()) <= usize::MAX && layout.response_len <= pow2(
                    point@.len(),
                )) && if pow2(point@.len()) <= usize::MAX {
                    e is InvalidSize
                } else {
                    e is InvalidInput
                },
            },
    {
        let pair_count: usize = layout.pair_count();
        let blocks: usize = layout.block_count();
        let mut list: Vec<E> = Vec::new();
        let mut p: usize = 0;
        while p < pair_count
            invariant
                p <= pair_count,
                list@.len() == p,
                forall|i: int| 0 <= i < p ==> #[trigger] list@[i] == E::zero_spec(),
            decreases pair_count - p,
        {
            list.push(E::zero());
            p += 1;
        }
        let ghost f = eq_poly::eq_weights(point@);
        let weights_len: usize = self.subclaim_weights.len();
        let mut start_sum = E::zero();
        let mut start: usize = 0;
        let mut b: usize = 0;
        proof {
            lemma_blocks(layout);
            assert(layout.cut(0) == 0) by {
                assert(0 * layout.block_len == 0) by (nonlinear_arith);
            }
        }
        while b < blocks
            invariant
                layout.wf(),
                b <= blocks,
                blocks == layout.blocks(),
                blocks > 0,
                pair_count == layout.pair_total(),
                blocks * pair_count <= weights_len,
                weights_len == self.subclaim_weights@.len(),
                f == eq_poly::eq_weights(point@),
                start == layout.cut(b as int),
                start_sum == rl::sum_range(f, 0, start as int),
                b > 0 ==> pow2(point@.len()) <= usize::MAX && start <= pow2(point@.len()),
                list@.len() == pair_count,
                forall|p: int|
                    0 <= p < list@.len() ==> #[trigger] list@[p] == selector(
                        layout,
                        self.subclaim_weights@,
                        point@,
                        p,
                        b as int,
                    ),
            decreases blocks - b,
        {
            let end: usize = if layout.response_len - start < layout.block_len {
                layout.response_len
            } else {
                start + layout.block_len
            };
            proof {
                lemma_cut_step(layout, b as int);
            }
            let end_sum = match EqPolynomial::prefix_sum(point, end) {
                Ok(sum) => sum,
                Err(e) => {
                    return Err(e);
                },
            };
            let weight = end_sum.sub(start_sum);
            proof {
                assert(b * pair_count + pair_count <= blocks * pair_count && 0 <= b * pair_count)
                    by (nonlinear_arith)
                    requires
                        0 <= b < blocks,
                        0 <= pair_count,
                ;
            }
            let base: usize = b * pair_count;
            let ghost before = list@;
            let mut p: usize = 0;
            while p < pair_count
                invariant
                    p <= pair_count,
                    pair_count == layout.pair_total(),
                    base == b * pair_count,
                    base + pair_count <= weights_len,
                    weights_len == self.subclaim_weights@.len(),
                    weight == block_weight(layout, point@, b as int),
                    before.len() == pair_count,
                    list@.len() == pair_count,
                    forall|i: int|
                        0 <= i < pair_count ==> #[trigger] before[i] == selector(
                            layout,
                            self.subclaim_weights@,
                            point@,
                            i,
                            b as int,
                        ),
                    forall|i: int|
                        0 <= i < pair_count ==> #[trigger] list@[i] == if i < p {
                            selector(layout, self.subclaim_weights@, point@, i, b + 1)
                        } else {
                            before[i]
                        },
                decreases pair_count - p,
            {
                let value = list[p].add(self.subclaim_weights[base + p].mul(weight));
                assert(before[p as int] == selector(
                    layout,
                    self.subclaim_weights@,
                    point@,
                    p as int,
                    b as int,
                ));
                list.set(p, value);
                p += 1;
            }
            start = end;
            start_sum = end_sum;
            b += 1;
        }
        assert(layout.cut(blocks as int) == layout.response_len);
        Ok(list)
    }

    /// The claim that a reduction has to end with at a point.
    pub fn expected_output_claim(&self, point: &[E]) -> (r: Result<E, AkitaError>)
        ensures
            match r {
                Ok(claim) => self.defined_at(point@) && claim == self.claim_at(point@),
                Err(e) => !self.defined_at(point@) && self.refused_as(point@, e),
            },
    {
        let equality = match EqPolynomial::mle(self.range_equality_point, point) {
            Ok(equality) => equality,
            Err(e) => {
                return Err(e);
            },
        };
        let leaf = self.leaf();
        let norm = match self.plan.shape {
            PhysicalL2NormProofShape::Direct { .. } => {
                if self.proof.virtual_evaluations.len() == 0 {
                    return Err(AkitaError::InvalidProof);
                }
                let value = self.proof.virtual_evaluations[0];
                value.mul(value)
            },
            PhysicalL2NormProofShape::LimbGram { limb_count, .. } => {
                let layout = match limb_gram_layout(self.plan.shape) {
                    Some(layout) => layout,
                    None => {
                        return Err(AkitaError::InvalidProof);
                    },
                };
                if layout.subclaim_count() > self.subclaim_weights.len() || limb_count
                    > self.proof.virtual_evaluations.len() {
                    return Err(AkitaError::InvalidProof);
                }
                let list = match self.selectors(layout, point) {
                    Ok(list) => list,
                    Err(e) => {
                        return Err(e);
                    },
                };
                self.pair_sum(layout, point, &list)
            },
        };
        Ok(equality.mul(leaf).add(self.norm_merge.mul(norm)))
    }

    /// The weighed products of the values of all pairs of limbs.
    fn pair_sum(&self, layout: LimbGramLayout, point: &[E], list: &Vec<E>) -> (sum: E)
        requires
            layout.wf(),
            layout.limb_count <= self.proof.virtual_evaluations@.len(),
            list@.len() == layout.pair_total(),
            forall|p: int|
                0 <= p < list@.len() ==> #[trigger] list@[p] == selector(
                    layout,
                    self.subclaim_weights@,
                    point@,
                    p,
                    layout.blocks(),
                ),
        ensures
            sum == limb_value(
                layout,
                self.subclaim_weights@,
                point@,
                self.proof.virtual_evaluations@,
                layout.limb_count as int,
            ),
    {
        let limbs: usize = layout.limb_count;
        let total: usize = list.len();
        let ghost values = self.proof.virtual_evaluations@;
        let ghost weights = self.subclaim_weights@;
        let mut sum = E::zero();
        let mut place: usize = 0;
        let mut left: usize = 0;
        while left < limbs
            invariant
                limbs == layout.limb_count,
                limbs <= self.proof.virtual_evaluations@.len(),
                left <= limbs,
                list@.len() == layout.pair_total(),
                total == layout.pair_total(),
                values == self.proof.virtual_evaluations@,
                weights == self.subclaim_weights@,
                forall|p: int|
                    0 <= p < list@.len() ==> #[trigger] list@[p] == selector(
                        layout,
                        weights,
                        point@,
                        p,
                        layout.blocks(),
                    ),
                place == pairs_before(limbs as int, left as int),
                sum == limb_value(layout, weights, point@, values, left as int),
            decreases limbs - left,
        {
            let ghost start = sum;
            let mut right: usize = left;
            while right < limbs
                invariant
                    limbs == layout.limb_count,
                    limbs <= self.proof.virtual_evaluations@.len(),
                    left <= right <= limbs,
                    left < limbs,
                    list@.len() == layout.pair_total(),
                    total == layout.pair_total(),
                    values == self.proof.virtual_evaluations@,
                    weights == self.subclaim_weights@,
                    forall|p: int|
                        0 <= p < list@.len() ==> #[trigger] list@[p] == selector(
                            layout,
                            weights,
                            point@,
                            p,
                            layout.blocks(),
                        ),
                    place == pairs_before(limbs as int, left as int) + (right - left),
                    sum == row_value(
                        layout,
                        weights,
                        point@,
                        values,
                        start,
                        left as int,
                        right as int,
                    ),
                decreases limbs - right,
            {
                proof {
                    lemma_place(layout, left as int, right as int);
                }
                let term = list[place].mul(self.proof.virtual_evaluations[left]).mul(
                    self.proof.virtual_evaluations[right],
                );
                sum = sum.add(term);
                place += 1;
                right += 1;
            }
            left += 1;
        }
        sum
    }
}

/// The blocks of a layout end at its length.
proof fn lemma_blocks(layout: LimbGramLayout)
    requires
        layout.wf(),
    ensures
        layout.blocks() > 0,
        layout.cut(layout.blocks()) == layout.response_len,
{
    let n = layout.response_len as int;
    let w = layout.block_len as int;
    let q = layout.blocks();
    vstd::arithmetic::div_mod::lemma_fundamental_div_mod(n + w - 1, w);
    vstd::arithmetic::div_mod::lemma_mod_bound(n + w - 1, w);
    assert(w * q == q * w) by (nonlinear_arith);
    assert(q > 0) by (nonlinear_arith)
        requires
            q * w >= n,
            n > 0,
            w > 0,
    ;
}

/// A block that begins within the response ends where the next begins.
proof fn lemma_cut_step(layout: LimbGramLayout, b: int)
    requires
        layout.wf(),
        0 <= b < layout.blocks(),
    ensures
        layout.cut(b) == b * layout.block_len,
        layout.cut(b) < layout.response_len,
        layout.cut(b + 1) == if layout.response_len - layout.cut(b) < layout.block_len {
            layout.response_len as int
        } else {
            layout.cut(b) + layout.block_len
        },
{
    let n = layout.response_len as int;
    let w = layout.block_len as int;
    let q = layout.blocks();
    vstd::arithmetic::div_mod::lemma_fundamental_div_mod(n + w - 1, w);
    vstd::arithmetic::div_mod::lemma_mod_bound(n + w - 1, w);
    assert(b * w <= (q - 1) * w && (q - 1) * w == w * q - w && (b + 1) * w == b * w + w && 0 <= b
        * w) by (nonlinear_arith)
        requires
            0 <= b < q,
            0 < w,
    ;
}

// ---------------------------------------------------------------------------
// The replay
// ---------------------------------------------------------------------------

/// What a verified norm leaves: the point, and the values of the limbs there.
pub struct PhysicalL2VerifierReplay<'a, E> {
    pub point: Vec<E>,
    pub virtual_evaluations: &'a Vec<E>,
}

/// A power of a challenge.
pub open spec fn power<E: Field>(gamma: E, n: nat) -> E
    decreases n,
{
    if n == 0 {
        E::one_spec()
    } else {
        power(gamma, (n - 1) as nat) * gamma
    }
}

/// The powers of a challenge.
pub open spec fn powers<E: Field>(gamma: E, n: nat) -> Seq<E> {
    Seq::new(n, |i: int| power(gamma, i as nat))
}

/// The first `n` claims weighed by the powers of a challenge.
pub open spec fn batched<E: Field>(claims: Seq<E>, gamma: E, n: nat) -> E
    decreases n,
{
    if n == 0 {
        E::zero_spec()
    } else {
        batched(claims, gamma, (n - 1) as nat) + claims[n - 1] * power(gamma, (n - 1) as nat)
    }
}

/// The powers of a challenge, and the claims weighed by them.
pub fn batch_subclaims<E: Field>(subclaims: &Vec<E>, gamma: E) -> (r: (Vec<E>, E))
    ensures
        r.0@ == powers(gamma, subclaims@.len()),
        r.1 == batched(subclaims@, gamma, subclaims@.len()),
{
    let mut weights: Vec<E> = Vec::new();
    let mut weight = E::one();
    let mut sum = E::zero();
    let mut i: usize = 0;
    while i < subclaims.len()
        invariant
            i <= subclaims@.len(),
            weights@ == powers(gamma, i as nat),
            weight == power(gamma, i as nat),
            sum == batched(subclaims@, gamma, i as nat),
        decreases subclaims@.len() - i,
    {
        weights.push(weight);
        sum = sum.add(subclaims[i].mul(weight));
        weight = weight.mul(gamma);
        proof {
            assert(weights@ =~= powers(gamma, (i + 1) as nat));
        }
        i += 1;
    }
    (weights, sum)
}

/// Entries for a list of values.
pub open spec fn subclaim_entries<E>(claims: Seq<E>) -> Seq<TranscriptEntry<E>> {
    claims.map_values(|c: E| TranscriptEntry::Subclaim(c))
}

pub open spec fn evaluation_entries<E>(values: Seq<E>) -> Seq<TranscriptEntry<E>> {
    values.map_values(|v: E| TranscriptEntry::VirtualEvaluation(v))
}

/// The norm claim that the reduction starts from.
pub open spec fn norm_input<E: Field>(
    plan: PhysicalResponsePlan,
    proof: PhysicalL2NormProof<E>,
    gamma: E,
) -> E {
    match plan.shape {
        PhysicalL2NormProofShape::Direct { .. } => E::of_int(proof.response_l2_sq as int),
        PhysicalL2NormProofShape::LimbGram { .. } => batched(
            proof.subclaims@,
            gamma,
            proof.subclaims@.len(),
        ),
    }
}

/// The claim that a reduction has to end with.
pub open spec fn final_claim<E: Field>(
    plan: PhysicalResponsePlan,
    proof: PhysicalL2NormProof<E>,
    range: PhysicalL2RangeClaim<'_, E>,
    gamma: E,
    merge: E,
    point: Seq<E>,
) -> E {
    let values = proof.virtual_evaluations@;
    let norm = match plan.shape {
        PhysicalL2NormProofShape::Direct { .. } => values[0] * values[0],
        PhysicalL2NormProofShape::LimbGram { limb_count, .. } => limb_value(
            layout_of(plan.shape)->0,
            powers(gamma, proof.subclaims@.len()),
            point,
            values,
            limb_count as int,
        ),
    };
    eq_poly::eq_product(range.equality_point@, point) * horner(
        range.leaf_coefficients@,
        range.image_evaluation,
        0,
    ) + merge * norm
}

/// What a proof is absorbed with before the first challenge.
pub open spec fn opening_log<E: Field>(
    proof: PhysicalL2NormProof<E>,
    before: Seq<TranscriptEntry<E>>,
) -> Seq<TranscriptEntry<E>> {
    before + (seq![TranscriptEntry::Integer(proof.response_l2_sq)] + subclaim_entries(
        proof.subclaims@,
    ))
}

/// The challenge that batches the inner products, where there are any.
pub open spec fn batch_reply<E: Field>(
    replies: Replies<E>,
    plan: PhysicalResponsePlan,
    level: u32,
    log: Seq<TranscriptEntry<E>>,
) -> Result<E, ErrorModel> {
    match plan.shape {
        PhysicalL2NormProofShape::Direct { .. } => Ok(E::zero_spec()),
        PhysicalL2NormProofShape::LimbGram { .. } => (replies.challenge)(
            log,
            ChallengeSite::L2SubclaimBatch { level },
        ),
    }
}

/// The log after the inner products are batched.
pub open spec fn batched_log<E: Field>(
    plan: PhysicalResponsePlan,
    level: u32,
    gamma: E,
    log: Seq<TranscriptEntry<E>>,
) -> Seq<TranscriptEntry<E>> {
    match plan.shape {
        PhysicalL2NormProofShape::Direct { .. } => log,
        PhysicalL2NormProofShape::LimbGram { .. } => log.push(
            TranscriptEntry::Challenge {
                site: ChallengeSite::L2SubclaimBatch { level },
                value: gamma,
            },
        ),
    }
}

/// Why an exchange is not accepted.
pub enum ExchangeRefusal<E> {
    /// The transcript refuses a reply, or the reduction ends with another claim.
    Error(ErrorModel),
    /// The reduction ends at a point of another domain.
    Point(Seq<E>),
}

impl<E> ExchangeRefusal<E> {
    /// Whether an error is how an exchange is refused over a domain of so many
    /// variables.
    pub open spec fn told(self, num_vars: nat, e: AkitaError) -> bool {
        match self {
            ExchangeRefusal::Error(model) => e@ == model,
            ExchangeRefusal::Point(point) => if point.len() != num_vars || pow2(point.len())
                <= usize::MAX {
                e is InvalidSize
            } else {
                e is InvalidInput
            },
        }
    }
}

/// The point of an accepted exchange and the log that it leaves: every reply
/// comes, the point has the right length and covers the response, and the
/// reduction ends with the claim that it has to end with.
pub open spec fn accepted<E: Field>(
    replies: Replies<E>,
    plan: PhysicalResponsePlan,
    proof: PhysicalL2NormProof<E>,
    range: PhysicalL2RangeClaim<'_, E>,
    level: u32,
    before: Seq<TranscriptEntry<E>>,
) -> Result<(Seq<E>, Seq<TranscriptEntry<E>>), ExchangeRefusal<E>> {
    let opened = opening_log(proof, before);
    match batch_reply(replies, plan, level, opened) {
        Err(e) => Err(ExchangeRefusal::Error(e)),
        Ok(gamma) => {
            let batched = batched_log(plan, level, gamma, opened);
            let site = ChallengeSite::L2NormMerge { level };
            match (replies.challenge)(batched, site) {
                Err(e) => Err(ExchangeRefusal::Error(e)),
                Ok(merge) => {
                    let merged = batched.push(TranscriptEntry::Challenge { site, value: merge });
                    let degree = range.leaf_coefficients@.len() as usize;
                    let claim = range.input_claim + merge * norm_input(plan, proof, gamma);
                    match (replies.reduction)(merged, level, plan.num_vars, degree, claim) {
                        Err(e) => Err(ExchangeRefusal::Error(e)),
                        Ok((point, output)) => if !reaches(plan, range, point) {
                            Err(ExchangeRefusal::Point(point))
                        } else if output == final_claim(
                            plan,
                            proof,
                            range,
                            gamma,
                            merge,
                            point,
                        ) {
                            let reduced = merged.push(
                                TranscriptEntry::Reduction {
                                    level,
                                    rounds: plan.num_vars,
                                    degree,
                                    claim,
                                    point,
                                    output,
                                },
                            );
                            Ok(
                                (point, reduced + evaluation_entries(proof.virtual_evaluations@)),
                            )
                        } else {
                            Err(ExchangeRefusal::Error(ErrorModel::InvalidProof))
                        },
                    }
                },
            }
        },
    }
}

/// Whether a point has as many coordinates as the range claim, and its cube
/// holds the response.
pub open spec fn reaches<E>(
    plan: PhysicalResponsePlan,
    range: PhysicalL2RangeClaim<'_, E>,
    point: Seq<E>,
) -> bool {
    &&& point.len() == range.equality_point@.len()
    &&& match plan.shape {
        PhysicalL2NormProofShape::Direct { .. } => true,
        PhysicalL2NormProofShape::LimbGram { response_len, .. } => pow2(point.len()) <= usize::MAX
            && response_len <= pow2(point.len()),
    }
}

/// Whether the range claim fits the domain of a plan.
pub open spec fn range_fits<E>(
    plan: PhysicalResponsePlan,
    range: PhysicalL2RangeClaim<'_, E>,
) -> bool {
    &&& range.equality_point@.len() == plan.num_vars
    &&& range.leaf_coefficients@.len() >= 3
}

/// Replays the proof that a folded response is short.
pub fn verify_physical_l2_norm<
    'a,
    const P: u128,
    E: Extension<P>,
    S: NormSoundness,
    T: VerifierTranscript<E>,
>(
    soundness: &S,
    plan: &PhysicalResponsePlan,
    proof: &'a PhysicalL2NormProof<E>,
    range: PhysicalL2RangeClaim<'_, E>,
    profile: SisModulusProfileId,
    cap: u128,
    transcript: &mut T,
    level: u32,
) -> (r: Result<PhysicalL2VerifierReplay<'a, E>, AkitaError>)
    ensures
        ({
            let holds = integer_claim_holds::<P, E, S>(*soundness, *plan, *proof, profile, cap);
            let exchange = accepted(
                old(transcript).replies(),
                *plan,
                *proof,
                range,
                level,
                old(transcript).log(),
            );
            match r {
                Ok(replay) => {
                    &&& range_fits(*plan, range)
                    &&& holds
                    &&& exchange == Ok::<_, ExchangeRefusal<E>>(
                        (replay.point@, final(transcript).log()),
                    )
                    &&& replay.virtual_evaluations@ == proof.virtual_evaluations@
                },
                Err(e) => if !range_fits(*plan, range) {
                    &&& e.is_setup("fused Stage-1 leaf has inconsistent range geometry"@)
                    &&& final(transcript).log() == old(transcript).log()
                } else if !holds {
                    &&& final(transcript).log() == old(transcript).log()
                    &&& claim_refusal::<P, E, S>(*soundness, *plan, *proof, profile, cap) == Some(
                        e@,
                    )
                } else {
                    exchange matches Err(refusal) && refusal.told(plan.num_vars as nat, e)
                },
            }
        }),
{
    if range.equality_point.len() != plan.num_vars || range.leaf_coefficients.len() < 3 {
        return Err(AkitaError::setup("fused Stage-1 leaf has inconsistent range geometry"));
    }
    match validate_integer_claim::<P, E, S>(soundness, plan, proof, profile, cap) {
        Ok(()) => {},
        Err(e) => {
            return Err(e);
        },
    }
    let ghost before = transcript.log();
    let ghost replies = transcript.replies();
    let ghost claims = subclaim_entries(proof.subclaims@);
    transcript.absorb_integer(proof.response_l2_sq);
    let ghost head = seq![TranscriptEntry::<E>::Integer(proof.response_l2_sq)];
    let mut i: usize = 0;
    assert(transcript.log() =~= before + (head + claims.take(0)));
    while i < proof.subclaims.len()
        invariant
            i <= proof.subclaims@.len(),
            claims == subclaim_entries(proof.subclaims@),
            transcript.log() == before + (head + claims.take(i as int)),
            transcript.replies() == replies,
        decreases proof.subclaims@.len() - i,
    {
        transcript.absorb_subclaim(proof.subclaims[i]);
        proof {
            assert(claims.take(i + 1) =~= claims.take(i as int).push(claims[i as int]));
            assert(transcript.log() =~= before + (head + claims.take(i + 1)));
        }
        i += 1;
    }
    assert(claims.take(i as int) =~= claims);
    assert(transcript.log() == opening_log(*proof, before));
    let (gamma, subclaim_weights, norm_input_claim) = match plan.shape {
        PhysicalL2NormProofShape::Direct { .. } => {
            let none: Vec<E> = Vec::new();
            assert(none@ =~= Seq::empty());
            (E::zero(), none, E::from_u128(proof.response_l2_sq))
        },
        PhysicalL2NormProofShape::LimbGram { .. } => {
            let site = ChallengeSite::L2SubclaimBatch { level };
            let gamma = match transcript.challenge(site) {
                Ok(gamma) => gamma,
                Err(e) => {
                    return Err(e);
                },
            };
            let (weights, claim) = batch_subclaims(&proof.subclaims, gamma);
            (gamma, weights, claim)
        },
    };
    let merge_site = ChallengeSite::L2NormMerge { level };
    let norm_merge = match transcript.challenge(merge_site) {
        Ok(merge) => merge,
        Err(e) => {
            return Err(e);
        },
    };
    let verifier = PhysicalL2NormVerifier {
        plan,
        proof,
        range_equality_point: range.equality_point,
        range_leaf_coefficients: range.leaf_coefficients,
        range_image_evaluation: range.image_evaluation,
        subclaim_weights,
        input_claim: range.input_claim.add(norm_merge.mul(norm_input_claim)),
        norm_merge,
    };
    let degree: usize = verifier.degree_bound();
    let reduction = match transcript.reduce(
        level,
        verifier.num_rounds(),
        degree,
        verifier.input_claim(),
    ) {
        Ok(reduction) => reduction,
        Err(e) => {
            return Err(e);
        },
    };
    let expected = match verifier.expected_output_claim(reduction.point.as_slice()) {
        Ok(expected) => expected,
        Err(e) => {
            assert(!reaches(*plan, range, reduction.point@));
            return Err(e);
        },
    };
    assert(expected == final_claim(*plan, *proof, range, gamma, norm_merge, reduction.point@));
    if !expected.equals(reduction.output) {
        return Err(AkitaError::InvalidProof);
    }
    let ghost reduced = transcript.log();
    let ghost values = evaluation_entries(proof.virtual_evaluations@);
    let mut j: usize = 0;
    assert(transcript.log() =~= reduced + values.take(0));
    while j < proof.virtual_evaluations.len()
        invariant
            j <= proof.virtual_evaluations@.len(),
            values == evaluation_entries(proof.virtual_evaluations@),
            transcript.log() == reduced + values.take(j as int),
        decreases proof.virtual_evaluations@.len() - j,
    {
        transcript.absorb_virtual_evaluation(proof.virtual_evaluations[j]);
        proof {
            assert(values.take(j + 1) =~= values.take(j as int).push(values[j as int]));
            assert(transcript.log() =~= reduced + values.take(j + 1));
        }
        j += 1;
    }
    assert(values.take(j as int) =~= values);
    Ok(
        PhysicalL2VerifierReplay {
            point: reduction.point,
            virtual_evaluations: &proof.virtual_evaluations,
        },
    )
}

// ---------------------------------------------------------------------------
// What a verified norm means
// ---------------------------------------------------------------------------

/// Powers of a value multiply by adding their exponents, and the first power is
/// the value.
pub proof fn law_powers_add_exponents<E: Field>(x: E, a: nat, b: nat)
    ensures
        power(x, 0) == E::one_spec(),
        power(x, 1) == x + E::zero_spec(),
        power(x, a + b) == power(x, a) * power(x, b),
    decreases b,
{
    reveal_with_fuel(power, 2);
    rl::lemma_mul_identities(x);
    lemma_power_reduced(x, a);
    rl::lemma_mul_identities(power(x, a));
    if b > 0 {
        law_powers_add_exponents(x, a, (b - 1) as nat);
        E::law_mul_associates(power(x, a), power(x, (b - 1) as nat), x);
    }
}

proof fn lemma_power_reduced<E: Field>(x: E, n: nat)
    ensures
        rl::reduced(power(x, n)),
{
    rl::lemma_results_reduced(E::one_spec(), E::one_spec());
    if n > 0 {
        rl::lemma_results_reduced(power(x, (n - 1) as nat), x);
    }
}

/// The terms of a polynomial at a point.
pub open spec fn polynomial_terms<E: Field>(coefficients: Seq<E>, x: E) -> spec_fn(int) -> E {
    |k: int| coefficients[k] * power(x, k as nat)
}

/// The range leaf is the polynomial with its coefficients at the image: the sum
/// of every coefficient times its power of the image.
pub proof fn law_leaf_is_a_polynomial<E: Field>(coefficients: Seq<E>, x: E)
    ensures
        horner(coefficients, x, 0) == rl::sum_range(
            polynomial_terms(coefficients, x),
            0,
            coefficients.len() as int,
        ),
{
    let n = coefficients.len() as int;
    let f = polynomial_terms(coefficients, x);
    let g = |j: int| coefficients[j] * power(x, (j - 0) as nat);
    lemma_horner_tail(coefficients, x, 0);
    assert forall|j: int| 0 <= j < n implies #[trigger] f(j) == g(j) by {}
    rl::lemma_sum_congruent(tail_terms(coefficients, x, 0), f, 0, n);
}

/// The terms of the coefficients from `k` on, with exponents from zero on.
spec fn tail_terms<E: Field>(coefficients: Seq<E>, x: E, k: int) -> spec_fn(int) -> E {
    |j: int| coefficients[j] * power(x, (j - k) as nat)
}

proof fn lemma_horner_tail<E: Field>(coefficients: Seq<E>, x: E, k: int)
    requires
        0 <= k <= coefficients.len(),
    ensures
        horner(coefficients, x, k) == rl::sum_range(
            tail_terms(coefficients, x, k),
            k,
            coefficients.len() as int,
        ),
    decreases coefficients.len() - k,
{
    let n = coefficients.len() as int;
    if k < n {
        lemma_horner_tail(coefficients, x, k + 1);
        let f = tail_terms(coefficients, x, k + 1);
        let g = tail_terms(coefficients, x, k);
        assert forall|j: int| k + 1 <= j < n implies #[trigger] g(j) == x * f(j) by {
            let p = power(x, (j - k - 1) as nat);
            assert(power(x, (j - k) as nat) == p * x);
            E::law_mul_associates(coefficients[j], p, x);
            E::law_mul_commutes(coefficients[j] * p, x);
        }
        rl::lemma_sum_scale(f, g, x, k + 1, n);
        let tail = rl::sum_range(f, k + 1, n);
        E::law_mul_commutes(tail, x);
        rl::lemma_sum_split(g, k, k + 1, n);
        rl::lemma_mul_identities(coefficients[k]);
        assert(g(k) == coefficients[k] + E::zero_spec());
        assert(rl::sum_range(g, k, k) == E::zero_spec());
        assert(rl::sum_range(g, k, k + 1) == E::zero_spec() + g(k));
        rl::lemma_results_reduced(coefficients[k], E::zero_spec());
        rl::lemma_zero_add(g(k));
        rl::lemma_reduced_add(tail * x, coefficients[k]);
        E::law_add_commutes(g(k), tail * x);
    }
}

/// The subclaims of a proof are batched by the powers of the challenge.
pub proof fn law_subclaims_are_batched_by_powers<E: Field>(claims: Seq<E>, gamma: E, n: nat)
    ensures
        batched(claims, gamma, n) == rl::sum_range(polynomial_terms(claims, gamma), 0, n as int),
        powers(gamma, n).len() == n,
        forall|i: int| 0 <= i < n ==> #[trigger] powers(gamma, n)[i] == power(gamma, i as nat),
    decreases n,
{
    if n > 0 {
        law_subclaims_are_batched_by_powers(claims, gamma, (n - 1) as nat);
    }
}

/// Pairs of limbs are counted from zero on, by their first limb and then by
/// their second, and there are as many as limbs with themselves and later ones.
pub proof fn law_pairs_are_counted_in_order(layout: LimbGramLayout, left: int, right: int)
    requires
        0 <= left <= right < layout.limb_count,
    ensures
        layout.pair_place(0, 0) == 0,
        right + 1 < layout.limb_count ==> layout.pair_place(left, right + 1) == layout.pair_place(
            left,
            right,
        ) + 1,
        left + 1 < layout.limb_count ==> layout.pair_place(left + 1, left + 1)
            == layout.pair_place(left, layout.limb_count - 1) + 1,
        layout.pair_place(layout.limb_count - 1, layout.limb_count - 1) + 1 == layout.pair_total(),
        2 * layout.pair_total() == layout.limb_count * (layout.limb_count + 1),
{
    let n = layout.limb_count as int;
    lemma_pairs(n, n);
    assert(n * (2 * n - n + 1) == n * (n + 1)) by (nonlinear_arith);
}

/// What pair `place` weighs at entry `i` of a response: the weight of the pair
/// in the block of the entry.
pub open spec fn entry_weights<E: Field>(
    layout: LimbGramLayout,
    weights: Seq<E>,
    point: Seq<E>,
    place: int,
) -> spec_fn(int) -> E {
    |i: int|
        weights[(i / layout.block_len as int) * layout.pair_total() + place] * eq_poly::eq_weights(
            point,
        )(i)
}

/// The weight of a pair of limbs at a point is the sum, over the entries of the
/// response, of the equality weight of the entry times the weight of the pair in
/// its block.
pub proof fn law_pairs_weigh_what_their_entries_weigh<E: Field>(
    layout: LimbGramLayout,
    weights: Seq<E>,
    point: Seq<E>,
    place: int,
)
    requires
        layout.wf(),
    ensures
        selector(layout, weights, point, place, layout.blocks()) == rl::sum_range(
            entry_weights(layout, weights, point, place),
            0,
            layout.response_len as int,
        ),
{
    lemma_blocks(layout);
    lemma_selector(layout, weights, point, place, layout.blocks());
}

proof fn lemma_selector<E: Field>(
    layout: LimbGramLayout,
    weights: Seq<E>,
    point: Seq<E>,
    place: int,
    blocks: int,
)
    requires
        layout.wf(),
        0 <= blocks <= layout.blocks(),
    ensures
        selector(layout, weights, point, place, blocks) == rl::sum_range(
            entry_weights(layout, weights, point, place),
            0,
            layout.cut(blocks),
        ),
    decreases blocks,
{
    let g = entry_weights(layout, weights, point, place);
    let e = eq_poly::eq_weights(point);
    let d = layout.block_len as int;
    if blocks == 0 {
        assert(0 * d == 0);
    } else {
        let b = blocks - 1;
        lemma_selector(layout, weights, point, place, b);
        lemma_cut_step(layout, b);
        let (lo, hi) = (layout.cut(b), layout.cut(blocks));
        assert(b * d >= 0) by (nonlinear_arith)
            requires
                b >= 0,
                d > 0,
        ;
        let w = weights[b * layout.pair_total() + place];
        assert forall|i: int| lo <= i < hi implies #[trigger] g(i) == w * e(i) by {
            vstd::arithmetic::div_mod::lemma_fundamental_div_mod_converse(i, d, b, i - b * d);
        }
        rl::lemma_sum_scale(e, g, w, lo, hi);
        rl::lemma_sum_split(e, 0, lo, hi);
        rl::lemma_sum_split(g, 0, lo, hi);
        let (x, y) = (rl::sum_range(e, 0, lo), rl::sum_range(e, lo, hi));
        E::law_add_commutes(x, y);
        rl::lemma_sub_add_cancel(y, x);
        rl::lemma_sum_reduced(e, lo, hi);
        assert(block_weight(layout, point, b) == y);
    }
}

/// The weighed products of limb `left` with itself and with every later limb.
pub open spec fn pair_terms<E: Field>(
    layout: LimbGramLayout,
    weights: Seq<E>,
    point: Seq<E>,
    values: Seq<E>,
    left: int,
) -> spec_fn(int) -> E {
    |right: int|
        rl::sum_range(
            entry_weights(layout, weights, point, layout.pair_place(left, right)),
            0,
            layout.response_len as int,
        ) * values[left] * values[right]
}

/// The weighed products by their first limb.
pub open spec fn limb_terms<E: Field>(
    layout: LimbGramLayout,
    weights: Seq<E>,
    point: Seq<E>,
    values: Seq<E>,
) -> spec_fn(int) -> E {
    |left: int|
        rl::sum_range(
            pair_terms(layout, weights, point, values, left),
            left,
            layout.limb_count as int,
        )
}

/// The norm part of a claim is the sum over all pairs of limbs of what the pair
/// weighs at the point times the values of both limbs.
pub proof fn law_norm_is_a_sum_over_pairs<E: Field>(
    layout: LimbGramLayout,
    weights: Seq<E>,
    point: Seq<E>,
    values: Seq<E>,
)
    requires
        layout.wf(),
    ensures
        limb_value(layout, weights, point, values, layout.limb_count as int) == rl::sum_range(
            limb_terms(layout, weights, point, values),
            0,
            layout.limb_count as int,
        ),
{
    lemma_limb_value(layout, weights, point, values, layout.limb_count as int);
}

proof fn lemma_limb_value<E: Field>(
    layout: LimbGramLayout,
    weights: Seq<E>,
    point: Seq<E>,
    values: Seq<E>,
    lefts: int,
)
    requires
        layout.wf(),
        0 <= lefts,
    ensures
        limb_value(layout, weights, point, values, lefts) == rl::sum_range(
            limb_terms(layout, weights, point, values),
            0,
            lefts,
        ),
    decreases lefts,
{
    if lefts > 0 {
        lemma_limb_value(layout, weights, point, values, lefts - 1);
        let start = limb_value(layout, weights, point, values, lefts - 1);
        rl::lemma_sum_reduced(limb_terms(layout, weights, point, values), 0, lefts - 1);
        lemma_row_value(
            layout,
            weights,
            point,
            values,
            start,
            lefts - 1,
            layout.limb_count as int,
        );
    }
}

proof fn lemma_row_value<E: Field>(
    layout: LimbGramLayout,
    weights: Seq<E>,
    point: Seq<E>,
    values: Seq<E>,
    start: E,
    left: int,
    end: int,
)
    requires
        layout.wf(),
        rl::reduced(start),
    ensures
        row_value(layout, weights, point, values, start, left, end) == start + rl::sum_range(
            pair_terms(layout, weights, point, values, left),
            left,
            end,
        ),
    decreases end - left,
{
    let f = pair_terms(layout, weights, point, values, left);
    if end > left {
        lemma_row_value(layout, weights, point, values, start, left, end - 1);
        law_pairs_weigh_what_their_entries_weigh(
            layout,
            weights,
            point,
            layout.pair_place(left, end - 1),
        );
        E::law_add_associates(start, rl::sum_range(f, left, end - 1), f(end - 1));
    }
}

/// The claim that a reduction has to end with: the equality of the two points
/// times the leaf polynomial at the image, and the merge challenge times the
/// square of the value, or the weighed products of the limbs.
pub proof fn law_final_claims<E: Field>(
    plan: PhysicalResponsePlan,
    proof: PhysicalL2NormProof<E>,
    range: PhysicalL2RangeClaim<'_, E>,
    gamma: E,
    merge: E,
    point: Seq<E>,
)
    ensures
        ({
            let values = proof.virtual_evaluations@;
            let leaf = rl::sum_range(
                polynomial_terms(range.leaf_coefficients@, range.image_evaluation),
                0,
                range.leaf_coefficients@.len() as int,
            );
            let claim = final_claim(plan, proof, range, gamma, merge, point);
            let part = eq_poly::eq_product(range.equality_point@, point) * leaf;
            match plan.shape {
                PhysicalL2NormProofShape::Direct { .. } => claim == part + merge * (values[0]
                    * values[0]),
                PhysicalL2NormProofShape::LimbGram { response_len, block_len, limb_count } => {
                    let layout = LimbGramLayout { response_len, block_len, limb_count };
                    layout.wf() ==> claim == part + merge * rl::sum_range(
                        limb_terms(
                            layout,
                            Seq::new(proof.subclaims@.len(), |i: int| power(gamma, i as nat)),
                            point,
                            values,
                        ),
                        0,
                        limb_count as int,
                    )
                },
            }
        }),
{
    law_leaf_is_a_polynomial(range.leaf_coefficients@, range.image_evaluation);
    if let PhysicalL2NormProofShape::LimbGram { response_len, block_len, limb_count } = plan.shape {
        let layout = LimbGramLayout { response_len, block_len, limb_count };
        let weights = Seq::new(proof.subclaims@.len(), |i: int| power(gamma, i as nat));
        assert(powers(gamma, proof.subclaims@.len()) =~= weights);
        if layout.wf() {
            law_norm_is_a_sum_over_pairs(
                layout,
                weights,
                point,
                proof.virtual_evaluations@,
            );
        }
    }
}

/// The number of challenges that a plan draws before its reduction.
pub open spec fn drawn_by(shape: PhysicalL2NormProofShape) -> int {
    match shape {
        PhysicalL2NormProofShape::Direct { .. } => 1,
        PhysicalL2NormProofShape::LimbGram { .. } => 2,
    }
}

/// An accepted exchange binds, in this order, the claimed norm, every subclaim,
/// the challenge that batches them where there are limbs, the challenge that
/// merges the norm into the range claim, the reduction and every value at its
/// point, and nothing else. The reduction starts from the range claim and the
/// merged norm claim, and ends with the final claim.
pub proof fn law_accepted_exchanges_bind_the_proof<E: Field>(
    replies: Replies<E>,
    plan: PhysicalResponsePlan,
    proof: PhysicalL2NormProof<E>,
    range: PhysicalL2RangeClaim<'_, E>,
    level: u32,
    before: Seq<TranscriptEntry<E>>,
)
    requires
        accepted(replies, plan, proof, range, level, before) is Ok,
        range.leaf_coefficients@.len() <= usize::MAX,
    ensures
        ({
            let (point, log) = accepted(replies, plan, proof, range, level, before)->Ok_0;
            let claims = proof.subclaims@;
            let n = before.len();
            let m = n + 1 + claims.len();
            let at = m + drawn_by(plan.shape);
            &&& log.len() == at + 1 + proof.virtual_evaluations@.len()
            &&& log.take(n as int) == before
            &&& log[n as int] == TranscriptEntry::<E>::Integer(proof.response_l2_sq)
            &&& forall|i: int|
                0 <= i < claims.len() ==> #[trigger] log[n + 1 + i] == TranscriptEntry::Subclaim(
                    claims[i],
                )
            &&& plan.shape is LimbGram ==> (log[m as int] matches TranscriptEntry::Challenge {
                site,
                ..
            } && site == (ChallengeSite::L2SubclaimBatch { level }))
            &&& log[at - 1] matches TranscriptEntry::Challenge { site, value: merge } && {
                let start = match plan.shape {
                    PhysicalL2NormProofShape::Direct { .. } => E::of_int(
                        proof.response_l2_sq as int,
                    ),
                    PhysicalL2NormProofShape::LimbGram { .. } => rl::sum_range(
                        polynomial_terms(claims, log[m as int]->value),
                        0,
                        claims.len() as int,
                    ),
                };
                &&& site == (ChallengeSite::L2NormMerge { level })
                &&& log[at] matches TranscriptEntry::Reduction {
                    level: reduced,
                    rounds,
                    degree,
                    claim,
                    point: end,
                    output,
                } && {
                    &&& reduced == level
                    &&& rounds == plan.num_vars
                    &&& degree == range.leaf_coefficients@.len()
                    &&& claim == range.input_claim + merge * start
                    &&& end == point
                    &&& point.len() == range.equality_point@.len()
                    &&& output == final_claim(
                        plan,
                        proof,
                        range,
                        if plan.shape is LimbGram {
                            log[m as int]->value
                        } else {
                            E::zero_spec()
                        },
                        merge,
                        point,
                    )
                }
            }
            &&& forall|i: int|
                0 <= i < proof.virtual_evaluations@.len() ==> #[trigger] log[at + 1 + i]
                    == TranscriptEntry::VirtualEvaluation(proof.virtual_evaluations@[i])
        }),
{
    let (point, log) = accepted(replies, plan, proof, range, level, before)->Ok_0;
    let claims = proof.subclaims@;
    let n = before.len();
    let m = n + 1 + claims.len();
    let at = m + drawn_by(plan.shape);
    let opened = opening_log(proof, before);
    let gamma = batch_reply(replies, plan, level, opened)->Ok_0;
    let batched = batched_log(plan, level, gamma, opened);
    law_subclaims_are_batched_by_powers(claims, gamma, claims.len());
    assert(opened.len() == m);
    assert(batched.len() == at - 1);
    assert(log.take(n as int) =~= before);
    assert forall|i: int| 0 <= i < claims.len() implies #[trigger] log[n + 1 + i]
        == TranscriptEntry::Subclaim(claims[i]) by {
        assert(log[n + 1 + i] == opened[n + 1 + i]);
    }
    if plan.shape is LimbGram {
        assert(log[m as int] == batched[m as int]);
    }
}

/// What an integer claim that holds says: the modulus is that of the base field,
/// the claimed norm is within the cap and the plan is sound. A direct norm is
/// smaller than the modulus. A norm from limbs is made up by integers that the
/// subclaims stand for, each within the bound of its block.
pub proof fn law_claims_that_hold_are_bounded<
    const P: u128,
    E: Extension<P>,
    S: NormSoundness,
>(
    soundness: S,
    plan: PhysicalResponsePlan,
    proof: PhysicalL2NormProof<E>,
    profile: SisModulusProfileId,
    cap: u128,
)
    requires
        integer_claim_holds::<P, E, S>(soundness, plan, proof, profile, cap),
    ensures
        PrimeField::<P>::modulus_spec() == profile.prime(),
        proof.response_l2_sq <= cap,
        soundness.sound(plan, profile),
        match plan.shape {
            PhysicalL2NormProofShape::Direct { .. } => {
                &&& proof.subclaims@.len() == 0
                &&& proof.virtual_evaluations@.len() == 1
                &&& proof.response_l2_sq < profile.prime()
            },
            PhysicalL2NormProofShape::LimbGram { response_len, block_len, limb_count } => {
                let layout = LimbGramLayout { response_len, block_len, limb_count };
                let half = plan.fold_basis as int / 2;
                &&& layout.wf()
                &&& proof.subclaims@.len() == layout.blocks() * layout.pair_total()
                &&& proof.virtual_evaluations@.len() == limb_count
                &&& exists|products: Seq<int>|
                    {
                        &&& products.len() == proof.subclaims@.len()
                        &&& #[trigger] gram_norm(
                            layout,
                            plan.fold_basis as int,
                            products,
                            layout.blocks(),
                        ) == proof.response_l2_sq
                        &&& forall|i: int|
                            0 <= i < products.len() ==> {
                                &&& lifted::<P, E>(
                                    proof.subclaims@[i],
                                    profile.prime(),
                                ) == Some(#[trigger] products[i])
                                &&& -(block_len * (half * half)) <= products[i] <= block_len * (
                                half * half)
                            }
                    }
            },
        },
{
    if let PhysicalL2NormProofShape::LimbGram { response_len, block_len, limb_count } = plan.shape {
        let layout = LimbGramLayout { response_len, block_len, limb_count };
        let products = lifted_claims::<P, E>(proof.subclaims@, profile.prime());
        let half = plan.fold_basis as int / 2;
        assert forall|i: int| 0 <= i < products.len() implies {
            &&& lifted::<P, E>(proof.subclaims@[i], profile.prime()) == Some(
                #[trigger] products[i],
            )
            &&& -(block_len * (half * half)) <= products[i] <= block_len * (half * half)
        } by {
            assert(lifted::<P, E>(proof.subclaims@[i], profile.prime()) is Some);
        }
        assert(gram_norm(layout, plan.fold_basis as int, products, layout.blocks())
            == proof.response_l2_sq);
    }
}

/// An integer that a value stands for is congruent to it, and no integer of the
/// residue is smaller in magnitude.
pub proof fn law_lifts_are_least<const P: u128, E: Extension<P>>(value: E, z: int)
    requires
        lifted::<P, E>(value, PrimeField::<P>::modulus_spec()) == Some(z),
        0 <= value.coords()[0].value_spec() < PrimeField::<P>::modulus_spec(),
    ensures
        PrimeField::<P>::modulus_spec() <= i128::MAX,
        value.coords().len() > 0,
        forall|i: int|
            1 <= i < value.coords().len() ==> #[trigger] value.coords()[i]
                == PrimeField::<P>::zero_spec(),
        z % PrimeField::<P>::modulus_spec() == value.coords()[0].value_spec(),
        -PrimeField::<P>::modulus_spec() < 2 * z <= PrimeField::<P>::modulus_spec(),
{
    let m = PrimeField::<P>::modulus_spec();
    let v = value.coords()[0].value_spec();
    vstd::arithmetic::div_mod::lemma_small_mod(v as nat, m as nat);
    vstd::arithmetic::div_mod::lemma_mod_sub_multiples_vanish(v, m);
}

/// The inner products of limbs within half the basis are within the bound that a
/// claim is held to.
pub proof fn law_honest_products_are_within_bounds(
    plan: PhysicalResponsePlan,
    block_len: usize,
    limbs: spec_fn(int, int) -> int,
    left: int,
    right: int,
    lo: int,
    hi: int,
)
    requires
        lo <= hi <= lo + block_len,
        forall|l: int, i: int|
            -(plan.fold_basis as int / 2) <= #[trigger] limbs(l, i) <= plan.fold_basis as int / 2,
    ensures
        -product_bound(plan, block_len) <= limb_dot(limbs, left, right, lo, hi) <= product_bound(
            plan,
            block_len,
        ),
{
    let half = plan.fold_basis as int / 2;
    lemma_dot_bounds(limbs, left, right, lo, hi, half);
    assert((hi - lo) * (half * half) <= block_len * (half * half)) by (nonlinear_arith)
        requires
            hi - lo <= block_len,
            0 <= half,
    ;
}

proof fn lemma_dot_bounds(
    limbs: spec_fn(int, int) -> int,
    left: int,
    right: int,
    lo: int,
    hi: int,
    half: int,
)
    requires
        lo <= hi,
        0 <= half,
        forall|l: int, i: int| -half <= #[trigger] limbs(l, i) <= half,
    ensures
        -((hi - lo) * (half * half)) <= limb_dot(limbs, left, right, lo, hi) <= (hi - lo) * (half
            * half),
    decreases hi - lo,
{
    if lo < hi {
        lemma_dot_bounds(limbs, left, right, lo, hi - 1, half);
        let (x, y) = (limbs(left, hi - 1), limbs(right, hi - 1));
        assert(-(half * half) <= x * y <= half * half) by (nonlinear_arith)
            requires
                -half <= x <= half,
                -half <= y <= half,
        ;
        assert((hi - lo) * (half * half) == (hi - 1 - lo) * (half * half) + half * half)
            by (nonlinear_arith);
    } else {
        assert(0 * (half * half) == 0) by (nonlinear_arith);
    }
}

/// The claim of a verifier at a point: the equality of the two points times the
/// leaf polynomial at the image, and the merge challenge times the norm part,
/// which is the square of the value, or the weighed products of the limbs.
pub proof fn law_verifiers_claim_both_parts<E: Field>(
    verifier: PhysicalL2NormVerifier<'_, E>,
    point: Seq<E>,
)
    requires
        verifier.defined_at(point),
    ensures
        ({
            let values = verifier.proof.virtual_evaluations@;
            let coefficients = verifier.range_leaf_coefficients@;
            let range = eq_poly::eq_product(verifier.range_equality_point@, point) * rl::sum_range(
                |k: int| coefficients[k] * power(verifier.range_image_evaluation, k as nat),
                0,
                coefficients.len() as int,
            );
            match verifier.plan.shape {
                PhysicalL2NormProofShape::Direct { .. } => verifier.claim_at(point) == range
                    + verifier.norm_merge * (values[0] * values[0]),
                PhysicalL2NormProofShape::LimbGram { response_len, block_len, limb_count } => {
                    let layout = LimbGramLayout { response_len, block_len, limb_count };
                    verifier.claim_at(point) == range + verifier.norm_merge * rl::sum_range(
                        limb_terms(layout, verifier.subclaim_weights@, point, values),
                        0,
                        limb_count as int,
                    )
                },
            }
        }),
{
    let coefficients = verifier.range_leaf_coefficients@;
    let x = verifier.range_image_evaluation;
    law_leaf_is_a_polynomial(coefficients, x);
    rl::lemma_sum_congruent(
        polynomial_terms(coefficients, x),
        |k: int| coefficients[k] * power(x, k as nat),
        0,
        coefficients.len() as int,
    );
    if let PhysicalL2NormProofShape::LimbGram { response_len, block_len, limb_count } =
        verifier.plan.shape {
        let layout = LimbGramLayout { response_len, block_len, limb_count };
        law_norm_is_a_sum_over_pairs(
            layout,
            verifier.subclaim_weights@,
            point,
            verifier.proof.virtual_evaluations@,
        );
    }
}

/// The blocks of a layout hold the response, and without the last they do not;
/// block by block they begin where the block before ends.
pub proof fn law_blocks_hold_the_response(layout: LimbGramLayout, b: int)
    requires
        layout.wf(),
        0 <= b < layout.blocks(),
    ensures
        layout.blocks() * layout.block_len >= layout.response_len,
        (layout.blocks() - 1) * layout.block_len < layout.response_len,
        layout.cut(b) == layout.block_len * b,
        layout.cut(layout.blocks()) == layout.response_len,
        0 < layout.cut(b + 1) - layout.cut(b) <= layout.block_len,
{
    let (n, d, q) = (layout.response_len as int, layout.block_len as int, layout.blocks());
    crate::checked::law_quotients_round_up(n, d);
    assert(b * d <= (q - 1) * d && b * d == d * b && (b + 1) * d == b * d + d) by (nonlinear_arith)
        requires
            b <= q - 1,
            d > 0,
    ;
}

/// A limb stands for the power of the basis at its place, and a pair of different
/// limbs occurs twice in a square.
pub proof fn law_limbs_stand_for_powers(basis: int, limb: nat, left: int, right: int, product: int)
    ensures
        limb_scale(basis, limb as int) == vstd::arithmetic::power::pow(basis, limb),
        left == right ==> gram_term(basis, left, right, product) == limb_scale(basis, left)
            * limb_scale(basis, left) * product,
        left != right ==> gram_term(basis, left, right, product) == 2 * (limb_scale(basis, left)
            * limb_scale(basis, right) * product),
    decreases limb,
{
    if limb > 0 {
        law_limbs_stand_for_powers(basis, (limb - 1) as nat, left, right, product);
        vstd::arithmetic::power::lemma_pow1(basis);
        vstd::arithmetic::power::lemma_pow_adds(basis, 1, (limb - 1) as nat);
    } else {
        vstd::arithmetic::power::lemma_pow0(basis);
    }
    let (x, y) = (limb_scale(basis, left), limb_scale(basis, right));
    assert((1 * (x * y)) * product == x * y * product);
    assert((2 * (x * y)) * product == 2 * (x * y * product)) by (nonlinear_arith);
}

/// A claim that meets all that is asked of it holds: under the modulus of the base
/// field, within the cap and under a sound plan, a direct norm that is smaller than
/// the modulus, or a norm that is made up by the integers that the subclaims stand
/// for, each within the bound of its block.
pub proof fn law_claims_that_fit_hold<const P: u128, E: Extension<P>, S: NormSoundness>(
    soundness: S,
    plan: PhysicalResponsePlan,
    proof: PhysicalL2NormProof<E>,
    profile: SisModulusProfileId,
    cap: u128,
    products: Seq<int>,
)
    requires
        PrimeField::<P>::modulus_spec() == profile.prime(),
        proof.response_l2_sq <= cap,
        soundness.sound(plan, profile),
        match plan.shape {
            PhysicalL2NormProofShape::Direct { .. } => {
                &&& proof.subclaims@.len() == 0
                &&& proof.virtual_evaluations@.len() == 1
                &&& proof.response_l2_sq < profile.prime()
            },
            PhysicalL2NormProofShape::LimbGram { response_len, block_len, limb_count } => {
                let layout = LimbGramLayout { response_len, block_len, limb_count };
                let half = plan.fold_basis as int / 2;
                &&& layout.wf()
                &&& proof.subclaims@.len() == layout.blocks() * layout.pair_total()
                &&& proof.virtual_evaluations@.len() == limb_count
                &&& block_len * (half * half) <= u128::MAX
                &&& products.len() == proof.subclaims@.len()
                &&& forall|i: int|
                    0 <= i < products.len() ==> {
                        &&& lifted::<P, E>(#[trigger] proof.subclaims@[i], profile.prime()) == Some(
                            products[i],
                        )
                        &&& -(block_len * (half * half)) <= products[i] <= block_len * (half * half)
                    }
                &&& norm_computable(layout, plan.fold_basis as int, products)
                &&& gram_norm(layout, plan.fold_basis as int, products, layout.blocks())
                    == proof.response_l2_sq
            },
        },
    ensures
        integer_claim_holds::<P, E, S>(soundness, plan, proof, profile, cap),
{
    if plan.shape is LimbGram {
        assert(lifted_claims::<P, E>(proof.subclaims@, profile.prime()) =~= products);
    }
}

} // verus!
