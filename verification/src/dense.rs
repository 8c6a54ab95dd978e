//! Folds of dense polynomials.
//!
//! A dense polynomial is a flat list of coefficients, read as ring elements of
//! some degree and cut into blocks of positions. A fold weighs the positions of
//! every block; an evaluation weighs the folded blocks.

use crate::checked;
use crate::cyclotomic;
use crate::cyclotomic::CyclotomicRing;
use crate::error::AkitaError;
use crate::field::Field;
use crate::parallel::par_map_range;
use crate::ring_lemmas as rl;
use vstd::prelude::*;

verus! {

/// A polynomial in dense form.
#[derive(Clone, Debug, PartialEq, Eq)]
pub struct DensePoly<F: Field> {
    pub coeffs: Vec<F>,
}

/// The ring elements of a flat list.
pub open spec fn ring_entry<F: Field>(flat: Seq<F>, d: int, i: int) -> Seq<F> {
    flat.subrange(i * d, (i + 1) * d)
}

/// The number of ring elements of a flat list.
pub open spec fn ring_count(len: int, d: int) -> int {
    len / d
}

/// How many positions block `i` has, of those that have weights.
pub open spec fn block_len(count: int, positions: int, weights: int, i: int) -> int {
    let left = count - i * positions;
    let live = if left < positions {
        left
    } else {
        positions
    };
    if live < weights {
        live
    } else {
        weights
    }
}

/// The terms of coefficient `k` of a block weighed by scalars.
pub open spec fn fold_terms<F: Field>(
    entries: spec_fn(int) -> Seq<F>,
    weights: Seq<F>,
    start: int,
    k: int,
) -> spec_fn(int) -> F {
    |j: int| entries(start + j)[k] * weights[j]
}

/// The terms of coefficient `k` of a block weighed by ring elements.
pub open spec fn ring_fold_terms<F: Field>(
    entries: spec_fn(int) -> Seq<F>,
    weights: spec_fn(int) -> Seq<F>,
    start: int,
    k: int,
) -> spec_fn(int) -> F {
    |j: int| cyclotomic::product_coeff(entries(start + j), weights(j), k)
}

/// Whether folded blocks hold the sums of their terms.
pub open spec fn blocks_folded<F: Field, const D: usize>(
    folded: Seq<CyclotomicRing<F, D>>,
    entries: spec_fn(int) -> Seq<F>,
    count: int,
    weights: Seq<F>,
    positions: int,
) -> bool {
    &&& folded.len() == checked::ceil_div(count, positions)
    &&& forall|i: int, k: int|
        0 <= i < folded.len() && 0 <= k < D ==> #[trigger] folded[i]@[k] == rl::sum_range(
            fold_terms(entries, weights, i * positions, k),
            0,
            block_len(count, positions, weights.len() as int, i),
        )
}

/// Whether folded blocks hold the sums of their terms, weighed by ring elements.
pub open spec fn blocks_ring_folded<F: Field, const D: usize>(
    folded: Seq<CyclotomicRing<F, D>>,
    entries: spec_fn(int) -> Seq<F>,
    count: int,
    weights: spec_fn(int) -> Seq<F>,
    num_weights: int,
    positions: int,
) -> bool {
    &&& folded.len() == checked::ceil_div(count, positions)
    &&& forall|i: int, k: int|
        0 <= i < folded.len() && 0 <= k < D ==> #[trigger] folded[i]@[k] == rl::sum_range(
            ring_fold_terms(entries, weights, i * positions, k),
            0,
            block_len(count, positions, num_weights, i),
        )
}

/// Ring elements as a function of their place.
pub open spec fn ring_list<F: Field, const D: usize>(list: Seq<CyclotomicRing<F, D>>) -> spec_fn(
    int,
) -> Seq<F> {
    |i: int| list[i]@
}

/// The terms of coefficient `k` of an evaluation.
pub open spec fn evaluation_terms<F: Field, const D: usize>(
    folded: Seq<CyclotomicRing<F, D>>,
    weights: Seq<F>,
    k: int,
) -> spec_fn(int) -> F {
    |i: int| folded[i]@[k] * weights[i]
}

fn shorter(a: usize, b: usize) -> (r: usize)
    ensures
        r == if a < b {
            a
        } else {
            b
        },
{
    if a < b {
        a
    } else {
        b
    }
}

/// One block weighed by scalars.
fn fold_block<F: Field, const D: usize>(
    coeffs: &Vec<CyclotomicRing<F, D>>,
    weights: &[F],
    positions: usize,
    blocks: usize,
    i: usize,
) -> (acc: CyclotomicRing<F, D>)
    requires
        positions > 0,
        blocks == checked::ceil_div(coeffs@.len() as int, positions as int),
        i < blocks,
    ensures
        forall|k: int|
            0 <= k < D ==> #[trigger] acc@[k] == rl::sum_range(
                fold_terms(ring_list(coeffs@), weights@, i * positions, k),
                0,
                block_len(coeffs@.len() as int, positions as int, weights@.len() as int, i as int),
            ),
{
    let count: usize = coeffs.len();
    proof {
        lemma_block_starts(count as int, positions as int, i as int);
    }
    let start: usize = i * positions;
    let live: usize = shorter(shorter(count - start, positions), weights.len());
    let mut acc = CyclotomicRing::<F, D>::zero();
    let mut j: usize = 0;
    while j < live
        invariant
            j <= live,
            start == i * positions,
            start + live <= count,
            count == coeffs@.len(),
            live <= weights@.len(),
            forall|k: int|
                0 <= k < D ==> #[trigger] acc@[k] == rl::sum_range(
                    fold_terms(ring_list(coeffs@), weights@, start as int, k),
                    0,
                    j as int,
                ),
        decreases live - j,
    {
        coeffs[start + j].scale_accumulate_into(&mut acc, weights[j]);
        j += 1;
    }
    acc
}

/// Every block begins within the list.
proof fn lemma_block_starts(count: int, positions: int, i: int)
    requires
        0 <= count,
        0 < positions,
        0 <= i < checked::ceil_div(count, positions),
    ensures
        0 <= i * positions < count,
{
    let n = checked::ceil_div(count, positions);
    vstd::arithmetic::div_mod::lemma_fundamental_div_mod(count + positions - 1, positions);
    vstd::arithmetic::div_mod::lemma_mod_bound(count + positions - 1, positions);
    assert(positions * n <= count + positions - 1);
    assert(i * positions <= (n - 1) * positions && (n - 1) * positions == positions * n - positions
        && 0 <= i * positions) by (nonlinear_arith)
        requires
            0 <= i < n,
            0 < positions,
    ;
}

/// One block weighed by ring elements.
fn fold_block_ring<F: Field, const D: usize>(
    coeffs: &Vec<CyclotomicRing<F, D>>,
    weights: &Vec<CyclotomicRing<F, D>>,
    positions: usize,
    blocks: usize,
    i: usize,
) -> (acc: CyclotomicRing<F, D>)
    requires
        positions > 0,
        blocks == checked::ceil_div(coeffs@.len() as int, positions as int),
        i < blocks,
    ensures
        forall|k: int|
            0 <= k < D ==> #[trigger] acc@[k] == rl::sum_range(
                ring_fold_terms(ring_list(coeffs@), ring_list(weights@), i * positions, k),
                0,
                block_len(coeffs@.len() as int, positions as int, weights@.len() as int, i as int),
            ),
{
    let count: usize = coeffs.len();
    proof {
        lemma_block_starts(count as int, positions as int, i as int);
    }
    let start: usize = i * positions;
    let live: usize = shorter(shorter(count - start, positions), weights.len());
    let mut acc = CyclotomicRing::<F, D>::zero();
    let mut j: usize = 0;
    while j < live
        invariant
            j <= live,
            start == i * positions,
            start + live <= count,
            count == coeffs@.len(),
            live <= weights@.len(),
            forall|k: int|
                0 <= k < D ==> #[trigger] acc@[k] == rl::sum_range(
                    ring_fold_terms(ring_list(coeffs@), ring_list(weights@), start as int, k),
                    0,
                    j as int,
                ),
        decreases live - j,
    {
        let ghost before = acc@;
        coeffs[start + j].mul_accumulate_sparse_rhs_into(&weights[j], &mut acc);
        proof {
            assert forall|k: int| 0 <= k < D implies #[trigger] acc@[k] == rl::sum_range(
                ring_fold_terms(ring_list(coeffs@), ring_list(weights@), start as int, k),
                0,
                j + 1,
            ) by {
                let f = ring_fold_terms(ring_list(coeffs@), ring_list(weights@), start as int, k);
                assert(before[k] == rl::sum_range(f, 0, j as int));
                rl::lemma_sum_reduced(f, 0, j as int);
            }
        }
        j += 1;
    }
    acc
}

/// The weighed sum of folded blocks, over those that have weights.
pub fn evaluate_folded<F: Field, const D: usize>(
    folded: &Vec<CyclotomicRing<F, D>>,
    weights: &[F],
) -> (acc: CyclotomicRing<F, D>)
    ensures
        forall|k: int|
            0 <= k < D ==> #[trigger] acc@[k] == rl::sum_range(
                evaluation_terms(folded@, weights@, k),
                0,
                if folded@.len() < weights@.len() {
                    folded@.len() as int
                } else {
                    weights@.len() as int
                },
            ),
{
    let live: usize = shorter(folded.len(), weights.len());
    let mut acc = CyclotomicRing::<F, D>::zero();
    let mut i: usize = 0;
    while i < live
        invariant
            i <= live,
            live <= folded@.len(),
            live <= weights@.len(),
            forall|k: int|
                0 <= k < D ==> #[trigger] acc@[k] == rl::sum_range(
                    evaluation_terms(folded@, weights@, k),
                    0,
                    i as int,
                ),
        decreases live - i,
    {
        folded[i].scale_accumulate_into(&mut acc, weights[i]);
        i += 1;
    }
    acc
}

/// An opening point given by ring multipliers: one per position and one per
/// block, all of one ring degree.
pub struct SubfieldMultiplierOpeningPoint<F: Field, const D: usize> {
    pub positions: Vec<CyclotomicRing<F, D>>,
    pub blocks: Vec<CyclotomicRing<F, D>>,
}

impl<F: Field> DensePoly<F> {
    /// The ring elements of the polynomial.
    pub open spec fn entries(self, d: int) -> spec_fn(int) -> Seq<F> {
        |i: int| ring_entry(self.coeffs@, d, i)
    }

    /// Whether the coefficients make up whole ring elements.
    pub open spec fn viewable(self, d: int) -> bool {
        d > 0 && self.coeffs@.len() as int % d == 0
    }

    /// The polynomial as a list of ring elements.
    pub fn ring_coeffs<const D: usize>(&self) -> (r: Result<Vec<CyclotomicRing<F, D>>, AkitaError>)
        ensures
            match r {
                Ok(list) => {
                    &&& self.viewable(D as int)
                    &&& list@.len() == ring_count(self.coeffs@.len() as int, D as int)
                    &&& forall|i: int|
                        0 <= i < list@.len() ==> (#[trigger] list@[i])@ == ring_entry(
                            self.coeffs@,
                            D as int,
                            i,
                        )
                },
                Err(e) => !self.viewable(D as int) && e is InvalidInput,
            },
    {
        if D == 0 || self.coeffs.len() % D != 0 {
            return Err(AkitaError::input("coefficients do not make up whole ring elements"));
        }
        let len: usize = self.coeffs.len();
        let count: usize = len / D;
        let mut list: Vec<CyclotomicRing<F, D>> = Vec::new();
        let mut i: usize = 0;
        proof {
            vstd::arithmetic::div_mod::lemma_fundamental_div_mod(len as int, D as int);
            assert(count * D == D * count) by (nonlinear_arith);
        }
        while i < count
            invariant
                D > 0,
                i <= count,
                count * D == len,
                len == self.coeffs@.len(),
                list@.len() == i,
                forall|m: int|
                    0 <= m < i ==> (#[trigger] list@[m])@ == ring_entry(
                        self.coeffs@,
                        D as int,
                        m,
                    ),
            decreases count - i,
        {
            proof {
                assert(i * D + D <= count * D && 0 <= i * D && (i + 1) * D == i * D + D)
                    by (nonlinear_arith)
                    requires
                        0 <= i < count,
                        0 < D,
                ;
            }
            let start: usize = i * D;
            let mut row = [F::zero();D];
            let mut k: usize = 0;
            while k < D
                invariant
                    k <= D,
                    start + D <= len,
                    len == self.coeffs@.len(),
                    forall|m: int| 0 <= m < k ==> #[trigger] row@[m] == self.coeffs@[start + m],
                decreases D - k,
            {
                row[k] = self.coeffs[start + k];
                k += 1;
            }
            let ring = CyclotomicRing { coeffs: row };
            assert(ring@ =~= ring_entry(self.coeffs@, D as int, i as int));
            list.push(ring);
            i += 1;
        }
        Ok(list)
    }

    /// The ring elements, where they are known to exist.
    pub fn ring_view<const D: usize>(&self) -> (list: Vec<CyclotomicRing<F, D>>)
        requires
            self.viewable(D as int),
        ensures
            list@.len() == ring_count(self.coeffs@.len() as int, D as int),
            forall|i: int|
                0 <= i < list@.len() ==> (#[trigger] list@[i])@ == ring_entry(
                    self.coeffs@,
                    D as int,
                    i,
                ),
    {
        match self.ring_coeffs::<D>() {
            Ok(list) => list,
            Err(_e) => {
                assert(false);
                Vec::new()
            },
        }
    }

    /// Every block weighed by scalars, one per position.
    pub fn fold_blocks<const D: usize>(
        &self,
        scalars: &[F],
        num_positions_per_block: usize,
    ) -> (folded: Vec<CyclotomicRing<F, D>>)
        requires
            self.viewable(D as int),
            num_positions_per_block > 0,
        ensures
            blocks_folded(
                folded@,
                self.entries(D as int),
                ring_count(self.coeffs@.len() as int, D as int),
                scalars@,
                num_positions_per_block as int,
            ),
    {
        let coeffs = self.ring_view::<D>();
        let positions: usize = num_positions_per_block;
        let blocks: usize = checked::div_ceil(coeffs.len(), positions);
        let list = &coeffs;
        let work = |i: usize| -> (acc: CyclotomicRing<F, D>)
            requires
                i < blocks,
            ensures
                forall|k: int|
                    0 <= k < D ==> #[trigger] acc@[k] == rl::sum_range(
                        fold_terms(ring_list(list@), scalars@, i * positions, k),
                        0,
                        block_len(
                            list@.len() as int,
                            positions as int,
                            scalars@.len() as int,
                            i as int,
                        ),
                    ),
            { fold_block(list, scalars, positions, blocks, i) };
        let folded = par_map_range(blocks, &work);
        proof {
            let count = list@.len() as int;
            assert forall|i: int, k: int|
                0 <= i < folded@.len() && 0 <= k < D implies #[trigger] folded@[i]@[k]
                == rl::sum_range(
                fold_terms(self.entries(D as int), scalars@, i * positions, k),
                0,
                block_len(count, positions as int, scalars@.len() as int, i),
            ) by {
                assert(call_ensures(work, (i as usize,), folded@[(i as usize) as int]));
                lemma_block_starts(count, positions as int, i);
                let f = fold_terms(ring_list(list@), scalars@, i * positions, k);
                let g = fold_terms(self.entries(D as int), scalars@, i * positions, k);
                let hi = block_len(count, positions as int, scalars@.len() as int, i);
                assert forall|j: int| 0 <= j < hi implies #[trigger] f(j) == g(j) by {
                    assert(list@[i * positions + j]@ == ring_entry(
                        self.coeffs@,
                        D as int,
                        i * positions + j,
                    ));
                }
                rl::lemma_sum_congruent(f, g, 0, hi);
            }
        }
        folded
    }

    /// Every block weighed by ring elements, one per position.
    pub fn fold_blocks_ring<const D: usize>(
        &self,
        scalars: &Vec<CyclotomicRing<F, D>>,
        num_positions_per_block: usize,
    ) -> (folded: Vec<CyclotomicRing<F, D>>)
        requires
            self.viewable(D as int),
            num_positions_per_block > 0,
        ensures
            blocks_ring_folded(
                folded@,
                self.entries(D as int),
                ring_count(self.coeffs@.len() as int, D as int),
                ring_list(scalars@),
                scalars@.len() as int,
                num_positions_per_block as int,
            ),
    {
        let coeffs = self.ring_view::<D>();
        let positions: usize = num_positions_per_block;
        let blocks: usize = checked::div_ceil(coeffs.len(), positions);
        let list = &coeffs;
        let work = |i: usize| -> (acc: CyclotomicRing<F, D>)
            requires
                i < blocks,
            ensures
                forall|k: int|
                    0 <= k < D ==> #[trigger] acc@[k] == rl::sum_range(
                        ring_fold_terms(ring_list(list@), ring_list(scalars@), i * positions, k),
                        0,
                        block_len(
                            list@.len() as int,
                            positions as int,
                            scalars@.len() as int,
                            i as int,
                        ),
                    ),
            { fold_block_ring(list, scalars, positions, blocks, i) };
        let folded = par_map_range(blocks, &work);
        proof {
            let count = list@.len() as int;
            let weights = ring_list(scalars@);
            assert forall|i: int, k: int|
                0 <= i < folded@.len() && 0 <= k < D implies #[trigger] folded@[i]@[k]
                == rl::sum_range(
                ring_fold_terms(self.entries(D as int), weights, i * positions, k),
                0,
                block_len(count, positions as int, scalars@.len() as int, i),
            ) by {
                assert(call_ensures(work, (i as usize,), folded@[(i as usize) as int]));
                lemma_block_starts(count, positions as int, i);
                let f = ring_fold_terms(ring_list(list@), weights, i * positions, k);
                let g = ring_fold_terms(self.entries(D as int), weights, i * positions, k);
                let hi = block_len(count, positions as int, scalars@.len() as int, i);
                assert forall|j: int| 0 <= j < hi implies #[trigger] f(j) == g(j) by {
                    assert(list@[i * positions + j]@ == ring_entry(
                        self.coeffs@,
                        D as int,
                        i * positions + j,
                    ));
                }
                rl::lemma_sum_congruent(f, g, 0, hi);
            }
        }
        folded
    }

    /// The folded blocks, and their sum weighed by one scalar per block.
    pub fn evaluate_and_fold<const D: usize>(
        &self,
        live_block_weights: &[F],
        position_weights: &[F],
        num_positions_per_block: usize,
    ) -> (r: (CyclotomicRing<F, D>, Vec<CyclotomicRing<F, D>>))
        requires
            self.viewable(D as int),
            num_positions_per_block > 0,
        ensures
            blocks_folded(
                r.1@,
                self.entries(D as int),
                ring_count(self.coeffs@.len() as int, D as int),
                position_weights@,
                num_positions_per_block as int,
            ),
            forall|k: int|
                0 <= k < D ==> #[trigger] r.0@[k] == rl::sum_range(
                    evaluation_terms(r.1@, live_block_weights@, k),
                    0,
                    if r.1@.len() < live_block_weights@.len() {
                        r.1@.len() as int
                    } else {
                        live_block_weights@.len() as int
                    },
                ),
    {
        let folded = self.fold_blocks::<D>(position_weights, num_positions_per_block);
        let evaluation = evaluate_folded(&folded, live_block_weights);
        (evaluation, folded)
    }

    /// The same with ring multipliers in place of scalars. Every position of a
    /// live block and every live block needs a multiplier.
    pub fn evaluate_and_fold_subfield<const D: usize>(
        &self,
        multipliers: &SubfieldMultiplierOpeningPoint<F, D>,
        num_positions_per_block: usize,
    ) -> (r: Result<(CyclotomicRing<F, D>, Vec<CyclotomicRing<F, D>>), AkitaError>)
        requires
            num_positions_per_block > 0,
        ensures
            ({
                let count = ring_count(self.coeffs@.len() as int, D as int);
                let blocks = checked::ceil_div(count, num_positions_per_block as int);
                let live = if count < num_positions_per_block {
                    count
                } else {
                    num_positions_per_block as int
                };
                let valid = self.viewable(D as int) && live <= multipliers.positions@.len()
                    && blocks <= multipliers.blocks@.len();
                match r {
                    Ok((evaluation, folded)) => {
                        &&& valid
                        &&& blocks_ring_folded(
                            folded@,
                            self.entries(D as int),
                            count,
                            ring_list(multipliers.positions@),
                            multipliers.positions@.len() as int,
                            num_positions_per_block as int,
                        )
                        &&& forall|k: int|
                            0 <= k < D ==> #[trigger] evaluation@[k] == rl::sum_range(
                                ring_fold_terms(
                                    ring_list(folded@),
                                    ring_list(multipliers.blocks@),
                                    0,
                                    k,
                                ),
                                0,
                                blocks,
                            )
                    },
                    Err(e) => !valid && e is InvalidInput,
                }
            }),
    {
        let coeffs = match self.ring_coeffs::<D>() {
            Ok(coeffs) => coeffs,
            Err(e) => {
                return Err(e);
            },
        };
        let live: usize = shorter(coeffs.len(), num_positions_per_block);
        if live > multipliers.positions.len() {
            return Err(AkitaError::input("opening point has too few position multipliers"));
        }
        let blocks: usize = checked::div_ceil(coeffs.len(), num_positions_per_block);
        if blocks > multipliers.blocks.len() {
            return Err(AkitaError::input("opening point has too few block multipliers"));
        }
        let folded = self.fold_blocks_ring::<D>(&multipliers.positions, num_positions_per_block);
        let mut acc = CyclotomicRing::<F, D>::zero();
        let mut i: usize = 0;
        while i < blocks
            invariant
                i <= blocks,
                blocks == folded@.len(),
                blocks <= multipliers.blocks@.len(),
                forall|k: int|
                    0 <= k < D ==> #[trigger] acc@[k] == rl::sum_range(
                        ring_fold_terms(
                            ring_list(folded@),
                            ring_list(multipliers.blocks@),
                            0,
                            k,
                        ),
                        0,
                        i as int,
                    ),
            decreases blocks - i,
        {
            let ghost before = acc@;
            folded[i].mul_accumulate_into(&multipliers.blocks[i], &mut acc);
            proof {
                assert forall|k: int| 0 <= k < D implies #[trigger] acc@[k] == rl::sum_range(
                    ring_fold_terms(ring_list(folded@), ring_list(multipliers.blocks@), 0, k),
                    0,
                    i + 1,
                ) by {
                    let f = ring_fold_terms(
                        ring_list(folded@),
                        ring_list(multipliers.blocks@),
                        0,
                        k,
                    );
                    assert(before[k] == rl::sum_range(f, 0, i as int));
                    rl::lemma_sum_reduced(f, 0, i as int);
                }
            }
            i += 1;
        }
        Ok((acc, folded))
    }
}

// ---------------------------------------------------------------------------
// Laws
// ---------------------------------------------------------------------------

/// The weighed coefficients of an evaluation: coefficient `k` of every ring
/// element, with the weight of its position in its block and the weight of its
/// block.
pub open spec fn weighed_coefficients<F: Field>(
    flat: Seq<F>,
    d: int,
    k: int,
    positions: int,
    position_weights: Seq<F>,
    block_weights: Seq<F>,
) -> spec_fn(int) -> F {
    |e: int| (flat[e * d + k] * position_weights[e % positions]) * block_weights[e / positions]
}

/// A polynomial that is folded block by block and then evaluated over the folded
/// blocks is weighed coefficient by coefficient: the evaluation is the sum over
/// all its ring elements, each with the weights of its place.
pub proof fn law_evaluations_weigh_every_coefficient<F: Field, const D: usize>(
    folded: Seq<CyclotomicRing<F, D>>,
    flat: Seq<F>,
    position_weights: Seq<F>,
    block_weights: Seq<F>,
    positions: int,
    k: int,
)
    requires
        D > 0,
        flat.len() as int % D as int == 0,
        positions > 0,
        blocks_folded(
            folded,
            |i: int| ring_entry(flat, D as int, i),
            ring_count(flat.len() as int, D as int),
            position_weights,
            positions,
        ),
        position_weights.len() >= positions,
        block_weights.len() >= folded.len(),
        0 <= k < D,
    ensures
        rl::sum_range(evaluation_terms(folded, block_weights, k), 0, folded.len() as int)
            == rl::sum_range(
            weighed_coefficients(
                flat,
                D as int,
                k,
                positions,
                position_weights,
                block_weights,
            ),
            0,
            flat.len() as int / D as int,
        ),
{
    let count = ring_count(flat.len() as int, D as int);
    let d = D as int;
    vstd::arithmetic::div_mod::lemma_fundamental_div_mod(flat.len() as int, d);
    assert(count * d == flat.len()) by (nonlinear_arith)
        requires
            flat.len() == d * count,
    ;
    assert(count >= 0) by (nonlinear_arith)
        requires
            count * d == flat.len(),
            d > 0,
    ;
    lemma_evaluation_upto(
        folded,
        flat,
        position_weights,
        block_weights,
        positions,
        k,
        folded.len() as int,
    );
    lemma_last_cut(count, positions);
}

/// Where block `i` begins.
spec fn block_start(count: int, positions: int, i: int) -> int {
    if i * positions < count {
        i * positions
    } else {
        count
    }
}

proof fn lemma_last_cut(count: int, positions: int)
    requires
        count >= 0,
        positions > 0,
    ensures
        checked::ceil_div(count, positions) >= 0,
        block_start(count, positions, checked::ceil_div(count, positions)) == count,
        forall|i: int|
            0 <= i < checked::ceil_div(count, positions) ==> #[trigger] (i * positions) < count,
{
    let q = checked::ceil_div(count, positions);
    vstd::arithmetic::div_mod::lemma_fundamental_div_mod(count + positions - 1, positions);
    let r = (count + positions - 1) % positions;
    assert(q * positions >= count && q >= 0) by (nonlinear_arith)
        requires
            count + positions - 1 == positions * q + r,
            0 <= r < positions,
            count >= 0,
            positions > 0,
    ;
    assert forall|i: int| 0 <= i < q implies #[trigger] (i * positions) < count by {
        assert(i * positions < count) by (nonlinear_arith)
            requires
                count + positions - 1 == positions * q + r,
                0 <= r < positions,
                0 <= i < q,
                positions > 0,
        ;
    }
}

proof fn lemma_evaluation_upto<F: Field, const D: usize>(
    folded: Seq<CyclotomicRing<F, D>>,
    flat: Seq<F>,
    position_weights: Seq<F>,
    block_weights: Seq<F>,
    positions: int,
    k: int,
    n: int,
)
    requires
        D > 0,
        positions > 0,
        ring_count(flat.len() as int, D as int) * D == flat.len(),
        blocks_folded(
            folded,
            |i: int| ring_entry(flat, D as int, i),
            ring_count(flat.len() as int, D as int),
            position_weights,
            positions,
        ),
        position_weights.len() >= positions,
        block_weights.len() >= folded.len(),
        0 <= k < D,
        0 <= n <= folded.len(),
    ensures
        rl::sum_range(evaluation_terms(folded, block_weights, k), 0, n) == rl::sum_range(
            weighed_coefficients(
                flat,
                D as int,
                k,
                positions,
                position_weights,
                block_weights,
            ),
            0,
            block_start(ring_count(flat.len() as int, D as int), positions, n),
        ),
    decreases n,
{
    let d = D as int;
    let count = ring_count(flat.len() as int, d);
    let all = weighed_coefficients(flat, d, k, positions, position_weights, block_weights);
    assert(count >= 0) by (nonlinear_arith)
        requires
            count * d == flat.len(),
            d > 0,
    ;
    if n == 0 {
        assert(0 * positions == 0) by (nonlinear_arith);
    } else {
        let b = n - 1;
        lemma_evaluation_upto(
            folded,
            flat,
            position_weights,
            block_weights,
            positions,
            k,
            b,
        );
        lemma_last_cut(count, positions);
        assert(b * positions < count);
        let lo = b * positions;
        let hi = block_start(count, positions, n);
        assert(n * positions == lo + positions) by (nonlinear_arith)
            requires
                lo == b * positions,
                b == n - 1,
        ;
        assert(lo >= 0) by (nonlinear_arith)
            requires
                lo == b * positions,
                b >= 0,
                positions > 0,
        ;
        let len = block_len(count, positions, position_weights.len() as int, b);
        assert(len == hi - lo);
        let entries = |i: int| ring_entry(flat, d, i);
        let f = fold_terms(entries, position_weights, lo, k);
        let w = block_weights[b];
        let scaled = |j: int| w * f(j);
        rl::lemma_sum_scale(f, scaled, w, 0, len);
        assert forall|j: int| 0 <= j < len implies #[trigger] scaled(j) == all(j + lo) by {
            let e = lo + j;
            vstd::arithmetic::div_mod::lemma_fundamental_div_mod_converse(e, positions, b, j);
            assert((e + 1) * d == e * d + d && e * d >= 0 && (e + 1) * d <= flat.len())
                by (nonlinear_arith)
                requires
                    0 <= e < count,
                    count * d == flat.len(),
                    d > 0,
            ;
            assert(entries(e)[k] == flat[e * d + k]);
            F::law_mul_commutes(f(j), w);
        }
        rl::lemma_sum_shift(scaled, all, lo, 0, len);
        rl::lemma_sum_split(all, 0, lo, hi);
        assert(folded[b]@[k] == rl::sum_range(f, 0, len));
        F::law_mul_commutes(folded[b]@[k], w);
    }
}

/// A folded block is the sum of its ring elements, coefficient by coefficient,
/// each with the weight of its position in the block.
pub proof fn law_blocks_are_weighed_by_position<F: Field, const D: usize>(
    folded: Seq<CyclotomicRing<F, D>>,
    flat: Seq<F>,
    weights: Seq<F>,
    positions: int,
    i: int,
    k: int,
)
    requires
        D > 0,
        flat.len() as int % D as int == 0,
        positions > 0,
        blocks_folded(
            folded,
            |i: int| ring_entry(flat, D as int, i),
            ring_count(flat.len() as int, D as int),
            weights,
            positions,
        ),
        0 <= i < folded.len(),
        weights.len() >= positions,
        (i + 1) * positions * D <= flat.len(),
        0 <= k < D,
    ensures
        folded[i]@[k] == rl::sum_range(
            |j: int| flat[(positions * i + j) * D + k] * weights[j],
            0,
            positions,
        ),
{
    let d = D as int;
    let n = flat.len() as int;
    let count = ring_count(n, d);
    vstd::arithmetic::div_mod::lemma_fundamental_div_mod(n, d);
    let top = (i + 1) * positions;
    assert(count >= top) by (nonlinear_arith)
        requires
            n == d * count,
            top * d <= n,
            d > 0,
    ;
    assert(top == i * positions + positions && positions * i == i * positions && i * positions
        >= 0) by (nonlinear_arith)
        requires
            top == (i + 1) * positions,
            i >= 0,
            positions > 0,
    ;
    assert(block_len(count, positions, weights.len() as int, i) == positions);
    let entries = |i: int| ring_entry(flat, d, i);
    let f = fold_terms(entries, weights, i * positions, k);
    let g = |j: int| flat[(positions * i + j) * D + k] * weights[j];
    assert forall|j: int| 0 <= j < positions implies #[trigger] f(j) == g(j) by {
        let e = i * positions + j;
        assert((e + 1) * d == e * d + d && e * d >= 0 && (e + 1) * d <= n) by (nonlinear_arith)
            requires
                0 <= e < count,
                n == d * count,
                d > 0,
        ;
        assert(entries(e)[k] == flat[e * d + k]);
    }
    rl::lemma_sum_congruent(f, g, 0, positions);
    assert(folded[i]@[k] == rl::sum_range(f, 0, positions));
}

/// A block that is folded with ring elements is the sum of the products of its
/// ring elements with the weights of their positions.
pub proof fn law_blocks_are_multiplied_by_position<F: Field, const D: usize>(
    folded: Seq<CyclotomicRing<F, D>>,
    flat: Seq<F>,
    weights: Seq<CyclotomicRing<F, D>>,
    positions: int,
    i: int,
    k: int,
)
    requires
        D > 0,
        flat.len() as int % D as int == 0,
        positions > 0,
        blocks_ring_folded(
            folded,
            |i: int| ring_entry(flat, D as int, i),
            ring_count(flat.len() as int, D as int),
            ring_list(weights),
            weights.len() as int,
            positions,
        ),
        0 <= i < folded.len(),
        weights.len() >= positions,
        (i + 1) * positions * D <= flat.len(),
        0 <= k < D,
    ensures
        folded[i]@[k] == rl::sum_range(
            |j: int|
                cyclotomic::product_coeff(
                    Seq::new(D as nat, |m: int| flat[(positions * i + j) * D + m]),
                    weights[j]@,
                    k,
                ),
            0,
            positions,
        ),
{
    let d = D as int;
    let n = flat.len() as int;
    let count = ring_count(n, d);
    vstd::arithmetic::div_mod::lemma_fundamental_div_mod(n, d);
    let top = (i + 1) * positions;
    assert(count >= top) by (nonlinear_arith)
        requires
            n == d * count,
            top * d <= n,
            d > 0,
    ;
    assert(top == i * positions + positions && positions * i == i * positions && i * positions
        >= 0) by (nonlinear_arith)
        requires
            top == (i + 1) * positions,
            i >= 0,
            positions > 0,
    ;
    assert(block_len(count, positions, weights.len() as int, i) == positions);
    let entries = |i: int| ring_entry(flat, d, i);
    let f = ring_fold_terms(entries, ring_list(weights), i * positions, k);
    let g = |j: int|
        cyclotomic::product_coeff(
            Seq::new(D as nat, |m: int| flat[(positions * i + j) * D + m]),
            weights[j]@,
            k,
        );
    assert forall|j: int| 0 <= j < positions implies #[trigger] f(j) == g(j) by {
        let e = i * positions + j;
        assert((e + 1) * d == e * d + d && e * d >= 0 && (e + 1) * d <= n) by (nonlinear_arith)
            requires
                0 <= e < count,
                n == d * count,
                d > 0,
        ;
        assert(entries(e) =~= Seq::new(D as nat, |m: int| flat[(positions * i + j) * D + m]));
    }
    rl::lemma_sum_congruent(f, g, 0, positions);
    assert(folded[i]@[k] == rl::sum_range(f, 0, positions));
}

} // verus!
