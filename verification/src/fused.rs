//! Runs of the quotient kernels over prepared and over plain matrices.

use crate::cyclic;
use crate::cyclotomic::CyclotomicRing;
use crate::error::AkitaError;
use crate::field::Field;
use crate::quotients;
use crate::quotients::{
    accumulate_centered_quotient_rows, accumulate_cyclic_i8_rows, balanced_digit_abs_bound,
    fused_quotient_digit_bound, fused_split_eq_quotients_one_shot, plan_fused_quotients,
    CenteredRhs, FusedMatrixSource, FusedQuotientPlan, FusedQuotientRows, TransformCapacity,
};
use crate::ring_lemmas as rl;
use vstd::prelude::*;

verus! {

// ---------------------------------------------------------------------------
// Prepared matrices
// ---------------------------------------------------------------------------

/// The prime system that a matrix was transformed for.
#[derive(Clone, Copy, Debug, PartialEq, Eq, Structural)]
pub enum CrtProfile {
    Q32,
    Q64,
    Q128,
}

/// A prefix of a matrix, prepared for one or both products.
pub struct PreparedBase<F: Field, C, const D: usize> {
    pub profile: CrtProfile,
    pub params: C,
    pub negacyclic: Option<Vec<CyclotomicRing<F, D>>>,
    pub cyclic: Option<Vec<CyclotomicRing<F, D>>>,
}

/// A prefix of a matrix, prepared for both products under the extra modulus.
pub struct PreparedTail<F: Field, const D: usize> {
    pub negacyclic: Vec<CyclotomicRing<F, D>>,
    pub cyclic: Vec<CyclotomicRing<F, D>>,
}

/// What one cache slot holds.
pub struct PreparedNttCache<F: Field, C, const D: usize> {
    pub base: Option<PreparedBase<F, C, D>>,
    pub tail: Option<PreparedTail<F, D>>,
}

/// The prefix for products modulo `X^D + 1`; without A rows none is needed.
pub open spec fn negacyclic_prefix<F: Field, C, const D: usize>(
    slot: PreparedNttCache<F, C, D>,
    n_a: usize,
) -> Option<Seq<CyclotomicRing<F, D>>> {
    match slot.base {
        Some(base) => match base.negacyclic {
            Some(list) => Some(list@),
            None => if n_a == 0 {
                Some(Seq::empty())
            } else {
                None
            },
        },
        None => None,
    }
}

/// The prefix for products modulo `X^D - 1`.
pub open spec fn cyclic_prefix<F: Field, C, const D: usize>(
    slot: PreparedNttCache<F, C, D>,
) -> Option<Seq<CyclotomicRing<F, D>>> {
    match slot.base {
        Some(base) => match base.cyclic {
            Some(list) => Some(list@),
            None => None,
        },
        None => None,
    }
}

/// Whether two slots were prepared alike.
pub open spec fn alike<F: Field, C: TransformCapacity, const D: usize>(
    a: PreparedNttCache<F, C, D>,
    b: PreparedNttCache<F, C, D>,
) -> bool {
    match (a.base, b.base) {
        (Some(a), Some(b)) => a.profile == b.profile && a.params.same_as(b.params),
        _ => false,
    }
}

// ---------------------------------------------------------------------------
// One run
// ---------------------------------------------------------------------------

/// The number of digit vectors that a run reads.
pub open spec fn t_count(n_b: usize, available: nat) -> int {
    if n_b != 0 {
        available as int
    } else {
        0
    }
}

/// Whether a run over a matrix succeeds.
pub open spec fn runs<C: TransformCapacity, const D: usize>(
    capacity: C,
    t: Seq<[i8; D]>,
    z_available: nat,
    n_b: usize,
    n_a: usize,
    bound: u64,
    negacyclic_len: nat,
    cyclic_len: nat,
) -> bool {
    let t_len = t_count(n_b, t.len());
    let z_len = t_count(n_a, z_available);
    let reach = quotients::extent(n_b as int, t_len, n_a as int, z_len);
    let t_width = quotients::planned_t_width(capacity, t_len as usize, bound);
    &&& reach <= usize::MAX
    &&& reach <= cyclic_len
    &&& n_a * z_len <= negacyclic_len
    &&& (t_len == 0 && z_len == 0) || t_width is Some
}

/// Both products of a matrix, in one pass where the arithmetic can hold them
/// and in chunks where it cannot.
pub fn fused_split_eq_quotients_with_params<F: Field, C: TransformCapacity, const D: usize>(
    source: FusedMatrixSource<'_, F, D>,
    t_hat: &[[i8; D]],
    plan: FusedQuotientPlan<'_, D>,
    params: &C,
) -> (r: Result<FusedQuotientRows<F, D>, AkitaError>)
    requires
        cyclic::halvable::<F>(),
        source.wf(),
        plan.wf(),
        plan.t_len <= t_hat@.len(),
    ensures
        match r {
            Ok(rows) => {
                &&& source.reaches(plan)
                &&& plan.max_col == 0 || plan.t_chunk_width is Some
                &&& rows.are(
                    source.matrix(),
                    t_hat@,
                    plan.z_rhs.rows@,
                    plan.n_b as int,
                    plan.t_len as int,
                    plan.n_a as int,
                    plan.z_len as int,
                )
            },
            Err(e) => e is InvalidSetup && !(source.reaches(plan) && (plan.max_col == 0
                || plan.t_chunk_width is Some)),
        },
{
    match source.validate(plan) {
        Ok(()) => {},
        Err(e) => {
            return Err(e);
        },
    }
    if plan.max_col == 0 {
        return Ok(
            fused_split_eq_quotients_one_shot(&source, t_hat, plan, params.entry_bytes()),
        );
    }
    if plan.is_one_shot() {
        return Ok(
            fused_split_eq_quotients_one_shot(&source, t_hat, plan, params.entry_bytes()),
        );
    }
    let t_chunk_width: usize = match plan.t_chunk_width {
        Some(width) => width,
        None => {
            return Err(AkitaError::setup("CRT parameters cannot represent one t_hat term"));
        },
    };
    let b_cyclic = accumulate_cyclic_i8_rows(&source, t_hat, plan, t_chunk_width);
    let a_quotients = accumulate_centered_quotient_rows(&source, plan);
    Ok(FusedQuotientRows { b_cyclic, a_quotients })
}

/// Both products of a prepared matrix, with digits within a bound.
pub fn fused_split_eq_quotients_with_digit_bound<F: Field, C: TransformCapacity, const D: usize>(
    negacyclic_slot: &PreparedNttCache<F, C, D>,
    cyclic_slot: &PreparedNttCache<F, C, D>,
    n_b: usize,
    n_a: usize,
    t_hat: &[[i8; D]],
    z_rhs: CenteredRhs<'_, D>,
    t_digit_abs_bound: u64,
) -> (r: Result<FusedQuotientRows<F, D>, AkitaError>)
    requires
        cyclic::halvable::<F>(),
        z_rhs.wf(),
        negacyclic_prefix(*negacyclic_slot, n_a) is Some && cyclic_prefix(*cyclic_slot) is Some
            ==> quotients::one_matrix(
            negacyclic_prefix(*negacyclic_slot, n_a)->0,
            cyclic_prefix(*cyclic_slot)->0,
        ),
    ensures
        ({
            let neg = negacyclic_prefix(*negacyclic_slot, n_a);
            let cyc = cyclic_prefix(*cyclic_slot);
            let prepared = alike(*negacyclic_slot, *cyclic_slot) && neg is Some && cyc is Some;
            let in_range = quotients::digits_within(
                t_hat@,
                t_count(n_b, t_hat@.len()),
                t_digit_abs_bound as int,
            );
            let succeeds = runs(
                negacyclic_slot.base->0.params,
                t_hat@,
                z_rhs.rows@.len(),
                n_b,
                n_a,
                t_digit_abs_bound,
                neg->0.len(),
                cyc->0.len(),
            );
            match r {
                Ok(rows) => prepared && in_range && succeeds && rows.are(
                    quotients::prepared_matrix(neg->0, cyc->0),
                    t_hat@,
                    z_rhs.rows@,
                    n_b as int,
                    t_count(n_b, t_hat@.len()),
                    n_a as int,
                    t_count(n_a, z_rhs.rows@.len()),
                ),
                Err(e) => !(prepared && in_range && succeeds) && if prepared && !in_range {
                    e is InvalidInput
                } else {
                    e is InvalidSetup
                },
            }
        }),
{
    let (neg_base, cyc_base) = match (&negacyclic_slot.base, &cyclic_slot.base) {
        (Some(neg), Some(cyc)) => (neg, cyc),
        _ => {
            return Err(AkitaError::setup("cyclic and negacyclic NTT profiles do not match"));
        },
    };
    if neg_base.profile != cyc_base.profile || !neg_base.params.same(&cyc_base.params) {
        return Err(AkitaError::setup("cyclic and negacyclic NTT profiles do not match"));
    }
    let empty: Vec<CyclotomicRing<F, D>> = Vec::new();
    assert(empty@ =~= Seq::empty());
    let negacyclic = match &neg_base.negacyclic {
        Some(list) => list,
        None => {
            if n_a != 0 {
                return Err(AkitaError::setup("negacyclic NTT domain not prepared"));
            }
            &empty
        },
    };
    let cyclic = match &cyc_base.cyclic {
        Some(list) => list,
        None => {
            return Err(AkitaError::setup("cyclic NTT domain not prepared"));
        },
    };
    let t_all: usize = t_hat.len();
    let z_all: usize = z_rhs.rows.len();
    assert(t_all == t_hat@.len() && z_all == z_rhs.rows@.len());
    let plan = match plan_fused_quotients(
        t_hat,
        z_rhs,
        n_b,
        n_a,
        t_digit_abs_bound,
        &neg_base.params,
    ) {
        Ok(plan) => plan,
        Err(e) => {
            return Err(e);
        },
    };
    let source = FusedMatrixSource::Cached { negacyclic, cyclic };
    proof {
        assert(source.wf());
        lemma_reach(n_b as int, plan.t_len as int, n_a as int, plan.z_len as int);
    }
    fused_split_eq_quotients_with_params(source, t_hat, plan, &neg_base.params)
}

/// Both products reach no further than the extent.
proof fn lemma_reach(n_b: int, t_len: int, n_a: int, z_len: int)
    ensures
        n_a * z_len <= quotients::extent(n_b, t_len, n_a, z_len),
        n_b * t_len <= quotients::extent(n_b, t_len, n_a, z_len),
{
}

/// Both products of a prepared matrix, with digits of a basis.
pub fn fused_split_eq_quotients_prover_bounds<F: Field, C: TransformCapacity, const D: usize>(
    negacyclic_slot: &PreparedNttCache<F, C, D>,
    cyclic_slot: &PreparedNttCache<F, C, D>,
    n_b: usize,
    n_a: usize,
    t_hat: &[[i8; D]],
    z_rhs: CenteredRhs<'_, D>,
    log_basis_outer: u32,
) -> (r: Result<FusedQuotientRows<F, D>, AkitaError>)
    requires
        cyclic::halvable::<F>(),
        z_rhs.wf(),
        negacyclic_prefix(*negacyclic_slot, n_a) is Some && cyclic_prefix(*cyclic_slot) is Some
            ==> quotients::one_matrix(
            negacyclic_prefix(*negacyclic_slot, n_a)->0,
            cyclic_prefix(*cyclic_slot)->0,
        ),
    ensures
        ({
            let neg = negacyclic_prefix(*negacyclic_slot, n_a);
            let cyc = cyclic_prefix(*cyclic_slot);
            let bound = quotients::balanced_bound(log_basis_outer as int);
            let based = 1 <= log_basis_outer <= 8;
            let prepared = alike(*negacyclic_slot, *cyclic_slot) && neg is Some && cyc is Some;
            let in_range = quotients::digits_within(t_hat@, t_count(n_b, t_hat@.len()), bound);
            let succeeds = runs(
                negacyclic_slot.base->0.params,
                t_hat@,
                z_rhs.rows@.len(),
                n_b,
                n_a,
                bound as u64,
                neg->0.len(),
                cyc->0.len(),
            );
            match r {
                Ok(rows) => based && prepared && in_range && succeeds && rows.are(
                    quotients::prepared_matrix(neg->0, cyc->0),
                    t_hat@,
                    z_rhs.rows@,
                    n_b as int,
                    t_count(n_b, t_hat@.len()),
                    n_a as int,
                    t_count(n_a, z_rhs.rows@.len()),
                ),
                Err(e) => !(based && prepared && in_range && succeeds) && if !based || (prepared
                    && !in_range) {
                    e is InvalidInput
                } else {
                    e is InvalidSetup
                },
            }
        }),
{
    let bound: u64 = match fused_quotient_digit_bound(log_basis_outer) {
        Ok(bound) => bound,
        Err(e) => {
            return Err(e);
        },
    };
    fused_split_eq_quotients_with_digit_bound(
        negacyclic_slot,
        cyclic_slot,
        n_b,
        n_a,
        t_hat,
        z_rhs,
        bound,
    )
}

/// Both products of a matrix prepared for both in one slot, with digits of six
/// bits.
pub fn fused_split_eq_quotients<F: Field, C: TransformCapacity, const D: usize>(
    slot: &PreparedNttCache<F, C, D>,
    n_b: usize,
    n_a: usize,
    t_hat: &[[i8; D]],
    z_folded_rings: &[[i32; D]],
    z_folded_max_abs: u32,
) -> (r: Result<FusedQuotientRows<F, D>, AkitaError>)
    requires
        cyclic::halvable::<F>(),
        negacyclic_prefix(*slot, n_a) is Some && cyclic_prefix(*slot) is Some
            ==> quotients::one_matrix(
            negacyclic_prefix(*slot, n_a)->0,
            cyclic_prefix(*slot)->0,
        ),
    ensures
        ({
            let neg = negacyclic_prefix(*slot, n_a);
            let cyc = cyclic_prefix(*slot);
            let prepared = alike(*slot, *slot) && neg is Some && cyc is Some;
            let t_len = t_count(n_b, t_hat@.len());
            let z_len = t_count(n_a, z_folded_rings@.len());
            let in_range = quotients::digits_within(t_hat@, t_len, 32);
            let succeeds = runs(
                slot.base->0.params,
                t_hat@,
                z_folded_rings@.len(),
                n_b,
                n_a,
                32,
                neg->0.len(),
                cyc->0.len(),
            );
            match r {
                Ok(rows) => prepared && in_range && succeeds && rows.are(
                    quotients::prepared_matrix(neg->0, cyc->0),
                    t_hat@,
                    z_folded_rings@,
                    n_b as int,
                    t_len,
                    n_a as int,
                    z_len,
                ),
                Err(e) => !(prepared && in_range && succeeds) && if prepared && !in_range {
                    e is InvalidInput
                } else {
                    e is InvalidSetup
                },
            }
        }),
{
    let z_rhs = CenteredRhs::new(z_folded_rings, z_folded_max_abs);
    fused_split_eq_quotients_with_digit_bound(
        slot,
        slot,
        n_b,
        n_a,
        t_hat,
        z_rhs,
        balanced_digit_abs_bound(6),
    )
}

/// Both products of a plain matrix, with digits of a basis. Products that
/// exceed what one sum can hold are cut into chunks.
pub fn fused_split_eq_quotients_streamed_prover_bounds<
    F: Field,
    C: TransformCapacity,
    const D: usize,
>(
    source: &Vec<CyclotomicRing<F, D>>,
    n_b: usize,
    n_a: usize,
    t_hat: &[[i8; D]],
    z_folded_rings: &[[i32; D]],
    z_folded_max_abs: u32,
    log_basis_outer: u32,
    params: &C,
) -> (r: Result<FusedQuotientRows<F, D>, AkitaError>)
    requires
        cyclic::halvable::<F>(),
    ensures
        ({
            let bound = quotients::balanced_bound(log_basis_outer as int);
            let based = 1 <= log_basis_outer <= 8;
            let t_len = t_count(n_b, t_hat@.len());
            let z_len = t_count(n_a, z_folded_rings@.len());
            let reach = quotients::extent(n_b as int, t_len, n_a as int, z_len);
            let in_range = quotients::digits_within(t_hat@, t_len, bound);
            let succeeds = reach <= usize::MAX && reach <= source@.len() && ((t_len == 0 && z_len
                == 0) || quotients::planned_t_width(
                *params,
                t_len as usize,
                bound as u64,
            ) is Some);
            match r {
                Ok(rows) => based && in_range && succeeds && rows.are(
                    quotients::field_matrix(source@),
                    t_hat@,
                    z_folded_rings@,
                    n_b as int,
                    t_len,
                    n_a as int,
                    z_len,
                ),
                Err(e) => !(based && in_range && succeeds) && if !based || !in_range {
                    e is InvalidInput
                } else {
                    e is InvalidSetup
                },
            }
        }),
{
    let bound: u64 = match fused_quotient_digit_bound(log_basis_outer) {
        Ok(bound) => bound,
        Err(e) => {
            return Err(e);
        },
    };
    let z_rhs = CenteredRhs::new(z_folded_rings, z_folded_max_abs);
    let t_all: usize = t_hat.len();
    let z_all: usize = z_folded_rings.len();
    assert(t_all == t_hat@.len() && z_all == z_folded_rings@.len());
    let plan = match plan_fused_quotients(t_hat, z_rhs, n_b, n_a, bound, params) {
        Ok(plan) => plan,
        Err(e) => {
            return Err(e);
        },
    };
    proof {
        lemma_reach(n_b as int, plan.t_len as int, n_a as int, plan.z_len as int);
    }
    fused_split_eq_quotients_with_params(FusedMatrixSource::Field(source), t_hat, plan, params)
}

// ---------------------------------------------------------------------------
// The extra modulus
// ---------------------------------------------------------------------------

/// The chunk width once the extra modulus is used as well.
pub open spec fn tail_chunk<C: TransformCapacity>(params: C, bound: u64, width: int) -> Option<
    int,
> {
    match params.tail_width_of(bound) {
        Some(safe) => if safe == 0 || width == 0 {
            None
        } else if safe < width {
            Some(safe as int)
        } else {
            Some(width)
        },
        None => None,
    }
}

/// Rows of zero vectors have no carries.
proof fn lemma_zero_rows_carry<F: Field, const D: usize>(
    matrix: spec_fn(int) -> Seq<F>,
    z: Seq<[i32; D]>,
    num_rows: int,
    r: int,
    k: int,
)
    requires
        quotients::rows_within(z, z.len() as int, 0),
        0 <= r < num_rows,
        0 <= k < D,
        forall|i: int| 0 <= i < num_rows * z.len() ==> (#[trigger] matrix(i)).len() == D,
    ensures
        rl::sum_range(
            quotients::a_row_terms(matrix, z, z.len() as int)(r, k),
            0,
            z.len() as int,
        ) == F::zero_spec(),
{
    let width = z.len() as int;
    let terms = quotients::a_row_terms(matrix, z, width)(r, k);
    assert forall|j: int| 0 <= j < width implies #[trigger] terms(j) == F::zero_spec() by {
        quotients::lemma_index_fits(r, num_rows, width, j);
        assert(matrix(r * width + j).len() == D);
        assert forall|i: int| 0 <= i < z[j]@.len() implies #[trigger] z[j]@[i] == 0 by {
            assert(quotients::magnitude(z[j]@[i]) <= 0);
        }
        quotients::lemma_lift_zero::<F>(z[j]@);
        quotients::lemma_carry_zero(
            matrix(r * width + j),
            quotients::lift32::<F>(z[j]@),
            k,
        );
    }
    rl::lemma_sum_zero(terms, 0, width);
}

/// The A rows of a matrix that is prepared under the extra modulus as well. All
/// four prefixes are of that matrix. Products are exact in the coefficient field,
/// so the prefixes under the extra modulus decide how far rows reach and how wide
/// a chunk may be, and add nothing to the rows.
pub fn centered_quotient_rows_with_i16_tail_params<
    F: Field,
    C: TransformCapacity,
    const D: usize,
>(
    neg: &Vec<CyclotomicRing<F, D>>,
    cyc: &Vec<CyclotomicRing<F, D>>,
    tail_neg: &Vec<CyclotomicRing<F, D>>,
    tail_cyc: &Vec<CyclotomicRing<F, D>>,
    num_rows: usize,
    z_rhs: CenteredRhs<'_, D>,
    params: &C,
) -> (r: Result<Vec<CyclotomicRing<F, D>>, AkitaError>)
    requires
        cyclic::halvable::<F>(),
        z_rhs.wf(),
        quotients::one_matrix(neg@, cyc@),
        quotients::one_matrix(neg@, tail_neg@),
        quotients::one_matrix(neg@, tail_cyc@),
    ensures
        ({
            let width = z_rhs.rows@.len() as int;
            let required = num_rows * width;
            let covered = width > 0 && required <= usize::MAX && required <= neg@.len()
                && required <= cyc@.len() && required <= tail_neg@.len() && required
                <= tail_cyc@.len();
            let held = z_rhs.lut == 0 || tail_chunk(*params, z_rhs.capacity, width) is Some;
            match r {
                Ok(rows) => (num_rows == 0 || (covered && held)) && quotients::holds_sums(
                    rows@,
                    quotients::a_row_terms(
                        quotients::prepared_matrix(neg@, cyc@),
                        z_rhs.rows@,
                        width,
                    ),
                    num_rows as int,
                    0,
                    width,
                ),
                Err(e) => !(num_rows == 0 || (covered && held)) && e is InvalidSetup,
            }
        }),
{
    if num_rows == 0 {
        return Ok(Vec::new());
    }
    let z = z_rhs.rows;
    let width: usize = z.len();
    let required: usize = match num_rows.checked_mul(width) {
        Some(n) => n,
        None => {
            return Err(AkitaError::setup("quotient matrix shape overflows"));
        },
    };
    if width == 0 || neg.len() < required || cyc.len() < required || tail_neg.len() < required
        || tail_cyc.len() < required {
        return Err(
            AkitaError::setup("base-plus-tail quotient cache is shorter than its matrix shape"),
        );
    }
    let source = FusedMatrixSource::Cached { negacyclic: neg, cyclic: cyc };
    let ghost matrix = quotients::prepared_matrix(neg@, cyc@);
    assert(source.matrix() == matrix);
    if z_rhs.lut == 0 {
        let rows = quotients::zero_rows::<F, D>(num_rows);
        proof {
            assert forall|r: int, k: int|
                0 <= r < num_rows && 0 <= k < D implies #[trigger] rows@[r]@[k] == rl::sum_range(
                quotients::a_row_terms(matrix, z@, width as int)(r, k),
                0,
                width as int,
            ) by {
                lemma_zero_rows_carry(matrix, z@, num_rows as int, r, k);
            }
        }
        return Ok(rows);
    }
    let chunk_width: usize = match params.tail_width(z_rhs.capacity) {
        Some(safe) => {
            if safe == 0 {
                return Err(
                    AkitaError::setup("centered quotient exceeds base plus i16-tail capacity"),
                );
            }
            if safe < width {
                safe
            } else {
                width
            }
        },
        None => {
            return Err(AkitaError::setup("centered quotient exceeds base plus i16-tail capacity"));
        },
    };
    Ok(quotients::centered_chunks(&source, z, num_rows, width, chunk_width))
}

/// The A rows of a prepared matrix, with the extra modulus.
pub fn centered_quotient_rows_with_i16_tail<F: Field, C: TransformCapacity, const D: usize>(
    negacyclic_slot: &PreparedNttCache<F, C, D>,
    cyclic_slot: &PreparedNttCache<F, C, D>,
    tail_slot: &PreparedNttCache<F, C, D>,
    num_rows: usize,
    z_rhs: CenteredRhs<'_, D>,
) -> (r: Result<Vec<CyclotomicRing<F, D>>, AkitaError>)
    requires
        cyclic::halvable::<F>(),
        z_rhs.wf(),
        negacyclic_prefix(*negacyclic_slot, 1) is Some && cyclic_prefix(*cyclic_slot) is Some
            ==> quotients::one_matrix(
            negacyclic_prefix(*negacyclic_slot, 1)->0,
            cyclic_prefix(*cyclic_slot)->0,
        ),
        negacyclic_prefix(*negacyclic_slot, 1) is Some && tail_slot.tail is Some ==> {
            let neg = negacyclic_prefix(*negacyclic_slot, 1)->0;
            &&& quotients::one_matrix(neg, (tail_slot.tail->0).negacyclic@)
            &&& quotients::one_matrix(neg, (tail_slot.tail->0).cyclic@)
        },
    ensures
        ({
            let neg = negacyclic_prefix(*negacyclic_slot, 1);
            let cyc = cyclic_prefix(*cyclic_slot);
            let prepared = tail_slot.tail is Some && alike(*negacyclic_slot, *cyclic_slot)
                && neg is Some && cyc is Some;
            let width = z_rhs.rows@.len() as int;
            let required = num_rows * width;
            let covered = width > 0 && required <= usize::MAX && required <= neg->0.len()
                && required <= cyc->0.len() && required <= (tail_slot.tail->0).negacyclic@.len()
                && required <= (tail_slot.tail->0).cyclic@.len();
            let held = z_rhs.lut == 0 || tail_chunk(
                negacyclic_slot.base->0.params,
                z_rhs.capacity,
                width,
            ) is Some;
            let succeeds = prepared && (num_rows == 0 || (covered && held));
            match r {
                Ok(rows) => succeeds && quotients::holds_sums(
                    rows@,
                    quotients::a_row_terms(
                        quotients::prepared_matrix(neg->0, cyc->0),
                        z_rhs.rows@,
                        width,
                    ),
                    num_rows as int,
                    0,
                    width,
                ),
                Err(e) => !succeeds && e is InvalidSetup,
            }
        }),
{
    let tail = match &tail_slot.tail {
        Some(tail) => tail,
        None => {
            return Err(AkitaError::setup("paired i16-tail NTT domain not prepared"));
        },
    };
    let (neg_base, cyc_base) = match (&negacyclic_slot.base, &cyclic_slot.base) {
        (Some(neg), Some(cyc)) => (neg, cyc),
        _ => {
            return Err(AkitaError::setup("cyclic and negacyclic NTT profiles do not match"));
        },
    };
    if neg_base.profile != cyc_base.profile || !neg_base.params.same(&cyc_base.params) {
        return Err(AkitaError::setup("cyclic and negacyclic NTT profiles do not match"));
    }
    let negacyclic = match &neg_base.negacyclic {
        Some(list) => list,
        None => {
            return Err(AkitaError::setup("negacyclic NTT domain not prepared"));
        },
    };
    let cyclic = match &cyc_base.cyclic {
        Some(list) => list,
        None => {
            return Err(AkitaError::setup("cyclic NTT domain not prepared"));
        },
    };
    centered_quotient_rows_with_i16_tail_params(
        negacyclic,
        cyclic,
        &tail.negacyclic,
        &tail.cyclic,
        num_rows,
        z_rhs,
        &neg_base.params,
    )
}

// ---------------------------------------------------------------------------
// Laws
// ---------------------------------------------------------------------------

/// A product without rows reads no vector and one with rows reads all.
pub proof fn law_products_with_rows_read_every_vector(rows: usize, available: nat)
    ensures
        rows == 0 ==> t_count(rows, available) == 0,
        rows > 0 ==> t_count(rows, available) == available,
{
}

/// Slots are read where they were prepared, and two go together where they were
/// prepared under one profile for one arithmetic. A run without A rows needs no
/// prefix for products modulo `X^D + 1`.
pub proof fn law_slots_are_read_where_prepared<F: Field, C: TransformCapacity, const D: usize>(
    a: PreparedNttCache<F, C, D>,
    b: PreparedNttCache<F, C, D>,
    n_a: usize,
)
    ensures
        alike(a, b) <==> a.base is Some && b.base is Some && a.base->0.profile == b.base->0.profile
            && a.base->0.params.same_as(b.base->0.params),
        a.base is None ==> cyclic_prefix(a) is None && negacyclic_prefix(a, n_a) is None,
        a.base is Some && a.base->0.cyclic is Some ==> cyclic_prefix(a) == Some(
            a.base->0.cyclic->0@,
        ),
        a.base is Some && a.base->0.cyclic is None ==> cyclic_prefix(a) is None,
        a.base is Some && a.base->0.negacyclic is Some ==> negacyclic_prefix(a, n_a) == Some(
            a.base->0.negacyclic->0@,
        ),
        a.base is Some && a.base->0.negacyclic is None && n_a > 0 ==> negacyclic_prefix(a, n_a)
            is None,
        a.base is Some && a.base->0.negacyclic is None && n_a == 0 ==> negacyclic_prefix(
            a,
            n_a,
        ) == Some(Seq::<CyclotomicRing<F, D>>::empty()),
{
}

/// The chunks of the extra modulus are as wide as its arithmetic holds, and no
/// wider than the rows.
pub proof fn law_tail_chunks_are_held<C: TransformCapacity>(params: C, bound: u64, width: int)
    requires
        width >= 0,
    ensures
        tail_chunk(params, bound, width) matches Some(chunk) ==> 0 < chunk <= width
            && params.tail_width_of(bound) is Some && chunk <= params.tail_width_of(bound)->0 && (
        chunk == width || chunk == params.tail_width_of(bound)->0),
        tail_chunk(params, bound, width) is None <==> width == 0 || params.tail_width_of(
            bound,
        ) is None || params.tail_width_of(bound)->0 == 0,
{
}

} // verus!
