//! The rows of the ring-switch relation.
//!
//! Three matrices act on the folded witness: D on opening digits, B on outer
//! digits and A on the centered response. All are prefixes of one shared
//! matrix. Small runs keep prepared prefixes; runs above a limit stream the
//! matrix. Both routes give the same rows.

use crate::cyclic;
use crate::cyclotomic;
use crate::cyclotomic::CyclotomicRing;
use crate::error::AkitaError;
use crate::field::Field;
use crate::fused;
use crate::fused::{
    centered_quotient_rows_with_i16_tail, fused_split_eq_quotients_prover_bounds,
    fused_split_eq_quotients_streamed_prover_bounds, CrtProfile, PreparedBase, PreparedNttCache,
    PreparedTail,
};
use crate::quotients;
use crate::quotients::{
    digit_rows_within_digit_bound, fused_quotient_digit_bound, fused_quotient_matrix_extent,
    CenteredRhs, FusedQuotientRows, TransformCapacity,
};
use crate::ring_lemmas as rl;
use vstd::arithmetic::power2::*;
use vstd::prelude::*;

verus! {

// ---------------------------------------------------------------------------
// Limits
// ---------------------------------------------------------------------------

/// What a prepared prefix is used for.
#[derive(Clone, Copy, Debug, PartialEq, Eq, Structural)]
pub enum NttOperationCluster {
    Commit,
    RingSwitch,
}

/// The resource limits of the processor backend.
#[derive(Clone, Copy, Debug, PartialEq, Eq, Structural)]
pub struct CpuBackend {
    max_cached_ring_switch_elements: usize,
    commit_scratch_bytes_per_worker: usize,
}

impl CpuBackend {
    /// The largest ring-switch run that is prepared by default.
    pub const DEFAULT_MAX_CACHED_RING_SWITCH_ELEMENTS: usize = 1048576;

    /// The scratch memory of a commit worker by default.
    pub const DEFAULT_COMMIT_SCRATCH_BYTES_PER_WORKER: usize = 4194304;

    pub closed spec fn max_cached(self) -> usize {
        self.max_cached_ring_switch_elements
    }

    pub closed spec fn scratch(self) -> usize {
        self.commit_scratch_bytes_per_worker
    }

    /// Whether an operation of some extent uses prepared prefixes: commits
    /// always do, ring switches up to the limit.
    pub open spec fn uses_cache(self, cluster: NttOperationCluster, extent: usize) -> bool {
        cluster is RingSwitch ==> extent <= self.max_cached()
    }

    /// A backend with given limits; some scratch memory is needed.
    pub fn with_resource_limits(
        max_cached_ring_switch_elements: usize,
        commit_scratch_bytes_per_worker: usize,
    ) -> (r: Result<Self, AkitaError>)
        ensures
            match r {
                Ok(b) => commit_scratch_bytes_per_worker != 0 && b.max_cached()
                    == max_cached_ring_switch_elements && b.scratch()
                    == commit_scratch_bytes_per_worker,
                Err(e) => commit_scratch_bytes_per_worker == 0 && e is InvalidSetup,
            },
    {
        if commit_scratch_bytes_per_worker == 0 {
            return Err(AkitaError::setup("commit scratch must be nonzero"));
        }
        Ok(CpuBackend { max_cached_ring_switch_elements, commit_scratch_bytes_per_worker })
    }

    /// The largest ring-switch run that is prepared.
    pub fn max_cached_ring_switch_elements(&self) -> (n: usize)
        ensures
            n == self.max_cached(),
    {
        self.max_cached_ring_switch_elements
    }

    /// The scratch memory of a commit worker.
    pub fn commit_scratch_bytes_per_worker(&self) -> (n: usize)
        ensures
            n == self.scratch(),
    {
        self.commit_scratch_bytes_per_worker
    }

    /// Whether an operation of some extent uses prepared prefixes.
    pub fn ntt_operation_uses_cache(&self, cluster: NttOperationCluster, extent: usize) -> (b: bool)
        ensures
            b == self.uses_cache(cluster, extent),
    {
        match cluster {
            NttOperationCluster::Commit => true,
            NttOperationCluster::RingSwitch => extent <= self.max_cached_ring_switch_elements,
        }
    }
}

impl Default for CpuBackend {
    fn default() -> (r: Self)
        ensures
            r.max_cached() == CpuBackend::DEFAULT_MAX_CACHED_RING_SWITCH_ELEMENTS,
            r.scratch() == CpuBackend::DEFAULT_COMMIT_SCRATCH_BYTES_PER_WORKER,
    {
        CpuBackend {
            max_cached_ring_switch_elements: CpuBackend::DEFAULT_MAX_CACHED_RING_SWITCH_ELEMENTS,
            commit_scratch_bytes_per_worker: CpuBackend::DEFAULT_COMMIT_SCRATCH_BYTES_PER_WORKER,
        }
    }
}

// ---------------------------------------------------------------------------
// Prepared prefixes
// ---------------------------------------------------------------------------

/// The products that a prefix is prepared for.
#[derive(Clone, Copy, Debug, PartialEq, Eq, Structural)]
pub enum NttTransformDomain {
    Negacyclic,
    Cyclic,
    I16TailBothTransforms,
}

/// A prefix to prepare: how long, over which ring, and what for.
#[derive(Clone, Copy, Debug, PartialEq, Eq, Structural)]
pub struct NttCacheKey {
    pub ring_dimension: usize,
    pub extent: usize,
    pub domain: NttTransformDomain,
}

impl NttCacheKey {
    /// The prefix that a packed matrix takes up.
    pub fn from_matrix_shape(
        ring_dimension: usize,
        rows: usize,
        width: usize,
        domain: NttTransformDomain,
    ) -> (r: Result<Self, AkitaError>)
        ensures
            match r {
                Ok(key) => key.ring_dimension == ring_dimension && key.extent == rows * width
                    && key.domain == domain,
                Err(e) => rows * width > usize::MAX && e is InvalidSetup,
            },
    {
        match rows.checked_mul(width) {
            Some(extent) => Ok(NttCacheKey { ring_dimension, extent, domain }),
            None => Err(AkitaError::setup("NTT cache extent overflow")),
        }
    }

    /// The prefix that covers two prefixes of one kind.
    pub fn join(self, other: Self) -> (r: Result<Self, AkitaError>)
        ensures
            match r {
                Ok(key) => self.ring_dimension == other.ring_dimension && self.domain
                    == other.domain && key.ring_dimension == self.ring_dimension && key.domain
                    == self.domain && key.extent == if self.extent > other.extent {
                    self.extent
                } else {
                    other.extent
                },
                Err(e) => !(self.ring_dimension == other.ring_dimension && self.domain
                    == other.domain) && e is InvalidSetup,
            },
    {
        if self.ring_dimension != other.ring_dimension || self.domain != other.domain {
            return Err(AkitaError::setup("NTT cache keys of different kinds do not join"));
        }
        Ok(
            NttCacheKey {
                ring_dimension: self.ring_dimension,
                extent: if self.extent > other.extent {
                    self.extent
                } else {
                    other.extent
                },
                domain: self.domain,
            },
        )
    }
}

/// The shared matrix, seen over a ring of degree `D`.
pub struct CpuPreparedSetup<F: Field, C, const D: usize> {
    pub matrix: Vec<CyclotomicRing<F, D>>,
    pub profile: CrtProfile,
    pub params: C,
}

/// The first entries of a matrix.
pub fn prefix<F: Field, const D: usize>(matrix: &Vec<CyclotomicRing<F, D>>, len: usize) -> (r: Vec<
    CyclotomicRing<F, D>,
>)
    requires
        len <= matrix@.len(),
    ensures
        r@ == matrix@.take(len as int),
{
    let mut list: Vec<CyclotomicRing<F, D>> = Vec::new();
    let mut k: usize = 0;
    while k < len
        invariant
            k <= len <= matrix@.len(),
            list@ == matrix@.take(k as int),
        decreases len - k,
    {
        list.push(matrix[k]);
        proof {
            assert(matrix@.take(k + 1) =~= matrix@.take(k as int).push(matrix@[k as int]));
        }
        k += 1;
    }
    list
}

impl<F: Field, C: TransformCapacity + Copy, const D: usize> CpuPreparedSetup<F, C, D> {
    /// What a slot prepared for a key holds.
    pub open spec fn slot_is(self, key: NttCacheKey, slot: PreparedNttCache<F, C, D>) -> bool {
        let list = self.matrix@.take(key.extent as int);
        match key.domain {
            NttTransformDomain::Negacyclic => {
                &&& slot.base is Some
                &&& slot.base->0.profile == self.profile
                &&& slot.base->0.params == self.params
                &&& fused::negacyclic_prefix(slot, 1) == Some(list)
            },
            NttTransformDomain::Cyclic => {
                &&& slot.base is Some
                &&& slot.base->0.profile == self.profile
                &&& slot.base->0.params == self.params
                &&& slot.base->0.negacyclic is None
                &&& fused::cyclic_prefix(slot) == Some(list)
            },
            NttTransformDomain::I16TailBothTransforms => {
                &&& slot.tail is Some
                &&& slot.tail->0.negacyclic@ == list
                &&& slot.tail->0.cyclic@ == list
            },
        }
    }

    /// Prepares a prefix of the shared matrix.
    pub fn shared_ntt(&self, key: NttCacheKey) -> (r: Result<PreparedNttCache<F, C, D>, AkitaError>)
        ensures
            match r {
                Ok(slot) => key.extent <= self.matrix@.len() && self.slot_is(key, slot),
                Err(e) => key.extent > self.matrix@.len() && e is InvalidSetup,
            },
    {
        if key.extent > self.matrix.len() {
            return Err(AkitaError::setup("shared matrix is shorter than the prefix asked for"));
        }
        let list = prefix(&self.matrix, key.extent);
        Ok(
            match key.domain {
                NttTransformDomain::Negacyclic => PreparedNttCache {
                    base: Some(
                        PreparedBase {
                            profile: self.profile,
                            params: self.params,
                            negacyclic: Some(list),
                            cyclic: None,
                        },
                    ),
                    tail: None,
                },
                NttTransformDomain::Cyclic => PreparedNttCache {
                    base: Some(
                        PreparedBase {
                            profile: self.profile,
                            params: self.params,
                            negacyclic: None,
                            cyclic: Some(list),
                        },
                    ),
                    tail: None,
                },
                NttTransformDomain::I16TailBothTransforms => {
                    let negacyclic = prefix(&self.matrix, key.extent);
                    PreparedNttCache {
                        base: None,
                        tail: Some(PreparedTail { negacyclic, cyclic: list }),
                    }
                },
            },
        )
    }
}

// ---------------------------------------------------------------------------
// The relation
// ---------------------------------------------------------------------------

/// The vectors of a relation.
#[derive(Clone, Copy)]
pub struct RingSwitchRelationView<'a, const D: usize> {
    pub e_hat: &'a [[i8; D]],
    pub t_hat: &'a [[i8; D]],
    pub z_segment: &'a [[i32; D]],
    pub z_folded_centered_inf_norm: u32,
}

/// The row counts and digit bases of a relation.
#[derive(Clone, Copy, Debug, PartialEq, Eq, Structural)]
pub struct RingSwitchRelationPlan {
    pub n_d: usize,
    pub n_b: usize,
    pub n_a: usize,
    pub log_basis_open: u32,
    pub log_basis_outer: u32,
}

/// The rows of a relation.
pub struct RingSwitchRelationRows<F: Field, const D: usize> {
    pub d_negacyclic: Vec<CyclotomicRing<F, D>>,
    pub d_cyclic: Vec<CyclotomicRing<F, D>>,
    pub b_cyclic: Vec<CyclotomicRing<F, D>>,
    pub a_quotients: Vec<CyclotomicRing<F, D>>,
}

/// The D rows.
pub struct DigitRelationRows<F: Field, const D: usize> {
    pub negacyclic: Vec<CyclotomicRing<F, D>>,
    pub cyclic: Vec<CyclotomicRing<F, D>>,
}

/// The terms of the D rows modulo `X^D + 1`.
pub open spec fn d_row_terms<F: Field, const D: usize>(
    matrix: spec_fn(int) -> Seq<F>,
    e: Seq<[i8; D]>,
    width: int,
) -> quotients::RowTerms<F> {
    |row: int, k: int|
        |j: int|
            cyclotomic::product_coeff(matrix(row * width + j), quotients::lift8(e[j]@), k)
}

impl<F: Field, const D: usize> DigitRelationRows<F, D> {
    pub open spec fn are(self, matrix: spec_fn(int) -> Seq<F>, e: Seq<[i8; D]>, n_d: int) -> bool {
        let width = e.len() as int;
        &&& quotients::holds_sums(
            self.negacyclic@,
            d_row_terms(matrix, e, width),
            n_d,
            0,
            width,
        )
        &&& quotients::holds_sums(
            self.cyclic@,
            quotients::b_row_terms(matrix, e, width),
            n_d,
            0,
            width,
        )
    }
}

impl<F: Field, const D: usize> RingSwitchRelationRows<F, D> {
    /// Whether these are the rows of a matrix on given vectors.
    pub open spec fn are(
        self,
        matrix: spec_fn(int) -> Seq<F>,
        view: RingSwitchRelationView<'_, D>,
        plan: RingSwitchRelationPlan,
    ) -> bool {
        let e = view.e_hat@;
        let t = view.t_hat@;
        let z = view.z_segment@;
        let t_len = fused::t_count(plan.n_b, t.len());
        let z_len = fused::t_count(plan.n_a, z.len());
        let e_len = e.len() as int;
        &&& quotients::holds_sums(
            self.d_negacyclic@,
            d_row_terms(matrix, e, e_len),
            plan.n_d as int,
            0,
            e_len,
        )
        &&& quotients::holds_sums(
            self.d_cyclic@,
            quotients::b_row_terms(matrix, e, e_len),
            plan.n_d as int,
            0,
            e_len,
        )
        &&& quotients::holds_sums(
            self.b_cyclic@,
            quotients::b_row_terms(matrix, t, t_len),
            plan.n_b as int,
            0,
            t_len,
        )
        &&& quotients::holds_sums(
            self.a_quotients@,
            quotients::a_row_terms(matrix, z, z_len),
            plan.n_a as int,
            0,
            z_len,
        )
    }
}

/// The question of which rows a relation has.
pub struct RelationQuestion<C, const D: usize> {
    pub params: C,
    pub matrix_len: nat,
    pub e: Seq<[i8; D]>,
    pub t: Seq<[i8; D]>,
    pub z: Seq<[i32; D]>,
    pub claimed: u32,
    pub plan: RingSwitchRelationPlan,
}

impl<C: TransformCapacity, const D: usize> RelationQuestion<C, D> {
    /// Whether every active matrix has something to act on.
    pub open spec fn roles_active(self) -> bool {
        &&& self.plan.n_d != 0 ==> self.e.len() != 0
        &&& self.plan.n_b != 0 ==> self.t.len() != 0
        &&& self.plan.n_a != 0 ==> self.z.len() != 0
    }

    pub open spec fn t_len(self) -> int {
        fused::t_count(self.plan.n_b, self.t.len())
    }

    pub open spec fn z_len(self) -> int {
        fused::t_count(self.plan.n_a, self.z.len())
    }

    /// The entries that the D rows reach.
    pub open spec fn d_extent(self) -> int {
        self.plan.n_d * self.e.len()
    }

    /// The entries that the B and A rows reach.
    pub open spec fn ba_extent(self) -> int {
        quotients::extent(
            self.plan.n_b as int,
            self.t.len() as int,
            self.plan.n_a as int,
            self.z.len() as int,
        )
    }

    /// Whether every extent fits the matrix.
    pub open spec fn fits(self) -> bool {
        &&& self.d_extent() <= usize::MAX
        &&& self.ba_extent() <= usize::MAX
        &&& self.d_extent() <= self.matrix_len
        &&& self.ba_extent() <= self.matrix_len
    }

    /// Whether the opening digits are digits of their basis.
    pub open spec fn open_digits(self) -> bool {
        self.plan.n_d != 0 ==> {
            &&& 1 <= self.plan.log_basis_open <= 8
            &&& quotients::digits_within(
                self.e,
                self.e.len() as int,
                quotients::balanced_bound(self.plan.log_basis_open as int),
            )
        }
    }

    pub open spec fn outer_bound(self) -> int {
        quotients::balanced_bound(self.plan.log_basis_outer as int)
    }

    /// Whether the outer digits are digits of their basis.
    pub open spec fn outer_digits(self) -> bool {
        self.ba_extent() != 0 ==> {
            &&& 1 <= self.plan.log_basis_outer <= 8
            &&& quotients::digits_within(self.t, self.t_len(), self.outer_bound())
        }
    }

    /// Whether the arithmetic can hold a term of the B rows.
    pub open spec fn held(self) -> bool {
        self.t_len() != 0 ==> self.params.safe_width_of(
            self.t_len() as usize,
            self.outer_bound() as u64,
        ) is Some
    }

    /// Whether the arithmetic of prepared prefixes can hold the A rows.
    pub open spec fn tail_held(self) -> bool {
        let bound = quotients::sized_bound(self.z, self.claimed);
        self.plan.n_a != 0 && self.params.needs_tail(bound as u64) ==> quotients::least_bound(
            self.z,
        ) == 0 || fused::tail_chunk(self.params, bound as u64, self.z.len() as int) is Some
    }

    /// Whether the relation has rows, by prepared prefixes or by streaming.
    pub open spec fn answered(self, cached: bool) -> bool {
        &&& self.roles_active()
        &&& self.fits()
        &&& self.open_digits()
        &&& self.outer_digits()
        &&& self.held()
        &&& cached ==> self.tail_held()
    }
}

/// The matrix that a role belongs to.
#[derive(Clone, Copy, Debug, PartialEq, Eq, Structural)]
pub enum RelationRole {
    D,
    B,
    A,
}

/// What an active role without a source is refused with.
pub open spec fn sourceless_text(role: RelationRole) -> Seq<char> {
    match role {
        RelationRole::D => "active ring-switch D role must have a nonzero source width"@,
        RelationRole::B => "active ring-switch B role must have a nonzero source width"@,
        RelationRole::A => "active ring-switch A role must have a nonzero source width"@,
    }
}

/// Refuses an active role without a source.
pub fn validate_role_shape(role: RelationRole, rows: usize, width: usize) -> (r: Result<
    (),
    AkitaError,
>)
    ensures
        match r {
            Ok(()) => rows == 0 || width != 0,
            Err(e) => rows != 0 && width == 0 && e.is_input(sourceless_text(role)),
        },
{
    if rows != 0 && width == 0 {
        return Err(
            match role {
                RelationRole::D => AkitaError::input(
                    "active ring-switch D role must have a nonzero source width",
                ),
                RelationRole::B => AkitaError::input(
                    "active ring-switch B role must have a nonzero source width",
                ),
                RelationRole::A => AkitaError::input(
                    "active ring-switch A role must have a nonzero source width",
                ),
            },
        );
    }
    Ok(())
}

/// The number of entries that the D rows reach.
pub fn digit_relation_matrix_extent(n_d: usize, width: usize) -> (r: Result<usize, AkitaError>)
    ensures
        match r {
            Ok(n) => n == n_d * width,
            Err(e) => n_d * width > usize::MAX && e.is_setup(
                "digit relation matrix extent overflow"@,
            ),
        },
{
    match n_d.checked_mul(width) {
        Some(n) => Ok(n),
        None => Err(AkitaError::setup("digit relation matrix extent overflow")),
    }
}

/// Digit vectors as centered vectors.
fn widen<const D: usize>(rows: &[[i8; D]]) -> (r: Vec<[i32; D]>)
    ensures
        r@.len() == rows@.len(),
        forall|j: int, k: int|
            0 <= j < rows@.len() && 0 <= k < D ==> #[trigger] r@[j]@[k] == rows@[j]@[k],
{
    let mut out: Vec<[i32; D]> = Vec::new();
    let mut j: usize = 0;
    while j < rows.len()
        invariant
            j <= rows@.len(),
            out@.len() == j,
            forall|i: int, k: int|
                0 <= i < j && 0 <= k < D ==> #[trigger] out@[i]@[k] == rows@[i]@[k],
        decreases rows@.len() - j,
    {
        let mut row = [0i32;D];
        let mut k: usize = 0;
        while k < D
            invariant
                k <= D,
                j < rows@.len(),
                forall|i: int| 0 <= i < k ==> #[trigger] row@[i] == rows@[j as int]@[i],
            decreases D - k,
        {
            row[k] = rows[j][k] as i32;
            k += 1;
        }
        out.push(row);
        j += 1;
    }
    out
}

/// The products of a matrix with digit vectors, modulo `X^D + 1` and modulo
/// `X^D - 1`.
pub fn digit_products<F: Field, const D: usize>(
    source: &quotients::FusedMatrixSource<'_, F, D>,
    n_d: usize,
    e_hat: &[[i8; D]],
) -> (rows: DigitRelationRows<F, D>)
    requires
        source.wf(),
        n_d * e_hat@.len() <= usize::MAX,
        n_d * e_hat@.len() <= source.cyclic_len(),
        n_d * e_hat@.len() <= source.negacyclic_len(),
    ensures
        rows.are(source.matrix(), e_hat@, n_d as int),
{
    let width: usize = e_hat.len();
    let wide = widen(e_hat);
    let (negacyclic, cyclic) = quotients::pair_columns(
        source,
        wide.as_slice(),
        n_d,
        width,
        0,
        width,
    );
    let rows = DigitRelationRows { negacyclic, cyclic };
    proof {
        let matrix = source.matrix();
        let w = width as int;
        assert forall|j: int| 0 <= j < w implies #[trigger] quotients::lift32::<F>(wide@[j]@)
            == quotients::lift8::<F>(e_hat@[j]@) by {
            assert(quotients::lift32::<F>(wide@[j]@) =~= quotients::lift8::<F>(e_hat@[j]@));
        }
        assert forall|r: int, k: int|
            0 <= r < n_d && 0 <= k < D implies #[trigger] rows.negacyclic@[r]@[k]
            == rl::sum_range(d_row_terms(matrix, e_hat@, w)(r, k), 0, w) by {
            let f = quotients::a_negacyclic_row_terms(matrix, wide@, w)(r, k);
            let g = d_row_terms(matrix, e_hat@, w)(r, k);
            assert forall|j: int| 0 <= j < w implies #[trigger] f(j) == g(j) by {
                assert(quotients::lift32::<F>(wide@[j]@) == quotients::lift8::<F>(e_hat@[j]@));
            }
            rl::lemma_sum_congruent(f, g, 0, w);
        }
        assert forall|r: int, k: int|
            0 <= r < n_d && 0 <= k < D implies #[trigger] rows.cyclic@[r]@[k] == rl::sum_range(
            quotients::b_row_terms(matrix, e_hat@, w)(r, k),
            0,
            w,
        ) by {
            let f = quotients::a_cyclic_row_terms(matrix, wide@, w)(r, k);
            let g = quotients::b_row_terms(matrix, e_hat@, w)(r, k);
            assert forall|j: int| 0 <= j < w implies #[trigger] f(j) == g(j) by {
                assert(quotients::lift32::<F>(wide@[j]@) == quotients::lift8::<F>(e_hat@[j]@));
            }
            rl::lemma_sum_congruent(f, g, 0, w);
        }
    }
    rows
}

/// The D rows of a matrix, with digits of a basis.
pub fn digit_relation_rows<F: Field, const D: usize>(
    source: quotients::FusedMatrixSource<'_, F, D>,
    n_d: usize,
    e_hat: &[[i8; D]],
    log_basis_open: u32,
) -> (r: Result<DigitRelationRows<F, D>, AkitaError>)
    requires
        source.wf(),
        n_d * e_hat@.len() <= usize::MAX,
        n_d * e_hat@.len() <= source.cyclic_len(),
        n_d * e_hat@.len() <= source.negacyclic_len(),
    ensures
        ({
            let valid = 1 <= log_basis_open <= 8 && quotients::digits_within(
                e_hat@,
                e_hat@.len() as int,
                quotients::balanced_bound(log_basis_open as int),
            );
            match r {
                Ok(rows) => valid && rows.are(source.matrix(), e_hat@, n_d as int),
                Err(e) => !valid && e is InvalidInput,
            }
        }),
{
    let bound: u64 = match fused_quotient_digit_bound(log_basis_open) {
        Ok(bound) => bound,
        Err(e) => {
            return Err(e);
        },
    };
    let width: usize = e_hat.len();
    if !digit_rows_within_digit_bound(e_hat, width, bound) {
        return Err(AkitaError::input("digit relation contains digits outside its basis"));
    }
    Ok(digit_products(&source, n_d, e_hat))
}

/// The D rows of matrices that agree on the entries reached.
pub proof fn lemma_d_rows_agree<F: Field, const D: usize>(
    rows: DigitRelationRows<F, D>,
    m1: spec_fn(int) -> Seq<F>,
    m2: spec_fn(int) -> Seq<F>,
    e: Seq<[i8; D]>,
    n_d: int,
)
    requires
        rows.are(m1, e, n_d),
        forall|i: int| 0 <= i < n_d * e.len() ==> #[trigger] m1(i) == m2(i),
    ensures
        rows.are(m2, e, n_d),
{
    let w = e.len() as int;
    assert forall|r: int, k: int| 0 <= r < n_d && 0 <= k < D implies #[trigger] rows.negacyclic@[
    r]@[k] == rl::sum_range(d_row_terms(m2, e, w)(r, k), 0, w) by {
        let f = d_row_terms(m1, e, w)(r, k);
        let g = d_row_terms(m2, e, w)(r, k);
        assert forall|j: int| 0 <= j < w implies #[trigger] f(j) == g(j) by {
            quotients::lemma_index_fits(r, n_d, w, j);
            assert(m1(r * w + j) == m2(r * w + j));
        }
        rl::lemma_sum_congruent(f, g, 0, w);
    }
    assert forall|r: int, k: int| 0 <= r < n_d && 0 <= k < D implies #[trigger] rows.cyclic@[r]@[
    k] == rl::sum_range(quotients::b_row_terms(m2, e, w)(r, k), 0, w) by {
        let f = quotients::b_row_terms(m1, e, w)(r, k);
        let g = quotients::b_row_terms(m2, e, w)(r, k);
        assert forall|j: int| 0 <= j < w implies #[trigger] f(j) == g(j) by {
            quotients::lemma_index_fits(r, n_d, w, j);
            assert(m1(r * w + j) == m2(r * w + j));
        }
        rl::lemma_sum_congruent(f, g, 0, w);
    }
}

/// The question of which rows a relation has over a shared matrix.
pub open spec fn relation_question<F: Field, C: TransformCapacity, const D: usize>(
    prepared: CpuPreparedSetup<F, C, D>,
    view: RingSwitchRelationView<'_, D>,
    plan: RingSwitchRelationPlan,
) -> RelationQuestion<C, D> {
    RelationQuestion {
        params: prepared.params,
        matrix_len: prepared.matrix@.len(),
        e: view.e_hat@,
        t: view.t_hat@,
        z: view.z_segment@,
        claimed: view.z_folded_centered_inf_norm,
        plan,
    }
}

/// The B and A rows from prepared prefixes.
pub fn cached_b_a_rows<F: Field, C: TransformCapacity + Copy, const D: usize>(
    prepared: &CpuPreparedSetup<F, C, D>,
    source: RingSwitchRelationView<'_, D>,
    plan: RingSwitchRelationPlan,
) -> (r: Result<FusedQuotientRows<F, D>, AkitaError>)
    requires
        cyclic::halvable::<F>(),
        relation_question(*prepared, source, plan).roles_active(),
        relation_question(*prepared, source, plan).ba_extent() <= usize::MAX,
        relation_question(*prepared, source, plan).ba_extent() != 0,
    ensures
        ({
            let q = relation_question(*prepared, source, plan);
            let succeeds = q.ba_extent() <= q.matrix_len && q.outer_digits() && q.held()
                && q.tail_held();
            match r {
                Ok(rows) => succeeds && rows.are(
                    quotients::field_matrix(prepared.matrix@),
                    q.t,
                    q.z,
                    plan.n_b as int,
                    q.t_len(),
                    plan.n_a as int,
                    q.z_len(),
                ),
                Err(e) => !succeeds && (e is InvalidInput || e is InvalidSetup) && (
                q.outer_digits() ==> e is InvalidSetup),
            }
        }),
{
    let ghost q = relation_question(*prepared, source, plan);
    let ghost full = quotients::field_matrix(prepared.matrix@);
    let t_all: usize = source.t_hat.len();
    let z_all: usize = source.z_segment.len();
    proof {
        assert(plan.n_b * t_all >= 0 && plan.n_a * z_all >= 0) by (nonlinear_arith);
        if plan.n_b == 0 {
            assert(plan.n_b * t_all == 0);
        }
        if plan.n_a == 0 {
            assert(plan.n_a * z_all == 0);
        }
    }
    let mut requirement: Option<NttCacheKey> = None;
    if plan.n_b != 0 {
        requirement = match NttCacheKey::from_matrix_shape(
            D,
            plan.n_b,
            t_all,
            NttTransformDomain::Cyclic,
        ) {
            Ok(key) => Some(key),
            Err(e) => {
                return Err(e);
            },
        };
    }
    if plan.n_a != 0 {
        let role = match NttCacheKey::from_matrix_shape(
            D,
            plan.n_a,
            z_all,
            NttTransformDomain::Cyclic,
        ) {
            Ok(key) => key,
            Err(e) => {
                return Err(e);
            },
        };
        requirement = match requirement {
            Some(current) => match current.join(role) {
                Ok(key) => Some(key),
                Err(e) => {
                    return Err(e);
                },
            },
            None => Some(role),
        };
    }
    let cyclic_key = match requirement {
        Some(key) => key,
        None => {
            return Err(AkitaError::setup("ring-switch relation has no B/A rows"));
        },
    };
    assert(cyclic_key.extent == q.ba_extent());
    let cyclic_ntt = match prepared.shared_ntt(cyclic_key) {
        Ok(slot) => slot,
        Err(e) => {
            return Err(e);
        },
    };
    proof {
        prepared.params.law_same();
    }
    let ghost cyc = prepared.matrix@.take(cyclic_key.extent as int);
    if plan.n_a == 0 {
        let none: [[i32; D]; 0] = [];
        let z_rhs = CenteredRhs::new(&none, 0);
        let rows = fused_split_eq_quotients_prover_bounds(
            &cyclic_ntt,
            &cyclic_ntt,
            plan.n_b,
            0,
            source.t_hat,
            z_rhs,
            plan.log_basis_outer,
        );
        proof {
            if rows is Ok {
                let m1 = quotients::prepared_matrix(
                    Seq::<CyclotomicRing<F, D>>::empty(),
                    cyc,
                );
                lemma_empty_rows(rows->Ok_0, m1, q.t, none@, q.z, plan.n_b as int, q.t_len());
                quotients::law_rows_depend_on_reached_entries(
                    rows->Ok_0,
                    m1,
                    full,
                    q.t,
                    q.z,
                    plan.n_b as int,
                    q.t_len(),
                    0,
                    0,
                );
            }
        }
        return rows;
    }
    let negacyclic_key = match NttCacheKey::from_matrix_shape(
        D,
        plan.n_a,
        z_all,
        NttTransformDomain::Negacyclic,
    ) {
        Ok(key) => key,
        Err(e) => {
            return Err(e);
        },
    };
    let negacyclic_ntt = match prepared.shared_ntt(negacyclic_key) {
        Ok(slot) => slot,
        Err(e) => {
            return Err(e);
        },
    };
    let ghost neg = prepared.matrix@.take(negacyclic_key.extent as int);
    let ghost m1 = quotients::prepared_matrix(neg, cyc);
    assert(quotients::one_matrix(neg, cyc));
    let z_rhs = CenteredRhs::new(source.z_segment, source.z_folded_centered_inf_norm);
    if prepared.params.requires_tail(z_rhs.capacity()) {
        let tail_key = match NttCacheKey::from_matrix_shape(
            D,
            plan.n_a,
            z_all,
            NttTransformDomain::I16TailBothTransforms,
        ) {
            Ok(key) => key,
            Err(e) => {
                return Err(e);
            },
        };
        let tail_ntt = match prepared.shared_ntt(tail_key) {
            Ok(slot) => slot,
            Err(e) => {
                return Err(e);
            },
        };
        let none: [[i32; D]; 0] = [];
        let b_rows = match fused_split_eq_quotients_prover_bounds(
            &negacyclic_ntt,
            &cyclic_ntt,
            plan.n_b,
            0,
            source.t_hat,
            CenteredRhs::new(&none, 0),
            plan.log_basis_outer,
        ) {
            Ok(rows) => rows,
            Err(e) => {
                return Err(e);
            },
        };
        let a_quotients = match centered_quotient_rows_with_i16_tail(
            &negacyclic_ntt,
            &cyclic_ntt,
            &tail_ntt,
            plan.n_a,
            z_rhs,
        ) {
            Ok(rows) => rows,
            Err(e) => {
                return Err(e);
            },
        };
        let rows = FusedQuotientRows { b_cyclic: b_rows.b_cyclic, a_quotients };
        proof {
            quotients::law_rows_depend_on_reached_entries(
                rows,
                m1,
                full,
                q.t,
                q.z,
                plan.n_b as int,
                q.t_len(),
                plan.n_a as int,
                q.z_len(),
            );
        }
        return Ok(rows);
    }
    let rows = fused_split_eq_quotients_prover_bounds(
        &negacyclic_ntt,
        &cyclic_ntt,
        plan.n_b,
        plan.n_a,
        source.t_hat,
        z_rhs,
        plan.log_basis_outer,
    );
    proof {
        if rows is Ok {
            quotients::law_rows_depend_on_reached_entries(
                rows->Ok_0,
                m1,
                full,
                q.t,
                q.z,
                plan.n_b as int,
                q.t_len(),
                plan.n_a as int,
                q.z_len(),
            );
        }
    }
    rows
}

/// Without A rows it does not matter which centered vectors there are.
proof fn lemma_empty_rows<F: Field, const D: usize>(
    rows: FusedQuotientRows<F, D>,
    matrix: spec_fn(int) -> Seq<F>,
    t: Seq<[i8; D]>,
    z1: Seq<[i32; D]>,
    z2: Seq<[i32; D]>,
    n_b: int,
    t_len: int,
)
    requires
        rows.are(matrix, t, z1, n_b, t_len, 0, 0),
    ensures
        rows.are(matrix, t, z2, n_b, t_len, 0, 0),
{
}

/// The D rows from prepared prefixes.
fn cached_d_rows<F: Field, C: TransformCapacity + Copy, const D: usize>(
    prepared: &CpuPreparedSetup<F, C, D>,
    e_hat: &[[i8; D]],
    n_d: usize,
    log_basis_open: u32,
) -> (r: Result<DigitRelationRows<F, D>, AkitaError>)
    requires
        n_d * e_hat@.len() <= usize::MAX,
    ensures
        ({
            let valid = 1 <= log_basis_open <= 8 && quotients::digits_within(
                e_hat@,
                e_hat@.len() as int,
                quotients::balanced_bound(log_basis_open as int),
            );
            let fits = n_d * e_hat@.len() <= prepared.matrix@.len();
            match r {
                Ok(rows) => valid && fits && rows.are(
                    quotients::field_matrix(prepared.matrix@),
                    e_hat@,
                    n_d as int,
                ),
                Err(e) => !(valid && fits) && (e is InvalidInput || e is InvalidSetup) && (valid
                    ==> e is InvalidSetup),
            }
        }),
{
    let width: usize = e_hat.len();
    let negacyclic_key = match NttCacheKey::from_matrix_shape(
        D,
        n_d,
        width,
        NttTransformDomain::Negacyclic,
    ) {
        Ok(key) => key,
        Err(e) => {
            return Err(e);
        },
    };
    let cyclic_key = match NttCacheKey::from_matrix_shape(
        D,
        n_d,
        width,
        NttTransformDomain::Cyclic,
    ) {
        Ok(key) => key,
        Err(e) => {
            return Err(e);
        },
    };
    let negacyclic_slot = match prepared.shared_ntt(negacyclic_key) {
        Ok(slot) => slot,
        Err(e) => {
            return Err(e);
        },
    };
    let cyclic_slot = match prepared.shared_ntt(cyclic_key) {
        Ok(slot) => slot,
        Err(e) => {
            return Err(e);
        },
    };
    let (neg_base, cyc_base) = match (&negacyclic_slot.base, &cyclic_slot.base) {
        (Some(neg), Some(cyc)) => (neg, cyc),
        _ => {
            assert(false);
            return Err(AkitaError::setup("NTT domain not prepared"));
        },
    };
    let (negacyclic, cyclic) = match (&neg_base.negacyclic, &cyc_base.cyclic) {
        (Some(neg), Some(cyc)) => (neg, cyc),
        _ => {
            assert(false);
            return Err(AkitaError::setup("NTT domain not prepared"));
        },
    };
    let source = quotients::FusedMatrixSource::Cached { negacyclic, cyclic };
    let ghost m1 = source.matrix();
    let rows = digit_relation_rows(source, n_d, e_hat, log_basis_open);
    proof {
        if rows is Ok {
            lemma_d_rows_agree(
                rows->Ok_0,
                m1,
                quotients::field_matrix(prepared.matrix@),
                e_hat@,
                n_d as int,
            );
        }
    }
    rows
}

/// No D rows.
fn no_d_rows<F: Field, const D: usize>() -> (r: DigitRelationRows<F, D>)
    ensures
        r.negacyclic@.len() == 0,
        r.cyclic@.len() == 0,
{
    DigitRelationRows { negacyclic: Vec::new(), cyclic: Vec::new() }
}

impl CpuBackend {
    /// The rows of a relation over the shared matrix.
    pub fn relation_rows<F: Field, C: TransformCapacity + Copy, const D: usize>(
        &self,
        prepared: &CpuPreparedSetup<F, C, D>,
        source: RingSwitchRelationView<'_, D>,
        plan: RingSwitchRelationPlan,
    ) -> (r: Result<RingSwitchRelationRows<F, D>, AkitaError>)
        requires
            cyclic::halvable::<F>(),
        ensures
            ({
                let q = relation_question(*prepared, source, plan);
                let reach = if q.d_extent() > q.ba_extent() {
                    q.d_extent()
                } else {
                    q.ba_extent()
                };
                let cached = self.uses_cache(NttOperationCluster::RingSwitch, reach as usize);
                match r {
                    Ok(rows) => q.answered(cached) && rows.are(
                        quotients::field_matrix(prepared.matrix@),
                        source,
                        plan,
                    ),
                    Err(e) => {
                        &&& !q.answered(cached)
                        &&& e is InvalidInput || e is InvalidSetup
                        &&& !q.roles_active() ==> e is InvalidInput
                        &&& q.roles_active() && q.open_digits() && q.outer_digits()
                            ==> e is InvalidSetup
                    },
                }
            }),
    {
        let ghost q = relation_question(*prepared, source, plan);
        let ghost full = quotients::field_matrix(prepared.matrix@);
        let e_len: usize = source.e_hat.len();
        let t_len: usize = source.t_hat.len();
        let z_len: usize = source.z_segment.len();
        match validate_role_shape(RelationRole::D, plan.n_d, e_len) {
            Ok(()) => {},
            Err(e) => {
                return Err(e);
            },
        }
        match validate_role_shape(RelationRole::B, plan.n_b, t_len) {
            Ok(()) => {},
            Err(e) => {
                return Err(e);
            },
        }
        match validate_role_shape(RelationRole::A, plan.n_a, z_len) {
            Ok(()) => {},
            Err(e) => {
                return Err(e);
            },
        }
        assert(q.roles_active());
        let d_extent: usize = match digit_relation_matrix_extent(plan.n_d, e_len) {
            Ok(n) => n,
            Err(e) => {
                return Err(e);
            },
        };
        let b_a_extent: usize = match fused_quotient_matrix_extent(
            plan.n_b,
            t_len,
            plan.n_a,
            z_len,
        ) {
            Ok(n) => n,
            Err(e) => {
                return Err(e);
            },
        };
        let stream_extent: usize = if d_extent > b_a_extent {
            d_extent
        } else {
            b_a_extent
        };
        proof {
            lemma_inactive(plan.n_b as int, t_len as int, plan.n_a as int, z_len as int);
            if plan.n_d == 0 {
                assert(plan.n_d * e_len == 0) by (nonlinear_arith)
                    requires
                        plan.n_d == 0,
                ;
            }
        }
        let cached: bool = self.ntt_operation_uses_cache(
            NttOperationCluster::RingSwitch,
            stream_extent,
        );
        if !cached && stream_extent > prepared.matrix.len() {
            return Err(AkitaError::setup("shared matrix is shorter than the relation reaches"));
        }
        let d_rows = if plan.n_d == 0 {
            no_d_rows()
        } else {
            let outcome = if cached {
                cached_d_rows(prepared, source.e_hat, plan.n_d, plan.log_basis_open)
            } else {
                digit_relation_rows(
                    quotients::FusedMatrixSource::Field(&prepared.matrix),
                    plan.n_d,
                    source.e_hat,
                    plan.log_basis_open,
                )
            };
            match outcome {
                Ok(rows) => rows,
                Err(e) => {
                    return Err(e);
                },
            }
        };
        assert(plan.n_d != 0 ==> d_rows.are(full, q.e, plan.n_d as int));
        let rows = if b_a_extent == 0 {
            FusedQuotientRows { b_cyclic: Vec::new(), a_quotients: Vec::new() }
        } else {
            let outcome = if cached {
                cached_b_a_rows(prepared, source, plan)
            } else {
                fused_split_eq_quotients_streamed_prover_bounds(
                    &prepared.matrix,
                    plan.n_b,
                    plan.n_a,
                    source.t_hat,
                    source.z_segment,
                    source.z_folded_centered_inf_norm,
                    plan.log_basis_outer,
                    &prepared.params,
                )
            };
            match outcome {
                Ok(rows) => rows,
                Err(e) => {
                    return Err(e);
                },
            }
        };
        Ok(
            RingSwitchRelationRows {
                d_negacyclic: d_rows.negacyclic,
                d_cyclic: d_rows.cyclic,
                b_cyclic: rows.b_cyclic,
                a_quotients: rows.a_quotients,
            },
        )
    }
}

/// Active roles with sources reach somewhere; inactive ones nowhere.
proof fn lemma_inactive(n_b: int, t_len: int, n_a: int, z_len: int)
    requires
        0 <= n_b,
        0 <= n_a,
        0 <= t_len,
        0 <= z_len,
        n_b != 0 ==> t_len != 0,
        n_a != 0 ==> z_len != 0,
    ensures
        quotients::extent(n_b, t_len, n_a, z_len) == 0 <==> n_b == 0 && n_a == 0,
        quotients::extent(n_b, t_len, n_a, z_len) == quotients::extent(
            n_b,
            if n_b != 0 {
                t_len
            } else {
                0
            },
            n_a,
            if n_a != 0 {
                z_len
            } else {
                0
            },
        ),
{
    assert(n_b != 0 ==> n_b * t_len > 0) by (nonlinear_arith)
        requires
            0 <= n_b,
            0 <= t_len,
            n_b != 0 ==> t_len != 0,
    ;
    assert(n_a != 0 ==> n_a * z_len > 0) by (nonlinear_arith)
        requires
            0 <= n_a,
            0 <= z_len,
            n_a != 0 ==> z_len != 0,
    ;
    assert(0 * t_len == 0 && 0 * z_len == 0);
}

/// A relation has one set of rows: whichever way they are computed, their
/// coefficients are the same.
pub proof fn law_routes_agree<F: Field, const D: usize>(
    a: RingSwitchRelationRows<F, D>,
    b: RingSwitchRelationRows<F, D>,
    matrix: spec_fn(int) -> Seq<F>,
    view: RingSwitchRelationView<'_, D>,
    plan: RingSwitchRelationPlan,
)
    requires
        a.are(matrix, view, plan),
        b.are(matrix, view, plan),
    ensures
        same_rows(a.d_negacyclic@, b.d_negacyclic@),
        same_rows(a.d_cyclic@, b.d_cyclic@),
        same_rows(a.b_cyclic@, b.b_cyclic@),
        same_rows(a.a_quotients@, b.a_quotients@),
{
    assert forall|i: int| 0 <= i < a.d_negacyclic@.len() implies #[trigger] a.d_negacyclic@[i]@
        == b.d_negacyclic@[i]@ by {
        assert(a.d_negacyclic@[i]@ =~= b.d_negacyclic@[i]@);
    }
    assert forall|i: int| 0 <= i < a.d_cyclic@.len() implies #[trigger] a.d_cyclic@[i]@
        == b.d_cyclic@[i]@ by {
        assert(a.d_cyclic@[i]@ =~= b.d_cyclic@[i]@);
    }
    assert forall|i: int| 0 <= i < a.b_cyclic@.len() implies #[trigger] a.b_cyclic@[i]@
        == b.b_cyclic@[i]@ by {
        assert(a.b_cyclic@[i]@ =~= b.b_cyclic@[i]@);
    }
    assert forall|i: int| 0 <= i < a.a_quotients@.len() implies #[trigger] a.a_quotients@[i]@
        == b.a_quotients@[i]@ by {
        assert(a.a_quotients@[i]@ =~= b.a_quotients@[i]@);
    }
}

/// Both routes accept the same relations.
pub proof fn law_routes_accept_alike<C: TransformCapacity, const D: usize>(
    question: RelationQuestion<C, D>,
)
    ensures
        question.answered(true) == question.answered(false),
{
    let bound = quotients::sized_bound(question.z, question.claimed);
    question.params.law_tail_makes_room(bound as u64);
}

/// Whether two lists of ring elements have the same coefficients.
pub open spec fn same_rows<F: Field, const D: usize>(
    a: Seq<CyclotomicRing<F, D>>,
    b: Seq<CyclotomicRing<F, D>>,
) -> bool {
    &&& a.len() == b.len()
    &&& forall|i: int| 0 <= i < a.len() ==> (#[trigger] a[i])@ == b[i]@
}

/// The D rows of a relation hold their products: coefficient by coefficient a row
/// is the sum of the products of its own entries of the matrix with the digit
/// vectors, modulo `X^D + 1` and modulo `X^D - 1`.
pub proof fn law_digit_rows_hold_their_products<F: Field, const D: usize>(
    rows: DigitRelationRows<F, D>,
    matrix: spec_fn(int) -> Seq<F>,
    e: Seq<[i8; D]>,
    n_d: int,
    row: int,
    k: int,
)
    requires
        rows.are(matrix, e, n_d),
        0 <= row < n_d,
        0 <= k < D,
    ensures
        rows.negacyclic@.len() == n_d,
        rows.cyclic@.len() == n_d,
        rows.negacyclic@[row]@[k] == rl::sum_range(
            |j: int|
                cyclotomic::product_coeff(
                    matrix(e.len() * row + j),
                    Seq::new(D as nat, |i: int| F::of_int(e[j]@[i] as int)),
                    k,
                ),
            0,
            e.len() as int,
        ),
        rows.cyclic@[row]@[k] == rl::sum_range(
            |j: int|
                cyclic::cyclic_coeff(
                    matrix(e.len() * row + j),
                    Seq::new(D as nat, |i: int| F::of_int(e[j]@[i] as int)),
                    k,
                ),
            0,
            e.len() as int,
        ),
{
    let n = e.len() as int;
    let at = e.len() * row;
    assert(at == row * n) by (nonlinear_arith)
        requires
            at == n * row,
    ;
    let f = d_row_terms(matrix, e, n)(row, k);
    let g = |j: int|
        cyclotomic::product_coeff(
            matrix(e.len() * row + j),
            Seq::new(D as nat, |i: int| F::of_int(e[j]@[i] as int)),
            k,
        );
    let f2 = quotients::b_row_terms(matrix, e, n)(row, k);
    let g2 = |j: int|
        cyclic::cyclic_coeff(
            matrix(e.len() * row + j),
            Seq::new(D as nat, |i: int| F::of_int(e[j]@[i] as int)),
            k,
        );
    assert forall|j: int| 0 <= j < n implies #[trigger] f(j) == g(j) by {
        assert(quotients::lift8::<F>(e[j]@) =~= Seq::new(
            D as nat,
            |i: int| F::of_int(e[j]@[i] as int),
        ));
    }
    assert forall|j: int| 0 <= j < n implies #[trigger] f2(j) == g2(j) by {
        assert(quotients::lift8::<F>(e[j]@) =~= Seq::new(
            D as nat,
            |i: int| F::of_int(e[j]@[i] as int),
        ));
    }
    rl::lemma_sum_congruent(f, g, 0, n);
    rl::lemma_sum_congruent(f2, g2, 0, n);
    assert(rows.negacyclic@[row]@[k] == rl::sum_range(f, 0, n));
    assert(rows.cyclic@[row]@[k] == rl::sum_range(f2, 0, n));
}

/// The rows of a relation are its D rows with the opening digits, and its B and A
/// rows with the outer digits and the centered vectors; a role without rows reads
/// no vector.
pub proof fn law_relations_are_made_of_their_roles<F: Field, const D: usize>(
    rows: RingSwitchRelationRows<F, D>,
    matrix: spec_fn(int) -> Seq<F>,
    view: RingSwitchRelationView<'_, D>,
    plan: RingSwitchRelationPlan,
)
    requires
        rows.are(matrix, view, plan),
    ensures
        (DigitRelationRows { negacyclic: rows.d_negacyclic, cyclic: rows.d_cyclic }).are(
            matrix,
            view.e_hat@,
            plan.n_d as int,
        ),
        (FusedQuotientRows { b_cyclic: rows.b_cyclic, a_quotients: rows.a_quotients }).are(
            matrix,
            view.t_hat@,
            view.z_segment@,
            plan.n_b as int,
            if plan.n_b > 0 {
                view.t_hat@.len() as int
            } else {
                0
            },
            plan.n_a as int,
            if plan.n_a > 0 {
                view.z_segment@.len() as int
            } else {
                0
            },
        ),
{
}

/// What a relation has to meet to have rows: a role with rows has vectors, the
/// matrix reaches as far as every role, digits are at most half of their base in
/// magnitude, in a base that fits a byte, and the arithmetic holds a term.
pub proof fn law_relations_with_rows<C: TransformCapacity, const D: usize>(
    question: RelationQuestion<C, D>,
    j: int,
    k: int,
)
    requires
        question.answered(false),
        0 <= k < D,
    ensures
        ({
            let plan = question.plan;
            let (e, t, z) = (question.e, question.t, question.z);
            &&& plan.n_d > 0 ==> e.len() > 0 && 1 <= plan.log_basis_open <= 8
            &&& plan.n_b > 0 ==> t.len() > 0 && 1 <= plan.log_basis_outer <= 8
            &&& plan.n_a > 0 ==> z.len() > 0 && 1 <= plan.log_basis_outer <= 8
            &&& plan.n_d * e.len() <= question.matrix_len
            &&& plan.n_b * t.len() <= question.matrix_len
            &&& plan.n_a * z.len() <= question.matrix_len
            &&& plan.n_d > 0 && 0 <= j < e.len() ==> -pow2(plan.log_basis_open as nat) <= 2
                * e[j]@[k] <= pow2(plan.log_basis_open as nat)
            &&& plan.n_b > 0 && 0 <= j < t.len() ==> -pow2(plan.log_basis_outer as nat) <= 2
                * t[j]@[k] <= pow2(plan.log_basis_outer as nat)
            &&& plan.n_b > 0 ==> question.params.safe_width_of(
                t.len() as usize,
                (pow2(plan.log_basis_outer as nat) / 2) as u64,
            ) is Some
        }),
{
    let plan = question.plan;
    let (e, t, z) = (question.e, question.t, question.z);
    lemma_inactive(
        plan.n_b as int,
        t.len() as int,
        plan.n_a as int,
        z.len() as int,
    );
    if plan.n_d > 0 {
        quotients::law_balanced_bounds_are_halves(plan.log_basis_open as int);
        if 0 <= j < e.len() {
            assert(quotients::digit_magnitude(e[j]@[k]) <= quotients::balanced_bound(
                plan.log_basis_open as int,
            ));
        }
    }
    if plan.n_b > 0 {
        quotients::law_balanced_bounds_are_halves(plan.log_basis_outer as int);
        if 0 <= j < t.len() {
            assert(quotients::digit_magnitude(t[j]@[k]) <= question.outer_bound());
        }
    }
    quotients::law_extents_cover_both_products(
        plan.n_b as int,
        t.len() as int,
        plan.n_a as int,
        z.len() as int,
    );
}

/// A relation that meets all that has rows: where the roles with rows have vectors,
/// the matrix reaches as far as every role, digits are at most half of their base in
/// magnitude and the arithmetic holds a term, nothing else is asked of it.
pub proof fn law_relations_that_fit_have_rows<C: TransformCapacity, const D: usize>(
    question: RelationQuestion<C, D>,
)
    requires
        question.plan.n_d > 0 ==> question.e.len() > 0 && 1 <= question.plan.log_basis_open <= 8,
        question.plan.n_b > 0 ==> question.t.len() > 0,
        question.plan.n_a > 0 ==> question.z.len() > 0,
        question.plan.n_b > 0 || question.plan.n_a > 0 ==> 1 <= question.plan.log_basis_outer <= 8,
        question.t.len() <= usize::MAX,
        question.matrix_len <= usize::MAX,
        question.plan.n_d * question.e.len() <= question.matrix_len,
        question.plan.n_b * question.t.len() <= question.matrix_len,
        question.plan.n_a * question.z.len() <= question.matrix_len,
        forall|j: int, k: int|
            question.plan.n_d > 0 && 0 <= j < question.e.len() && 0 <= k < D ==> -pow2(
                question.plan.log_basis_open as nat,
            ) <= 2 * #[trigger] question.e[j]@[k] <= pow2(question.plan.log_basis_open as nat),
        forall|j: int, k: int|
            question.plan.n_b > 0 && 0 <= j < question.t.len() && 0 <= k < D ==> -pow2(
                question.plan.log_basis_outer as nat,
            ) <= 2 * #[trigger] question.t[j]@[k] <= pow2(question.plan.log_basis_outer as nat),
        question.plan.n_b > 0 ==> question.params.safe_width_of(
            question.t.len() as usize,
            (pow2(question.plan.log_basis_outer as nat) / 2) as u64,
        ) is Some,
    ensures
        question.answered(false),
{
    let plan = question.plan;
    let (e, t, z) = (question.e, question.t, question.z);
    if plan.n_d > 0 {
        quotients::law_balanced_bounds_are_halves(plan.log_basis_open as int);
        assert(question.open_digits());
    }
    if plan.n_b > 0 {
        quotients::law_balanced_bounds_are_halves(plan.log_basis_outer as int);
    }
    quotients::law_extents_cover_both_products(
        plan.n_b as int,
        t.len() as int,
        plan.n_a as int,
        z.len() as int,
    );
    lemma_inactive(
        plan.n_b as int,
        t.len() as int,
        plan.n_a as int,
        z.len() as int,
    );
    assert(question.outer_digits());
    assert(question.held());
}

} // verus!
