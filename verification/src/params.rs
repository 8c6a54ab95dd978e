//! Parameter types that schedules, planning and expansion share.

use crate::error::AkitaError;
use vstd::prelude::*;

verus! {

/// The number of variables and of polynomials of one committed group.
#[derive(Clone, Copy, Debug, PartialEq, Eq, Structural)]
pub struct PolynomialGroupLayout {
    pub num_vars: usize,
    pub num_polynomials: usize,
}

impl PolynomialGroupLayout {
    /// A group of `num_polynomials` polynomials in `num_vars` variables.
    pub fn new(num_vars: usize, num_polynomials: usize) -> (r: Self)
        ensures
            r == (PolynomialGroupLayout { num_vars, num_polynomials }),
    {
        PolynomialGroupLayout { num_vars, num_polynomials }
    }

    /// A group of one polynomial.
    pub fn singleton(num_vars: usize) -> (r: Self)
        ensures
            r == (PolynomialGroupLayout { num_vars, num_polynomials: 1 }),
    {
        PolynomialGroupLayout { num_vars, num_polynomials: 1 }
    }

    /// The number of variables.
    pub fn num_vars(&self) -> (n: usize)
        ensures
            n == self.num_vars,
    {
        self.num_vars
    }

    /// The number of polynomials.
    pub fn num_polynomials(&self) -> (n: usize)
        ensures
            n == self.num_polynomials,
    {
        self.num_polynomials
    }
}

/// How the ring elements of one claim are cut into blocks.
#[derive(Clone, Copy, Debug, PartialEq, Eq, Structural)]
pub struct BlockGeometry {
    pub live_ring_elements_per_claim: usize,
    pub positions_per_block: usize,
    pub live_blocks: usize,
}

impl BlockGeometry {
    /// The geometry with the given counts.
    pub fn new(
        live_ring_elements_per_claim: usize,
        positions_per_block: usize,
        live_blocks: usize,
    ) -> (r: Self)
        ensures
            r == (BlockGeometry { live_ring_elements_per_claim, positions_per_block, live_blocks }),
    {
        BlockGeometry { live_ring_elements_per_claim, positions_per_block, live_blocks }
    }
}

/// How a fold opens a group.
#[derive(Clone, Copy, Debug, PartialEq, Eq, Structural)]
pub enum OpeningMethod {
    /// Evaluations are opened over the whole ring.
    EvaluationTrace,
    /// Coefficients are packed over a subring of challenges.
    SubringCoefficientPacking { challenge_subring_dimension: usize },
}

/// Whether a commitment is sent raw or compressed.
#[derive(Clone, Copy, Debug, PartialEq, Eq, Structural)]
pub enum CommitmentPayloadMode {
    Compressed,
    Raw,
}

/// How a fold proves its ring relation.
#[derive(Clone, Copy, Debug, PartialEq, Eq, Structural)]
pub enum RingRelationMode {
    QuotientLift,
    ReducedEvaluation,
}

/// The security level that ranks are audited for.
#[derive(Clone, Copy, Debug, PartialEq, Eq, Structural)]
pub enum SisSecurityPolicyId {
    Quantum128BitADPS16,
}

/// The prime that a rank table was made for.
#[derive(Clone, Copy, Debug, PartialEq, Eq, Structural)]
pub enum SisModulusProfileId {
    Q32Offset99,
    Q64Offset59,
    Q128OffsetA7F7,
}

/// The matrix that a rank is looked up for.
#[derive(Clone, Copy, Debug, PartialEq, Eq, Structural)]
pub enum SisMatrixRole {
    Inner,
    Outer,
    Open,
}

/// A 32-byte digest, most significant half first.
#[derive(Clone, Copy, Debug, PartialEq, Eq, Structural)]
pub struct SisTableDigest {
    pub high: u128,
    pub low: u128,
}

/// The digest of the table for Euclidean norms.
#[derive(Clone, Copy, Debug, PartialEq, Eq, Structural)]
pub struct SisL2TableDigest {
    pub high: u128,
    pub low: u128,
}

/// What a minimum secure rank is looked up by.
#[derive(Clone, Copy, Debug, PartialEq, Eq, Structural)]
pub struct SisTableKey {
    pub policy: SisSecurityPolicyId,
    pub table_digest: SisTableDigest,
    pub modulus_profile: SisModulusProfileId,
    pub role: SisMatrixRole,
    pub ring_dimension: u32,
    pub coeff_linf_bound: u128,
}

/// What a minimum secure rank for a Euclidean bound is looked up by.
#[derive(Clone, Copy, Debug, PartialEq, Eq, Structural)]
pub struct SisL2TableKey {
    pub ring_dimension: u32,
    pub collision_l2_sq: u128,
}

/// The bound that the rank of an inner matrix answers to.
#[derive(Clone, Copy, Debug, PartialEq, Eq, Structural)]
pub enum InnerCommitSecurityRoute {
    Linf(SisTableKey),
    L2 { table_key: SisL2TableKey, response_l2_sq_cap: u128 },
}

/// The inner (A) commitment matrix.
#[derive(Clone, Copy, Debug, PartialEq, Eq, Structural)]
pub struct InnerCommitMatrixParams {
    pub output_rank: usize,
    pub input_width: usize,
    pub ring_dimension: u32,
    pub route: InnerCommitSecurityRoute,
}

/// The key of a matrix in the maximum norm.
pub open spec fn linf_key(
    policy: SisSecurityPolicyId,
    table_digest: SisTableDigest,
    modulus_profile: SisModulusProfileId,
    role: SisMatrixRole,
    ring_dimension: u32,
    coeff_linf_bound: u128,
) -> SisTableKey {
    SisTableKey { policy, table_digest, modulus_profile, role, ring_dimension, coeff_linf_bound }
}

impl InnerCommitMatrixParams {
    /// A matrix in the maximum norm, without an audit of its rank.
    pub fn new_unchecked(
        policy: SisSecurityPolicyId,
        table_digest: SisTableDigest,
        modulus_profile: SisModulusProfileId,
        output_rank: usize,
        input_width: usize,
        coeff_linf_bound: u128,
        ring_dimension: u32,
    ) -> (r: Self)
        ensures
            r.output_rank == output_rank,
            r.input_width == input_width,
            r.ring_dimension == ring_dimension,
            r.route == InnerCommitSecurityRoute::Linf(
                linf_key(
                    policy,
                    table_digest,
                    modulus_profile,
                    SisMatrixRole::Inner,
                    ring_dimension,
                    coeff_linf_bound,
                ),
            ),
    {
        InnerCommitMatrixParams {
            output_rank,
            input_width,
            ring_dimension,
            route: InnerCommitSecurityRoute::Linf(
                SisTableKey {
                    policy,
                    table_digest,
                    modulus_profile,
                    role: SisMatrixRole::Inner,
                    ring_dimension,
                    coeff_linf_bound,
                },
            ),
        }
    }

    /// The number of rows.
    pub fn output_rank(&self) -> (n: usize)
        ensures
            n == self.output_rank,
    {
        self.output_rank
    }

    /// The number of columns.
    pub fn input_width(&self) -> (n: usize)
        ensures
            n == self.input_width,
    {
        self.input_width
    }

    /// The degree of the ring.
    pub fn ring_dimension(&self) -> (n: usize)
        ensures
            n == self.ring_dimension,
    {
        self.ring_dimension as usize
    }

    /// The bound that the rank answers to.
    pub fn security_route(&self) -> (r: InnerCommitSecurityRoute)
        ensures
            r == self.route,
    {
        self.route
    }

    /// The key of the maximum-norm route.
    pub open spec fn sis_table_key_spec(self) -> Option<SisTableKey> {
        match self.route {
            InnerCommitSecurityRoute::Linf(key) => Some(key),
            InnerCommitSecurityRoute::L2 { .. } => None,
        }
    }

    /// The key of the maximum-norm route, if that is the one taken.
    pub fn sis_table_key(&self) -> (r: Option<SisTableKey>)
        ensures
            r == self.sis_table_key_spec(),
    {
        match self.route {
            InnerCommitSecurityRoute::Linf(key) => Some(key),
            InnerCommitSecurityRoute::L2 { .. } => None,
        }
    }

    /// The Euclidean cap of the other route.
    pub open spec fn l2_cap(self) -> Option<u128> {
        match self.route {
            InnerCommitSecurityRoute::Linf(_) => None,
            InnerCommitSecurityRoute::L2 { response_l2_sq_cap, .. } => Some(response_l2_sq_cap),
        }
    }
}

/// The outer (B) commitment matrix.
#[derive(Clone, Copy, Debug, PartialEq, Eq, Structural)]
pub struct OuterCommitMatrixParams {
    pub output_rank: usize,
    pub input_width: usize,
    pub key: SisTableKey,
}

impl OuterCommitMatrixParams {
    /// A matrix without an audit of its rank.
    pub fn new_unchecked(
        policy: SisSecurityPolicyId,
        table_digest: SisTableDigest,
        modulus_profile: SisModulusProfileId,
        output_rank: usize,
        input_width: usize,
        coeff_linf_bound: u128,
        ring_dimension: u32,
    ) -> (r: Self)
        ensures
            r.output_rank == output_rank,
            r.input_width == input_width,
            r.key == linf_key(
                policy,
                table_digest,
                modulus_profile,
                SisMatrixRole::Outer,
                ring_dimension,
                coeff_linf_bound,
            ),
    {
        OuterCommitMatrixParams {
            output_rank,
            input_width,
            key: SisTableKey {
                policy,
                table_digest,
                modulus_profile,
                role: SisMatrixRole::Outer,
                ring_dimension,
                coeff_linf_bound,
            },
        }
    }

    /// The number of rows.
    pub fn output_rank(&self) -> (n: usize)
        ensures
            n == self.output_rank,
    {
        self.output_rank
    }

    /// The number of columns.
    pub fn input_width(&self) -> (n: usize)
        ensures
            n == self.input_width,
    {
        self.input_width
    }

    /// The degree of the ring.
    pub fn ring_dimension(&self) -> (n: usize)
        ensures
            n == self.key.ring_dimension,
    {
        self.key.ring_dimension as usize
    }

    /// What the rank was looked up by.
    pub fn sis_table_key(&self) -> (r: SisTableKey)
        ensures
            r == self.key,
    {
        self.key
    }
}

/// The opening (D) commitment matrix.
#[derive(Clone, Copy, Debug, PartialEq, Eq, Structural)]
pub struct OpenCommitMatrixParams {
    pub output_rank: usize,
    pub input_width: usize,
    pub key: SisTableKey,
}

impl OpenCommitMatrixParams {
    /// The degree of the ring.
    pub fn ring_dimension(&self) -> (n: usize)
        ensures
            n == self.key.ring_dimension,
    {
        self.key.ring_dimension as usize
    }
}

/// The basis and the number of digits of a decomposition.
#[derive(Clone, Copy, Debug, PartialEq, Eq, Structural)]
pub struct GadgetDigits {
    pub log_basis: u32,
    pub num_digits: usize,
}

impl GadgetDigits {
    /// Digits of `log_basis` bits each.
    pub fn new(log_basis: u32, num_digits: usize) -> (r: Self)
        ensures
            r == (GadgetDigits { log_basis, num_digits }),
    {
        GadgetDigits { log_basis, num_digits }
    }
}

/// The digits and the matrix of the inner commitment.
#[derive(Clone, Copy, Debug, PartialEq, Eq, Structural)]
pub struct InnerRole {
    pub digits: GadgetDigits,
    pub matrix: InnerCommitMatrixParams,
}

/// The digits and the matrix of the outer commitment.
#[derive(Clone, Copy, Debug, PartialEq, Eq, Structural)]
pub struct OuterRole {
    pub digits: GadgetDigits,
    pub matrix: OuterCommitMatrixParams,
}

/// The digits and the matrix of the opening commitment.
#[derive(Clone, Copy, Debug, PartialEq, Eq, Structural)]
pub struct OpenRole {
    pub digits: GadgetDigits,
    pub matrix: OpenCommitMatrixParams,
}

/// The number of slices an outer commitment is cut into.
#[derive(Clone, Copy, Debug, PartialEq, Eq, Structural)]
pub enum CommitmentSliceCount {
    One,
    Two,
    Four,
    Eight,
}

/// What a count of slices is refused with that is none.
pub open spec fn slice_count_text() -> Seq<char> {
    "commitment slice count must be 1, 2, 4 or 8"@
}

impl CommitmentSliceCount {
    /// The count as an integer.
    pub open spec fn count(self) -> int {
        match self {
            CommitmentSliceCount::One => 1,
            CommitmentSliceCount::Two => 2,
            CommitmentSliceCount::Four => 4,
            CommitmentSliceCount::Eight => 8,
        }
    }

    /// The slice count of an integer, if it is one of the dyadic counts.
    pub open spec fn of_count(n: int) -> Option<CommitmentSliceCount> {
        if n == 1 {
            Some(CommitmentSliceCount::One)
        } else if n == 2 {
            Some(CommitmentSliceCount::Two)
        } else if n == 4 {
            Some(CommitmentSliceCount::Four)
        } else if n == 8 {
            Some(CommitmentSliceCount::Eight)
        } else {
            None
        }
    }

    /// The slice count of an integer.
    pub fn try_new(count: usize) -> (r: Result<Self, AkitaError>)
        ensures
            match r {
                Ok(s) => Self::of_count(count as int) == Some(s),
                Err(e) => Self::of_count(count as int) is None && e.is_setup(slice_count_text()),
            },
    {
        if count == 1 {
            Ok(CommitmentSliceCount::One)
        } else if count == 2 {
            Ok(CommitmentSliceCount::Two)
        } else if count == 4 {
            Ok(CommitmentSliceCount::Four)
        } else if count == 8 {
            Ok(CommitmentSliceCount::Eight)
        } else {
            Err(AkitaError::setup("commitment slice count must be 1, 2, 4 or 8"))
        }
    }

    /// The count as an integer.
    pub fn get(&self) -> (n: usize)
        ensures
            n == self.count(),
    {
        match self {
            CommitmentSliceCount::One => 1,
            CommitmentSliceCount::Two => 2,
            CommitmentSliceCount::Four => 4,
            CommitmentSliceCount::Eight => 8,
        }
    }
}

/// Everything that fixes how one group is committed.
#[derive(Clone, Copy, Debug, PartialEq, Eq, Structural)]
pub struct GroupCommitPhaseParams {
    pub version: u32,
    pub group: PolynomialGroupLayout,
    pub blocks: BlockGeometry,
    pub outer_slice_count: CommitmentSliceCount,
    pub inner: InnerRole,
    pub outer: OuterRole,
}

/// The current version of [`GroupCommitPhaseParams`].
pub const GROUP_COMMIT_PHASE_VERSION: u32 = 1;

/// The weights of a sparse challenge: how many coefficients of each magnitude.
#[derive(Clone, Copy, Debug, PartialEq, Eq, Structural)]
pub struct SparseChallengeConfig {
    pub count_pm1: usize,
    pub count_pm2: usize,
}

/// How a fold opens one group.
#[derive(Clone, Copy, Debug, PartialEq, Eq, Structural)]
pub struct GroupOpeningPlan {
    pub opening_method: OpeningMethod,
    pub fold_challenge_config: SparseChallengeConfig,
    pub log_basis_open: u32,
    pub num_digits_open: usize,
    pub num_digits_fold: usize,
}

/// One group with its commitment and its opening.
#[derive(Clone, Copy, Debug, PartialEq, Eq, Structural)]
pub struct GroupOpenPhaseParams {
    pub profile: GroupCommitPhaseParams,
    pub opening: GroupOpeningPlan,
    pub setup_natural_len: Option<usize>,
}

/// How a witness is cut into chunks.
#[derive(Clone, Copy, Debug, PartialEq, Eq, Structural)]
pub struct ChunkedWitnessCfg {
    pub num_chunks: usize,
    pub num_activated_levels: usize,
}

impl ChunkedWitnessCfg {
    /// The layout of an unchunked witness.
    pub open spec fn non_chunked() -> Self {
        ChunkedWitnessCfg { num_chunks: 1, num_activated_levels: 0 }
    }

    /// The layout of an unchunked witness.
    pub fn default_non_chunked() -> (r: Self)
        ensures
            r == Self::non_chunked(),
    {
        ChunkedWitnessCfg { num_chunks: 1, num_activated_levels: 0 }
    }

    /// The number of chunks at a level.
    pub open spec fn chunks_at(self, level: int) -> int {
        if level < self.num_activated_levels {
            self.num_chunks as int
        } else {
            1
        }
    }
}

/// The bounds that digit counts follow from.
#[derive(Clone, Copy, Debug, PartialEq, Eq, Structural)]
pub struct DecompositionParams {
    pub log_basis: u32,
    pub log_commit_bound: u32,
    pub log_open_bound: Option<u32>,
}

impl DecompositionParams {
    /// The width of the field: the opening bound, or the commitment bound
    /// where openings have none of their own.
    pub open spec fn field_bits_spec(self) -> u32 {
        match self.log_open_bound {
            Some(bits) => bits,
            None => self.log_commit_bound,
        }
    }

    /// The width of the field.
    pub fn field_bits(&self) -> (n: u32)
        ensures
            n == self.field_bits_spec(),
    {
        match self.log_open_bound {
            Some(bits) => bits,
            None => self.log_commit_bound,
        }
    }
}

/// The degrees of the rings of the three matrices.
#[derive(Clone, Copy, Debug, PartialEq, Eq, Structural)]
pub struct CommitmentRingDims {
    pub inner: usize,
    pub outer: usize,
    pub opening: usize,
}

impl CommitmentRingDims {
    /// One degree throughout.
    pub fn uniform(dimension: usize) -> (r: Self)
        ensures
            r.inner == dimension,
            r.outer == dimension,
            r.opening == dimension,
    {
        CommitmentRingDims { inner: dimension, outer: dimension, opening: dimension }
    }

    /// The degree of the inner ring.
    pub fn d_a(&self) -> (d: usize)
        ensures
            d == self.inner,
    {
        self.inner
    }

    /// The degree of the outer ring.
    pub fn d_b(&self) -> (d: usize)
        ensures
            d == self.outer,
    {
        self.outer
    }

    /// The degree of the opening ring.
    pub fn d_d(&self) -> (d: usize)
        ensures
            d == self.opening,
    {
        self.opening
    }
}

/// The bound that an honest prover's folded responses are planned under, by the
/// kind of its source and its size.
#[derive(Clone, Copy, Debug, PartialEq, Eq, Structural)]
pub struct HonestFoldPolicySpec {
    pub kind: u32,
    pub bound: u128,
}

/// How the producer of a witness encoded it.
#[derive(Clone, Copy, Debug, PartialEq, Eq, Structural)]
pub struct CommittedSourceEncoding {
    pub tag: u32,
    pub num_vars: usize,
}

/// What proof sizes are priced by.
#[derive(Clone, Copy, Debug, PartialEq, Eq, Structural)]
pub enum PlannerCostModelId {
    ExactPayloadAndSetupEnvelope,
}

/// What Euclidean response caps are derived from.
#[derive(Clone, Copy, Debug, PartialEq, Eq, Structural)]
pub enum SelectiveL2ResponseModelId {
    Disabled,
    TypedProtocolMomentsV1,
}

/// What a schedule is selected for.
#[derive(Clone, Copy, Debug, PartialEq, Eq, Structural)]
pub enum SelectionPolicyId {
    MinFirstDirectSetupThenPayloadV2,
    MinEstimatedProofPayloadV2,
}

/// How recursive splits are searched.
#[derive(Clone, Copy, Debug, PartialEq, Eq, Structural)]
pub enum RecursiveSplitSearchPolicy {
    Exhaustive,
}

/// How setup prefixes are searched.
#[derive(Clone, Copy, Debug, PartialEq, Eq, Structural)]
pub enum RecursiveSetupSearchPolicy {
    Exhaustive,
}

/// Which ring dimensions a schedule may use.
#[derive(Clone, Debug, PartialEq, Eq)]
pub enum RingDimensionScheduleMode {
    /// One dimension throughout.
    UniformDimension { ring_dimension: usize },
    /// A search over dimensions for the first levels.
    AdaptiveDimension {
        num_search_levels: usize,
        suffix_dimensions: Vec<usize>,
        potential_a_dimensions: Vec<usize>,
        potential_b_dimensions: Vec<usize>,
        potential_d_dimensions: Vec<usize>,
    },
}

impl PlannerCostModelId {
    /// The name of the variant.
    pub open spec fn name_spec(self) -> Seq<char> {
        "ExactPayloadAndSetupEnvelope"@
    }

    /// The name of the variant.
    pub fn name(&self) -> (s: &'static str)
        ensures
            s@ == self.name_spec(),
    {
        "ExactPayloadAndSetupEnvelope"
    }
}

impl SelectiveL2ResponseModelId {
    /// The name of the variant.
    pub open spec fn name_spec(self) -> Seq<char> {
        match self {
            SelectiveL2ResponseModelId::Disabled => "Disabled"@,
            SelectiveL2ResponseModelId::TypedProtocolMomentsV1 => "TypedProtocolMomentsV1"@,
        }
    }

    /// The name of the variant.
    pub fn name(&self) -> (s: &'static str)
        ensures
            s@ == self.name_spec(),
    {
        match self {
            SelectiveL2ResponseModelId::Disabled => "Disabled",
            SelectiveL2ResponseModelId::TypedProtocolMomentsV1 => "TypedProtocolMomentsV1",
        }
    }
}

impl SelectionPolicyId {
    /// The name of the variant.
    pub open spec fn name_spec(self) -> Seq<char> {
        match self {
            SelectionPolicyId::MinFirstDirectSetupThenPayloadV2 =>
                "MinFirstDirectSetupThenPayloadV2"@,
            SelectionPolicyId::MinEstimatedProofPayloadV2 => "MinEstimatedProofPayloadV2"@,
        }
    }

    /// The name of the variant.
    pub fn name(&self) -> (s: &'static str)
        ensures
            s@ == self.name_spec(),
    {
        match self {
            SelectionPolicyId::MinFirstDirectSetupThenPayloadV2 =>
                "MinFirstDirectSetupThenPayloadV2",
            SelectionPolicyId::MinEstimatedProofPayloadV2 => "MinEstimatedProofPayloadV2",
        }
    }
}

impl RecursiveSplitSearchPolicy {
    /// The name of the variant.
    pub open spec fn name_spec(self) -> Seq<char> {
        "Exhaustive"@
    }

    /// The name of the variant.
    pub fn name(&self) -> (s: &'static str)
        ensures
            s@ == self.name_spec(),
    {
        "Exhaustive"
    }
}

impl RecursiveSetupSearchPolicy {
    /// The name of the variant.
    pub open spec fn name_spec(self) -> Seq<char> {
        "Exhaustive"@
    }

    /// The name of the variant.
    pub fn name(&self) -> (s: &'static str)
        ensures
            s@ == self.name_spec(),
    {
        "Exhaustive"
    }
}

impl SisSecurityPolicyId {
    /// The name of the variant.
    pub open spec fn name_spec(self) -> Seq<char> {
        "Quantum128BitADPS16"@
    }

    /// The name of the variant.
    pub fn name(&self) -> (s: &'static str)
        ensures
            s@ == self.name_spec(),
    {
        "Quantum128BitADPS16"
    }
}

impl SisModulusProfileId {
    /// The prime.
    pub open spec fn prime(self) -> int {
        match self {
            SisModulusProfileId::Q32Offset99 => 4294967197,
            SisModulusProfileId::Q64Offset59 => 18446744073709551557,
            SisModulusProfileId::Q128OffsetA7F7 => 340282366920938463463374607427473266697,
        }
    }

    /// The prime.
    pub fn modulus(&self) -> (m: u128)
        ensures
            m == self.prime(),
    {
        match self {
            SisModulusProfileId::Q32Offset99 => 4294967197,
            SisModulusProfileId::Q64Offset59 => 18446744073709551557,
            SisModulusProfileId::Q128OffsetA7F7 => 340282366920938463463374607427473266697,
        }
    }

    /// The name of the variant.
    pub open spec fn name_spec(self) -> Seq<char> {
        match self {
            SisModulusProfileId::Q32Offset99 => "Q32Offset99"@,
            SisModulusProfileId::Q64Offset59 => "Q64Offset59"@,
            SisModulusProfileId::Q128OffsetA7F7 => "Q128OffsetA7F7"@,
        }
    }

    /// The name of the variant.
    pub fn name(&self) -> (s: &'static str)
        ensures
            s@ == self.name_spec(),
    {
        match self {
            SisModulusProfileId::Q32Offset99 => "Q32Offset99",
            SisModulusProfileId::Q64Offset59 => "Q64Offset59",
            SisModulusProfileId::Q128OffsetA7F7 => "Q128OffsetA7F7",
        }
    }
}

/// The least and the greatest basis of a search, in bits.
#[derive(Clone, Copy, Debug, PartialEq, Eq, Structural)]
pub struct BasisRange {
    pub min: u32,
    pub max: u32,
}

/// The planner's view of a configuration.
#[derive(Clone, Debug, PartialEq, Eq)]
pub struct PlannerPolicy {
    pub cost_model: PlannerCostModelId,
    pub selective_l2_response_model: SelectiveL2ResponseModelId,
    pub selection_policy: SelectionPolicyId,
    pub recursive_split_search_policy: RecursiveSplitSearchPolicy,
    pub recursive_setup_search_policy: RecursiveSetupSearchPolicy,
    pub setup_field_budget: Option<usize>,
    pub min_offloaded_witness_contraction: usize,
    pub ring_dimension_schedule_mode: RingDimensionScheduleMode,
    pub decomposition: DecompositionParams,
    pub sis_modulus_profile: SisModulusProfileId,
    pub sis_security_policy: SisSecurityPolicyId,
    pub sis_table_digest: SisTableDigest,
    pub sis_l2_table_digest: SisL2TableDigest,
    pub claim_ext_degree: usize,
    pub chal_ext_degree: usize,
    pub inner_basis_range: BasisRange,
    pub opening_basis_range: BasisRange,
    pub witness_chunk: ChunkedWitnessCfg,
    pub recursive_setup_planning: bool,
}

impl PlannerPolicy {
    /// The number of witness chunks at a level.
    pub fn chunks_at_level(&self, level: usize) -> (n: usize)
        ensures
            n == self.witness_chunk.chunks_at(level as int),
    {
        if level < self.witness_chunk.num_activated_levels {
            self.witness_chunk.num_chunks
        } else {
            1
        }
    }
}

/// What a schedule is looked up by: the layout of the final group and the
/// frozen parameters of the groups committed before it.
#[derive(Clone, Debug, PartialEq, Eq)]
pub struct AkitaScheduleLookupKey {
    pub final_group: PolynomialGroupLayout,
    pub precommitteds: Vec<GroupCommitPhaseParams>,
}

impl AkitaScheduleLookupKey {
    /// The key of a schedule without precommitted groups.
    pub fn single(final_group: PolynomialGroupLayout) -> (r: Self)
        ensures
            r.final_group == final_group,
            r.precommitteds@ == Seq::<GroupCommitPhaseParams>::empty(),
    {
        AkitaScheduleLookupKey { final_group, precommitteds: Vec::new() }
    }
}

/// A witness is chunked at the activated levels, which come first, and whole at
/// the levels behind them; one that is not chunked is whole at every level.
pub proof fn law_leading_levels_are_chunked(cfg: ChunkedWitnessCfg, level: int)
    requires
        level >= 0,
    ensures
        level < cfg.num_activated_levels ==> cfg.chunks_at(level) == cfg.num_chunks,
        level >= cfg.num_activated_levels ==> cfg.chunks_at(level) == 1,
        ChunkedWitnessCfg::non_chunked().chunks_at(level) == 1,
{
}

/// Slice counts are the powers of two up to eight, each its own.
pub proof fn law_slice_counts_are_dyadic(slices: CommitmentSliceCount, n: int)
    ensures
        CommitmentSliceCount::of_count(slices.count()) == Some(slices),
        CommitmentSliceCount::of_count(n) is Some <==> exists|k: nat|
            k <= 3 && n == #[trigger] vstd::arithmetic::power2::pow2(k),
        CommitmentSliceCount::of_count(n) is Some ==> CommitmentSliceCount::of_count(n)->0.count()
            == n,
{
    vstd::arithmetic::power2::lemma2_to64();
    assert(vstd::arithmetic::power2::pow2(0) == 1);
    assert(vstd::arithmetic::power2::pow2(1) == 2);
    assert(vstd::arithmetic::power2::pow2(2) == 4);
    assert(vstd::arithmetic::power2::pow2(3) == 8);
}

/// A field is as wide as openings are bounded, where they have a bound of their
/// own, and otherwise as commitments are.
pub proof fn law_openings_bound_the_field(d: DecompositionParams)
    ensures
        d.log_open_bound is Some ==> Some(d.field_bits_spec()) == d.log_open_bound,
        d.log_open_bound is None ==> d.field_bits_spec() == d.log_commit_bound,
{
}

} // verus!
