//! Expansion of compact schedule steps into full parameters.
//!
//! Rows store what the planner chose, including every fold digit depth.
//! Expansion derives the digit depths of commitments, the widths of matrices,
//! the norm bounds and the least secure ranks, and refuses a row that does not
//! fit together. It runs on rows a verifier was handed, so every refusal is an
//! error and none a panic.

use crate::checked;
use crate::checked::{checked_pow2, div_ceil, is_power_of_two, trailing_zeros};
use crate::error;
use crate::error::{message, AkitaError, ErrorModel};
use crate::generated::{
    GeneratedFrozenGroup, GeneratedGroup, GeneratedMatrix, GeneratedSetupPrefix,
    GeneratedTerminalFold,
};
use crate::params;
use crate::params::{
    BlockGeometry, ChunkedWitnessCfg, CommitmentPayloadMode, CommitmentRingDims,
    CommitmentSliceCount, DecompositionParams, GadgetDigits, GroupCommitPhaseParams,
    GroupOpenPhaseParams, GroupOpeningPlan, InnerCommitMatrixParams, InnerCommitSecurityRoute,
    InnerRole, OpenCommitMatrixParams, OpeningMethod, OuterCommitMatrixParams, OuterRole,
    PlannerPolicy, PolynomialGroupLayout, RingRelationMode, SisMatrixRole, SisModulusProfileId,
    SisTableKey, SparseChallengeConfig, GROUP_COMMIT_PHASE_VERSION,
};
use crate::rules::{
    AdmissionRequest, CollisionNormRequest, CommittedGroupModel, CommittedGroupParams,
    ExpansionQuestion, OpeningWidthRequest, ParameterRules, ResponseNormRequest,
    SelectiveL2Request, SisContext, SliceWidthRequest, SourceEncodingRequest, TerminalFoldParams,
};
use crate::text;
use crate::text::{push_decimal, push_text};
use vstd::arithmetic::power2::*;
use vstd::prelude::*;

verus! {

// ---------------------------------------------------------------------------
// Inputs
// ---------------------------------------------------------------------------

/// Where the live length of a group comes from.
pub enum GroupLengthSource {
    /// From the witness that arrives at the level; it may end in a partial
    /// ring element.
    IncomingWitness {
        input_witness_len: usize,
        num_claims: usize,
        setup_prefix: Option<GeneratedSetupPrefix>,
    },
    /// From the geometry of a grouped root, whose opening matrix carries the
    /// segments of the precommitted groups beside its own.
    PinnedGrouped { num_claims: usize, precommitted_groups: Vec<GroupOpenPhaseParams> },
}

/// The contents of [`GroupLengthSource`].
pub enum LengthModel {
    Incoming { len: usize, num_claims: usize, prefix: Option<GeneratedSetupPrefix> },
    Pinned { num_claims: usize, groups: Seq<GroupOpenPhaseParams> },
}

impl GroupLengthSource {
    /// The contents.
    pub open spec fn view(self) -> LengthModel {
        match self {
            GroupLengthSource::IncomingWitness { input_witness_len, num_claims, setup_prefix } =>
                LengthModel::Incoming { len: input_witness_len, num_claims, prefix: setup_prefix },
            GroupLengthSource::PinnedGrouped { num_claims, precommitted_groups } =>
                LengthModel::Pinned { num_claims, groups: precommitted_groups@ },
        }
    }

    /// The number of claims that are batched.
    pub fn num_claims(&self) -> (n: usize)
        ensures
            n == self@.claims(),
    {
        match self {
            GroupLengthSource::IncomingWitness { num_claims, .. } => *num_claims,
            GroupLengthSource::PinnedGrouped { num_claims, .. } => *num_claims,
        }
    }
}

impl LengthModel {
    /// The number of claims that are batched.
    pub open spec fn claims(self) -> usize {
        match self {
            LengthModel::Incoming { num_claims, .. } => num_claims,
            LengthModel::Pinned { num_claims, .. } => num_claims,
        }
    }
}

/// Where a fold stands in the schedule.
#[derive(Clone, Copy, Debug, PartialEq, Eq, Structural)]
pub enum GeneratedFoldExpansionRole {
    Root { num_digits_inner: u32 },
    Recursive { fold_level: usize, response_l2_sq_cap: Option<u128> },
}

/// What a fold hands to the expansion of its group.
pub struct GeneratedGroupExpansion {
    pub role: GeneratedFoldExpansionRole,
    pub payload_mode: CommitmentPayloadMode,
    pub ring_relation_mode: RingRelationMode,
    pub open_commit_matrix: GeneratedMatrix,
    pub group: PolynomialGroupLayout,
    pub source: GroupLengthSource,
}

// ---------------------------------------------------------------------------
// What expansion derives
// ---------------------------------------------------------------------------

/// The rank table of a policy.
pub open spec fn policy_context(policy: PlannerPolicy) -> SisContext {
    SisContext {
        policy: policy.sis_security_policy,
        table_digest: policy.sis_table_digest,
        modulus_profile: policy.sis_modulus_profile,
    }
}

/// The rank-table key of a matrix under a policy.
pub open spec fn policy_key(
    policy: PlannerPolicy,
    role: SisMatrixRole,
    ring_dimension: u32,
    coeff_linf_bound: u128,
) -> SisTableKey {
    SisTableKey {
        policy: policy.sis_security_policy,
        table_digest: policy.sis_table_digest,
        modulus_profile: policy.sis_modulus_profile,
        role,
        ring_dimension,
        coeff_linf_bound,
    }
}

/// The dimension whose challenges open a frozen group.
pub open spec fn challenge_dimension(g: GeneratedFrozenGroup) -> usize {
    match g.opening_method {
        OpeningMethod::EvaluationTrace => g.profile.inner.matrix.ring_dimension as usize,
        OpeningMethod::SubringCoefficientPacking { challenge_subring_dimension } =>
            challenge_subring_dimension,
    }
}

/// The admission that a frozen group asks for.
pub open spec fn frozen_request(
    policy: PlannerPolicy,
    g: GeneratedFrozenGroup,
    natural_len: Option<usize>,
    challenge: SparseChallengeConfig,
    log_basis_open: u32,
    chunks: usize,
) -> AdmissionRequest {
    AdmissionRequest {
        profile: g.profile,
        setup_natural_len: natural_len,
        num_digits_fold: g.num_digits_fold as usize,
        context: policy_context(policy),
        decomposition: policy.decomposition,
        num_response_chunks: chunks,
        opening_method: g.opening_method,
        challenge,
        log_basis_open,
    }
}

/// The opening of a frozen group, if it is admitted. A setup prefix has to
/// cover something.
pub open spec fn frozen_opening<R: ParameterRules>(
    rules: R,
    policy: PlannerPolicy,
    g: GeneratedFrozenGroup,
    natural_len: Option<usize>,
    log_basis_open: u32,
    chunks: usize,
) -> Option<GroupOpenPhaseParams> {
    match rules.challenge_of(challenge_dimension(g)) {
        Some(challenge) => if natural_len == Some(0usize) {
            None
        } else {
            rules.admission_of(
                frozen_request(policy, g, natural_len, challenge, log_basis_open, chunks),
            )
        },
        None => None,
    }
}

/// Why a frozen group is refused that has no opening.
pub open spec fn frozen_refusal<R: ParameterRules>(
    rules: R,
    policy: PlannerPolicy,
    g: GeneratedFrozenGroup,
    natural_len: Option<usize>,
    log_basis_open: u32,
    chunks: usize,
) -> Option<ErrorModel> {
    match rules.challenge_of(challenge_dimension(g)) {
        Some(challenge) => {
            let request = frozen_request(
                policy,
                g,
                natural_len,
                challenge,
                log_basis_open,
                chunks,
            );
            if rules.admission_of(request) is None {
                rules.refusal_of(ExpansionQuestion::Admission(request))
            } else {
                error::setup_refusal("setup prefix has no natural length"@)
            }
        },
        None => rules.refusal_of(ExpansionQuestion::Challenge(challenge_dimension(g))),
    }
}

/// A frozen group is opened with its own profile, method and fold digits, in the
/// basis of the fold that consumes it.
pub proof fn law_frozen_openings_keep_the_row<R: ParameterRules>(
    rules: R,
    policy: PlannerPolicy,
    g: GeneratedFrozenGroup,
    natural_len: Option<usize>,
    log_basis_open: u32,
    chunks: usize,
)
    ensures
        frozen_opening(rules, policy, g, natural_len, log_basis_open, chunks) matches Some(opening)
            ==> keeps_row(opening, g, log_basis_open),
{
    if let Some(challenge) = rules.challenge_of(challenge_dimension(g)) {
        rules.law_admission_carries_its_request(
            frozen_request(policy, g, natural_len, challenge, log_basis_open, chunks),
        );
    }
}

/// A setup prefix is opened as its group is, over its natural length.
pub proof fn law_prefix_openings_keep_the_row<R: ParameterRules>(
    rules: R,
    policy: PlannerPolicy,
    p: GeneratedSetupPrefix,
    log_basis_open: u32,
    chunks: usize,
)
    ensures
        prefix_opening(rules, policy, p, log_basis_open, chunks) matches Some(opening)
            ==> keeps_row(opening, p.group, log_basis_open) && opening.setup_natural_len == Some(
            p.natural_len as usize,
        ),
{
    law_frozen_openings_keep_the_row(
        rules,
        policy,
        p.group,
        Some(p.natural_len as usize),
        log_basis_open,
        chunks,
    );
}

/// Whether an opening has the profile, the method and the fold digits of a row,
/// in a basis.
pub open spec fn keeps_row(
    opening: GroupOpenPhaseParams,
    g: GeneratedFrozenGroup,
    log_basis_open: u32,
) -> bool {
    &&& opening.profile == g.profile
    &&& opening.opening.opening_method == g.opening_method
    &&& opening.opening.num_digits_fold == g.num_digits_fold
    &&& opening.opening.log_basis_open == log_basis_open
}

/// The opening of a setup prefix, if it is admitted and fits its domain.
pub open spec fn prefix_opening<R: ParameterRules>(
    rules: R,
    policy: PlannerPolicy,
    p: GeneratedSetupPrefix,
    log_basis_open: u32,
    chunks: usize,
) -> Option<GroupOpenPhaseParams> {
    if p.natural_len > usize::MAX {
        None
    } else {
        let natural_len = p.natural_len as usize;
        match frozen_opening(rules, policy, p.group, Some(natural_len), log_basis_open, chunks) {
            Some(opening) => {
                let padded = pow2(opening.profile.group.num_vars as nat);
                if padded <= usize::MAX && rules.prefix_domain_allowed(
                    natural_len,
                    padded as usize,
                ) {
                    Some(
                        GroupOpenPhaseParams {
                            profile: opening.profile,
                            opening: opening.opening,
                            setup_natural_len: Some(natural_len),
                        },
                    )
                } else {
                    None
                }
            },
            None => None,
        }
    }
}

/// Why a setup prefix is refused that has no opening.
pub open spec fn prefix_refusal<R: ParameterRules>(
    rules: R,
    policy: PlannerPolicy,
    p: GeneratedSetupPrefix,
    log_basis_open: u32,
    chunks: usize,
) -> Option<ErrorModel> {
    if p.natural_len > usize::MAX {
        error::setup_refusal(count_text("setup-prefix natural length"@))
    } else {
        let natural_len = p.natural_len as usize;
        match frozen_opening(rules, policy, p.group, Some(natural_len), log_basis_open, chunks) {
            Some(opening) => {
                let padded = pow2(opening.profile.group.num_vars as nat);
                if padded > usize::MAX {
                    error::setup_refusal("generated setup-prefix length overflow"@)
                } else {
                    rules.refusal_of(
                        ExpansionQuestion::PrefixDomain {
                            natural_len,
                            padded_len: padded as usize,
                        },
                    )
                }
            },
            None => frozen_refusal(
                rules,
                policy,
                p.group,
                Some(natural_len),
                log_basis_open,
                chunks,
            ),
        }
    }
}

/// The total width of the segments of several groups, if each has one.
pub open spec fn groups_width<R: ParameterRules>(
    rules: R,
    groups: Seq<GroupOpenPhaseParams>,
    claim_ext_degree: usize,
    d_d: usize,
) -> Option<int>
    decreases groups.len(),
{
    if groups.len() == 0 {
        Some(0)
    } else {
        match (
            groups_width(rules, groups.drop_last(), claim_ext_degree, d_d),
            rules.group_width_of(groups.last(), claim_ext_degree, d_d),
        ) {
            (Some(total), Some(width)) => Some(total + width),
            _ => None,
        }
    }
}

/// Why the segments of the first `n` of several groups are refused: one of them
/// has no width, or they are too wide together.
pub open spec fn groups_refusal<R: ParameterRules>(
    rules: R,
    groups: Seq<GroupOpenPhaseParams>,
    claim_ext_degree: usize,
    d_d: usize,
    n: nat,
) -> Option<ErrorModel>
    decreases n,
{
    if n == 0 {
        None
    } else {
        match groups_refusal(rules, groups, claim_ext_degree, d_d, (n - 1) as nat) {
            Some(e) => Some(e),
            None => {
                let group = groups[n - 1];
                if rules.group_width_of(group, claim_ext_degree, d_d) is None {
                    rules.refusal_of(
                        ExpansionQuestion::GroupWidth { group, claim_ext_degree, d_d },
                    )
                } else if groups_width(
                    rules,
                    groups.take(n as int),
                    claim_ext_degree,
                    d_d,
                )->0 > usize::MAX {
                    error::setup_refusal("generated multi-group D width overflow"@)
                } else {
                    None
                }
            },
        }
    }
}

/// What a row is refused with whose `blocks` blocks of `positions` places are
/// not the `derived` ones that `live` elements take.
pub open spec fn block_mismatch_text(blocks: nat, live: nat, positions: nat, derived: nat) -> Seq<
    char,
> {
    "generated schedule num_live_blocks="@ + text::decimal(blocks) + " does not match ceil(N="@
        + text::decimal(live) + " / M="@ + text::decimal(positions) + ")="@ + text::decimal(derived)
}

/// The question of how one group expands. The quantities of the expansion are
/// functions of it, each in terms of the ones before; where one of them does
/// not exist, the group is refused.
pub struct Derivation<R> {
    pub rules: R,
    pub policy: PlannerPolicy,
    pub group: GeneratedGroup,
    pub role: GeneratedFoldExpansionRole,
    pub payload_mode: CommitmentPayloadMode,
    pub ring_relation_mode: RingRelationMode,
    pub open: GeneratedMatrix,
    pub layout: PolynomialGroupLayout,
    pub source: LengthModel,
}

impl<R: ParameterRules> Derivation<R> {
    pub open spec fn level(self) -> usize {
        match self.role {
            GeneratedFoldExpansionRole::Root { .. } => 0,
            GeneratedFoldExpansionRole::Recursive { fold_level, .. } => fold_level,
        }
    }

    pub open spec fn cap(self) -> Option<u128> {
        match self.role {
            GeneratedFoldExpansionRole::Root { .. } => None,
            GeneratedFoldExpansionRole::Recursive { response_l2_sq_cap, .. } => response_l2_sq_cap,
        }
    }

    pub open spec fn dims(self) -> CommitmentRingDims {
        CommitmentRingDims {
            inner: self.group.inner_commit_matrix.ring_dimension as usize,
            outer: self.group.outer_commit_matrix.ring_dimension as usize,
            opening: self.open.ring_dimension as usize,
        }
    }

    pub open spec fn chunks(self) -> usize {
        self.policy.witness_chunk.chunks_at(self.level() as int) as usize
    }

    pub open spec fn slices(self) -> Option<CommitmentSliceCount> {
        CommitmentSliceCount::of_count(self.group.outer_slice_count as int)
    }

    /// The live ring elements of one claim.
    pub open spec fn live(self) -> int {
        match self.source {
            LengthModel::Incoming { len, .. } => checked::ceil_div(
                len as int,
                self.dims().inner as int,
            ),
            LengthModel::Pinned { .. } => self.group.geometry.live_blocks
                * self.group.geometry.positions_per_block,
        }
    }

    /// The number of variables of the witness's producer.
    pub open spec fn producer_vars(self) -> nat {
        match self.source {
            LengthModel::Incoming { len, .. } => checked::two_adic(len as nat),
            LengthModel::Pinned { .. } => {
                let len = self.group.geometry.live_ring_elements_per_claim * self.dims().inner;
                if 0 < len <= usize::MAX && is_pow2(len) {
                    checked::two_adic(len as nat)
                } else {
                    0
                }
            },
        }
    }

    /// Why the geometry of a row with an admitted shape is refused: its blocks
    /// have no Boolean domain, or they do not hold the live elements.
    pub open spec fn geometry_refusal(self) -> Option<Seq<char>> {
        let blocks = self.group.geometry.live_blocks;
        let positions = self.group.geometry.positions_per_block;
        if !(0 < blocks <= usize::MAX / 2 + 1) {
            Some("generated schedule exact live block count disagrees with block_index_bits"@)
        } else {
            match self.source {
                LengthModel::Incoming { len, .. } => if len == 0 {
                    Some("witness length must be nonzero"@)
                } else if positions == 0 {
                    Some("block length must be nonzero"@)
                } else if checked::ceil_div(self.live(), positions as int) != blocks {
                    Some(
                        block_mismatch_text(
                            blocks as nat,
                            self.live() as nat,
                            positions as nat,
                            checked::ceil_div(self.live(), positions as int) as nat,
                        ),
                    )
                } else {
                    None
                },
                LengthModel::Pinned { .. } => if self.live() > usize::MAX {
                    Some("generated root group length overflow"@)
                } else {
                    None
                },
            }
        }
    }

    /// Whether the blocks hold the live elements.
    pub open spec fn length_fits(self) -> bool {
        let blocks = self.group.geometry.live_blocks as int;
        let positions = self.group.geometry.positions_per_block as int;
        match self.source {
            LengthModel::Incoming { len, .. } => len > 0 && positions > 0 && checked::ceil_div(
                self.live(),
                positions,
            ) == blocks,
            LengthModel::Pinned { .. } => self.live() <= usize::MAX,
        }
    }

    pub open spec fn challenge(self) -> Option<SparseChallengeConfig> {
        let d = self.dims().inner;
        match self.group.opening_method {
            OpeningMethod::SubringCoefficientPacking { challenge_subring_dimension } =>
                self.rules.packing_challenge_of(challenge_subring_dimension),
            OpeningMethod::EvaluationTrace => match self.rules.challenge_of(d) {
                Some(plain) => if self.cap() is Some {
                    match self.rules.l2_challenge_of(d) {
                        Some(certified) => Some(certified),
                        None => Some(plain),
                    }
                } else {
                    Some(plain)
                },
                None => None,
            },
        }
    }

    pub open spec fn inner_digits(self) -> usize {
        let bits = self.policy.decomposition.field_bits_spec();
        match self.role {
            GeneratedFoldExpansionRole::Root { num_digits_inner } => num_digits_inner as usize,
            GeneratedFoldExpansionRole::Recursive { .. } => self.rules.inner_digits_of(
                DecompositionParams {
                    log_basis: self.group.inner_commit_matrix.log_basis,
                    log_commit_bound: bits,
                    log_open_bound: Some(bits),
                },
                self.level() == 0,
            ),
        }
    }

    /// The number of digits of an opening in a basis.
    pub open spec fn open_digits(self, log_basis: u32) -> usize {
        self.rules.open_digits_of(
            DecompositionParams {
                log_basis,
                log_commit_bound: self.policy.decomposition.log_commit_bound,
                log_open_bound: self.policy.decomposition.log_open_bound,
            },
        )
    }

    pub open spec fn inner_width(self) -> Option<usize> {
        self.rules.block_width_of(self.group.geometry.positions_per_block, self.inner_digits())
    }

    pub open spec fn inner_norm(self) -> Option<u128> {
        self.rules.response_norm_of(
            ResponseNormRequest {
                context: policy_context(self.policy),
                ring_dimension: self.dims().inner,
                log_basis_open: self.open.log_basis,
                challenge: self.challenge()->0,
                num_digits_fold: self.group.num_digits_fold as usize,
                num_chunks: self.chunks(),
            },
        )
    }

    pub open spec fn inner_key(self) -> SisTableKey {
        policy_key(
            self.policy,
            SisMatrixRole::Inner,
            self.group.inner_commit_matrix.ring_dimension,
            self.inner_norm()->0,
        )
    }

    pub open spec fn inner_rank(self) -> Option<usize> {
        self.rules.secure_rank_of(self.inner_key(), self.inner_width()->0)
    }

    pub open spec fn l2_request(self, cap: u128) -> SelectiveL2Request {
        SelectiveL2Request {
            fold_level: self.level(),
            num_claims: self.source.claims(),
            num_chunks: self.chunks(),
            inner_width: self.inner_width()->0,
            ring_dimension: self.dims().inner,
            fold_basis: pow2(self.open.log_basis as nat) as usize,
            fold_digit_count: self.group.num_digits_fold as usize,
            challenge: self.challenge()->0,
            response_l2_sq_cap: cap,
            direct_response_len: None,
        }
    }

    /// The inner matrix: the one of the response model where a Euclidean cap is
    /// asked for and the model has that very cap, else the audited one.
    pub open spec fn inner_matrix(self) -> Option<InnerCommitMatrixParams> {
        match self.cap() {
            Some(cap) => if pow2(self.open.log_basis as nat) > usize::MAX {
                None
            } else {
                match self.rules.l2_matrix_of(self.l2_request(cap)) {
                    Some(matrix) => if matrix.l2_cap() == Some(cap) {
                        Some(matrix)
                    } else {
                        None
                    },
                    None => None,
                }
            },
            None => if self.rules.rank_audited(
                self.inner_key(),
                self.inner_rank()->0,
                self.inner_width()->0,
            ) {
                Some(
                    InnerCommitMatrixParams {
                        output_rank: self.inner_rank()->0,
                        input_width: self.inner_width()->0,
                        ring_dimension: self.group.inner_commit_matrix.ring_dimension,
                        route: InnerCommitSecurityRoute::Linf(self.inner_key()),
                    },
                )
            } else {
                None
            },
        }
    }

    pub open spec fn outer_norm(self) -> Option<u128> {
        self.rules.collision_norm_of(
            CollisionNormRequest {
                context: policy_context(self.policy),
                role: SisMatrixRole::Outer,
                ring_dimension: self.dims().outer,
                log_basis: self.group.outer_commit_matrix.log_basis,
            },
        )
    }

    pub open spec fn slice_request(self) -> SliceWidthRequest {
        SliceWidthRequest {
            slice_count: self.slices()->0,
            live_blocks: self.group.geometry.live_blocks,
            num_claims: self.source.claims(),
            inner_rank: (self.inner_matrix()->0).output_rank,
            num_digits_outer: self.open_digits(self.group.outer_commit_matrix.log_basis),
            d_a: self.dims().inner,
            d_b: self.dims().outer,
        }
    }

    pub open spec fn outer_width(self) -> Option<usize> {
        self.rules.slice_width_of(self.slice_request())
    }

    pub open spec fn open_norm(self) -> Option<u128> {
        self.rules.collision_norm_of(
            CollisionNormRequest {
                context: policy_context(self.policy),
                role: SisMatrixRole::Open,
                ring_dimension: self.dims().opening,
                log_basis: self.open.log_basis,
            },
        )
    }

    pub open spec fn width_request(self) -> OpeningWidthRequest {
        OpeningWidthRequest {
            opening_method: self.group.opening_method,
            claim_ext_degree: self.policy.claim_ext_degree,
            d_a: self.dims().inner,
            d_d: self.dims().opening,
            num_digits_open: self.open_digits(self.open.log_basis),
            live_blocks: self.group.geometry.live_blocks,
            num_claims: self.source.claims(),
        }
    }

    /// The width of the fold's own segment of the opening matrix.
    pub open spec fn own_width(self) -> Option<usize> {
        self.rules.opening_width_of(self.width_request())
    }

    /// The opening of the setup prefix; the outer option says whether the
    /// group can be expanded, the inner one whether there is a prefix.
    pub open spec fn prefix(self) -> Option<Option<GroupOpenPhaseParams>> {
        match self.source {
            LengthModel::Incoming { prefix, .. } => match prefix {
                Some(p) => match prefix_opening(
                    self.rules,
                    self.policy,
                    p,
                    self.open.log_basis,
                    self.chunks(),
                ) {
                    Some(opening) => Some(Some(opening)),
                    None => None,
                },
                None => Some(None),
            },
            LengthModel::Pinned { .. } => Some(None),
        }
    }

    pub open spec fn precommitted(self) -> Seq<GroupOpenPhaseParams> {
        match self.source {
            LengthModel::Incoming { .. } => Seq::empty(),
            LengthModel::Pinned { groups, .. } => groups,
        }
    }

    /// The width of the segments of the other groups.
    pub open spec fn others_width(self) -> Option<int> {
        match self.source {
            LengthModel::Incoming { .. } => match self.prefix() {
                Some(Some(opening)) => match self.rules.group_width_of(
                    opening,
                    self.policy.claim_ext_degree,
                    self.dims().opening,
                ) {
                    Some(width) => Some(width as int),
                    None => None,
                },
                Some(None) => Some(0),
                None => None,
            },
            LengthModel::Pinned { groups, .. } => if groups.len() == 0 {
                None
            } else {
                groups_width(
                    self.rules,
                    groups,
                    self.policy.claim_ext_degree,
                    self.dims().opening,
                )
            },
        }
    }

    pub open spec fn open_width(self) -> int {
        self.own_width()->0 + self.others_width()->0
    }

    pub open spec fn outer_key(self) -> SisTableKey {
        policy_key(
            self.policy,
            SisMatrixRole::Outer,
            self.group.outer_commit_matrix.ring_dimension,
            self.outer_norm()->0,
        )
    }

    pub open spec fn outer_rank(self) -> Option<usize> {
        self.rules.secure_rank_of(self.outer_key(), self.outer_width()->0)
    }

    pub open spec fn open_key(self) -> SisTableKey {
        policy_key(
            self.policy,
            SisMatrixRole::Open,
            self.open.ring_dimension,
            self.open_norm()->0,
        )
    }

    pub open spec fn open_rank(self) -> Option<usize> {
        self.rules.secure_rank_of(self.open_key(), self.open_width() as usize)
    }

    /// The expanded parameters.
    pub open spec fn params(self) -> CommittedGroupModel {
        CommittedGroupModel {
            setup_prefix: self.prefix()->0,
            precommitted_groups: self.precommitted(),
            own: GroupOpenPhaseParams {
                profile: GroupCommitPhaseParams {
                    version: GROUP_COMMIT_PHASE_VERSION,
                    group: self.layout,
                    blocks: BlockGeometry {
                        live_ring_elements_per_claim: self.live() as usize,
                        positions_per_block: self.group.geometry.positions_per_block,
                        live_blocks: self.group.geometry.live_blocks,
                    },
                    outer_slice_count: self.slices()->0,
                    inner: InnerRole {
                        digits: GadgetDigits {
                            log_basis: self.group.inner_commit_matrix.log_basis,
                            num_digits: self.inner_digits(),
                        },
                        matrix: self.inner_matrix()->0,
                    },
                    outer: OuterRole {
                        digits: GadgetDigits {
                            log_basis: self.group.outer_commit_matrix.log_basis,
                            num_digits: self.open_digits(self.group.outer_commit_matrix.log_basis),
                        },
                        matrix: OuterCommitMatrixParams {
                            output_rank: self.outer_rank()->0,
                            input_width: self.outer_width()->0,
                            key: self.outer_key(),
                        },
                    },
                },
                opening: GroupOpeningPlan {
                    opening_method: self.group.opening_method,
                    fold_challenge_config: self.challenge()->0,
                    log_basis_open: self.open.log_basis,
                    num_digits_open: self.open_digits(self.open.log_basis),
                    num_digits_fold: self.group.num_digits_fold as usize,
                },
                setup_natural_len: None,
            },
            open_matrix: OpenCommitMatrixParams {
                output_rank: self.open_rank()->0,
                input_width: self.open_width() as usize,
                key: self.open_key(),
            },
            payload_mode: self.payload_mode,
            ring_relation_mode: self.ring_relation_mode,
            source_encoding: self.rules.source_encoding_of(
                SourceEncodingRequest {
                    opening_method: self.group.opening_method,
                    claim_ext_degree: self.policy.claim_ext_degree,
                    ring_dimension: self.dims().inner,
                    num_vars: self.producer_vars() as usize,
                    is_root: self.level() == 0,
                },
            ),
            witness_chunk: ChunkedWitnessCfg::non_chunked(),
        }
    }

    /// Whether the choices of the row fit its place and its matrices have
    /// their inner side.
    pub open spec fn inner_admitted(self) -> bool {
        let blocks = self.group.geometry.live_blocks;
        &&& self.rules.dims_allowed(self.dims())
        &&& self.dims().inner > 0
        &&& self.slices() matches Some(slices) && self.rules.slices_allowed(
            slices,
            self.level(),
            self.payload_mode,
            blocks,
        )
        &&& 0 < blocks <= usize::MAX / 2 + 1
        &&& self.length_fits()
        &&& self.challenge() is Some
        &&& self.inner_width() is Some
        &&& self.group.num_digits_fold != 0
        &&& self.inner_norm() is Some
        &&& self.inner_rank() is Some
        &&& self.inner_matrix() is Some
    }

    /// Whether the widths and ranks of the outer and opening matrices exist.
    pub open spec fn outer_admitted(self) -> bool {
        &&& self.outer_norm() is Some
        &&& self.outer_width() is Some
        &&& self.open_norm() is Some
        &&& self.own_width() is Some
        &&& self.others_width() is Some
        &&& self.open_width() <= usize::MAX
        &&& self.outer_rank() is Some
        &&& self.open_rank() is Some
        &&& self.rules.rank_audited(
            self.open_key(),
            self.open_rank()->0,
            self.open_width() as usize,
        )
        &&& self.rules.rank_audited(self.outer_key(), self.outer_rank()->0, self.outer_width()->0)
        &&& self.rules.params_allowed(self.params())
    }

    /// Whether the group is expanded.
    pub open spec fn admitted(self) -> bool {
        self.inner_admitted() && self.outer_admitted()
    }

    /// What a fold is refused with that has no layout for a role.
    pub open spec fn layout_refusal(self, role: Seq<char>) -> Option<ErrorModel> {
        error::setup_refusal(
            layout_text(
                role,
                self.policy.sis_modulus_profile,
                self.dims(),
                self.group.inner_commit_matrix.log_basis,
                self.group.outer_commit_matrix.log_basis,
                self.open.log_basis,
            ),
        )
    }

    /// Why the dimensions, the slices or the geometry of the row are refused.
    pub open spec fn shape_refusal(self) -> Option<ErrorModel> {
        if !self.rules.dims_allowed(self.dims()) {
            self.rules.refusal_of(ExpansionQuestion::Dims(self.dims()))
        } else if self.dims().inner == 0 {
            error::setup_refusal("generated role dimensions are invalid"@)
        } else {
            match self.slices() {
                None => error::setup_refusal(params::slice_count_text()),
                Some(slices) => if !self.rules.slices_allowed(
                    slices,
                    self.level(),
                    self.payload_mode,
                    self.group.geometry.live_blocks,
                ) {
                    self.rules.refusal_of(
                        ExpansionQuestion::Slices {
                            slices,
                            fold_level: self.level(),
                            payload_mode: self.payload_mode,
                            live_blocks: self.group.geometry.live_blocks,
                        },
                    )
                } else {
                    match self.geometry_refusal() {
                        Some(text) => error::setup_refusal(text),
                        None => None,
                    }
                },
            }
        }
    }

    /// Why a fold without a challenge family is refused.
    pub open spec fn challenge_refusal(self) -> Option<ErrorModel> {
        match self.group.opening_method {
            OpeningMethod::SubringCoefficientPacking { .. } => self.layout_refusal("A"@),
            OpeningMethod::EvaluationTrace => self.rules.refusal_of(
                ExpansionQuestion::Challenge(self.dims().inner),
            ),
        }
    }

    /// Why a fold without an inner matrix is refused.
    pub open spec fn matrix_refusal(self) -> Option<ErrorModel> {
        if self.inner_norm() is None {
            self.layout_refusal("A"@)
        } else if self.inner_rank() is None {
            error::setup_refusal(rank_text("a"@, self.inner_key(), self.inner_width()->0 as nat))
        } else {
            match self.cap() {
                Some(cap) => if pow2(self.open.log_basis as nat) > usize::MAX {
                    error::setup_refusal("generated L2 basis overflow"@)
                } else {
                    match self.rules.l2_matrix_of(self.l2_request(cap)) {
                        Some(matrix) => error::setup_refusal(
                            "generated L2 cap disagrees with canonical candidate policy"@,
                        ),
                        None => match self.rules.refusal_of(
                            ExpansionQuestion::L2Matrix(self.l2_request(cap)),
                        ) {
                            Some(e) => Some(e),
                            None => error::setup_refusal(
                                "generated L2 route is not admitted by the calibrated response model"@,
                            ),
                        },
                    }
                },
                None => self.rules.refusal_of(
                    ExpansionQuestion::Audit {
                        key: self.inner_key(),
                        rank: self.inner_rank()->0,
                        width: self.inner_width()->0,
                    },
                ),
            }
        }
    }

    /// Why the inner side of a group is refused.
    pub open spec fn inner_refusal(self) -> Option<ErrorModel> {
        if self.shape_refusal() is Some {
            self.shape_refusal()
        } else if self.challenge() is None {
            self.challenge_refusal()
        } else if self.inner_width() is None {
            self.layout_refusal("A"@)
        } else if self.group.num_digits_fold == 0 {
            error::setup_refusal("generated fold digit depth must be nonzero"@)
        } else {
            self.matrix_refusal()
        }
    }

    /// Why the other groups of a fold are refused.
    pub open spec fn others_refusal(self) -> Option<ErrorModel> {
        match self.source {
            LengthModel::Incoming { prefix, .. } => match self.prefix() {
                Some(opening) => self.rules.refusal_of(
                    ExpansionQuestion::GroupWidth {
                        group: opening->0,
                        claim_ext_degree: self.policy.claim_ext_degree,
                        d_d: self.dims().opening,
                    },
                ),
                None => prefix_refusal(
                    self.rules,
                    self.policy,
                    prefix->0,
                    self.open.log_basis,
                    self.chunks(),
                ),
            },
            LengthModel::Pinned { groups, .. } => if groups.len() == 0 {
                error::setup_refusal("generated multi-group root requires precommitted groups"@)
            } else {
                groups_refusal(
                    self.rules,
                    groups,
                    self.policy.claim_ext_degree,
                    self.dims().opening,
                    groups.len(),
                )
            },
        }
    }

    /// Why the outer side of a group is refused whose inner side is admitted.
    pub open spec fn outer_refusal(self) -> Option<ErrorModel> {
        if self.outer_norm() is None {
            self.layout_refusal("B"@)
        } else if self.outer_width() is None {
            self.rules.refusal_of(ExpansionQuestion::SliceWidth(self.slice_request()))
        } else if self.open_norm() is None {
            self.layout_refusal("D"@)
        } else if self.own_width() is None {
            self.rules.refusal_of(ExpansionQuestion::OpeningWidth(self.width_request()))
        } else if self.others_width() is None || self.others_width()->0 > usize::MAX {
            self.others_refusal()
        } else if self.open_width() > usize::MAX {
            error::setup_refusal("generated D width overflow"@)
        } else if self.outer_rank() is None {
            error::setup_refusal(rank_text("b"@, self.outer_key(), self.outer_width()->0 as nat))
        } else if self.open_rank() is None {
            error::setup_refusal(rank_text("d"@, self.open_key(), self.open_width() as nat))
        } else if !self.rules.rank_audited(
            self.open_key(),
            self.open_rank()->0,
            self.open_width() as usize,
        ) {
            self.rules.refusal_of(
                ExpansionQuestion::Audit {
                    key: self.open_key(),
                    rank: self.open_rank()->0,
                    width: self.open_width() as usize,
                },
            )
        } else if !self.rules.rank_audited(
            self.outer_key(),
            self.outer_rank()->0,
            self.outer_width()->0,
        ) {
            self.rules.refusal_of(
                ExpansionQuestion::Audit {
                    key: self.outer_key(),
                    rank: self.outer_rank()->0,
                    width: self.outer_width()->0,
                },
            )
        } else {
            self.rules.refusal_of(ExpansionQuestion::Params(self.params()))
        }
    }

    /// Why a group is refused that is not expanded: the first of its quantities
    /// that does not exist says so, with the error of the rules where they
    /// refuse it themselves.
    pub open spec fn refusal(self) -> Option<ErrorModel> {
        if self.inner_admitted() {
            self.outer_refusal()
        } else {
            self.inner_refusal()
        }
    }
}

/// The derivation that an expansion carries out.
pub open spec fn derivation<R: ParameterRules>(
    rules: R,
    policy: PlannerPolicy,
    group: GeneratedGroup,
    e: GeneratedGroupExpansion,
) -> Derivation<R> {
    Derivation {
        rules,
        policy,
        group,
        role: e.role,
        payload_mode: e.payload_mode,
        ring_relation_mode: e.ring_relation_mode,
        open: e.open_commit_matrix,
        layout: e.group,
        source: e.source@,
    }
}

// ---------------------------------------------------------------------------
// Executable functions
// ---------------------------------------------------------------------------

/// The rank-table key of a matrix under a policy.
pub fn sis_key(
    policy: &PlannerPolicy,
    role: SisMatrixRole,
    ring_dimension: u32,
    coeff_linf_bound: u128,
) -> (r: SisTableKey)
    ensures
        r == policy_key(*policy, role, ring_dimension, coeff_linf_bound),
{
    SisTableKey {
        policy: policy.sis_security_policy,
        table_digest: policy.sis_table_digest,
        modulus_profile: policy.sis_modulus_profile,
        role,
        ring_dimension,
        coeff_linf_bound,
    }
}

fn sis_context(policy: &PlannerPolicy) -> (r: SisContext)
    ensures
        r == policy_context(*policy),
{
    SisContext {
        policy: policy.sis_security_policy,
        table_digest: policy.sis_table_digest,
        modulus_profile: policy.sis_modulus_profile,
    }
}

/// What a stored count is refused with that is no machine integer.
pub open spec fn count_text(name: Seq<char>) -> Seq<char> {
    "generated "@ + name + " does not fit the target platform"@
}

/// A stored count as a machine integer.
pub fn generated_count(value: u64, name: &str) -> (r: Result<usize, AkitaError>)
    ensures
        match r {
            Ok(n) => n == value,
            Err(e) => value > usize::MAX && e.is_setup(count_text(name@)),
        },
{
    if value > usize::MAX as u64 {
        let mut out = message("generated ");
        push_text(&mut out, message(name));
        push_text(&mut out, message(" does not fit the target platform"));
        Err(AkitaError::InvalidSetup(out))
    } else {
        Ok(value as usize)
    }
}

/// The refusal of a row whose blocks are not the ones that its elements take.
fn block_mismatch(blocks: usize, live: usize, positions: usize, derived: usize) -> (e: AkitaError)
    ensures
        e.is_setup(
            block_mismatch_text(blocks as nat, live as nat, positions as nat, derived as nat),
        ),
{
    let mut out = message("generated schedule num_live_blocks=");
    push_decimal(&mut out, blocks as u128);
    push_text(&mut out, message(" does not match ceil(N="));
    push_decimal(&mut out, live as u128);
    push_text(&mut out, message(" / M="));
    push_decimal(&mut out, positions as u128);
    push_text(&mut out, message(")="));
    push_decimal(&mut out, derived as u128);
    AkitaError::InvalidSetup(out)
}

/// The name of a modulus profile.
pub open spec fn profile_text(profile: SisModulusProfileId) -> Seq<char> {
    match profile {
        SisModulusProfileId::Q32Offset99 => "Q32Offset99"@,
        SisModulusProfileId::Q64Offset59 => "Q64Offset59"@,
        SisModulusProfileId::Q128OffsetA7F7 => "Q128OffsetA7F7"@,
    }
}

fn profile_name(profile: SisModulusProfileId) -> (r: &'static str)
    ensures
        r@ == profile_text(profile),
{
    match profile {
        SisModulusProfileId::Q32Offset99 => "Q32Offset99",
        SisModulusProfileId::Q64Offset59 => "Q64Offset59",
        SisModulusProfileId::Q128OffsetA7F7 => "Q128OffsetA7F7",
    }
}

/// What a matrix is refused with that has no secure rank.
pub open spec fn rank_text(role: Seq<char>, key: SisTableKey, width: nat) -> Seq<char> {
    "no audited "@ + role
        + "-role rank for generated schedule (policy=Quantum128BitADPS16, profile="@
        + profile_text(key.modulus_profile) + ", d="@ + text::decimal(key.ring_dimension as nat)
        + ", coeff_linf_bound="@ + text::decimal(key.coeff_linf_bound as nat) + ", width="@
        + text::decimal(width) + ")"@
}

fn no_rank(role: &str, key: SisTableKey, width: usize) -> (e: AkitaError)
    ensures
        e.is_setup(rank_text(role@, key, width as nat)),
{
    let mut out = message("no audited ");
    push_text(&mut out, message(role));
    push_text(
        &mut out,
        message("-role rank for generated schedule (policy=Quantum128BitADPS16, profile="),
    );
    push_text(&mut out, message(profile_name(key.modulus_profile)));
    push_text(&mut out, message(", d="));
    push_decimal(&mut out, key.ring_dimension as u128);
    push_text(&mut out, message(", coeff_linf_bound="));
    push_decimal(&mut out, key.coeff_linf_bound);
    push_text(&mut out, message(", width="));
    push_decimal(&mut out, width as u128);
    push_text(&mut out, message(")"));
    AkitaError::InvalidSetup(out)
}

/// What a fold is refused with that has no layout for a role.
pub open spec fn layout_text(
    role: Seq<char>,
    profile: SisModulusProfileId,
    dims: CommitmentRingDims,
    inner: u32,
    outer: u32,
    open: u32,
) -> Seq<char> {
    "no audited "@ + role + "-role layout for generated schedule (profile="@ + profile_text(profile)
        + ", dims=CommitmentRingDims { inner: "@ + text::decimal(dims.inner as nat) + ", outer: "@
        + text::decimal(dims.outer as nat) + ", opening: "@ + text::decimal(dims.opening as nat)
        + " }, inner="@ + text::decimal(inner as nat) + ", outer="@ + text::decimal(outer as nat)
        + ", open="@ + text::decimal(open as nat) + ")"@
}

fn no_layout(
    role: &str,
    profile: SisModulusProfileId,
    dims: CommitmentRingDims,
    inner: u32,
    outer: u32,
    open: u32,
) -> (e: AkitaError)
    ensures
        e.is_setup(layout_text(role@, profile, dims, inner, outer, open)),
{
    let mut out = message("no audited ");
    push_text(&mut out, message(role));
    push_text(&mut out, message("-role layout for generated schedule (profile="));
    push_text(&mut out, message(profile_name(profile)));
    push_text(&mut out, message(", dims=CommitmentRingDims { inner: "));
    push_decimal(&mut out, dims.inner as u128);
    push_text(&mut out, message(", outer: "));
    push_decimal(&mut out, dims.outer as u128);
    push_text(&mut out, message(", opening: "));
    push_decimal(&mut out, dims.opening as u128);
    push_text(&mut out, message(" }, inner="));
    push_decimal(&mut out, inner as u128);
    push_text(&mut out, message(", outer="));
    push_decimal(&mut out, outer as u128);
    push_text(&mut out, message(", open="));
    push_decimal(&mut out, open as u128);
    push_text(&mut out, message(")"));
    AkitaError::InvalidSetup(out)
}

/// The least secure rank, or a refusal.
pub fn secure_rank<R: ParameterRules>(
    rules: &R,
    role: &str,
    key: SisTableKey,
    width: usize,
) -> (r: Result<usize, AkitaError>)
    ensures
        match r {
            Ok(rank) => rules.secure_rank_of(key, width) == Some(rank),
            Err(e) => rules.secure_rank_of(key, width) is None && e.is_setup(
                rank_text(role@, key, width as nat),
            ),
        },
{
    match rules.secure_rank(key, width) {
        Some(rank) => Ok(rank),
        None => Err(no_rank(role, key, width)),
    }
}

impl GeneratedFrozenGroup {
    /// The opening of a frozen group by the fold that consumes it, which
    /// supplies the opening basis and the challenge family.
    pub fn expand_to_group<R: ParameterRules>(
        &self,
        rules: &R,
        setup_natural_len: Option<usize>,
        policy: &PlannerPolicy,
        log_basis_open: u32,
        num_response_chunks: usize,
    ) -> (r: Result<GroupOpenPhaseParams, AkitaError>)
        ensures
            match r {
                Ok(opening) => frozen_opening(
                    *rules,
                    *policy,
                    *self,
                    setup_natural_len,
                    log_basis_open,
                    num_response_chunks,
                ) == Some(opening),
                Err(e) => frozen_opening(
                    *rules,
                    *policy,
                    *self,
                    setup_natural_len,
                    log_basis_open,
                    num_response_chunks,
                ) is None && frozen_refusal(
                    *rules,
                    *policy,
                    *self,
                    setup_natural_len,
                    log_basis_open,
                    num_response_chunks,
                ) == Some(e@),
            },
    {
        let dimension: usize = match self.opening_method {
            OpeningMethod::EvaluationTrace => self.profile.inner.matrix.ring_dimension(),
            OpeningMethod::SubringCoefficientPacking { challenge_subring_dimension } =>
                challenge_subring_dimension,
        };
        let challenge = match rules.challenge(dimension) {
            Ok(challenge) => challenge,
            Err(e) => {
                return Err(e);
            },
        };
        let request = AdmissionRequest {
            profile: self.profile,
            setup_natural_len,
            num_digits_fold: self.num_digits_fold as usize,
            context: sis_context(policy),
            decomposition: policy.decomposition,
            num_response_chunks,
            opening_method: self.opening_method,
            challenge,
            log_basis_open,
        };
        let opening = match rules.admission(request) {
            Ok(opening) => opening,
            Err(e) => {
                return Err(e);
            },
        };
        if let Some(natural_len) = setup_natural_len {
            if natural_len == 0 {
                return Err(AkitaError::setup("setup prefix has no natural length"));
            }
        }
        Ok(opening)
    }
}

impl GeneratedSetupPrefix {
    /// The admitted opening of a setup prefix.
    pub fn expand_to_group<R: ParameterRules>(
        &self,
        rules: &R,
        policy: &PlannerPolicy,
        log_basis_open: u32,
        num_response_chunks: usize,
    ) -> (r: Result<GroupOpenPhaseParams, AkitaError>)
        ensures
            match r {
                Ok(opening) => self.natural_len <= usize::MAX && frozen_opening(
                    *rules,
                    *policy,
                    self.group,
                    Some(self.natural_len as usize),
                    log_basis_open,
                    num_response_chunks,
                ) == Some(opening),
                Err(e) => if self.natural_len > usize::MAX {
                    e.is_setup(count_text("setup-prefix natural length"@))
                } else {
                    &&& frozen_opening(
                        *rules,
                        *policy,
                        self.group,
                        Some(self.natural_len as usize),
                        log_basis_open,
                        num_response_chunks,
                    ) is None
                    &&& frozen_refusal(
                        *rules,
                        *policy,
                        self.group,
                        Some(self.natural_len as usize),
                        log_basis_open,
                        num_response_chunks,
                    ) == Some(e@)
                },
            },
    {
        let natural_len: usize = match generated_count(
            self.natural_len,
            "setup-prefix natural length",
        ) {
            Ok(n) => n,
            Err(e) => {
                return Err(e);
            },
        };
        self.group.expand_to_group(
            rules,
            Some(natural_len),
            policy,
            log_basis_open,
            num_response_chunks,
        )
    }
}

impl GeneratedGroup {
    /// The opening of a fold's setup prefix, if it has one.
    pub fn expand_setup_prefix<R: ParameterRules>(
        rules: &R,
        prefix: Option<GeneratedSetupPrefix>,
        policy: &PlannerPolicy,
        log_basis_open: u32,
        num_response_chunks: usize,
    ) -> (r: Result<Option<GroupOpenPhaseParams>, AkitaError>)
        ensures
            match r {
                Ok(opening) => match prefix {
                    Some(p) => opening is Some && prefix_opening(
                        *rules,
                        *policy,
                        p,
                        log_basis_open,
                        num_response_chunks,
                    ) == opening,
                    None => opening is None,
                },
                Err(e) => prefix is Some && prefix_opening(
                    *rules,
                    *policy,
                    prefix->0,
                    log_basis_open,
                    num_response_chunks,
                ) is None && prefix_refusal(
                    *rules,
                    *policy,
                    prefix->0,
                    log_basis_open,
                    num_response_chunks,
                ) == Some(e@),
            },
    {
        let group = match prefix {
            Some(group) => group,
            None => {
                return Ok(None);
            },
        };
        let opening = match group.expand_to_group(
            rules,
            policy,
            log_basis_open,
            num_response_chunks,
        ) {
            Ok(opening) => opening,
            Err(e) => {
                return Err(e);
            },
        };
        let padded: usize = match checked_pow2(opening.profile.group.num_vars()) {
            Some(padded) => padded,
            None => {
                return Err(AkitaError::setup("generated setup-prefix length overflow"));
            },
        };
        let natural_len: usize = match generated_count(
            group.natural_len,
            "setup-prefix natural length",
        ) {
            Ok(n) => n,
            Err(e) => {
                return Err(e);
            },
        };
        if let Err(e) = rules.check_prefix_domain(natural_len, padded) {
            return Err(e);
        }
        Ok(
            Some(
                GroupOpenPhaseParams {
                    profile: opening.profile,
                    opening: opening.opening,
                    setup_natural_len: Some(natural_len),
                },
            ),
        )
    }

    /// The live elements of one claim and the number of variables of the
    /// witness's producer, where the blocks hold the live elements.
    fn group_length<R: ParameterRules>(
        &self,
        source: &GroupLengthSource,
        Ghost(d): Ghost<Derivation<R>>,
    ) -> (r: Result<(usize, usize), AkitaError>)
        requires
            d.group == *self,
            d.source == source@,
            d.dims().inner > 0,
            0 < self.geometry.live_blocks <= usize::MAX / 2 + 1,
        ensures
            match r {
                Ok((live, vars)) => d.length_fits() && d.geometry_refusal() is None && live
                    == d.live() && vars == d.producer_vars(),
                Err(e) => !d.length_fits() && d.geometry_refusal() is Some && e.is_setup(
                    d.geometry_refusal()->0,
                ),
            },
    {
        let ring_d: usize = self.inner_commit_matrix.ring_dimension as usize;
        let positions: usize = self.geometry.positions_per_block;
        let blocks: usize = self.geometry.live_blocks;
        match source {
            GroupLengthSource::IncomingWitness { input_witness_len, .. } => {
                let len: usize = *input_witness_len;
                if len == 0 {
                    return Err(AkitaError::setup("witness length must be nonzero"));
                }
                if positions == 0 {
                    return Err(AkitaError::setup("block length must be nonzero"));
                }
                let live: usize = div_ceil(len, ring_d);
                let derived: usize = div_ceil(live, positions);
                if derived != blocks {
                    return Err(block_mismatch(blocks, live, positions, derived));
                }
                Ok((live, trailing_zeros(len)))
            },
            GroupLengthSource::PinnedGrouped { .. } => {
                let live: usize = match blocks.checked_mul(positions) {
                    Some(live) => live,
                    None => {
                        return Err(AkitaError::setup("generated root group length overflow"));
                    },
                };
                let vars: usize = match self.geometry.live_ring_elements_per_claim.checked_mul(
                    ring_d,
                ) {
                    Some(len) => if is_power_of_two(len) {
                        trailing_zeros(len)
                    } else {
                        0
                    },
                    None => 0,
                };
                Ok((live, vars))
            },
        }
    }

    /// The refusal of a fold that has no layout for a role.
    fn no_layout(&self, role: &str, policy: &PlannerPolicy, open: GeneratedMatrix) -> (e: AkitaError)
        ensures
            e.is_setup(
                layout_text(
                    role@,
                    policy.sis_modulus_profile,
                    CommitmentRingDims {
                        inner: self.inner_commit_matrix.ring_dimension as usize,
                        outer: self.outer_commit_matrix.ring_dimension as usize,
                        opening: open.ring_dimension as usize,
                    },
                    self.inner_commit_matrix.log_basis,
                    self.outer_commit_matrix.log_basis,
                    open.log_basis,
                ),
            ),
    {
        no_layout(
            role,
            policy.sis_modulus_profile,
            CommitmentRingDims {
                inner: self.inner_commit_matrix.ring_dimension as usize,
                outer: self.outer_commit_matrix.ring_dimension as usize,
                opening: open.ring_dimension as usize,
            },
            self.inner_commit_matrix.log_basis,
            self.outer_commit_matrix.log_basis,
            open.log_basis,
        )
    }

    /// The challenge family of the fold.
    fn group_challenge<R: ParameterRules>(
        &self,
        rules: &R,
        cap: Option<u128>,
        policy: &PlannerPolicy,
        open: GeneratedMatrix,
        Ghost(d): Ghost<Derivation<R>>,
    ) -> (r: Result<SparseChallengeConfig, AkitaError>)
        requires
            d.group == *self,
            d.rules == *rules,
            d.policy == *policy,
            d.open == open,
            d.cap() == cap,
        ensures
            error::answers(r, d.challenge(), d.challenge_refusal()),
    {
        let ring_d: usize = self.inner_commit_matrix.ring_dimension as usize;
        match self.opening_method {
            OpeningMethod::SubringCoefficientPacking { challenge_subring_dimension } =>
                match rules.packing_challenge(challenge_subring_dimension) {
                    Some(challenge) => Ok(challenge),
                    None => Err(self.no_layout("A", policy, open)),
                },
            OpeningMethod::EvaluationTrace => match rules.challenge(ring_d) {
                Ok(plain) => match cap {
                    Some(_cap) => match rules.l2_challenge(ring_d) {
                        Some(certified) => Ok(certified),
                        None => Ok(plain),
                    },
                    None => Ok(plain),
                },
                Err(e) => Err(e),
            },
        }
    }

    /// The inner matrix of the fold.
    fn group_inner_matrix<R: ParameterRules>(
        &self,
        rules: &R,
        policy: &PlannerPolicy,
        e: &GeneratedGroupExpansion,
        level: usize,
        cap: Option<u128>,
        challenge: SparseChallengeConfig,
        inner_width: usize,
    ) -> (r: Result<InnerCommitMatrixParams, AkitaError>)
        requires
            ({
                let d = derivation(*rules, *policy, *self, *e);
                &&& d.level() == level
                &&& d.cap() == cap
                &&& d.challenge() == Some(challenge)
                &&& d.inner_width() == Some(inner_width)
            }),
        ensures
            ({
                let d = derivation(*rules, *policy, *self, *e);
                match r {
                    Ok(matrix) => d.inner_norm() is Some && d.inner_rank() is Some
                        && d.inner_matrix() == Some(matrix),
                    Err(error) => !(d.inner_norm() is Some && d.inner_rank() is Some
                        && d.inner_matrix() is Some) && d.matrix_refusal() == Some(error@),
                }
            }),
    {
        let ghost d = derivation(*rules, *policy, *self, *e);
        let ring_d: usize = self.inner_commit_matrix.ring_dimension as usize;
        let chunks: usize = policy.chunks_at_level(level);
        let digits_fold: usize = self.num_digits_fold as usize;
        let log_basis_open: u32 = e.open_commit_matrix.log_basis;
        let norm: u128 = match rules.response_norm(
            ResponseNormRequest {
                context: sis_context(policy),
                ring_dimension: ring_d,
                log_basis_open,
                challenge,
                num_digits_fold: digits_fold,
                num_chunks: chunks,
            },
        ) {
            Some(norm) => norm,
            None => {
                return Err(self.no_layout("A", policy, e.open_commit_matrix));
            },
        };
        assert(d.inner_norm() == Some(norm));
        let key = sis_key(
            policy,
            SisMatrixRole::Inner,
            self.inner_commit_matrix.ring_dimension,
            norm,
        );
        let rank: usize = match secure_rank(rules, "a", key, inner_width) {
            Ok(rank) => rank,
            Err(error) => {
                return Err(error);
            },
        };
        assert(d.inner_rank() == Some(rank));
        match cap {
            Some(cap) => {
                let fold_basis: usize = match checked_pow2(log_basis_open as usize) {
                    Some(basis) => basis,
                    None => {
                        return Err(AkitaError::setup("generated L2 basis overflow"));
                    },
                };
                let request = SelectiveL2Request {
                    fold_level: level,
                    num_claims: e.source.num_claims(),
                    num_chunks: chunks,
                    inner_width,
                    ring_dimension: ring_d,
                    fold_basis,
                    fold_digit_count: digits_fold,
                    challenge,
                    response_l2_sq_cap: cap,
                    direct_response_len: None,
                };
                assert(request == d.l2_request(cap));
                let matrix = match rules.l2_matrix(request) {
                    Ok(Some(matrix)) => matrix,
                    Err(error) => {
                        return Err(error);
                    },
                    Ok(None) => {
                        return Err(
                            AkitaError::setup(
                                "generated L2 route is not admitted by the calibrated response model",
                            ),
                        );
                    },
                };
                match matrix.security_route() {
                    InnerCommitSecurityRoute::L2 { response_l2_sq_cap, .. } => {
                        if response_l2_sq_cap == cap {
                            return Ok(matrix);
                        }
                    },
                    InnerCommitSecurityRoute::Linf(_) => {},
                }
                Err(
                    AkitaError::setup("generated L2 cap disagrees with canonical candidate policy"),
                )
            },
            None => {
                if let Err(error) = rules.audit_rank(key, rank, inner_width) {
                    return Err(error);
                }
                Ok(
                    InnerCommitMatrixParams {
                        output_rank: rank,
                        input_width: inner_width,
                        ring_dimension: self.inner_commit_matrix.ring_dimension,
                        route: InnerCommitSecurityRoute::Linf(key),
                    },
                )
            },
        }
    }

    /// The openings of the other groups of the fold and the width of their
    /// segments of the opening matrix.
    fn group_others<R: ParameterRules>(
        &self,
        rules: &R,
        policy: &PlannerPolicy,
        e: &GeneratedGroupExpansion,
        level: usize,
    ) -> (r: Result<
        (Option<GroupOpenPhaseParams>, Vec<GroupOpenPhaseParams>, usize),
        AkitaError,
    >)
        requires
            derivation(*rules, *policy, *self, *e).level() == level,
        ensures
            ({
                let d = derivation(*rules, *policy, *self, *e);
                match r {
                    Ok((prefix, groups, width)) => d.prefix() == Some(prefix) && groups@
                        == d.precommitted() && d.others_width() == Some(width as int),
                    Err(error) => d.others_refusal() == Some(error@) && (d.others_width() is None
                        || d.others_width()->0 > usize::MAX),
                }
            }),
    {
        let ghost d = derivation(*rules, *policy, *self, *e);
        let d_d: usize = e.open_commit_matrix.ring_dimension as usize;
        let ext: usize = policy.claim_ext_degree;
        match &e.source {
            GroupLengthSource::PinnedGrouped { precommitted_groups, .. } => {
                if precommitted_groups.len() == 0 {
                    return Err(
                        AkitaError::setup(
                            "generated multi-group root requires precommitted groups",
                        ),
                    );
                }
                let ghost all = precommitted_groups@;
                let mut groups: Vec<GroupOpenPhaseParams> = Vec::new();
                let mut width: usize = 0;
                let mut k: usize = 0;
                while k < precommitted_groups.len()
                    invariant
                        k <= all.len(),
                        all == precommitted_groups@,
                        d == derivation(*rules, *policy, *self, *e),
                        groups@ == all.take(k as int),
                        groups_width(*rules, all.take(k as int), ext, d_d) == Some(width as int),
                        groups_refusal(*rules, all, ext, d_d, k as nat) is None,
                        d.others_refusal() == groups_refusal(*rules, all, ext, d_d, all.len()),
                        d.others_width() == groups_width(*rules, all, ext, d_d),
                    decreases all.len() - k,
                {
                    let group = precommitted_groups[k];
                    proof {
                        assert(all.take(k + 1).drop_last() =~= all.take(k as int));
                        assert(all.take(k + 1) =~= all.take(k as int).push(group));
                        lemma_groups_width_prefix(*rules, all, ext, d_d, k + 1);
                        lemma_groups_refusal_stays(*rules, all, ext, d_d, (k + 1) as nat);
                    }
                    let segment: usize = match rules.group_width(group, ext, d_d) {
                        Ok(segment) => segment,
                        Err(error) => {
                            return Err(error);
                        },
                    };
                    width = match width.checked_add(segment) {
                        Some(width) => width,
                        None => {
                            return Err(AkitaError::setup("generated multi-group D width overflow"));
                        },
                    };
                    groups.push(group);
                    k += 1;
                }
                assert(all.take(k as int) =~= all);
                Ok((None, groups, width))
            },
            GroupLengthSource::IncomingWitness { setup_prefix, .. } => {
                let prefix = match Self::expand_setup_prefix(
                    rules,
                    *setup_prefix,
                    policy,
                    e.open_commit_matrix.log_basis,
                    policy.chunks_at_level(level),
                ) {
                    Ok(prefix) => prefix,
                    Err(error) => {
                        return Err(error);
                    },
                };
                let width: usize = match prefix {
                    Some(opening) => match rules.group_width(opening, ext, d_d) {
                        Ok(width) => width,
                        Err(error) => {
                            return Err(error);
                        },
                    },
                    None => 0,
                };
                Ok((prefix, Vec::new(), width))
            },
        }
    }

    /// The full parameters of a fold.
    ///
    /// The number of claims scales the widths of the outer and the opening
    /// matrix directly. Ranks are looked up at the widths that follow and are
    /// audited against them.
    pub fn expand_group<R: ParameterRules>(
        &self,
        rules: &R,
        policy: &PlannerPolicy,
        expansion: &GeneratedGroupExpansion,
    ) -> (r: Result<CommittedGroupParams, AkitaError>)
        ensures
            ({
                let d = derivation(*rules, *policy, *self, *expansion);
                match r {
                    Ok(params) => d.admitted() && params@ == d.params(),
                    Err(e) => !d.admitted() && d.refusal() == Some(e@),
                }
            }),
    {
        let ghost d = derivation(*rules, *policy, *self, *expansion);
        let (level, cap): (usize, Option<u128>) = match expansion.role {
            GeneratedFoldExpansionRole::Root { .. } => (0, None),
            GeneratedFoldExpansionRole::Recursive { fold_level, response_l2_sq_cap } => (
                fold_level,
                response_l2_sq_cap,
            ),
        };
        let dims = CommitmentRingDims {
            inner: self.inner_commit_matrix.ring_dimension as usize,
            outer: self.outer_commit_matrix.ring_dimension as usize,
            opening: expansion.open_commit_matrix.ring_dimension as usize,
        };
        if let Err(e) = rules.check_dims(dims) {
            return Err(e);
        }
        if dims.inner == 0 {
            return Err(AkitaError::setup("generated role dimensions are invalid"));
        }
        let log_basis_inner: u32 = self.inner_commit_matrix.log_basis;
        let log_basis_outer: u32 = self.outer_commit_matrix.log_basis;
        let log_basis_open: u32 = expansion.open_commit_matrix.log_basis;
        let blocks: usize = self.geometry.live_blocks;
        let slices = match CommitmentSliceCount::try_new(self.outer_slice_count as usize) {
            Ok(slices) => slices,
            Err(e) => {
                return Err(e);
            },
        };
        if let Err(e) = rules.check_slices(slices, level, expansion.payload_mode, blocks) {
            return Err(e);
        }
        if blocks == 0 || blocks > usize::MAX / 2 + 1 {
            return Err(
                AkitaError::setup(
                    "generated schedule exact live block count disagrees with block_index_bits",
                ),
            );
        }
        let (live, producer_vars): (usize, usize) = match self.group_length::<R>(
            &expansion.source,
            Ghost(d),
        ) {
            Ok(length) => length,
            Err(e) => {
                return Err(e);
            },
        };
        let challenge = match self.group_challenge(
            rules,
            cap,
            policy,
            expansion.open_commit_matrix,
            Ghost(d),
        ) {
            Ok(challenge) => challenge,
            Err(e) => {
                return Err(e);
            },
        };
        let bits: u32 = policy.decomposition.field_bits();
        let inner_digits: usize = match expansion.role {
            GeneratedFoldExpansionRole::Root { num_digits_inner } => num_digits_inner as usize,
            GeneratedFoldExpansionRole::Recursive { .. } => rules.inner_digits(
                DecompositionParams {
                    log_basis: log_basis_inner,
                    log_commit_bound: bits,
                    log_open_bound: Some(bits),
                },
                level == 0,
            ),
        };
        let outer_digits: usize = rules.open_digits(
            DecompositionParams {
                log_basis: log_basis_outer,
                log_commit_bound: policy.decomposition.log_commit_bound,
                log_open_bound: policy.decomposition.log_open_bound,
            },
        );
        let open_digits: usize = rules.open_digits(
            DecompositionParams {
                log_basis: log_basis_open,
                log_commit_bound: policy.decomposition.log_commit_bound,
                log_open_bound: policy.decomposition.log_open_bound,
            },
        );
        let inner_width: usize = match rules.block_width(
            self.geometry.positions_per_block,
            inner_digits,
        ) {
            Some(width) => width,
            None => {
                return Err(self.no_layout("A", policy, expansion.open_commit_matrix));
            },
        };
        if self.num_digits_fold == 0 {
            return Err(AkitaError::setup("generated fold digit depth must be nonzero"));
        }
        let inner_matrix = match self.group_inner_matrix(
            rules,
            policy,
            expansion,
            level,
            cap,
            challenge,
            inner_width,
        ) {
            Ok(matrix) => matrix,
            Err(e) => {
                return Err(e);
            },
        };
        assert(d.inner_admitted());
        let num_claims: usize = expansion.source.num_claims();
        let outer_norm: u128 = match rules.collision_norm(
            CollisionNormRequest {
                context: sis_context(policy),
                role: SisMatrixRole::Outer,
                ring_dimension: dims.outer,
                log_basis: log_basis_outer,
            },
        ) {
            Some(norm) => norm,
            None => {
                return Err(self.no_layout("B", policy, expansion.open_commit_matrix));
            },
        };
        let outer_width: usize = match rules.slice_width(
            SliceWidthRequest {
                slice_count: slices,
                live_blocks: blocks,
                num_claims,
                inner_rank: inner_matrix.output_rank,
                num_digits_outer: outer_digits,
                d_a: dims.inner,
                d_b: dims.outer,
            },
        ) {
            Ok(width) => width,
            Err(e) => {
                return Err(e);
            },
        };
        assert(d.outer_width() == Some(outer_width));
        let open_norm: u128 = match rules.collision_norm(
            CollisionNormRequest {
                context: sis_context(policy),
                role: SisMatrixRole::Open,
                ring_dimension: dims.opening,
                log_basis: log_basis_open,
            },
        ) {
            Some(norm) => norm,
            None => {
                return Err(self.no_layout("D", policy, expansion.open_commit_matrix));
            },
        };
        let own_width: usize = match rules.opening_width(
            OpeningWidthRequest {
                opening_method: self.opening_method,
                claim_ext_degree: policy.claim_ext_degree,
                d_a: dims.inner,
                d_d: dims.opening,
                num_digits_open: open_digits,
                live_blocks: blocks,
                num_claims,
            },
        ) {
            Ok(width) => width,
            Err(e) => {
                return Err(e);
            },
        };
        assert(d.own_width() == Some(own_width));
        let (setup_prefix, precommitted_groups, others_width): (
            Option<GroupOpenPhaseParams>,
            Vec<GroupOpenPhaseParams>,
            usize,
        ) = match self.group_others(rules, policy, expansion, level) {
            Ok(others) => others,
            Err(e) => {
                return Err(e);
            },
        };
        let open_width: usize = match own_width.checked_add(others_width) {
            Some(width) => width,
            None => {
                return Err(AkitaError::setup("generated D width overflow"));
            },
        };
        assert(d.open_width() == open_width);
        let outer_key = sis_key(
            policy,
            SisMatrixRole::Outer,
            self.outer_commit_matrix.ring_dimension,
            outer_norm,
        );
        let outer_rank: usize = match secure_rank(rules, "b", outer_key, outer_width) {
            Ok(rank) => rank,
            Err(e) => {
                return Err(e);
            },
        };
        let open_key = sis_key(
            policy,
            SisMatrixRole::Open,
            expansion.open_commit_matrix.ring_dimension,
            open_norm,
        );
        let open_rank: usize = match secure_rank(rules, "d", open_key, open_width) {
            Ok(rank) => rank,
            Err(e) => {
                return Err(e);
            },
        };
        assert(d.outer_rank() == Some(outer_rank) && d.open_rank() == Some(open_rank));
        if let Err(e) = rules.audit_rank(open_key, open_rank, open_width) {
            return Err(e);
        }
        if let Err(e) = rules.audit_rank(outer_key, outer_rank, outer_width) {
            return Err(e);
        }
        let source_encoding = rules.source_encoding(
            SourceEncodingRequest {
                opening_method: self.opening_method,
                claim_ext_degree: policy.claim_ext_degree,
                ring_dimension: dims.inner,
                num_vars: producer_vars,
                is_root: level == 0,
            },
        );
        let params = CommittedGroupParams {
            setup_prefix,
            precommitted_groups,
            own: GroupOpenPhaseParams {
                profile: GroupCommitPhaseParams {
                    version: GROUP_COMMIT_PHASE_VERSION,
                    group: expansion.group,
                    blocks: BlockGeometry::new(live, self.geometry.positions_per_block, blocks),
                    outer_slice_count: slices,
                    inner: InnerRole {
                        digits: GadgetDigits::new(log_basis_inner, inner_digits),
                        matrix: inner_matrix,
                    },
                    outer: OuterRole {
                        digits: GadgetDigits::new(log_basis_outer, outer_digits),
                        matrix: OuterCommitMatrixParams {
                            output_rank: outer_rank,
                            input_width: outer_width,
                            key: outer_key,
                        },
                    },
                },
                opening: GroupOpeningPlan {
                    opening_method: self.opening_method,
                    fold_challenge_config: challenge,
                    log_basis_open,
                    num_digits_open: open_digits,
                    num_digits_fold: self.num_digits_fold as usize,
                },
                setup_natural_len: None,
            },
            open_matrix: OpenCommitMatrixParams {
                output_rank: open_rank,
                input_width: open_width,
                key: open_key,
            },
            payload_mode: expansion.payload_mode,
            ring_relation_mode: expansion.ring_relation_mode,
            source_encoding,
            witness_chunk: ChunkedWitnessCfg::default_non_chunked(),
        };
        assert(params@.own == d.params().own);
        assert(params@.open_matrix == d.params().open_matrix);
        assert(params@ == d.params());
        if let Err(e) = rules.check_params(&params) {
            return Err(e);
        }
        Ok(params)
    }
}

/// A prefix of the groups without a width, or one too wide, spoils the total.
proof fn lemma_groups_width_prefix<R: ParameterRules>(
    rules: R,
    groups: Seq<GroupOpenPhaseParams>,
    ext: usize,
    d_d: usize,
    n: int,
)
    requires
        0 <= n <= groups.len(),
    ensures
        groups_width(rules, groups.take(n), ext, d_d) is None ==> groups_width(
            rules,
            groups,
            ext,
            d_d,
        ) is None,
        groups_width(rules, groups, ext, d_d) is Some ==> groups_width(
            rules,
            groups.take(n),
            ext,
            d_d,
        )->0 <= groups_width(rules, groups, ext, d_d)->0,
    decreases groups.len() - n,
{
    if n == groups.len() {
        assert(groups.take(n) =~= groups);
    } else {
        lemma_groups_width_prefix(rules, groups, ext, d_d, n + 1);
        assert(groups.take(n + 1).drop_last() =~= groups.take(n));
    }
}

/// A refusal of the first groups is that of all of them.
proof fn lemma_groups_refusal_stays<R: ParameterRules>(
    rules: R,
    groups: Seq<GroupOpenPhaseParams>,
    ext: usize,
    d_d: usize,
    n: nat,
)
    requires
        n <= groups.len(),
    ensures
        groups_refusal(rules, groups, ext, d_d, n) is Some ==> groups_refusal(
            rules,
            groups,
            ext,
            d_d,
            groups.len(),
        ) == groups_refusal(rules, groups, ext, d_d, n),
    decreases groups.len() - n,
{
    if n < groups.len() {
        lemma_groups_refusal_stays(rules, groups, ext, d_d, n + 1);
    }
}

// ---------------------------------------------------------------------------
// The terminal fold
// ---------------------------------------------------------------------------

/// The question of how the terminal fold expands.
pub struct TerminalDerivation<R> {
    pub rules: R,
    pub policy: PlannerPolicy,
    pub fold: GeneratedTerminalFold,
    pub level: usize,
    pub input_len: usize,
}

impl<R: ParameterRules> TerminalDerivation<R> {
    pub open spec fn d_a(self) -> usize {
        self.fold.inner_commit_matrix.ring_dimension as usize
    }

    /// Whether the stored geometry is that of the incoming witness.
    pub open spec fn geometry_fits(self) -> bool {
        let g = self.fold.geometry;
        &&& self.d_a() > 0
        &&& self.input_len > 0
        &&& g.positions_per_block > 0
        &&& is_pow2(g.positions_per_block as int)
        &&& g.live_ring_elements_per_claim == checked::ceil_div(
            self.input_len as int,
            self.d_a() as int,
        )
        &&& g.live_blocks == checked::ceil_div(
            g.live_ring_elements_per_claim as int,
            g.positions_per_block as int,
        )
    }

    pub open spec fn inner_width(self) -> Option<usize> {
        self.rules.block_width_of(
            self.fold.geometry.positions_per_block,
            self.fold.num_digits_inner as usize,
        )
    }

    pub open spec fn challenge(self) -> Option<SparseChallengeConfig> {
        if self.fold.response_l2_sq_cap is Some {
            self.rules.l2_challenge_of(self.d_a())
        } else {
            self.rules.challenge_of(self.d_a())
        }
    }

    pub open spec fn l2_request(self, cap: u128) -> SelectiveL2Request {
        SelectiveL2Request {
            fold_level: self.level,
            num_claims: 1,
            num_chunks: 1,
            inner_width: self.inner_width()->0,
            ring_dimension: self.d_a(),
            fold_basis: pow2(self.fold.fold_log_basis as nat) as usize,
            fold_digit_count: self.fold.fold_digit_count as usize,
            challenge: self.challenge()->0,
            response_l2_sq_cap: cap,
            direct_response_len: Some((self.inner_width()->0 * self.d_a()) as usize),
        }
    }

    /// The inner matrix, which must have the stored rank and, on the Euclidean
    /// route, the stored cap.
    pub open spec fn inner_matrix(self) -> Option<InnerCommitMatrixParams> {
        let rank = self.fold.inner_output_rank as usize;
        let width = self.inner_width()->0;
        match self.fold.response_l2_sq_cap {
            Some(cap) => if pow2(self.fold.fold_log_basis as nat) > usize::MAX || width
                * self.d_a() > usize::MAX {
                None
            } else {
                match self.rules.l2_matrix_of(self.l2_request(cap)) {
                    Some(matrix) => if matrix.output_rank == rank && matrix.l2_cap() == Some(
                        cap,
                    ) {
                        Some(matrix)
                    } else {
                        None
                    },
                    None => None,
                }
            },
            None => {
                let key = policy_key(
                    self.policy,
                    SisMatrixRole::Inner,
                    self.fold.inner_commit_matrix.ring_dimension,
                    self.fold.inner_coeff_linf_bound,
                );
                if self.rules.rank_audited(key, rank, width) {
                    Some(
                        InnerCommitMatrixParams {
                            output_rank: rank,
                            input_width: width,
                            ring_dimension: self.fold.inner_commit_matrix.ring_dimension,
                            route: InnerCommitSecurityRoute::Linf(key),
                        },
                    )
                } else {
                    None
                }
            },
        }
    }

    /// The expanded parameters.
    pub open spec fn params(self) -> TerminalFoldParams {
        TerminalFoldParams {
            fold_challenge_config: self.challenge()->0,
            blocks: self.fold.geometry,
            inner: InnerRole {
                digits: GadgetDigits {
                    log_basis: self.fold.inner_commit_matrix.log_basis,
                    num_digits: self.fold.num_digits_inner as usize,
                },
                matrix: self.inner_matrix()->0,
            },
            fold: GadgetDigits {
                log_basis: self.fold.fold_log_basis,
                num_digits: self.fold.fold_digit_count as usize,
            },
        }
    }

    /// Whether the terminal fold is expanded.
    pub open spec fn admitted(self) -> bool {
        &&& self.geometry_fits()
        &&& self.fold.num_digits_inner != 0
        &&& self.fold.fold_log_basis != 0
        &&& self.fold.fold_digit_count != 0
        &&& self.inner_width() is Some
        &&& self.challenge() is Some
        &&& self.fold.inner_output_rank != 0
        &&& self.fold.response_l2_sq_cap is None ==> self.fold.inner_coeff_linf_bound != 0
        &&& self.inner_matrix() is Some
        &&& self.rules.terminal_cap_allowed(self.params(), self.fold.z_linf_cap)
        &&& self.fold.z_rice_low_bits < 64
        &&& self.fold.z_payload_bytes != 0
    }

    /// Why a terminal fold without an inner matrix is refused.
    pub open spec fn matrix_refusal(self) -> Option<ErrorModel> {
        match self.fold.response_l2_sq_cap {
            Some(cap) => if pow2(self.fold.fold_log_basis as nat) > usize::MAX {
                error::setup_refusal("terminal L2 basis overflow"@)
            } else if self.inner_width()->0 * self.d_a() > usize::MAX {
                error::setup_refusal("terminal L2 response length overflow"@)
            } else {
                match self.rules.l2_matrix_of(self.l2_request(cap)) {
                    Some(matrix) => error::setup_refusal(
                        "generated terminal L2 matrix disagrees with its canonical source model"@,
                    ),
                    None => match self.rules.refusal_of(
                        ExpansionQuestion::L2Matrix(self.l2_request(cap)),
                    ) {
                        Some(e) => Some(e),
                        None => error::setup_refusal(
                            "generated terminal L2 route has no canonical source model"@,
                        ),
                    },
                }
            },
            None => self.rules.refusal_of(
                ExpansionQuestion::Audit {
                    key: policy_key(
                        self.policy,
                        SisMatrixRole::Inner,
                        self.fold.inner_commit_matrix.ring_dimension,
                        self.fold.inner_coeff_linf_bound,
                    ),
                    rank: self.fold.inner_output_rank as usize,
                    width: self.inner_width()->0,
                },
            ),
        }
    }

    /// Why a terminal fold is refused that is not expanded.
    pub open spec fn refusal(self) -> Option<ErrorModel> {
        if self.d_a() == 0 {
            error::setup_refusal("generated terminal inner ring dimension must be nonzero"@)
        } else if self.input_len == 0 {
            error::setup_refusal("terminal witness length must be nonzero"@)
        } else if !self.geometry_fits() {
            error::setup_refusal("generated terminal geometry does not match its input witness"@)
        } else if self.fold.num_digits_inner == 0 {
            error::setup_refusal("generated terminal inner digit depth must be nonzero"@)
        } else if self.fold.fold_log_basis == 0 || self.fold.fold_digit_count == 0 {
            error::setup_refusal("generated terminal fold basis and digit count must be nonzero"@)
        } else if self.inner_width() is None {
            error::setup_refusal("terminal A width overflow"@)
        } else if self.challenge() is None {
            if self.fold.response_l2_sq_cap is Some {
                error::setup_refusal(
                    "generated terminal L2 route has no certified operator-norm challenge"@,
                )
            } else {
                self.rules.refusal_of(ExpansionQuestion::Challenge(self.d_a()))
            }
        } else if self.fold.inner_output_rank == 0 || (self.fold.response_l2_sq_cap is None
            && self.fold.inner_coeff_linf_bound == 0) {
            error::setup_refusal("generated terminal matrix contract must be nonzero"@)
        } else if self.inner_matrix() is None {
            self.matrix_refusal()
        } else {
            error::setup_refusal("generated terminal response contract is invalid"@)
        }
    }
}

impl GeneratedTerminalFold {
    /// The full parameters of the terminal fold.
    pub fn expand_to_level_params<R: ParameterRules>(
        &self,
        rules: &R,
        policy: &PlannerPolicy,
        fold_level: usize,
        input_witness_len: usize,
    ) -> (r: Result<TerminalFoldParams, AkitaError>)
        ensures
            ({
                let d = TerminalDerivation {
                    rules: *rules,
                    policy: *policy,
                    fold: *self,
                    level: fold_level,
                    input_len: input_witness_len,
                };
                match r {
                    Ok(params) => d.admitted() && params == d.params(),
                    Err(e) => !d.admitted() && d.refusal() == Some(e@),
                }
            }),
    {
        let ghost d = TerminalDerivation {
            rules: *rules,
            policy: *policy,
            fold: *self,
            level: fold_level,
            input_len: input_witness_len,
        };
        let ring_dimension: usize = self.inner_commit_matrix.ring_dimension as usize;
        if ring_dimension == 0 {
            return Err(
                AkitaError::setup("generated terminal inner ring dimension must be nonzero"),
            );
        }
        if input_witness_len == 0 {
            return Err(AkitaError::setup("terminal witness length must be nonzero"));
        }
        let live: usize = div_ceil(input_witness_len, ring_dimension);
        let positions: usize = self.geometry.positions_per_block;
        if positions == 0 || !is_power_of_two(positions)
            || self.geometry.live_ring_elements_per_claim != live || div_ceil(live, positions)
            != self.geometry.live_blocks {
            return Err(
                AkitaError::setup("generated terminal geometry does not match its input witness"),
            );
        }
        let inner_digits: usize = self.num_digits_inner as usize;
        if inner_digits == 0 {
            return Err(AkitaError::setup("generated terminal inner digit depth must be nonzero"));
        }
        let fold_digits: usize = self.fold_digit_count as usize;
        if self.fold_log_basis == 0 || fold_digits == 0 {
            return Err(
                AkitaError::setup("generated terminal fold basis and digit count must be nonzero"),
            );
        }
        let inner_width: usize = match rules.block_width(positions, inner_digits) {
            Some(width) => width,
            None => {
                return Err(AkitaError::setup("terminal A width overflow"));
            },
        };
        let challenge = match self.response_l2_sq_cap {
            Some(_cap) => match rules.l2_challenge(ring_dimension) {
                Some(challenge) => challenge,
                None => {
                    return Err(
                        AkitaError::setup(
                            "generated terminal L2 route has no certified operator-norm challenge",
                        ),
                    );
                },
            },
            None => match rules.challenge(ring_dimension) {
                Ok(challenge) => challenge,
                Err(e) => {
                    return Err(e);
                },
            },
        };
        let rank: usize = self.inner_output_rank as usize;
        let no_bound = match self.response_l2_sq_cap {
            Some(_cap) => false,
            None => self.inner_coeff_linf_bound == 0,
        };
        if rank == 0 || no_bound {
            return Err(AkitaError::setup("generated terminal matrix contract must be nonzero"));
        }
        let matrix = match self.response_l2_sq_cap {
            Some(cap) => {
                let fold_basis: usize = match checked_pow2(self.fold_log_basis as usize) {
                    Some(basis) => basis,
                    None => {
                        return Err(AkitaError::setup("terminal L2 basis overflow"));
                    },
                };
                let response_len: usize = match inner_width.checked_mul(ring_dimension) {
                    Some(len) => len,
                    None => {
                        return Err(AkitaError::setup("terminal L2 response length overflow"));
                    },
                };
                let request = SelectiveL2Request {
                    fold_level,
                    num_claims: 1,
                    num_chunks: 1,
                    inner_width,
                    ring_dimension,
                    fold_basis,
                    fold_digit_count: fold_digits,
                    challenge,
                    response_l2_sq_cap: cap,
                    direct_response_len: Some(response_len),
                };
                assert(request == d.l2_request(cap));
                let matrix = match rules.l2_matrix(request) {
                    Ok(Some(matrix)) => matrix,
                    Err(e) => {
                        return Err(e);
                    },
                    Ok(None) => {
                        return Err(
                            AkitaError::setup(
                                "generated terminal L2 route has no canonical source model",
                            ),
                        );
                    },
                };
                let cap_matches = match matrix.security_route() {
                    InnerCommitSecurityRoute::L2 { response_l2_sq_cap, .. } => response_l2_sq_cap
                        == cap,
                    InnerCommitSecurityRoute::Linf(_) => false,
                };
                if matrix.output_rank() != rank || !cap_matches {
                    return Err(
                        AkitaError::setup(
                            "generated terminal L2 matrix disagrees with its canonical source model",
                        ),
                    );
                }
                matrix
            },
            None => {
                let key = sis_key(
                    policy,
                    SisMatrixRole::Inner,
                    self.inner_commit_matrix.ring_dimension,
                    self.inner_coeff_linf_bound,
                );
                if let Err(e) = rules.audit_rank(key, rank, inner_width) {
                    return Err(e);
                }
                InnerCommitMatrixParams {
                    output_rank: rank,
                    input_width: inner_width,
                    ring_dimension: self.inner_commit_matrix.ring_dimension,
                    route: InnerCommitSecurityRoute::Linf(key),
                }
            },
        };
        assert(d.inner_matrix() == Some(matrix));
        let terminal = TerminalFoldParams {
            fold_challenge_config: challenge,
            blocks: BlockGeometry::new(live, positions, self.geometry.live_blocks),
            inner: InnerRole {
                digits: GadgetDigits::new(self.inner_commit_matrix.log_basis, inner_digits),
                matrix,
            },
            fold: GadgetDigits::new(self.fold_log_basis, fold_digits),
        };
        assert(terminal == d.params());
        if !rules.check_terminal_cap(&terminal, self.z_linf_cap) || self.z_rice_low_bits >= 64
            || self.z_payload_bytes == 0 {
            return Err(AkitaError::setup("generated terminal response contract is invalid"));
        }
        Ok(terminal)
    }
}

// ---------------------------------------------------------------------------
// What expanded parameters hold
// ---------------------------------------------------------------------------

/// Whether parameters keep what their row and their fold say: the layout, the
/// bases, the dimensions, the method, the digits of the fold and the modes.
pub open spec fn row_is_kept<R: ParameterRules>(d: Derivation<R>, p: CommittedGroupModel) -> bool {
    let profile = p.own.profile;
    &&& profile.group == d.layout
    &&& profile.version == GROUP_COMMIT_PHASE_VERSION
    &&& profile.blocks.positions_per_block == d.group.geometry.positions_per_block
    &&& profile.blocks.live_blocks == d.group.geometry.live_blocks
    &&& profile.inner.digits.log_basis == d.group.inner_commit_matrix.log_basis
    &&& profile.outer.digits.log_basis == d.group.outer_commit_matrix.log_basis
    &&& profile.outer.matrix.key.ring_dimension == d.group.outer_commit_matrix.ring_dimension
    &&& p.open_matrix.key.ring_dimension == d.open.ring_dimension
    &&& p.own.opening.log_basis_open == d.open.log_basis
    &&& p.own.opening.opening_method == d.group.opening_method
    &&& p.own.opening.num_digits_fold == d.group.num_digits_fold
    &&& p.own.setup_natural_len is None
    &&& p.payload_mode == d.payload_mode
    &&& p.ring_relation_mode == d.ring_relation_mode
    &&& p.witness_chunk.num_chunks == 1
    &&& match d.source {
        LengthModel::Incoming { prefix, .. } => {
            &&& p.precommitted_groups.len() == 0
            &&& p.setup_prefix is Some <==> prefix is Some
            &&& prefix is Some ==> keeps_row(p.setup_prefix->0, prefix->0.group, d.open.log_basis)
                && p.setup_prefix->0.setup_natural_len == Some(prefix->0.natural_len as usize)
        },
        LengthModel::Pinned { groups, .. } => p.setup_prefix is None && p.precommitted_groups
            == groups,
    }
}

/// Whether the blocks of parameters hold the witness: the live elements cover an
/// incoming witness and the blocks cover the live elements, neither with one to
/// spare; a pinned group fills its blocks.
pub open spec fn blocks_hold_the_witness<R: ParameterRules>(
    d: Derivation<R>,
    p: CommittedGroupModel,
) -> bool {
    let blocks = p.own.profile.blocks;
    let (live, positions, count) = (
        blocks.live_ring_elements_per_claim,
        blocks.positions_per_block,
        blocks.live_blocks,
    );
    let degree = d.group.inner_commit_matrix.ring_dimension;
    match d.source {
        LengthModel::Incoming { len, .. } => {
            &&& live * degree >= len > (live - 1) * degree
            &&& count * positions >= live > (count - 1) * positions
        },
        LengthModel::Pinned { .. } => live == count * positions,
    }
}

/// Whether the inner matrix is as wide as a block of digits and has the rank that
/// its norm calls for; on the Euclidean route it is the one of the response
/// model, under the cap of the row.
pub open spec fn inner_side_stands<R: ParameterRules>(
    d: Derivation<R>,
    p: CommittedGroupModel,
) -> bool {
    let level = match d.role {
        GeneratedFoldExpansionRole::Root { .. } => 0,
        GeneratedFoldExpansionRole::Recursive { fold_level, .. } => fold_level as int,
    };
    let cap = match d.role {
        GeneratedFoldExpansionRole::Root { .. } => None,
        GeneratedFoldExpansionRole::Recursive { response_l2_sq_cap, .. } => response_l2_sq_cap,
    };
    let num_chunks = d.policy.witness_chunk.chunks_at(level) as usize;
    let num_claims = match d.source {
        LengthModel::Incoming { num_claims, .. } => num_claims,
        LengthModel::Pinned { num_claims, .. } => num_claims,
    };
    let inner = p.own.profile.inner;
    let opening = p.own.opening;
    let width = d.rules.block_width_of(
        p.own.profile.blocks.positions_per_block,
        inner.digits.num_digits,
    );
    &&& width is Some
    &&& d.role matches GeneratedFoldExpansionRole::Root { num_digits_inner }
        ==> inner.digits.num_digits == num_digits_inner
    &&& match cap {
        Some(cap) => {
            &&& inner.matrix.l2_cap() == Some(cap)
            &&& d.rules.l2_matrix_of(
                SelectiveL2Request {
                    fold_level: level as usize,
                    num_claims,
                    num_chunks,
                    inner_width: width->0,
                    ring_dimension: d.group.inner_commit_matrix.ring_dimension as usize,
                    fold_basis: pow2(opening.log_basis_open as nat) as usize,
                    fold_digit_count: opening.num_digits_fold,
                    challenge: opening.fold_challenge_config,
                    response_l2_sq_cap: cap,
                    direct_response_len: None,
                },
            ) == Some(inner.matrix)
        },
        None => {
            &&& inner.matrix.ring_dimension == d.group.inner_commit_matrix.ring_dimension
            &&& inner.matrix.input_width == width->0
            &&& inner.matrix.route matches InnerCommitSecurityRoute::Linf(key) && {
                &&& key.role is Inner
                &&& key.policy == d.policy.sis_security_policy
                &&& key.table_digest == d.policy.sis_table_digest
                &&& key.modulus_profile == d.policy.sis_modulus_profile
                &&& key.ring_dimension == inner.matrix.ring_dimension
                &&& Some(key.coeff_linf_bound) == d.rules.response_norm_of(
                    ResponseNormRequest {
                        context: SisContext {
                            policy: key.policy,
                            table_digest: key.table_digest,
                            modulus_profile: key.modulus_profile,
                        },
                        ring_dimension: inner.matrix.ring_dimension as usize,
                        log_basis_open: opening.log_basis_open,
                        challenge: opening.fold_challenge_config,
                        num_digits_fold: opening.num_digits_fold,
                        num_chunks,
                    },
                )
                &&& d.rules.secure_rank_of(key, inner.matrix.input_width) == Some(
                    inner.matrix.output_rank,
                )
                &&& d.rules.rank_audited(key, inner.matrix.output_rank, inner.matrix.input_width)
            }
        },
    }
}

/// Whether the outer matrix takes in what the inner one puts out, and has the
/// rank that its norm calls for.
pub open spec fn outer_side_stands<R: ParameterRules>(
    d: Derivation<R>,
    p: CommittedGroupModel,
) -> bool {
    let profile = p.own.profile;
    let matrix = profile.outer.matrix;
    let num_claims = match d.source {
        LengthModel::Incoming { num_claims, .. } => num_claims,
        LengthModel::Pinned { num_claims, .. } => num_claims,
    };
    &&& matrix.key.role is Outer
    &&& matrix.key.policy == d.policy.sis_security_policy
    &&& matrix.key.table_digest == d.policy.sis_table_digest
    &&& matrix.key.modulus_profile == d.policy.sis_modulus_profile
    &&& Some(matrix.key.coeff_linf_bound) == d.rules.collision_norm_of(
        CollisionNormRequest {
            context: SisContext {
                policy: matrix.key.policy,
                table_digest: matrix.key.table_digest,
                modulus_profile: matrix.key.modulus_profile,
            },
            role: SisMatrixRole::Outer,
            ring_dimension: matrix.key.ring_dimension as usize,
            log_basis: profile.outer.digits.log_basis,
        },
    )
    &&& profile.outer.digits.num_digits == d.rules.open_digits_of(
        DecompositionParams {
            log_basis: profile.outer.digits.log_basis,
            log_commit_bound: d.policy.decomposition.log_commit_bound,
            log_open_bound: d.policy.decomposition.log_open_bound,
        },
    )
    &&& Some(matrix.input_width) == d.rules.slice_width_of(
        SliceWidthRequest {
            slice_count: profile.outer_slice_count,
            live_blocks: profile.blocks.live_blocks,
            num_claims,
            inner_rank: profile.inner.matrix.output_rank,
            num_digits_outer: profile.outer.digits.num_digits,
            d_a: d.group.inner_commit_matrix.ring_dimension as usize,
            d_b: matrix.key.ring_dimension as usize,
        },
    )
    &&& d.rules.secure_rank_of(matrix.key, matrix.input_width) == Some(matrix.output_rank)
    &&& d.rules.rank_audited(matrix.key, matrix.output_rank, matrix.input_width)
}

/// The sum of the widths of the first `n` of several groups.
pub open spec fn widths_before<R: ParameterRules>(
    rules: R,
    groups: Seq<GroupOpenPhaseParams>,
    claim_ext_degree: usize,
    d_d: usize,
    n: nat,
) -> int
    decreases n,
{
    if n == 0 {
        0
    } else {
        widths_before(rules, groups, claim_ext_degree, d_d, (n - 1) as nat)
            + rules.group_width_of(groups[n - 1], claim_ext_degree, d_d)->0
    }
}

/// The groups that a fold opens besides its own: the setup prefix, or the
/// precommitted groups.
pub open spec fn other_groups(p: CommittedGroupModel) -> Seq<GroupOpenPhaseParams> {
    match p.setup_prefix {
        Some(prefix) => seq![prefix],
        None => p.precommitted_groups,
    }
}

/// Whether the opening matrix is as wide as the segments of all groups of the
/// fold together, and has the rank that its norm calls for.
pub open spec fn opening_side_stands<R: ParameterRules>(
    d: Derivation<R>,
    p: CommittedGroupModel,
) -> bool {
    let matrix = p.open_matrix;
    let ext = d.policy.claim_ext_degree;
    let d_d = matrix.key.ring_dimension as usize;
    let others = other_groups(p);
    let num_claims = match d.source {
        LengthModel::Incoming { num_claims, .. } => num_claims,
        LengthModel::Pinned { num_claims, .. } => num_claims,
    };
    let own = d.rules.opening_width_of(
        OpeningWidthRequest {
            opening_method: p.own.opening.opening_method,
            claim_ext_degree: ext,
            d_a: d.group.inner_commit_matrix.ring_dimension as usize,
            d_d,
            num_digits_open: p.own.opening.num_digits_open,
            live_blocks: p.own.profile.blocks.live_blocks,
            num_claims,
        },
    );
    &&& matrix.key.role is Open
    &&& matrix.key.policy == d.policy.sis_security_policy
    &&& matrix.key.table_digest == d.policy.sis_table_digest
    &&& matrix.key.modulus_profile == d.policy.sis_modulus_profile
    &&& Some(matrix.key.coeff_linf_bound) == d.rules.collision_norm_of(
        CollisionNormRequest {
            context: SisContext {
                policy: matrix.key.policy,
                table_digest: matrix.key.table_digest,
                modulus_profile: matrix.key.modulus_profile,
            },
            role: SisMatrixRole::Open,
            ring_dimension: d_d,
            log_basis: p.own.opening.log_basis_open,
        },
    )
    &&& p.own.opening.num_digits_open == d.rules.open_digits_of(
        DecompositionParams {
            log_basis: p.own.opening.log_basis_open,
            log_commit_bound: d.policy.decomposition.log_commit_bound,
            log_open_bound: d.policy.decomposition.log_open_bound,
        },
    )
    &&& own is Some
    &&& forall|g: int|
        0 <= g < others.len() ==> d.rules.group_width_of(#[trigger] others[g], ext, d_d) is Some
    &&& matrix.input_width == own->0 + widths_before(d.rules, others, ext, d_d, others.len())
    &&& d.rules.secure_rank_of(matrix.key, matrix.input_width) == Some(matrix.output_rank)
    &&& d.rules.rank_audited(matrix.key, matrix.output_rank, matrix.input_width)
}

/// Whether the challenges of a fold are those of its method: of the packing
/// subring, or of the inner ring, certified where the row has a Euclidean cap
/// and the family certifies them.
pub open spec fn challenges_stand<R: ParameterRules>(
    d: Derivation<R>,
    p: CommittedGroupModel,
) -> bool {
    let config = p.own.opening.fold_challenge_config;
    let degree = d.group.inner_commit_matrix.ring_dimension as usize;
    match p.own.opening.opening_method {
        OpeningMethod::SubringCoefficientPacking { challenge_subring_dimension } =>
            d.rules.packing_challenge_of(challenge_subring_dimension) == Some(config),
        OpeningMethod::EvaluationTrace => {
            let capped = d.role matches GeneratedFoldExpansionRole::Recursive {
                response_l2_sq_cap,
                ..
            } && response_l2_sq_cap is Some;
            &&& d.rules.challenge_of(degree) is Some
            &&& if capped && d.rules.l2_challenge_of(degree) is Some {
                d.rules.l2_challenge_of(degree) == Some(config)
            } else {
                d.rules.challenge_of(degree) == Some(config)
            }
        },
    }
}

/// The parameters of a group that is expanded answer for themselves: they keep
/// what the row says, and everything that is derived is what the rules give for
/// what stands in the parameters.
pub proof fn law_expanded_groups_answer_for_themselves<R: ParameterRules>(d: Derivation<R>)
    requires
        d.admitted(),
    ensures
        row_is_kept(d, d.params()),
        blocks_hold_the_witness(d, d.params()),
        inner_side_stands(d, d.params()),
        outer_side_stands(d, d.params()),
        opening_side_stands(d, d.params()),
        challenges_stand(d, d.params()),
{
    let p = d.params();
    lemma_blocks_hold(d);
    match d.source {
        LengthModel::Incoming { prefix, .. } => {
            if let Some(prefix) = prefix {
                law_prefix_openings_keep_the_row(
                    d.rules,
                    d.policy,
                    prefix,
                    d.open.log_basis,
                    d.chunks(),
                );
                let opening = d.prefix()->0->0;
                let others = seq![opening];
                let ext = d.policy.claim_ext_degree;
                assert(others[0] == opening);
                assert(widths_before(d.rules, others, ext, d.dims().opening, 0) == 0);
                assert(widths_before(d.rules, others, ext, d.dims().opening, 1)
                    == d.rules.group_width_of(opening, ext, d.dims().opening)->0);
                assert(other_groups(p) == others);
                assert(opening_side_stands(d, p));
            } else {
                assert(other_groups(p) =~= Seq::empty());
                assert(opening_side_stands(d, p));
            }
        },
        LengthModel::Pinned { groups, .. } => {
            let ext = d.policy.claim_ext_degree;
            lemma_widths(d.rules, groups, ext, d.dims().opening);
            assert(other_groups(p) == groups);
            assert(d.others_width()->0 == widths_before(
                d.rules,
                groups,
                ext,
                d.dims().opening,
                groups.len(),
            ));
            assert(p.open_matrix.input_width == d.open_width());
            assert(opening_side_stands(d, p));
        },
    }
}

proof fn lemma_blocks_hold<R: ParameterRules>(d: Derivation<R>)
    requires
        d.inner_admitted(),
    ensures
        blocks_hold_the_witness(d, d.params()),
{
    if let LengthModel::Incoming { len, .. } = d.source {
        let degree = d.group.inner_commit_matrix.ring_dimension as int;
        let positions = d.group.geometry.positions_per_block as int;
        lemma_ceil(len as int, degree);
        lemma_ceil(d.live(), positions);
        assert(d.live() <= len) by (nonlinear_arith)
            requires
                (d.live() - 1) * degree < len,
                degree >= 1,
        ;
    }
}

proof fn lemma_ceil(a: int, b: int)
    requires
        a >= 0,
        b > 0,
    ensures
        checked::ceil_div(a, b) >= 0,
        checked::ceil_div(a, b) * b >= a > (checked::ceil_div(a, b) - 1) * b,
{
    let q = checked::ceil_div(a, b);
    vstd::arithmetic::div_mod::lemma_fundamental_div_mod(a + b - 1, b);
    let r = (a + b - 1) % b;
    assert(q * b >= a && a > (q - 1) * b && q >= 0) by (nonlinear_arith)
        requires
            a + b - 1 == b * q + r,
            0 <= r < b,
            a >= 0,
            b > 0,
    ;
}

proof fn lemma_widths<R: ParameterRules>(
    rules: R,
    groups: Seq<GroupOpenPhaseParams>,
    claim_ext_degree: usize,
    d_d: usize,
)
    requires
        groups_width(rules, groups, claim_ext_degree, d_d) is Some,
    ensures
        groups_width(rules, groups, claim_ext_degree, d_d)->0 >= 0,
        groups_width(rules, groups, claim_ext_degree, d_d)->0 == widths_before(
            rules,
            groups,
            claim_ext_degree,
            d_d,
            groups.len(),
        ),
        forall|g: int|
            0 <= g < groups.len() ==> rules.group_width_of(
                #[trigger] groups[g],
                claim_ext_degree,
                d_d,
            ) is Some,
    decreases groups.len(),
{
    if groups.len() > 0 {
        let before = groups.drop_last();
        lemma_widths(rules, before, claim_ext_degree, d_d);
        lemma_widths_agree(rules, before, groups, claim_ext_degree, d_d, before.len());
        assert forall|g: int| 0 <= g < groups.len() implies rules.group_width_of(
            #[trigger] groups[g],
            claim_ext_degree,
            d_d,
        ) is Some by {
            if g < before.len() {
                assert(before[g] == groups[g]);
            }
        }
    }
}

proof fn lemma_widths_agree<R: ParameterRules>(
    rules: R,
    a: Seq<GroupOpenPhaseParams>,
    b: Seq<GroupOpenPhaseParams>,
    claim_ext_degree: usize,
    d_d: usize,
    n: nat,
)
    requires
        n <= a.len(),
        n <= b.len(),
        forall|g: int| 0 <= g < n ==> #[trigger] a[g] == b[g],
    ensures
        widths_before(rules, a, claim_ext_degree, d_d, n) == widths_before(
            rules,
            b,
            claim_ext_degree,
            d_d,
            n,
        ),
    decreases n,
{
    if n > 0 {
        lemma_widths_agree(rules, a, b, claim_ext_degree, d_d, (n - 1) as nat);
        assert(a[n - 1] == b[n - 1]);
    }
}

/// The parameters of a terminal fold that is expanded keep what the row says,
/// their blocks hold the incoming witness, and their matrix is as wide as a block
/// of digits and has the rank of the row.
pub proof fn law_expanded_terminals_answer_for_themselves<R: ParameterRules>(
    t: TerminalDerivation<R>,
)
    requires
        t.admitted(),
    ensures
        ({
            let p = t.params();
            let degree = t.fold.inner_commit_matrix.ring_dimension;
            let (live, positions, count) = (
                p.blocks.live_ring_elements_per_claim,
                p.blocks.positions_per_block,
                p.blocks.live_blocks,
            );
            let width = t.rules.block_width_of(positions, p.inner.digits.num_digits);
            let matrix = p.inner.matrix;
            &&& p.blocks == t.fold.geometry
            &&& live * degree >= t.input_len > (live - 1) * degree
            &&& count * positions >= live > (count - 1) * positions
            &&& p.inner.digits.log_basis == t.fold.inner_commit_matrix.log_basis
            &&& p.inner.digits.num_digits == t.fold.num_digits_inner > 0
            &&& p.fold.log_basis == t.fold.fold_log_basis > 0
            &&& p.fold.num_digits == t.fold.fold_digit_count > 0
            &&& matrix.output_rank == t.fold.inner_output_rank > 0
            &&& width is Some
            &&& match t.fold.response_l2_sq_cap {
                Some(cap) => {
                    &&& t.rules.l2_challenge_of(degree as usize) == Some(p.fold_challenge_config)
                    &&& matrix.l2_cap() == Some(cap)
                    &&& t.rules.l2_matrix_of(
                        SelectiveL2Request {
                            fold_level: t.level,
                            num_claims: 1,
                            num_chunks: 1,
                            inner_width: width->0,
                            ring_dimension: degree as usize,
                            fold_basis: pow2(p.fold.log_basis as nat) as usize,
                            fold_digit_count: p.fold.num_digits,
                            challenge: p.fold_challenge_config,
                            response_l2_sq_cap: cap,
                            direct_response_len: Some((width->0 * degree) as usize),
                        },
                    ) == Some(matrix)
                },
                None => {
                    &&& t.rules.challenge_of(degree as usize) == Some(p.fold_challenge_config)
                    &&& matrix.input_width == width->0
                    &&& matrix.ring_dimension == degree
                    &&& matrix.route matches InnerCommitSecurityRoute::Linf(key) && {
                        &&& key.role is Inner
                        &&& key.policy == t.policy.sis_security_policy
                        &&& key.table_digest == t.policy.sis_table_digest
                        &&& key.modulus_profile == t.policy.sis_modulus_profile
                        &&& key.ring_dimension == degree
                        &&& key.coeff_linf_bound == t.fold.inner_coeff_linf_bound > 0
                        &&& t.rules.rank_audited(key, matrix.output_rank, matrix.input_width)
                    }
                },
            }
        }),
{
    lemma_ceil(t.input_len as int, t.d_a() as int);
    lemma_ceil(
        t.fold.geometry.live_ring_elements_per_claim as int,
        t.fold.geometry.positions_per_block as int,
    );
}

/// A frozen group is admitted, or not, for what stands in its row: its profile, its
/// method and its fold digits, under the challenges of its own ring or of its
/// packing subring, in the basis and for the chunks of the fold that opens it.
pub proof fn law_frozen_groups_ask_for_themselves<R: ParameterRules>(
    rules: R,
    policy: PlannerPolicy,
    g: GeneratedFrozenGroup,
    natural_len: Option<usize>,
    log_basis_open: u32,
    chunks: usize,
)
    requires
        natural_len is Some ==> natural_len->0 > 0,
    ensures
        ({
            let challenge = match g.opening_method {
                OpeningMethod::EvaluationTrace => rules.challenge_of(
                    g.profile.inner.matrix.ring_dimension as usize,
                ),
                OpeningMethod::SubringCoefficientPacking { challenge_subring_dimension } =>
                    rules.challenge_of(challenge_subring_dimension),
            };
            let opening = frozen_opening(rules, policy, g, natural_len, log_basis_open, chunks);
            &&& challenge is None ==> opening is None
            &&& challenge is Some ==> opening == rules.admission_of(
                AdmissionRequest {
                    profile: g.profile,
                    setup_natural_len: natural_len,
                    num_digits_fold: g.num_digits_fold as usize,
                    context: SisContext {
                        policy: policy.sis_security_policy,
                        table_digest: policy.sis_table_digest,
                        modulus_profile: policy.sis_modulus_profile,
                    },
                    decomposition: policy.decomposition,
                    num_response_chunks: chunks,
                    opening_method: g.opening_method,
                    challenge: challenge->0,
                    log_basis_open,
                },
            )
        }),
{
}

/// A setup prefix is opened exactly when its group is admitted over its natural
/// length, which is not zero, and the domain of its variables holds that length.
pub proof fn law_prefixes_are_opened_over_their_domain<R: ParameterRules>(
    rules: R,
    policy: PlannerPolicy,
    p: GeneratedSetupPrefix,
    log_basis_open: u32,
    chunks: usize,
)
    ensures
        prefix_opening(rules, policy, p, log_basis_open, chunks) is Some <==> {
            let opening = frozen_opening(
                rules,
                policy,
                p.group,
                Some(p.natural_len as usize),
                log_basis_open,
                chunks,
            );
            &&& 0 < p.natural_len <= usize::MAX
            &&& opening is Some
            &&& pow2(opening->0.profile.group.num_vars as nat) <= usize::MAX
            &&& rules.prefix_domain_allowed(
                p.natural_len as usize,
                pow2(opening->0.profile.group.num_vars as nat) as usize,
            )
        },
{
}

/// Whether the choices of a row fit the place of its group, and what else the rules
/// are asked for agrees: the dimensions, the slices, the shape of the blocks, the
/// digits of the inner side, the setup prefix, the encoding of the source, and the
/// parameters as a whole.
pub open spec fn choices_are_allowed<R: ParameterRules>(
    d: Derivation<R>,
    p: CommittedGroupModel,
) -> bool {
    let level = match d.role {
        GeneratedFoldExpansionRole::Root { .. } => 0,
        GeneratedFoldExpansionRole::Recursive { fold_level, .. } => fold_level as int,
    };
    let capped = d.role matches GeneratedFoldExpansionRole::Recursive { response_l2_sq_cap, .. }
        && response_l2_sq_cap is Some;
    let num_chunks = d.policy.witness_chunk.chunks_at(level) as usize;
    let dims = CommitmentRingDims {
        inner: d.group.inner_commit_matrix.ring_dimension as usize,
        outer: d.group.outer_commit_matrix.ring_dimension as usize,
        opening: d.open.ring_dimension as usize,
    };
    let bits = d.policy.decomposition.field_bits_spec();
    let profile = p.own.profile;
    let blocks = profile.blocks.live_blocks;
    let context = SisContext {
        policy: d.policy.sis_security_policy,
        table_digest: d.policy.sis_table_digest,
        modulus_profile: d.policy.sis_modulus_profile,
    };
    let norm = d.rules.response_norm_of(
        ResponseNormRequest {
            context,
            ring_dimension: dims.inner,
            log_basis_open: p.own.opening.log_basis_open,
            challenge: p.own.opening.fold_challenge_config,
            num_digits_fold: p.own.opening.num_digits_fold,
            num_chunks,
        },
    );
    let width = d.rules.block_width_of(
        profile.blocks.positions_per_block,
        profile.inner.digits.num_digits,
    );
    &&& d.rules.dims_allowed(dims)
    &&& dims.inner > 0
    &&& profile.outer_slice_count.count() == d.group.outer_slice_count
    &&& d.rules.slices_allowed(
        profile.outer_slice_count,
        level as usize,
        d.payload_mode,
        blocks,
    )
    &&& 0 < blocks <= usize::MAX / 2 + 1
    &&& d.group.num_digits_fold != 0
    &&& d.role is Recursive ==> profile.inner.digits.num_digits == d.rules.inner_digits_of(
        DecompositionParams {
            log_basis: d.group.inner_commit_matrix.log_basis,
            log_commit_bound: bits,
            log_open_bound: Some(bits),
        },
        level == 0,
    )
    &&& norm is Some
    &&& d.rules.secure_rank_of(
        SisTableKey {
            policy: context.policy,
            table_digest: context.table_digest,
            modulus_profile: context.modulus_profile,
            role: SisMatrixRole::Inner,
            ring_dimension: d.group.inner_commit_matrix.ring_dimension,
            coeff_linf_bound: norm->0,
        },
        width->0,
    ) is Some
    &&& capped ==> pow2(d.open.log_basis as nat) <= usize::MAX
    &&& p.witness_chunk.num_activated_levels == 0
    &&& p.source_encoding == d.rules.source_encoding_of(
        SourceEncodingRequest {
            opening_method: d.group.opening_method,
            claim_ext_degree: d.policy.claim_ext_degree,
            ring_dimension: dims.inner,
            num_vars: match d.source {
                LengthModel::Incoming { len, .. } => checked::two_adic(len as nat),
                LengthModel::Pinned { .. } => {
                    let len = d.group.geometry.live_ring_elements_per_claim * dims.inner;
                    if 0 < len <= usize::MAX && is_pow2(len) {
                        checked::two_adic(len as nat)
                    } else {
                        0
                    }
                },
            } as usize,
            is_root: level == 0,
        },
    )
    &&& d.rules.params_allowed(p)
    &&& match d.source {
        LengthModel::Incoming { len, prefix, .. } => {
            &&& len > 0
            &&& profile.blocks.positions_per_block > 0
            &&& prefix matches Some(prefix) ==> p.setup_prefix == prefix_opening(
                d.rules,
                d.policy,
                prefix,
                d.open.log_basis,
                num_chunks,
            )
        },
        LengthModel::Pinned { groups, .. } => groups.len() > 0,
    }
}

/// Whether parameters are those of a group: they answer for themselves and the
/// choices of the row are allowed.
pub open spec fn group_stands<R: ParameterRules>(d: Derivation<R>, p: CommittedGroupModel) -> bool {
    &&& row_is_kept(d, p)
    &&& blocks_hold_the_witness(d, p)
    &&& inner_side_stands(d, p)
    &&& outer_side_stands(d, p)
    &&& opening_side_stands(d, p)
    &&& challenges_stand(d, p)
    &&& choices_are_allowed(d, p)
}

/// A group expands to parameters exactly when they stand for it, so that it is
/// refused only where no parameters do.
pub proof fn law_groups_expand_to_what_stands_for_them<R: ParameterRules>(
    d: Derivation<R>,
    p: CommittedGroupModel,
)
    ensures
        d.admitted() && p == d.params() <==> group_stands(d, p),
{
    if d.admitted() && p == d.params() {
        law_expanded_groups_answer_for_themselves(d);
        params::law_slice_counts_are_dyadic(d.slices()->0, d.group.outer_slice_count as int);
        lemma_choices_of_expanded(d);
    }
    if group_stands(d, p) {
        lemma_standing_inner(d, p);
        lemma_standing_outer(d, p);
    }
}

proof fn lemma_choices_of_expanded<R: ParameterRules>(d: Derivation<R>)
    requires
        d.admitted(),
    ensures
        choices_are_allowed(d, d.params()),
{
    params::law_slice_counts_are_dyadic(d.slices()->0, d.group.outer_slice_count as int);
}

proof fn lemma_ceil_is(a: int, b: int, q: int)
    requires
        b > 0,
        q * b >= a > (q - 1) * b,
    ensures
        checked::ceil_div(a, b) == q,
{
    assert((q - 1) * b == q * b - b) by (nonlinear_arith);
    vstd::arithmetic::div_mod::lemma_fundamental_div_mod_converse(
        a + b - 1,
        b,
        q,
        a + b - 1 - q * b,
    );
}

/// The inner side of parameters that stand for a group is the one that is derived.
proof fn lemma_standing_inner<R: ParameterRules>(d: Derivation<R>, p: CommittedGroupModel)
    requires
        row_is_kept(d, p),
        blocks_hold_the_witness(d, p),
        inner_side_stands(d, p),
        challenges_stand(d, p),
        choices_are_allowed(d, p),
    ensures
        d.inner_admitted(),
        d.slices() == Some(p.own.profile.outer_slice_count),
        d.challenge() == Some(p.own.opening.fold_challenge_config),
        d.inner_matrix() == Some(p.own.profile.inner.matrix),
        d.inner_digits() == p.own.profile.inner.digits.num_digits,
        d.live() == p.own.profile.blocks.live_ring_elements_per_claim,
{
    let profile = p.own.profile;
    let (live, positions, count) = (
        profile.blocks.live_ring_elements_per_claim as int,
        profile.blocks.positions_per_block as int,
        profile.blocks.live_blocks as int,
    );
    params::law_slice_counts_are_dyadic(
        profile.outer_slice_count,
        d.group.outer_slice_count as int,
    );
    if let LengthModel::Incoming { len, .. } = d.source {
        lemma_ceil_is(len as int, d.group.inner_commit_matrix.ring_dimension as int, live);
        lemma_ceil_is(live, positions, count);
    }
    assert(d.live() == live);
    assert(d.length_fits());
    assert(d.challenge() == Some(p.own.opening.fold_challenge_config));
    assert(d.inner_digits() == profile.inner.digits.num_digits);
    assert(d.inner_norm() is Some);
    assert(d.inner_rank() is Some);
    assert(d.inner_matrix() == Some(profile.inner.matrix));
}

/// The rest of parameters that stand for a group is what is derived.
proof fn lemma_standing_outer<R: ParameterRules>(d: Derivation<R>, p: CommittedGroupModel)
    requires
        group_stands(d, p),
        d.inner_admitted(),
        d.slices() == Some(p.own.profile.outer_slice_count),
        d.challenge() == Some(p.own.opening.fold_challenge_config),
        d.inner_matrix() == Some(p.own.profile.inner.matrix),
        d.inner_digits() == p.own.profile.inner.digits.num_digits,
        d.live() == p.own.profile.blocks.live_ring_elements_per_claim,
    ensures
        d.outer_admitted(),
        p == d.params(),
{
    let profile = p.own.profile;
    let ext = d.policy.claim_ext_degree;
    let d_d = d.dims().opening;
    let others = other_groups(p);
    match d.source {
        LengthModel::Incoming { prefix, .. } => {
            if prefix is Some {
                let opening = p.setup_prefix->0;
                assert(others =~= seq![opening]);
                assert(others[0] == opening);
                assert(widths_before(d.rules, others, ext, d_d, 0) == 0);
                assert(widths_before(d.rules, others, ext, d_d, 1) == d.rules.group_width_of(
                    opening,
                    ext,
                    d_d,
                )->0);
            } else {
                assert(others.len() == 0);
                assert(p.precommitted_groups =~= Seq::empty());
            }
        },
        LengthModel::Pinned { groups, .. } => {
            assert(others == groups);
            lemma_widths_exist(d.rules, groups, ext, d_d);
        },
    }
    assert(d.prefix() == Some(p.setup_prefix));
    assert(d.precommitted() =~= p.precommitted_groups);
    assert(d.others_width() == Some(widths_before(d.rules, others, ext, d_d, others.len())));
    assert(d.outer_key() == profile.outer.matrix.key);
    assert(d.open_key() == p.open_matrix.key);
    assert(d.outer_width() == Some(profile.outer.matrix.input_width));
    assert(d.own_width() is Some);
    assert(d.open_width() == p.open_matrix.input_width);
    assert(d.outer_rank() == Some(profile.outer.matrix.output_rank));
    assert(d.open_rank() == Some(p.open_matrix.output_rank));
    let made = d.params();
    assert(made.own.profile.outer.matrix == profile.outer.matrix);
    assert(made.own.profile.outer == profile.outer);
    assert(made.own.profile.inner == profile.inner);
    assert(made.own.profile.blocks == profile.blocks);
    assert(made.own.profile == profile);
    assert(made.own.opening == p.own.opening);
    assert(made.own == p.own);
    assert(made.open_matrix == p.open_matrix);
    assert(made.source_encoding == p.source_encoding);
    assert(made.witness_chunk == p.witness_chunk);
    assert(made == p);
}

proof fn lemma_widths_exist<R: ParameterRules>(
    rules: R,
    groups: Seq<GroupOpenPhaseParams>,
    claim_ext_degree: usize,
    d_d: usize,
)
    requires
        forall|g: int|
            0 <= g < groups.len() ==> rules.group_width_of(
                #[trigger] groups[g],
                claim_ext_degree,
                d_d,
            ) is Some,
    ensures
        groups_width(rules, groups, claim_ext_degree, d_d) == Some(
            widths_before(rules, groups, claim_ext_degree, d_d, groups.len()),
        ),
    decreases groups.len(),
{
    if groups.len() > 0 {
        let before = groups.drop_last();
        assert forall|g: int| 0 <= g < before.len() implies rules.group_width_of(
            #[trigger] before[g],
            claim_ext_degree,
            d_d,
        ) is Some by {
            assert(before[g] == groups[g]);
        }
        lemma_widths_exist(rules, before, claim_ext_degree, d_d);
        lemma_widths_agree(rules, before, groups, claim_ext_degree, d_d, before.len());
    }
}

/// Whether parameters are those of a terminal fold: they keep what the row says,
/// their blocks, of a power of two places, hold the incoming witness, their matrix is
/// as wide as a block of digits and has the rank of the row, and the response that
/// the row describes is allowed.
pub open spec fn terminal_stands<R: ParameterRules>(
    t: TerminalDerivation<R>,
    p: TerminalFoldParams,
) -> bool {
    let degree = t.fold.inner_commit_matrix.ring_dimension;
    let (live, positions, count) = (
        p.blocks.live_ring_elements_per_claim,
        p.blocks.positions_per_block,
        p.blocks.live_blocks,
    );
    let width = t.rules.block_width_of(positions, p.inner.digits.num_digits);
    let matrix = p.inner.matrix;
    &&& degree as usize > 0
    &&& t.input_len > 0
    &&& p.blocks == t.fold.geometry
    &&& positions > 0
    &&& is_pow2(positions as int)
    &&& live * (degree as usize) >= t.input_len > (live - 1) * (degree as usize)
    &&& count * positions >= live > (count - 1) * positions
    &&& p.inner.digits.log_basis == t.fold.inner_commit_matrix.log_basis
    &&& p.inner.digits.num_digits == t.fold.num_digits_inner as usize
    &&& t.fold.num_digits_inner > 0
    &&& p.fold.log_basis == t.fold.fold_log_basis
    &&& t.fold.fold_log_basis > 0
    &&& p.fold.num_digits == t.fold.fold_digit_count as usize
    &&& t.fold.fold_digit_count > 0
    &&& matrix.output_rank == t.fold.inner_output_rank as usize
    &&& t.fold.inner_output_rank > 0
    &&& width is Some
    &&& match t.fold.response_l2_sq_cap {
        Some(cap) => {
            &&& t.rules.l2_challenge_of(degree as usize) == Some(p.fold_challenge_config)
            &&& matrix.l2_cap() == Some(cap)
            &&& pow2(p.fold.log_basis as nat) <= usize::MAX
            &&& width->0 * (degree as usize) <= usize::MAX
            &&& t.rules.l2_matrix_of(
                SelectiveL2Request {
                    fold_level: t.level,
                    num_claims: 1,
                    num_chunks: 1,
                    inner_width: width->0,
                    ring_dimension: degree as usize,
                    fold_basis: pow2(p.fold.log_basis as nat) as usize,
                    fold_digit_count: p.fold.num_digits,
                    challenge: p.fold_challenge_config,
                    response_l2_sq_cap: cap,
                    direct_response_len: Some((width->0 * (degree as usize)) as usize),
                },
            ) == Some(matrix)
        },
        None => {
            &&& t.rules.challenge_of(degree as usize) == Some(p.fold_challenge_config)
            &&& t.fold.inner_coeff_linf_bound > 0
            &&& matrix.input_width == width->0
            &&& matrix.ring_dimension == degree
            &&& matrix.route == InnerCommitSecurityRoute::Linf(
                SisTableKey {
                    policy: t.policy.sis_security_policy,
                    table_digest: t.policy.sis_table_digest,
                    modulus_profile: t.policy.sis_modulus_profile,
                    role: SisMatrixRole::Inner,
                    ring_dimension: degree,
                    coeff_linf_bound: t.fold.inner_coeff_linf_bound,
                },
            )
            &&& t.rules.rank_audited(
                SisTableKey {
                    policy: t.policy.sis_security_policy,
                    table_digest: t.policy.sis_table_digest,
                    modulus_profile: t.policy.sis_modulus_profile,
                    role: SisMatrixRole::Inner,
                    ring_dimension: degree,
                    coeff_linf_bound: t.fold.inner_coeff_linf_bound,
                },
                matrix.output_rank,
                matrix.input_width,
            )
        },
    }
    &&& t.rules.terminal_cap_allowed(p, t.fold.z_linf_cap)
    &&& t.fold.z_rice_low_bits < 64
    &&& t.fold.z_payload_bytes > 0
}

/// A terminal fold expands to parameters exactly when they stand for it, so that it
/// is refused only where no parameters do.
pub proof fn law_terminals_expand_to_what_stands_for_them<R: ParameterRules>(
    t: TerminalDerivation<R>,
    p: TerminalFoldParams,
)
    ensures
        t.admitted() && p == t.params() <==> terminal_stands(t, p),
{
    let g = t.fold.geometry;
    if t.admitted() && p == t.params() {
        lemma_ceil(t.input_len as int, t.d_a() as int);
        lemma_ceil(g.live_ring_elements_per_claim as int, g.positions_per_block as int);
    }
    if terminal_stands(t, p) {
        lemma_ceil_is(t.input_len as int, t.d_a() as int, g.live_ring_elements_per_claim as int);
        lemma_ceil_is(
            g.live_ring_elements_per_claim as int,
            g.positions_per_block as int,
            g.live_blocks as int,
        );
        assert(t.inner_matrix() == Some(p.inner.matrix));
        let made = t.params();
        assert(made.inner == p.inner);
        assert(made.fold == p.fold);
        assert(made == p);
    }
}

} // verus!
