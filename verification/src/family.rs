//! A parameter family whose answers are written down in a few numbers.
//!
//! Digits, norms, ranks, payloads and successor lengths do not depend on the
//! question. It is the smallest family under which rows expand, schedules are
//! priced and candidates are generated.

use crate::candidates;
use crate::candidates::{
    CandidateQuestion, CandidateRules, FoldCandidatePolicy, InnerBasisSource, LevelCandidate, LevelCandidateModel,
    RecursiveCandidateRequest, RecursiveFoldWork, RecursiveViews, RecursiveViewsModel,
    RelationDomain, RootCandidateRequest, SuffixTopology,
};
use crate::checked;
use crate::checked::div_ceil;
use crate::error;
use crate::error::{AkitaError, ErrorModel};
use crate::l2_norm::{NormSoundness, PhysicalResponsePlan};
use crate::opening_domain::{ListingQuestion, OpeningRules, PlannerOpeningCandidate};
use crate::params::{
    AkitaScheduleLookupKey, BasisRange, ChunkedWitnessCfg, CommitmentPayloadMode,
    CommitmentRingDims, CommitmentSliceCount, CommittedSourceEncoding, DecompositionParams,
    GroupCommitPhaseParams, GroupOpenPhaseParams, GroupOpeningPlan, HonestFoldPolicySpec,
    InnerCommitMatrixParams, InnerCommitSecurityRoute, OpenCommitMatrixParams, OpeningMethod,
    PlannerPolicy, PolynomialGroupLayout, RingRelationMode, SisL2TableKey, SisModulusProfileId,
    SisTableKey, SparseChallengeConfig,
};
use crate::quotients::TransformCapacity;
use crate::rules::{
    AdmissionRequest, CollisionNormRequest, CommittedGroupModel, CommittedGroupParams,
    ExpansionQuestion, GrindingCost, LevelPayload, OpeningWidthRequest, ParameterRules, ResponseNormRequest,
    SelectiveL2Request, SliceWidthRequest, SourceEncodingRequest, SuccessorModel,
    TailSegmentGroupLayout, TerminalFoldParams,
};
use crate::walk::{FoldStep, LevelModel, ScheduleQuestion, ScheduleRules};
use vstd::prelude::*;

verus! {

/// A parameter family of constant answers.
#[derive(Clone, Copy, Debug, PartialEq, Eq, Structural)]
pub struct UniformFamily {
    /// The degrees that a search ranges over.
    pub dims: CommitmentRingDims,
    pub challenge: SparseChallengeConfig,
    pub num_digits: usize,
    pub norm: u128,
    pub rank: usize,
    pub next_witness_len: usize,
    pub payload: LevelPayload,
    pub terminal_bytes: usize,
    pub grinding: GrindingCost,
    /// The one fold that a search finds: its group and its opening matrix.
    pub own: GroupOpenPhaseParams,
    pub open_matrix: OpenCommitMatrixParams,
}

impl UniformFamily {
    /// The one packed opening over some degrees: the inner ring is its own
    /// subring.
    pub open spec fn packed_opening(self, dims: CommitmentRingDims) -> PlannerOpeningCandidate {
        PlannerOpeningCandidate {
            method: OpeningMethod::SubringCoefficientPacking {
                challenge_subring_dimension: dims.inner,
            },
            fold_challenge_config: self.challenge,
        }
    }

    /// The contents of the one fold.
    pub open spec fn fold_model(self) -> CommittedGroupModel {
        CommittedGroupModel {
            setup_prefix: None,
            precommitted_groups: Seq::empty(),
            own: self.own,
            open_matrix: self.open_matrix,
            payload_mode: CommitmentPayloadMode::Compressed,
            ring_relation_mode: RingRelationMode::QuotientLift,
            source_encoding: CommittedSourceEncoding { tag: 0, num_vars: 0 },
            witness_chunk: ChunkedWitnessCfg::non_chunked(),
        }
    }

    /// The one fold and what it leaves.
    pub open spec fn level_model(self) -> LevelCandidateModel {
        LevelCandidateModel { params: self.fold_model(), next_witness_len: self.next_witness_len }
    }

    fn fold(&self) -> (r: CommittedGroupParams)
        ensures
            r@ == self.fold_model(),
    {
        let r = CommittedGroupParams {
            setup_prefix: None,
            precommitted_groups: Vec::new(),
            own: self.own,
            open_matrix: self.open_matrix,
            payload_mode: CommitmentPayloadMode::Compressed,
            ring_relation_mode: RingRelationMode::QuotientLift,
            source_encoding: CommittedSourceEncoding { tag: 0, num_vars: 0 },
            witness_chunk: ChunkedWitnessCfg::default_non_chunked(),
        };
        proof {
            assert(r@.precommitted_groups =~= self.fold_model().precommitted_groups);
        }
        r
    }

    fn level_list(&self) -> (r: Vec<LevelCandidate>)
        ensures
            candidates::level_models(r@) == seq![self.level_model()],
    {
        let mut r: Vec<LevelCandidate> = Vec::new();
        r.push(LevelCandidate { params: self.fold(), next_witness_len: self.next_witness_len });
        proof {
            assert(candidates::level_models(r@) =~= seq![self.level_model()]);
        }
        r
    }

    fn fold_list(&self) -> (r: Vec<CommittedGroupParams>)
        ensures
            candidates::param_models(r@) == seq![self.fold_model()],
    {
        let mut r: Vec<CommittedGroupParams> = Vec::new();
        r.push(self.fold());
        proof {
            assert(candidates::param_models(r@) =~= seq![self.fold_model()]);
        }
        r
    }
}

/// A product, if it fits.
pub open spec fn fitting_product(a: usize, b: usize) -> Option<usize> {
    if a * b <= usize::MAX {
        Some((a * b) as usize)
    } else {
        None
    }
}

/// Whether blocks of a geometry hold the live elements.
pub open spec fn blocks_hold(profile: GroupCommitPhaseParams) -> bool {
    let g = profile.blocks;
    g.positions_per_block > 0 && checked::ceil_div(
        g.live_ring_elements_per_claim as int,
        g.positions_per_block as int,
    ) == g.live_blocks
}

/// What the family refuses a question with.
pub open spec fn family_refusal() -> Option<ErrorModel> {
    error::setup_refusal("the parameter family has no answer"@)
}

fn no_answer() -> (e: AkitaError)
    ensures
        Some(e@) == family_refusal(),
{
    AkitaError::setup("the parameter family has no answer")
}

/// A check of the family.
fn allow(allowed: bool) -> (r: Result<(), AkitaError>)
    ensures
        error::settles(r, allowed, family_refusal()),
{
    if allowed {
        Ok(())
    } else {
        Err(no_answer())
    }
}

/// An answer of the family.
fn give<T>(value: Option<T>) -> (r: Result<T, AkitaError>)
    ensures
        error::answers(r, value, family_refusal()),
{
    match value {
        Some(v) => Ok(v),
        None => Err(no_answer()),
    }
}

impl ParameterRules for UniformFamily {
    open spec fn refusal_of(&self, question: ExpansionQuestion) -> Option<ErrorModel> {
        if question is L2Matrix {
            None
        } else {
            family_refusal()
        }
    }

    open spec fn dims_allowed(&self, dims: CommitmentRingDims) -> bool {
        dims.inner > 0 && dims.outer > 0 && dims.opening > 0
    }

    fn check_dims(&self, dims: CommitmentRingDims) -> (r: Result<(), AkitaError>) {
        allow(dims.inner > 0 && dims.outer > 0 && dims.opening > 0)
    }

    open spec fn slices_allowed(
        &self,
        slices: CommitmentSliceCount,
        fold_level: usize,
        payload_mode: CommitmentPayloadMode,
        live_blocks: usize,
    ) -> bool {
        true
    }

    fn check_slices(
        &self,
        slices: CommitmentSliceCount,
        fold_level: usize,
        payload_mode: CommitmentPayloadMode,
        live_blocks: usize,
    ) -> (r: Result<(), AkitaError>) {
        Ok(())
    }

    open spec fn chunks_allowed(&self, cfg: ChunkedWitnessCfg) -> bool {
        cfg.num_activated_levels > 0
    }

    fn check_chunks(&self, cfg: ChunkedWitnessCfg) -> (r: Result<(), AkitaError>) {
        allow(cfg.num_activated_levels > 0)
    }

    open spec fn challenge_of(&self, ring_dimension: usize) -> Option<SparseChallengeConfig> {
        Some(self.challenge)
    }

    fn challenge(&self, ring_dimension: usize) -> (r: Result<SparseChallengeConfig, AkitaError>) {
        Ok(self.challenge)
    }

    open spec fn packing_challenge_of(&self, subring_dimension: usize) -> Option<
        SparseChallengeConfig,
    > {
        Some(self.challenge)
    }

    fn packing_challenge(&self, subring_dimension: usize) -> (r: Option<SparseChallengeConfig>) {
        Some(self.challenge)
    }

    open spec fn l2_challenge_of(&self, ring_dimension: usize) -> Option<SparseChallengeConfig> {
        Some(self.challenge)
    }

    fn l2_challenge(&self, ring_dimension: usize) -> (r: Option<SparseChallengeConfig>) {
        Some(self.challenge)
    }

    open spec fn inner_digits_of(&self, decomposition: DecompositionParams, is_root: bool) -> usize {
        self.num_digits
    }

    fn inner_digits(&self, decomposition: DecompositionParams, is_root: bool) -> (n: usize) {
        self.num_digits
    }

    open spec fn open_digits_of(&self, decomposition: DecompositionParams) -> usize {
        self.num_digits
    }

    fn open_digits(&self, decomposition: DecompositionParams) -> (n: usize) {
        self.num_digits
    }

    open spec fn block_width_of(&self, positions: usize, num_digits: usize) -> Option<usize> {
        fitting_product(positions, num_digits)
    }

    fn block_width(&self, positions: usize, num_digits: usize) -> (r: Option<usize>) {
        positions.checked_mul(num_digits)
    }

    open spec fn response_norm_of(&self, request: ResponseNormRequest) -> Option<u128> {
        Some(self.norm)
    }

    fn response_norm(&self, request: ResponseNormRequest) -> (r: Option<u128>) {
        Some(self.norm)
    }

    open spec fn collision_norm_of(&self, request: CollisionNormRequest) -> Option<u128> {
        Some(self.norm)
    }

    fn collision_norm(&self, request: CollisionNormRequest) -> (r: Option<u128>) {
        Some(self.norm)
    }

    open spec fn secure_rank_of(&self, key: SisTableKey, width: usize) -> Option<usize> {
        Some(self.rank)
    }

    fn secure_rank(&self, key: SisTableKey, width: usize) -> (r: Option<usize>) {
        Some(self.rank)
    }

    open spec fn rank_audited(&self, key: SisTableKey, rank: usize, width: usize) -> bool {
        rank == self.rank
    }

    fn audit_rank(&self, key: SisTableKey, rank: usize, width: usize) -> (r: Result<
        (),
        AkitaError,
    >) {
        allow(rank == self.rank)
    }

    open spec fn l2_matrix_of(&self, request: SelectiveL2Request) -> Option<
        InnerCommitMatrixParams,
    > {
        Some(
            InnerCommitMatrixParams {
                output_rank: self.rank,
                input_width: request.inner_width,
                ring_dimension: request.ring_dimension as u32,
                route: InnerCommitSecurityRoute::L2 {
                    table_key: SisL2TableKey {
                        ring_dimension: request.ring_dimension as u32,
                        collision_l2_sq: self.norm,
                    },
                    response_l2_sq_cap: request.response_l2_sq_cap,
                },
            },
        )
    }

    fn l2_matrix(&self, request: SelectiveL2Request) -> (r: Result<
        Option<InnerCommitMatrixParams>,
        AkitaError,
    >) {
        let matrix = InnerCommitMatrixParams {
            output_rank: self.rank,
            input_width: request.inner_width,
            ring_dimension: request.ring_dimension as u32,
            route: InnerCommitSecurityRoute::L2 {
                table_key: SisL2TableKey {
                    ring_dimension: request.ring_dimension as u32,
                    collision_l2_sq: self.norm,
                },
                response_l2_sq_cap: request.response_l2_sq_cap,
            },
        };
        Ok(Some(matrix))
    }

    open spec fn slice_width_of(&self, request: SliceWidthRequest) -> Option<usize> {
        Some(request.live_blocks)
    }

    fn slice_width(&self, request: SliceWidthRequest) -> (r: Result<usize, AkitaError>) {
        Ok(request.live_blocks)
    }

    open spec fn opening_width_of(&self, request: OpeningWidthRequest) -> Option<usize> {
        Some(request.live_blocks)
    }

    fn opening_width(&self, request: OpeningWidthRequest) -> (r: Result<usize, AkitaError>) {
        Ok(request.live_blocks)
    }

    open spec fn group_width_of(
        &self,
        group: GroupOpenPhaseParams,
        claim_ext_degree: usize,
        d_d: usize,
    ) -> Option<usize> {
        Some(group.profile.blocks.live_blocks)
    }

    fn group_width(
        &self,
        group: GroupOpenPhaseParams,
        claim_ext_degree: usize,
        d_d: usize,
    ) -> (r: Result<usize, AkitaError>) {
        Ok(group.profile.blocks.live_blocks)
    }

    open spec fn admission_of(&self, request: AdmissionRequest) -> Option<GroupOpenPhaseParams> {
        if blocks_hold(request.profile) {
            Some(
                GroupOpenPhaseParams {
                    profile: request.profile,
                    opening: GroupOpeningPlan {
                        opening_method: request.opening_method,
                        fold_challenge_config: request.challenge,
                        log_basis_open: request.log_basis_open,
                        num_digits_open: self.num_digits,
                        num_digits_fold: request.num_digits_fold,
                    },
                    setup_natural_len: request.setup_natural_len,
                },
            )
        } else {
            None
        }
    }

    proof fn law_admission_carries_its_request(&self, request: AdmissionRequest) {
    }

    fn admission(&self, request: AdmissionRequest) -> (r: Result<GroupOpenPhaseParams, AkitaError>) {
        let g = request.profile.blocks;
        if g.positions_per_block > 0 && div_ceil(
            g.live_ring_elements_per_claim,
            g.positions_per_block,
        ) == g.live_blocks {
            Ok(
                GroupOpenPhaseParams {
                    profile: request.profile,
                    opening: GroupOpeningPlan {
                        opening_method: request.opening_method,
                        fold_challenge_config: request.challenge,
                        log_basis_open: request.log_basis_open,
                        num_digits_open: self.num_digits,
                        num_digits_fold: request.num_digits_fold,
                    },
                    setup_natural_len: request.setup_natural_len,
                },
            )
        } else {
            Err(no_answer())
        }
    }

    open spec fn prefix_domain_allowed(&self, natural_len: usize, padded_len: usize) -> bool {
        0 < natural_len <= padded_len
    }

    fn check_prefix_domain(&self, natural_len: usize, padded_len: usize) -> (r: Result<
        (),
        AkitaError,
    >) {
        allow(0 < natural_len && natural_len <= padded_len)
    }

    open spec fn source_encoding_of(&self, request: SourceEncodingRequest) -> CommittedSourceEncoding {
        CommittedSourceEncoding { tag: 0, num_vars: request.num_vars }
    }

    fn source_encoding(&self, request: SourceEncodingRequest) -> (r: CommittedSourceEncoding) {
        CommittedSourceEncoding { tag: 0, num_vars: request.num_vars }
    }

    open spec fn params_allowed(&self, params: CommittedGroupModel) -> bool {
        params.own.opening.num_digits_fold > 0
    }

    fn check_params(&self, params: &CommittedGroupParams) -> (r: Result<(), AkitaError>) {
        allow(params.own.opening.num_digits_fold > 0)
    }

    open spec fn terminal_cap_allowed(
        &self,
        terminal: TerminalFoldParams,
        cap: Option<u128>,
    ) -> bool {
        cap matches Some(c) ==> c > 0
    }

    fn check_terminal_cap(&self, terminal: &TerminalFoldParams, cap: Option<u128>) -> (b: bool) {
        match cap {
            Some(c) => c > 0,
            None => true,
        }
    }
}

impl ScheduleRules for UniformFamily {
    open spec fn walk_refusal_of(&self, question: ScheduleQuestion) -> Option<ErrorModel> {
        if question is NextLen {
            None
        } else {
            family_refusal()
        }
    }

    open spec fn key_allowed(
        &self,
        final_group: PolynomialGroupLayout,
        precommitteds: Seq<GroupCommitPhaseParams>,
        field_bits: u32,
    ) -> bool {
        field_bits > 0
    }

    fn check_key(&self, key: &AkitaScheduleLookupKey, field_bits: u32) -> (r: Result<
        (),
        AkitaError,
    >) {
        allow(field_bits > 0)
    }

    open spec fn challenge_bits_of(&self, field_bits: u32, chal_ext_degree: usize) -> Option<u32> {
        if field_bits * chal_ext_degree <= u32::MAX {
            Some((field_bits * chal_ext_degree) as u32)
        } else {
            None
        }
    }

    fn challenge_bits(&self, field_bits: u32, chal_ext_degree: usize) -> (r: Result<
        u32,
        AkitaError,
    >) {
        if chal_ext_degree > u32::MAX as usize {
            proof {
                let d = chal_ext_degree as int;
                let b = field_bits as int;
                if b > 0 {
                    assert(b * d > u32::MAX) by (nonlinear_arith)
                        requires
                            b >= 1,
                            d > u32::MAX,
                    ;
                } else {
                    assert(b * d == 0) by (nonlinear_arith)
                        requires
                            b == 0,
                    ;
                }
            }
            if field_bits == 0 {
                return Ok(0);
            }
            return Err(no_answer());
        }
        give(field_bits.checked_mul(chal_ext_degree as u32))
    }

    open spec fn opening_vars_of(&self, witness_len: usize) -> Option<usize> {
        if witness_len > 0 {
            Some(checked::two_adic(witness_len as nat) as usize)
        } else {
            None
        }
    }

    fn opening_vars(&self, witness_len: usize) -> (r: Result<usize, AkitaError>) {
        if witness_len > 0 {
            Ok(checked::trailing_zeros(witness_len))
        } else {
            Err(no_answer())
        }
    }

    open spec fn next_len_of(
        &self,
        params: CommittedGroupModel,
        field_bits: u32,
        claim_ext_degree: usize,
        num_claims: usize,
        num_chunks: usize,
    ) -> Option<usize> {
        Some(self.next_witness_len)
    }

    fn next_len(
        &self,
        params: &CommittedGroupParams,
        field_bits: u32,
        claim_ext_degree: usize,
        num_claims: usize,
        num_chunks: usize,
    ) -> (r: Result<Option<usize>, AkitaError>) {
        Ok(Some(self.next_witness_len))
    }

    open spec fn grouped_next_len_of(
        &self,
        params: CommittedGroupModel,
        field_bits: u32,
        claim_ext_degree: usize,
        final_group: PolynomialGroupLayout,
        precommitteds: Seq<GroupCommitPhaseParams>,
    ) -> Option<usize> {
        Some(self.next_witness_len)
    }

    fn grouped_next_len(
        &self,
        params: &CommittedGroupParams,
        field_bits: u32,
        claim_ext_degree: usize,
        key: &AkitaScheduleLookupKey,
    ) -> (r: Result<usize, AkitaError>) {
        Ok(self.next_witness_len)
    }

    open spec fn payload_of(
        &self,
        params: CommittedGroupModel,
        final_group: PolynomialGroupLayout,
        precommitteds: Seq<GroupCommitPhaseParams>,
        predecessor_rounds: Option<usize>,
        successor: SuccessorModel,
        output_len: usize,
    ) -> Option<LevelPayload> {
        Some(self.payload)
    }

    fn payload_before_fold(
        &self,
        params: &CommittedGroupParams,
        key: &AkitaScheduleLookupKey,
        predecessor_rounds: Option<usize>,
        successor: &CommittedGroupParams,
        output_len: usize,
    ) -> (r: Result<LevelPayload, AkitaError>) {
        Ok(self.payload)
    }

    fn payload_before_terminal(
        &self,
        params: &CommittedGroupParams,
        key: &AkitaScheduleLookupKey,
        predecessor_rounds: Option<usize>,
        successor: &TerminalFoldParams,
        output_len: usize,
    ) -> (r: Result<LevelPayload, AkitaError>) {
        Ok(self.payload)
    }

    open spec fn reduction_bytes_of(
        &self,
        challenge_bits: u32,
        claim_ext_degree: usize,
        rounds: usize,
    ) -> Option<usize> {
        Some(0)
    }

    fn reduction_bytes(&self, challenge_bits: u32, claim_ext_degree: usize, rounds: usize) -> (r:
        Result<usize, AkitaError>) {
        Ok(0)
    }

    open spec fn response_bytes_of(
        &self,
        field_bits: u32,
        layout: TailSegmentGroupLayout,
        logical_num_elems: usize,
        cap: Option<u128>,
    ) -> usize {
        self.terminal_bytes
    }

    fn response_bytes(
        &self,
        field_bits: u32,
        layout: TailSegmentGroupLayout,
        logical_num_elems: usize,
        cap: Option<u128>,
    ) -> (n: usize) {
        self.terminal_bytes
    }

    open spec fn fold_fields_of(&self, params: CommittedGroupModel, so_far: usize) -> Option<usize> {
        if so_far < usize::MAX {
            Some((so_far + 1) as usize)
        } else {
            None
        }
    }

    fn fold_fields(&self, params: &CommittedGroupParams, so_far: usize) -> (r: Result<
        usize,
        AkitaError,
    >) {
        give(so_far.checked_add(1))
    }

    open spec fn terminal_fields_of(&self, params: TerminalFoldParams, so_far: usize) -> Option<
        usize,
    > {
        Some(so_far)
    }

    fn terminal_fields(&self, params: &TerminalFoldParams, so_far: usize) -> (r: Result<
        usize,
        AkitaError,
    >) {
        Ok(so_far)
    }

    open spec fn grinding_of(
        &self,
        policy: PlannerPolicy,
        final_group: PolynomialGroupLayout,
        precommitteds: Seq<GroupCommitPhaseParams>,
        levels: Seq<LevelModel>,
        terminal: TerminalFoldParams,
    ) -> Option<GrindingCost> {
        Some(self.grinding)
    }

    fn grinding(
        &self,
        policy: &PlannerPolicy,
        key: &AkitaScheduleLookupKey,
        levels: &Vec<FoldStep>,
        terminal: &TerminalFoldParams,
    ) -> (r: Result<GrindingCost, AkitaError>) {
        Ok(self.grinding)
    }
}

impl OpeningRules for UniformFamily {
    open spec fn listing_refusal_of(&self, question: ListingQuestion) -> Option<ErrorModel> {
        family_refusal()
    }

    open spec fn dimensions_of(
        &self,
        policy: PlannerPolicy,
        level: usize,
        ceiling: Option<CommitmentRingDims>,
    ) -> Option<Seq<CommitmentRingDims>> {
        Some(seq![self.dims])
    }

    fn dimensions(
        &self,
        policy: &PlannerPolicy,
        level: usize,
        ceiling: Option<CommitmentRingDims>,
    ) -> (r: Result<Vec<CommitmentRingDims>, AkitaError>) {
        let mut dims: Vec<CommitmentRingDims> = Vec::new();
        dims.push(self.dims);
        proof {
            assert(dims@ =~= seq![self.dims]);
        }
        Ok(dims)
    }

    open spec fn dimension_supported(
        &self,
        precommitteds: Seq<GroupCommitPhaseParams>,
        d_d: usize,
    ) -> bool {
        d_d > 0
    }

    fn supports_dimension(&self, precommitteds: &Vec<GroupCommitPhaseParams>, d_d: usize) -> (b:
        bool) {
        d_d > 0
    }

    open spec fn packing_domain_of(
        &self,
        level: usize,
        claim_ext_degree: usize,
        dims: CommitmentRingDims,
    ) -> Option<Seq<PlannerOpeningCandidate>> {
        Some(seq![self.packed_opening(dims)])
    }

    fn packing_domain(&self, level: usize, claim_ext_degree: usize, dims: CommitmentRingDims) -> (r:
        Result<Vec<PlannerOpeningCandidate>, AkitaError>) {
        let mut domain: Vec<PlannerOpeningCandidate> = Vec::new();
        domain.push(
            PlannerOpeningCandidate {
                method: OpeningMethod::SubringCoefficientPacking {
                    challenge_subring_dimension: dims.inner,
                },
                fold_challenge_config: self.challenge,
            },
        );
        proof {
            assert(domain@ =~= seq![self.packed_opening(dims)]);
        }
        Ok(domain)
    }

    open spec fn opening_reduction_of(
        &self,
        challenge_bits: u32,
        claim_ext_degree: usize,
        shape: PolynomialGroupLayout,
    ) -> Option<Option<usize>> {
        Some(Some(0))
    }

    fn opening_reduction(
        &self,
        challenge_bits: u32,
        claim_ext_degree: usize,
        shape: PolynomialGroupLayout,
    ) -> (r: Result<Option<usize>, AkitaError>) {
        Ok(Some(0))
    }
}

impl CandidateRules for UniformFamily {
    open spec fn search_refusal_of(&self, question: CandidateQuestion) -> Option<ErrorModel> {
        family_refusal()
    }

    open spec fn root_layout_of(
        &self,
        final_group: PolynomialGroupLayout,
        precommitteds: Seq<GroupCommitPhaseParams>,
    ) -> Option<Seq<PolynomialGroupLayout>> {
        Some(seq![final_group])
    }

    fn root_layout(&self, key: &AkitaScheduleLookupKey) -> (r: Result<
        Vec<PolynomialGroupLayout>,
        AkitaError,
    >) {
        let mut groups: Vec<PolynomialGroupLayout> = Vec::new();
        groups.push(key.final_group);
        proof {
            assert(groups@ =~= seq![key.final_group]);
        }
        Ok(groups)
    }

    open spec fn suffix_layout_of(&self, witness_len: usize, prefix: Option<usize>) -> Option<
        Seq<PolynomialGroupLayout>,
    > {
        match self.opening_vars_of(witness_len) {
            Some(vars) => Some(
                seq![PolynomialGroupLayout { num_vars: vars, num_polynomials: 1 }],
            ),
            None => None,
        }
    }

    fn suffix_layout(&self, witness_len: usize, prefix: Option<usize>) -> (r: Result<
        Vec<PolynomialGroupLayout>,
        AkitaError,
    >) {
        match self.opening_vars(witness_len) {
            Ok(vars) => {
                let layout = PolynomialGroupLayout { num_vars: vars, num_polynomials: 1 };
                let mut groups: Vec<PolynomialGroupLayout> = Vec::new();
                groups.push(layout);
                proof {
                    assert(groups@ =~= seq![layout]);
                }
                Ok(groups)
            },
            Err(e) => Err(e),
        }
    }

    open spec fn aggregate_of(&self, groups: Seq<PolynomialGroupLayout>) -> Option<
        PolynomialGroupLayout,
    > {
        if groups.len() > 0 {
            Some(groups[0])
        } else {
            None
        }
    }

    fn aggregate(&self, groups: &Vec<PolynomialGroupLayout>) -> (r: Result<
        PolynomialGroupLayout,
        AkitaError,
    >) {
        if groups.len() > 0 {
            Ok(groups[0])
        } else {
            Err(no_answer())
        }
    }

    open spec fn root_source_of(
        &self,
        policy: HonestFoldPolicySpec,
        log_commit_bound: u32,
    ) -> InnerBasisSource {
        InnerBasisSource::Committed { kind: policy.kind, log_bound: log_commit_bound }
    }

    fn root_source(&self, policy: HonestFoldPolicySpec, log_commit_bound: u32) -> (r:
        InnerBasisSource) {
        InnerBasisSource::Committed { kind: policy.kind, log_bound: log_commit_bound }
    }

    open spec fn inner_range_of(&self, source: InnerBasisSource, policy: PlannerPolicy) -> Option<
        BasisRange,
    > {
        Some(policy.inner_basis_range)
    }

    fn inner_range(&self, source: InnerBasisSource, policy: &PlannerPolicy) -> (r: Result<
        BasisRange,
        AkitaError,
    >) {
        Ok(policy.inner_basis_range)
    }

    open spec fn opening_range_of(&self, policy: PlannerPolicy, level: usize) -> BasisRange {
        policy.opening_basis_range
    }

    fn opening_range(&self, policy: &PlannerPolicy, level: usize) -> (r: BasisRange) {
        policy.opening_basis_range
    }

    open spec fn relation_domain_of(
        &self,
        topology: SuffixTopology,
        level: usize,
        method: OpeningMethod,
    ) -> Option<RelationDomain> {
        Some(RelationDomain { quotient_lift: true, reduced_evaluation: false })
    }

    fn relation_domain(&self, topology: SuffixTopology, level: usize, method: OpeningMethod) -> (r:
        Result<RelationDomain, AkitaError>) {
        Ok(RelationDomain { quotient_lift: true, reduced_evaluation: false })
    }

    open spec fn payload_modes_of(&self, topology: SuffixTopology, level: usize) -> Seq<
        CommitmentPayloadMode,
    > {
        seq![CommitmentPayloadMode::Compressed]
    }

    fn payload_modes(&self, topology: SuffixTopology, level: usize) -> (r: Vec<
        CommitmentPayloadMode,
    >) {
        let mut modes: Vec<CommitmentPayloadMode> = Vec::new();
        modes.push(CommitmentPayloadMode::Compressed);
        proof {
            assert(modes@ =~= seq![CommitmentPayloadMode::Compressed]);
        }
        modes
    }

    open spec fn root_folds_of(
        &self,
        policy: PlannerPolicy,
        final_group: PolynomialGroupLayout,
        precommitteds: Seq<GroupCommitPhaseParams>,
        fold_policies: Seq<HonestFoldPolicySpec>,
        precommitted_openings: Seq<PlannerOpeningCandidate>,
        request: RootCandidateRequest,
    ) -> Option<Seq<LevelCandidateModel>> {
        Some(seq![self.level_model()])
    }

    fn root_folds(
        &self,
        policy: &PlannerPolicy,
        key: &AkitaScheduleLookupKey,
        fold_policies: &Vec<HonestFoldPolicySpec>,
        precommitted_openings: &Vec<PlannerOpeningCandidate>,
        request: RootCandidateRequest,
    ) -> (r: Result<Vec<LevelCandidate>, AkitaError>) {
        Ok(self.level_list())
    }

    open spec fn recursive_views_of(
        &self,
        policy: PlannerPolicy,
        request: RecursiveCandidateRequest,
        fold_policy: FoldCandidatePolicy,
        domain: RelationDomain,
    ) -> Option<RecursiveViewsModel> {
        Some(
            RecursiveViewsModel {
                terminal: seq![self.fold_model()],
                folds: seq![self.level_model()],
            },
        )
    }

    fn recursive_views(
        &self,
        policy: &PlannerPolicy,
        request: RecursiveCandidateRequest,
        fold_policy: FoldCandidatePolicy,
        domain: RelationDomain,
    ) -> (r: Result<RecursiveViews, AkitaError>) {
        Ok(RecursiveViews { terminal: self.fold_list(), folds: self.level_list() })
    }

    open spec fn terminals_of(
        &self,
        policy: PlannerPolicy,
        request: RecursiveCandidateRequest,
    ) -> Option<Seq<CommittedGroupModel>> {
        Some(seq![self.fold_model()])
    }

    fn terminals(&self, policy: &PlannerPolicy, request: RecursiveCandidateRequest) -> (r: Result<
        Vec<CommittedGroupParams>,
        AkitaError,
    >) {
        Ok(self.fold_list())
    }

    open spec fn folds_of(
        &self,
        policy: PlannerPolicy,
        request: RecursiveCandidateRequest,
        work: RecursiveFoldWork,
        fold_policy: FoldCandidatePolicy,
    ) -> Option<Seq<LevelCandidateModel>> {
        Some(seq![self.level_model()])
    }

    fn folds(
        &self,
        policy: &PlannerPolicy,
        request: RecursiveCandidateRequest,
        work: RecursiveFoldWork,
        fold_policy: FoldCandidatePolicy,
    ) -> (r: Result<Vec<LevelCandidate>, AkitaError>) {
        Ok(self.level_list())
    }
}

/// Transforms whose sums hold a fixed total.
///
/// A sum of terms bounded by `bound` holds as many of them as fit below the
/// limit, with the extra modulus as many as fit below its own. The extra modulus
/// is called for where only it holds a term.
#[derive(Clone, Copy, Debug, PartialEq, Eq, Structural)]
pub struct FixedCapacity {
    pub limit: u64,
    pub tail_limit: u64,
}

impl FixedCapacity {
    /// How many terms of a bound fit below a limit.
    pub open spec fn terms(limit: u64, bound: u64) -> Option<usize> {
        let n = limit / bound;
        if bound == 0 {
            Some(1)
        } else if n == 0 {
            None
        } else if n > usize::MAX {
            Some(usize::MAX)
        } else {
            Some(n as usize)
        }
    }

    fn term_count(limit: u64, bound: u64) -> (r: Option<usize>)
        ensures
            r == Self::terms(limit, bound),
            r is Some ==> r->0 > 0,
    {
        if bound == 0 {
            return Some(1);
        }
        let n: u64 = limit / bound;
        if n == 0 {
            None
        } else if n > usize::MAX as u64 {
            Some(usize::MAX)
        } else {
            Some(n as usize)
        }
    }
}

impl TransformCapacity for FixedCapacity {
    open spec fn safe_width_of(&self, len: usize, bound: u64) -> Option<usize> {
        Self::terms(self.limit, bound)
    }

    fn safe_width(&self, len: usize, bound: u64) -> (r: Option<usize>) {
        Self::term_count(self.limit, bound)
    }

    open spec fn tail_width_of(&self, bound: u64) -> Option<usize> {
        Self::terms(self.tail_limit, bound)
    }

    fn tail_width(&self, bound: u64) -> (r: Option<usize>) {
        Self::term_count(self.tail_limit, bound)
    }

    open spec fn needs_tail(&self, bound: u64) -> bool {
        self.limit < bound <= self.tail_limit
    }

    proof fn law_tail_makes_room(&self, bound: u64) {
        if self.needs_tail(bound) {
            vstd::arithmetic::div_mod::lemma_div_non_zero(self.tail_limit as int, bound as int);
        }
    }

    fn requires_tail(&self, bound: u64) -> (b: bool) {
        self.limit < bound && bound <= self.tail_limit
    }

    open spec fn same_as(&self, other: Self) -> bool {
        *self == other
    }

    fn same(&self, other: &Self) -> (b: bool) {
        *self == *other
    }

    proof fn law_same(&self) {
    }

    fn entry_bytes(&self) -> (n: usize) {
        8
    }
}

/// Soundness by the basis of a plan: its square must stay below the modulus of
/// the profile.
#[derive(Clone, Copy, Debug, PartialEq, Eq, Structural)]
pub struct BasisBelowModulus;

impl NormSoundness for BasisBelowModulus {
    open spec fn sound(&self, plan: PhysicalResponsePlan, profile: SisModulusProfileId) -> bool {
        plan.fold_basis * plan.fold_basis < profile.prime()
    }

    open spec fn refusal_of(
        &self,
        plan: PhysicalResponsePlan,
        profile: SisModulusProfileId,
    ) -> Option<ErrorModel> {
        error::setup_refusal("L2 integers may wrap in the proof field"@)
    }

    fn check_sound(&self, plan: &PhysicalResponsePlan, profile: SisModulusProfileId) -> (r: Result<
        (),
        AkitaError,
    >) {
        let basis: u128 = plan.fold_basis as u128;
        proof {
            let b = basis as int;
            assert(b * b <= 0xffff_ffff_ffff_ffff * 0xffff_ffff_ffff_ffff) by (nonlinear_arith)
                requires
                    0 <= b <= 0xffff_ffff_ffff_ffff,
            ;
        }
        if basis * basis < profile.modulus() {
            Ok(())
        } else {
            Err(AkitaError::setup("L2 integers may wrap in the proof field"))
        }
    }
}

} // verus!
