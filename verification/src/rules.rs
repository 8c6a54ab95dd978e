//! The sizing rules that schedules are expanded against.
//!
//! A schedule row stores the planner's choices. What follows from them (audited
//! ranks, norm bounds, layout widths, payload sizes) is read off the rules of a
//! parameter family. [`ParameterRules`] lists the questions that expansion
//! asks; every answer is a function of the question alone.

use crate::error;
use crate::error::{AkitaError, ErrorModel};
use crate::params::{
    ChunkedWitnessCfg, CommitmentPayloadMode, CommitmentRingDims, CommitmentSliceCount,
    CommittedSourceEncoding, DecompositionParams, GadgetDigits, GroupCommitPhaseParams,
    GroupOpenPhaseParams, InnerCommitMatrixParams, InnerRole, OpenCommitMatrixParams,
    OpeningMethod, PolynomialGroupLayout, RingRelationMode, SisMatrixRole, SisModulusProfileId,
    SisSecurityPolicyId, SisTableDigest, SisTableKey, SparseChallengeConfig, BlockGeometry,
};
use vstd::prelude::*;

verus! {

/// Which rank table is in force.
#[derive(Clone, Copy, Debug, PartialEq, Eq, Structural)]
pub struct SisContext {
    pub policy: SisSecurityPolicyId,
    pub table_digest: SisTableDigest,
    pub modulus_profile: SisModulusProfileId,
}

/// What the bound on folded responses depends on.
#[derive(Clone, Copy, Debug, PartialEq, Eq, Structural)]
pub struct ResponseNormRequest {
    pub context: SisContext,
    pub ring_dimension: usize,
    pub log_basis_open: u32,
    pub challenge: SparseChallengeConfig,
    pub num_digits_fold: usize,
    pub num_chunks: usize,
}

/// What the bound on collisions of an outer or opening matrix depends on.
#[derive(Clone, Copy, Debug, PartialEq, Eq, Structural)]
pub struct CollisionNormRequest {
    pub context: SisContext,
    pub role: SisMatrixRole,
    pub ring_dimension: usize,
    pub log_basis: u32,
}

/// What a Euclidean inner matrix depends on.
#[derive(Clone, Copy, Debug, PartialEq, Eq, Structural)]
pub struct SelectiveL2Request {
    pub fold_level: usize,
    pub num_claims: usize,
    pub num_chunks: usize,
    pub inner_width: usize,
    pub ring_dimension: usize,
    pub fold_basis: usize,
    pub fold_digit_count: usize,
    pub challenge: SparseChallengeConfig,
    pub response_l2_sq_cap: u128,
    /// The length of a response whose norm is proved directly.
    pub direct_response_len: Option<usize>,
}

/// What the width of a sliced outer matrix depends on.
#[derive(Clone, Copy, Debug, PartialEq, Eq, Structural)]
pub struct SliceWidthRequest {
    pub slice_count: CommitmentSliceCount,
    pub live_blocks: usize,
    pub num_claims: usize,
    pub inner_rank: usize,
    pub num_digits_outer: usize,
    pub d_a: usize,
    pub d_b: usize,
}

/// What the width of a group's segment of the opening matrix depends on.
#[derive(Clone, Copy, Debug, PartialEq, Eq, Structural)]
pub struct OpeningWidthRequest {
    pub opening_method: OpeningMethod,
    pub claim_ext_degree: usize,
    pub d_a: usize,
    pub d_d: usize,
    pub num_digits_open: usize,
    pub live_blocks: usize,
    pub num_claims: usize,
}

/// A frozen group that asks to be opened by a fold.
#[derive(Clone, Copy, Debug, PartialEq, Eq, Structural)]
pub struct AdmissionRequest {
    pub profile: GroupCommitPhaseParams,
    pub setup_natural_len: Option<usize>,
    pub num_digits_fold: usize,
    pub context: SisContext,
    pub decomposition: DecompositionParams,
    pub num_response_chunks: usize,
    pub opening_method: OpeningMethod,
    pub challenge: SparseChallengeConfig,
    pub log_basis_open: u32,
}

/// Whether an opening has the profile, the method, the digits, the challenges
/// and the basis of a request.
pub open spec fn opening_carries(opening: GroupOpenPhaseParams, request: AdmissionRequest) -> bool {
    &&& opening.profile == request.profile
    &&& opening.opening.opening_method == request.opening_method
    &&& opening.opening.num_digits_fold == request.num_digits_fold
    &&& opening.opening.fold_challenge_config == request.challenge
    &&& opening.opening.log_basis_open == request.log_basis_open
}

/// What the encoding of a witness depends on.
#[derive(Clone, Copy, Debug, PartialEq, Eq, Structural)]
pub struct SourceEncodingRequest {
    pub opening_method: OpeningMethod,
    pub claim_ext_degree: usize,
    pub ring_dimension: usize,
    pub num_vars: usize,
    pub is_root: bool,
}

/// The expanded parameters of one fold.
#[derive(Clone, Debug, PartialEq, Eq)]
pub struct CommittedGroupParams {
    /// The setup output that the fold takes in first.
    pub setup_prefix: Option<GroupOpenPhaseParams>,
    /// The groups committed before the fold.
    pub precommitted_groups: Vec<GroupOpenPhaseParams>,
    /// The group that the fold derives itself.
    pub own: GroupOpenPhaseParams,
    pub open_matrix: OpenCommitMatrixParams,
    pub payload_mode: CommitmentPayloadMode,
    pub ring_relation_mode: RingRelationMode,
    pub source_encoding: CommittedSourceEncoding,
    pub witness_chunk: ChunkedWitnessCfg,
}

/// The contents of [`CommittedGroupParams`].
pub struct CommittedGroupModel {
    pub setup_prefix: Option<GroupOpenPhaseParams>,
    pub precommitted_groups: Seq<GroupOpenPhaseParams>,
    pub own: GroupOpenPhaseParams,
    pub open_matrix: OpenCommitMatrixParams,
    pub payload_mode: CommitmentPayloadMode,
    pub ring_relation_mode: RingRelationMode,
    pub source_encoding: CommittedSourceEncoding,
    pub witness_chunk: ChunkedWitnessCfg,
}

impl CommittedGroupParams {
    /// The contents.
    pub open spec fn view(self) -> CommittedGroupModel {
        CommittedGroupModel {
            setup_prefix: self.setup_prefix,
            precommitted_groups: self.precommitted_groups@,
            own: self.own,
            open_matrix: self.open_matrix,
            payload_mode: self.payload_mode,
            ring_relation_mode: self.ring_relation_mode,
            source_encoding: self.source_encoding,
            witness_chunk: self.witness_chunk,
        }
    }

    /// A copy.
    pub fn duplicate(&self) -> (r: Self)
        ensures
            r@ == self@,
    {
        let mut groups: Vec<GroupOpenPhaseParams> = Vec::new();
        let mut k: usize = 0;
        while k < self.precommitted_groups.len()
            invariant
                k <= self.precommitted_groups@.len(),
                groups@ == self.precommitted_groups@.take(k as int),
            decreases self.precommitted_groups@.len() - k,
        {
            groups.push(self.precommitted_groups[k]);
            proof {
                assert(self.precommitted_groups@.take(k + 1) =~= self.precommitted_groups@.take(
                    k as int,
                ).push(self.precommitted_groups@[k as int]));
            }
            k += 1;
        }
        proof {
            assert(groups@ =~= self.precommitted_groups@);
        }
        CommittedGroupParams {
            setup_prefix: self.setup_prefix,
            precommitted_groups: groups,
            own: self.own,
            open_matrix: self.open_matrix,
            payload_mode: self.payload_mode,
            ring_relation_mode: self.ring_relation_mode,
            source_encoding: self.source_encoding,
            witness_chunk: self.witness_chunk,
        }
    }
}

/// One group of a terminal response.
#[derive(Clone, Copy, Debug, PartialEq, Eq, Structural)]
pub struct TailSegmentGroupLayout {
    pub z_coords: usize,
    pub e_field_elems: usize,
    pub t_field_elems: usize,
    pub z_linf_cap: Option<u128>,
    pub z_rice_low_bits: u32,
    pub z_payload_bytes: usize,
}

/// The expanded parameters of the terminal fold.
#[derive(Clone, Copy, Debug, PartialEq, Eq, Structural)]
pub struct TerminalFoldParams {
    pub fold_challenge_config: SparseChallengeConfig,
    pub blocks: BlockGeometry,
    pub inner: InnerRole,
    pub fold: GadgetDigits,
}

impl TerminalFoldParams {
    /// The number of columns of the inner matrix.
    pub fn inner_width(&self) -> (n: usize)
        ensures
            n == self.inner.matrix.input_width,
    {
        self.inner.matrix.input_width()
    }

    /// The degree of the inner ring.
    pub fn d_a(&self) -> (n: usize)
        ensures
            n == self.inner.matrix.ring_dimension,
    {
        self.inner.matrix.ring_dimension()
    }

    /// The Euclidean cap on the response, if the inner matrix has one.
    pub fn response_l2_sq_cap(&self) -> (r: Option<u128>)
        ensures
            r == self.inner.matrix.l2_cap(),
    {
        match self.inner.matrix.security_route() {
            crate::params::InnerCommitSecurityRoute::Linf(_) => None,
            crate::params::InnerCommitSecurityRoute::L2 { response_l2_sq_cap, .. } => Some(
                response_l2_sq_cap,
            ),
        }
    }
}

/// The payload of one fold, in bytes, and the number of variables of the point
/// that its relation leaves open.
#[derive(Clone, Copy, Debug, PartialEq, Eq, Structural)]
pub struct LevelPayload {
    pub direct: usize,
    pub stage3: usize,
    pub rounds: usize,
}

/// What comes after a fold.
pub enum SuccessorModel {
    Recursive(CommittedGroupModel),
    Terminal(TerminalFoldParams),
}

/// The cost of grinding: nonce bits and queries.
#[derive(Clone, Copy, Debug, PartialEq, Eq, Structural)]
pub struct GrindingCost {
    pub total_nonce_bits: usize,
    pub expanded_query_count: u64,
}

/// The questions of expansion that a parameter family may refuse with an error
/// of its own.
pub enum ExpansionQuestion {
    Dims(CommitmentRingDims),
    Slices {
        slices: CommitmentSliceCount,
        fold_level: usize,
        payload_mode: CommitmentPayloadMode,
        live_blocks: usize,
    },
    Chunks(ChunkedWitnessCfg),
    Challenge(usize),
    Audit { key: SisTableKey, rank: usize, width: usize },
    L2Matrix(SelectiveL2Request),
    SliceWidth(SliceWidthRequest),
    OpeningWidth(OpeningWidthRequest),
    GroupWidth { group: GroupOpenPhaseParams, claim_ext_degree: usize, d_d: usize },
    Admission(AdmissionRequest),
    PrefixDomain { natural_len: usize, padded_len: usize },
    Params(CommittedGroupModel),
}

/// The questions that expansion asks of a parameter family.
pub trait ParameterRules: Sized {
    /// The error that a question is refused with, if it is refused.
    spec fn refusal_of(&self, question: ExpansionQuestion) -> Option<ErrorModel>;

    /// Whether ring degrees may be combined.
    spec fn dims_allowed(&self, dims: CommitmentRingDims) -> bool;

    fn check_dims(&self, dims: CommitmentRingDims) -> (r: Result<(), AkitaError>)
        ensures
            error::settles(
                r,
                self.dims_allowed(dims),
                self.refusal_of(ExpansionQuestion::Dims(dims)),
            ),
    ;

    /// Whether an outer commitment may be cut into so many slices.
    spec fn slices_allowed(
        &self,
        slices: CommitmentSliceCount,
        fold_level: usize,
        payload_mode: CommitmentPayloadMode,
        live_blocks: usize,
    ) -> bool;

    fn check_slices(
        &self,
        slices: CommitmentSliceCount,
        fold_level: usize,
        payload_mode: CommitmentPayloadMode,
        live_blocks: usize,
    ) -> (r: Result<(), AkitaError>)
        ensures
            error::settles(
                r,
                self.slices_allowed(slices, fold_level, payload_mode, live_blocks),
                self.refusal_of(
                    ExpansionQuestion::Slices { slices, fold_level, payload_mode, live_blocks },
                ),
            ),
    ;

    /// Whether a chunk layout may be used.
    spec fn chunks_allowed(&self, cfg: ChunkedWitnessCfg) -> bool;

    fn check_chunks(&self, cfg: ChunkedWitnessCfg) -> (r: Result<(), AkitaError>)
        ensures
            error::settles(
                r,
                self.chunks_allowed(cfg),
                self.refusal_of(ExpansionQuestion::Chunks(cfg)),
            ),
    ;

    /// The challenge family of a ring degree.
    spec fn challenge_of(&self, ring_dimension: usize) -> Option<SparseChallengeConfig>;

    fn challenge(&self, ring_dimension: usize) -> (r: Result<SparseChallengeConfig, AkitaError>)
        ensures
            error::answers(
                r,
                self.challenge_of(ring_dimension),
                self.refusal_of(ExpansionQuestion::Challenge(ring_dimension)),
            ),
    ;

    /// The challenge family of a packing subring.
    spec fn packing_challenge_of(&self, subring_dimension: usize) -> Option<SparseChallengeConfig>;

    fn packing_challenge(&self, subring_dimension: usize) -> (r: Option<SparseChallengeConfig>)
        ensures
            r == self.packing_challenge_of(subring_dimension),
    ;

    /// The challenge family with a certified operator norm.
    spec fn l2_challenge_of(&self, ring_dimension: usize) -> Option<SparseChallengeConfig>;

    fn l2_challenge(&self, ring_dimension: usize) -> (r: Option<SparseChallengeConfig>)
        ensures
            r == self.l2_challenge_of(ring_dimension),
    ;

    /// The number of digits of an incoming witness.
    spec fn inner_digits_of(&self, decomposition: DecompositionParams, is_root: bool) -> usize;

    fn inner_digits(&self, decomposition: DecompositionParams, is_root: bool) -> (n: usize)
        ensures
            n == self.inner_digits_of(decomposition, is_root),
    ;

    /// The number of digits of an opening.
    spec fn open_digits_of(&self, decomposition: DecompositionParams) -> usize;

    fn open_digits(&self, decomposition: DecompositionParams) -> (n: usize)
        ensures
            n == self.open_digits_of(decomposition),
    ;

    /// The number of ring elements of a decomposed block.
    spec fn block_width_of(&self, positions: usize, num_digits: usize) -> Option<usize>;

    fn block_width(&self, positions: usize, num_digits: usize) -> (r: Option<usize>)
        ensures
            r == self.block_width_of(positions, num_digits),
    ;

    /// The audited bound on folded responses.
    spec fn response_norm_of(&self, request: ResponseNormRequest) -> Option<u128>;

    fn response_norm(&self, request: ResponseNormRequest) -> (r: Option<u128>)
        ensures
            r == self.response_norm_of(request),
    ;

    /// The audited bound on collisions.
    spec fn collision_norm_of(&self, request: CollisionNormRequest) -> Option<u128>;

    fn collision_norm(&self, request: CollisionNormRequest) -> (r: Option<u128>)
        ensures
            r == self.collision_norm_of(request),
    ;

    /// The least secure rank at a width.
    spec fn secure_rank_of(&self, key: SisTableKey, width: usize) -> Option<usize>;

    fn secure_rank(&self, key: SisTableKey, width: usize) -> (r: Option<usize>)
        ensures
            r == self.secure_rank_of(key, width),
    ;

    /// Whether a rank passes its audit.
    spec fn rank_audited(&self, key: SisTableKey, rank: usize, width: usize) -> bool;

    fn audit_rank(&self, key: SisTableKey, rank: usize, width: usize) -> (r: Result<
        (),
        AkitaError,
    >)
        ensures
            error::settles(
                r,
                self.rank_audited(key, rank, width),
                self.refusal_of(ExpansionQuestion::Audit { key, rank, width }),
            ),
    ;

    /// The Euclidean inner matrix of the calibrated response model. The model
    /// may have none, and the question may be refused.
    spec fn l2_matrix_of(&self, request: SelectiveL2Request) -> Option<InnerCommitMatrixParams>;

    fn l2_matrix(&self, request: SelectiveL2Request) -> (r: Result<
        Option<InnerCommitMatrixParams>,
        AkitaError,
    >)
        ensures
            match r {
                Ok(matrix) => matrix == self.l2_matrix_of(request) && self.refusal_of(
                    ExpansionQuestion::L2Matrix(request),
                ) is None,
                Err(e) => self.l2_matrix_of(request) is None && self.refusal_of(
                    ExpansionQuestion::L2Matrix(request),
                ) == Some(e@),
            },
    ;

    /// The width of a sliced outer matrix.
    spec fn slice_width_of(&self, request: SliceWidthRequest) -> Option<usize>;

    fn slice_width(&self, request: SliceWidthRequest) -> (r: Result<usize, AkitaError>)
        ensures
            error::answers(
                r,
                self.slice_width_of(request),
                self.refusal_of(ExpansionQuestion::SliceWidth(request)),
            ),
    ;

    /// The width of a fold's own segment of the opening matrix.
    spec fn opening_width_of(&self, request: OpeningWidthRequest) -> Option<usize>;

    fn opening_width(&self, request: OpeningWidthRequest) -> (r: Result<usize, AkitaError>)
        ensures
            error::answers(
                r,
                self.opening_width_of(request),
                self.refusal_of(ExpansionQuestion::OpeningWidth(request)),
            ),
    ;

    /// The width of another group's segment of the opening matrix.
    spec fn group_width_of(
        &self,
        group: GroupOpenPhaseParams,
        claim_ext_degree: usize,
        d_d: usize,
    ) -> Option<usize>;

    fn group_width(
        &self,
        group: GroupOpenPhaseParams,
        claim_ext_degree: usize,
        d_d: usize,
    ) -> (r: Result<usize, AkitaError>)
        ensures
            error::answers(
                r,
                self.group_width_of(group, claim_ext_degree, d_d),
                self.refusal_of(ExpansionQuestion::GroupWidth { group, claim_ext_degree, d_d }),
            ),
    ;

    /// The admitted opening of a frozen group.
    spec fn admission_of(&self, request: AdmissionRequest) -> Option<GroupOpenPhaseParams>;

    /// An admitted opening is the one that was asked for.
    proof fn law_admission_carries_its_request(&self, request: AdmissionRequest)
        ensures
            self.admission_of(request) matches Some(opening) ==> opening_carries(opening, request),
    ;

    fn admission(&self, request: AdmissionRequest) -> (r: Result<GroupOpenPhaseParams, AkitaError>)
        ensures
            error::answers(
                r,
                self.admission_of(request),
                self.refusal_of(ExpansionQuestion::Admission(request)),
            ),
    ;

    /// Whether a setup prefix of a natural length fits its padded domain.
    spec fn prefix_domain_allowed(&self, natural_len: usize, padded_len: usize) -> bool;

    fn check_prefix_domain(&self, natural_len: usize, padded_len: usize) -> (r: Result<
        (),
        AkitaError,
    >)
        ensures
            error::settles(
                r,
                self.prefix_domain_allowed(natural_len, padded_len),
                self.refusal_of(ExpansionQuestion::PrefixDomain { natural_len, padded_len }),
            ),
    ;

    /// The encoding of a witness.
    spec fn source_encoding_of(&self, request: SourceEncodingRequest) -> CommittedSourceEncoding;

    fn source_encoding(&self, request: SourceEncodingRequest) -> (r: CommittedSourceEncoding)
        ensures
            r == self.source_encoding_of(request),
    ;

    /// Whether expanded parameters are consistent as a whole.
    spec fn params_allowed(&self, params: CommittedGroupModel) -> bool;

    fn check_params(&self, params: &CommittedGroupParams) -> (r: Result<(), AkitaError>)
        ensures
            error::settles(
                r,
                self.params_allowed(params@),
                self.refusal_of(ExpansionQuestion::Params(params@)),
            ),
    ;

    /// Whether a terminal fold may be held to a maximum-norm cap.
    spec fn terminal_cap_allowed(&self, terminal: TerminalFoldParams, cap: Option<u128>) -> bool;

    fn check_terminal_cap(&self, terminal: &TerminalFoldParams, cap: Option<u128>) -> (b: bool)
        ensures
            b == self.terminal_cap_allowed(*terminal, cap),
    ;
}

} // verus!
