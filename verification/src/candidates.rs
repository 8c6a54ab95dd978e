//! The candidates that one state of the suffix search weighs.
//!
//! A state is prepared once: which basis ranges it covers, which openings it
//! tries and how folds are kept. Candidates are then generated for one opening
//! basis at a time. At the root they can also be visited in batches, one per
//! inner basis and opening, so that no list has to span the whole search.

use crate::error;
use crate::error::{AkitaError, ErrorModel};
use crate::opening_domain;
use crate::opening_domain::{
    opening_work_domain, OpeningPurpose, OpeningQuestion, OpeningRules, OpeningWork,
    PlannerOpeningCandidate, WorkModel,
};
use crate::params::{
    AkitaScheduleLookupKey, BasisRange, CommitmentPayloadMode, CommitmentRingDims,
    GroupCommitPhaseParams, HonestFoldPolicySpec, OpeningMethod, PlannerPolicy,
    PolynomialGroupLayout, RingDimensionScheduleMode, RingRelationMode, SelectionPolicyId,
};
use crate::rules::{CommittedGroupModel, CommittedGroupParams};
use vstd::prelude::*;

verus! {

// ---------------------------------------------------------------------------
// States
// ---------------------------------------------------------------------------

/// Where a suffix stands: its phase, and the setup prefix that comes in.
#[derive(Clone, Copy, Debug, PartialEq, Eq, Structural)]
pub struct SuffixTopology {
    pub phase: u32,
    pub incoming_setup_prefix: Option<usize>,
}

/// One state of the suffix search.
#[derive(Clone, Copy, Debug, PartialEq, Eq, Structural)]
pub struct SuffixState {
    pub level: usize,
    pub current_witness_len: usize,
    pub current_lb: u32,
    pub source_moment: u128,
    pub dimension_ceiling: Option<CommitmentRingDims>,
    pub topology: SuffixTopology,
}

/// What all states of one search share.
pub struct SuffixCtx<'a, R> {
    pub rules: &'a R,
    pub policy: &'a PlannerPolicy,
    pub root_lookup_key: Option<&'a AkitaScheduleLookupKey>,
    pub root_honest_fold_policy: Option<HonestFoldPolicySpec>,
    pub precommitted_honest_fold_policies: &'a Vec<HonestFoldPolicySpec>,
    pub level_zero_is_root: bool,
}

/// What the digits of an incoming witness come from.
#[derive(Clone, Copy, Debug, PartialEq, Eq, Structural)]
pub enum InnerBasisSource {
    /// A committed source of some kind, with its bound in bits.
    Committed { kind: u32, log_bound: u32 },
    /// Balanced digits that an earlier level left.
    BalancedDigits { log_basis: u32 },
}

/// Whether splits are cut by their bounds.
#[derive(Clone, Copy, Debug, PartialEq, Eq, Structural)]
pub enum SplitBoundPolicy {
    Enabled,
    Disabled,
}

/// Which folds of a state are kept.
#[derive(Clone, Copy, Debug, PartialEq, Eq, Structural)]
pub enum FoldCandidatePolicy {
    Best,
    Frontier(SplitBoundPolicy),
}

/// The relation modes that a fold may take.
#[derive(Clone, Copy, Debug, PartialEq, Eq, Structural)]
pub struct RelationDomain {
    pub quotient_lift: bool,
    pub reduced_evaluation: bool,
}

impl RelationDomain {
    pub open spec fn has(self, mode: RingRelationMode) -> bool {
        match mode {
            RingRelationMode::QuotientLift => self.quotient_lift,
            RingRelationMode::ReducedEvaluation => self.reduced_evaluation,
        }
    }

    /// The mode, where there is only one.
    pub open spec fn only(self) -> Option<RingRelationMode> {
        if self.quotient_lift && !self.reduced_evaluation {
            Some(RingRelationMode::QuotientLift)
        } else if self.reduced_evaluation && !self.quotient_lift {
            Some(RingRelationMode::ReducedEvaluation)
        } else {
            None
        }
    }

    /// Whether a mode may be taken.
    pub fn admits(&self, mode: RingRelationMode) -> (b: bool)
        ensures
            b == self.has(mode),
    {
        match mode {
            RingRelationMode::QuotientLift => self.quotient_lift,
            RingRelationMode::ReducedEvaluation => self.reduced_evaluation,
        }
    }

    /// The mode, where there is only one.
    pub fn only_transition(&self) -> (r: Result<RingRelationMode, AkitaError>)
        ensures
            match r {
                Ok(mode) => self.only() == Some(mode),
                Err(e) => self.only() is None && e.is_setup(
                    "relation domain does not have exactly one transition"@,
                ),
            },
    {
        if self.quotient_lift && !self.reduced_evaluation {
            Ok(RingRelationMode::QuotientLift)
        } else if self.reduced_evaluation && !self.quotient_lift {
            Ok(RingRelationMode::ReducedEvaluation)
        } else {
            Err(AkitaError::setup("relation domain does not have exactly one transition"))
        }
    }
}

/// The setup side of a recursive fold.
#[derive(Clone, Copy, Debug, PartialEq, Eq, Structural)]
pub enum RecursiveFoldWork {
    SetupPrefixed { natural_len: usize },
    Direct(RelationDomain),
}

/// What recursive candidates are derived from.
#[derive(Clone, Copy, Debug, PartialEq, Eq, Structural)]
pub struct RecursiveCandidateRequest {
    pub payload_mode: CommitmentPayloadMode,
    pub opening: PlannerOpeningCandidate,
    pub dimensions: CommitmentRingDims,
    pub current_witness_len: usize,
    pub source: InnerBasisSource,
    pub log_basis_inner: u32,
    pub log_basis_open: u32,
    pub fold_level: usize,
    pub source_moment: u128,
}

/// What root candidates are derived from, beside the key.
#[derive(Clone, Copy, Debug, PartialEq, Eq, Structural)]
pub struct RootCandidateRequest {
    pub final_policy: HonestFoldPolicySpec,
    pub dimensions: CommitmentRingDims,
    pub opening: PlannerOpeningCandidate,
    pub log_basis_inner: u32,
    pub log_basis_open: u32,
}

/// A fold with the length of the witness that it leaves.
#[derive(Clone, Debug, PartialEq, Eq)]
pub struct LevelCandidate {
    pub params: CommittedGroupParams,
    pub next_witness_len: usize,
}

/// The contents of [`LevelCandidate`].
pub struct LevelCandidateModel {
    pub params: CommittedGroupModel,
    pub next_witness_len: usize,
}

/// The contents of a list of folds.
pub open spec fn level_models(list: Seq<LevelCandidate>) -> Seq<LevelCandidateModel> {
    list.map_values(
        |c: LevelCandidate|
            LevelCandidateModel { params: c.params@, next_witness_len: c.next_witness_len },
    )
}

/// The contents of a list of parameters.
pub open spec fn param_models(list: Seq<CommittedGroupParams>) -> Seq<CommittedGroupModel> {
    list.map_values(|p: CommittedGroupParams| p@)
}

/// Terminal and fold candidates that were derived together.
#[derive(Clone, Debug, PartialEq, Eq)]
pub struct RecursiveViews {
    pub terminal: Vec<CommittedGroupParams>,
    pub folds: Vec<LevelCandidate>,
}

/// The contents of [`RecursiveViews`].
pub struct RecursiveViewsModel {
    pub terminal: Seq<CommittedGroupModel>,
    pub folds: Seq<LevelCandidateModel>,
}

/// The questions of the search that a parameter family may refuse with an error
/// of its own.
pub enum CandidateQuestion {
    RootLayout {
        final_group: PolynomialGroupLayout,
        precommitteds: Seq<GroupCommitPhaseParams>,
    },
    SuffixLayout { witness_len: usize, prefix: Option<usize> },
    Aggregate(Seq<PolynomialGroupLayout>),
    InnerRange { source: InnerBasisSource, policy: PlannerPolicy },
    Relation { topology: SuffixTopology, level: usize, method: OpeningMethod },
    RootFolds {
        policy: PlannerPolicy,
        final_group: PolynomialGroupLayout,
        precommitteds: Seq<GroupCommitPhaseParams>,
        fold_policies: Seq<HonestFoldPolicySpec>,
        precommitted_openings: Seq<PlannerOpeningCandidate>,
        request: RootCandidateRequest,
    },
    Views {
        policy: PlannerPolicy,
        request: RecursiveCandidateRequest,
        fold_policy: FoldCandidatePolicy,
        domain: RelationDomain,
    },
    Terminals { policy: PlannerPolicy, request: RecursiveCandidateRequest },
    Folds {
        policy: PlannerPolicy,
        request: RecursiveCandidateRequest,
        work: RecursiveFoldWork,
        fold_policy: FoldCandidatePolicy,
    },
}

/// What the search asks of a parameter family beyond its openings.
pub trait CandidateRules: OpeningRules {
    /// The error that a question is refused with, if it is refused.
    spec fn search_refusal_of(&self, question: CandidateQuestion) -> Option<ErrorModel>;

    /// The groups that a root opens.
    spec fn root_layout_of(
        &self,
        final_group: PolynomialGroupLayout,
        precommitteds: Seq<GroupCommitPhaseParams>,
    ) -> Option<Seq<PolynomialGroupLayout>>;

    fn root_layout(&self, key: &AkitaScheduleLookupKey) -> (r: Result<
        Vec<PolynomialGroupLayout>,
        AkitaError,
    >)
        ensures
            match r {
                Ok(groups) => self.root_layout_of(key.final_group, key.precommitteds@) == Some(
                    groups@,
                ),
                Err(e) => self.root_layout_of(key.final_group, key.precommitteds@) is None
                    && self.search_refusal_of(
                    CandidateQuestion::RootLayout {
                        final_group: key.final_group,
                        precommitteds: key.precommitteds@,
                    },
                ) == Some(e@),
            },
    ;

    /// The groups that a recursive level opens.
    spec fn suffix_layout_of(&self, witness_len: usize, prefix: Option<usize>) -> Option<
        Seq<PolynomialGroupLayout>,
    >;

    fn suffix_layout(&self, witness_len: usize, prefix: Option<usize>) -> (r: Result<
        Vec<PolynomialGroupLayout>,
        AkitaError,
    >)
        ensures
            match r {
                Ok(groups) => self.suffix_layout_of(witness_len, prefix) == Some(groups@),
                Err(e) => self.suffix_layout_of(witness_len, prefix) is None
                    && self.search_refusal_of(
                    CandidateQuestion::SuffixLayout { witness_len, prefix },
                ) == Some(e@),
            },
    ;

    /// One layout for several groups.
    spec fn aggregate_of(&self, groups: Seq<PolynomialGroupLayout>) -> Option<
        PolynomialGroupLayout,
    >;

    fn aggregate(&self, groups: &Vec<PolynomialGroupLayout>) -> (r: Result<
        PolynomialGroupLayout,
        AkitaError,
    >)
        ensures
            error::answers(
                r,
                self.aggregate_of(groups@),
                self.search_refusal_of(CandidateQuestion::Aggregate(groups@)),
            ),
    ;

    /// What the digits of a root witness come from.
    spec fn root_source_of(
        &self,
        policy: HonestFoldPolicySpec,
        log_commit_bound: u32,
    ) -> InnerBasisSource;

    fn root_source(&self, policy: HonestFoldPolicySpec, log_commit_bound: u32) -> (r:
        InnerBasisSource)
        ensures
            r == self.root_source_of(policy, log_commit_bound),
    ;

    /// The inner bases to search.
    spec fn inner_range_of(&self, source: InnerBasisSource, policy: PlannerPolicy) -> Option<
        BasisRange,
    >;

    fn inner_range(&self, source: InnerBasisSource, policy: &PlannerPolicy) -> (r: Result<
        BasisRange,
        AkitaError,
    >)
        ensures
            error::answers(
                r,
                self.inner_range_of(source, *policy),
                self.search_refusal_of(CandidateQuestion::InnerRange { source, policy: *policy }),
            ),
    ;

    /// The opening bases to search at a level.
    spec fn opening_range_of(&self, policy: PlannerPolicy, level: usize) -> BasisRange;

    fn opening_range(&self, policy: &PlannerPolicy, level: usize) -> (r: BasisRange)
        ensures
            r == self.opening_range_of(*policy, level),
    ;

    /// The relation modes of a level that opens by some method.
    spec fn relation_domain_of(
        &self,
        topology: SuffixTopology,
        level: usize,
        method: OpeningMethod,
    ) -> Option<RelationDomain>;

    fn relation_domain(&self, topology: SuffixTopology, level: usize, method: OpeningMethod) -> (r:
        Result<RelationDomain, AkitaError>)
        ensures
            error::answers(
                r,
                self.relation_domain_of(topology, level, method),
                self.search_refusal_of(CandidateQuestion::Relation { topology, level, method }),
            ),
    ;

    /// The payload modes of a level.
    spec fn payload_modes_of(&self, topology: SuffixTopology, level: usize) -> Seq<
        CommitmentPayloadMode,
    >;

    fn payload_modes(&self, topology: SuffixTopology, level: usize) -> (r: Vec<
        CommitmentPayloadMode,
    >)
        ensures
            r@ == self.payload_modes_of(topology, level),
    ;

    /// The root folds over a pair of bases.
    spec fn root_folds_of(
        &self,
        policy: PlannerPolicy,
        final_group: PolynomialGroupLayout,
        precommitteds: Seq<GroupCommitPhaseParams>,
        fold_policies: Seq<HonestFoldPolicySpec>,
        precommitted_openings: Seq<PlannerOpeningCandidate>,
        request: RootCandidateRequest,
    ) -> Option<Seq<LevelCandidateModel>>;

    fn root_folds(
        &self,
        policy: &PlannerPolicy,
        key: &AkitaScheduleLookupKey,
        fold_policies: &Vec<HonestFoldPolicySpec>,
        precommitted_openings: &Vec<PlannerOpeningCandidate>,
        request: RootCandidateRequest,
    ) -> (r: Result<Vec<LevelCandidate>, AkitaError>)
        ensures
            ({
                let answer = self.root_folds_of(
                    *policy,
                    key.final_group,
                    key.precommitteds@,
                    fold_policies@,
                    precommitted_openings@,
                    request,
                );
                match r {
                    Ok(folds) => answer == Some(level_models(folds@)),
                    Err(e) => answer is None && self.search_refusal_of(
                        CandidateQuestion::RootFolds {
                            policy: *policy,
                            final_group: key.final_group,
                            precommitteds: key.precommitteds@,
                            fold_policies: fold_policies@,
                            precommitted_openings: precommitted_openings@,
                            request,
                        },
                    ) == Some(e@),
                }
            }),
    ;

    /// Terminal and fold candidates together.
    spec fn recursive_views_of(
        &self,
        policy: PlannerPolicy,
        request: RecursiveCandidateRequest,
        fold_policy: FoldCandidatePolicy,
        domain: RelationDomain,
    ) -> Option<RecursiveViewsModel>;

    fn recursive_views(
        &self,
        policy: &PlannerPolicy,
        request: RecursiveCandidateRequest,
        fold_policy: FoldCandidatePolicy,
        domain: RelationDomain,
    ) -> (r: Result<RecursiveViews, AkitaError>)
        ensures
            ({
                let answer = self.recursive_views_of(*policy, request, fold_policy, domain);
                match r {
                    Ok(views) => answer is Some && answer->0.terminal == param_models(
                        views.terminal@,
                    ) && answer->0.folds == level_models(views.folds@),
                    Err(e) => answer is None && self.search_refusal_of(
                        CandidateQuestion::Views { policy: *policy, request, fold_policy, domain },
                    ) == Some(e@),
                }
            }),
    ;

    /// Terminal candidates alone.
    spec fn terminals_of(&self, policy: PlannerPolicy, request: RecursiveCandidateRequest) -> Option<
        Seq<CommittedGroupModel>,
    >;

    fn terminals(&self, policy: &PlannerPolicy, request: RecursiveCandidateRequest) -> (r: Result<
        Vec<CommittedGroupParams>,
        AkitaError,
    >)
        ensures
            match r {
                Ok(terminals) => self.terminals_of(*policy, request) == Some(
                    param_models(terminals@),
                ),
                Err(e) => self.terminals_of(*policy, request) is None && self.search_refusal_of(
                    CandidateQuestion::Terminals { policy: *policy, request },
                ) == Some(e@),
            },
    ;

    /// Fold candidates alone.
    spec fn folds_of(
        &self,
        policy: PlannerPolicy,
        request: RecursiveCandidateRequest,
        work: RecursiveFoldWork,
        fold_policy: FoldCandidatePolicy,
    ) -> Option<Seq<LevelCandidateModel>>;

    fn folds(
        &self,
        policy: &PlannerPolicy,
        request: RecursiveCandidateRequest,
        work: RecursiveFoldWork,
        fold_policy: FoldCandidatePolicy,
    ) -> (r: Result<Vec<LevelCandidate>, AkitaError>)
        ensures
            match r {
                Ok(folds) => self.folds_of(*policy, request, work, fold_policy) == Some(
                    level_models(folds@),
                ),
                Err(e) => self.folds_of(*policy, request, work, fold_policy) is None
                    && self.search_refusal_of(
                    CandidateQuestion::Folds { policy: *policy, request, work, fold_policy },
                ) == Some(e@),
            },
    ;
}

// ---------------------------------------------------------------------------
// Prepared states
// ---------------------------------------------------------------------------

/// What a state covers.
pub struct CandidateDomain<'a> {
    pub root_level_key: Option<&'a AkitaScheduleLookupKey>,
    pub opening_layout: Vec<PolynomialGroupLayout>,
    pub inner_source: InnerBasisSource,
    pub inner_basis_range: BasisRange,
    pub opening_basis_range: BasisRange,
    pub opening_work: Vec<OpeningWork>,
    pub fold_policy: FoldCandidatePolicy,
    pub require_child_fold: bool,
}

/// The question of what a state covers.
pub struct Preparation<R> {
    pub rules: R,
    pub policy: PlannerPolicy,
    pub key: Option<AkitaScheduleLookupKey>,
    pub final_policy: Option<HonestFoldPolicySpec>,
    pub fold_policies: Seq<HonestFoldPolicySpec>,
    pub level_zero_is_root: bool,
    pub state: SuffixState,
}

impl<R: CandidateRules> Preparation<R> {
    /// The key, at the root.
    pub open spec fn root(self) -> Option<AkitaScheduleLookupKey> {
        if self.state.level == 0 {
            self.key
        } else {
            None
        }
    }

    pub open spec fn prefix(self) -> Option<usize> {
        self.state.topology.incoming_setup_prefix
    }

    pub open spec fn is_root(self) -> bool {
        self.level_zero_is_root && self.state.level == 0
    }

    pub open spec fn layout(self) -> Option<Seq<PolynomialGroupLayout>> {
        match self.root() {
            Some(key) => self.rules.root_layout_of(key.final_group, key.precommitteds@),
            None => self.rules.suffix_layout_of(self.state.current_witness_len, self.prefix()),
        }
    }

    pub open spec fn shape(self) -> Option<PolynomialGroupLayout> {
        self.rules.aggregate_of(self.layout()->0)
    }

    pub open spec fn source(self) -> InnerBasisSource {
        if self.is_root() {
            self.rules.root_source_of(
                self.final_policy->0,
                self.policy.decomposition.log_commit_bound,
            )
        } else {
            InnerBasisSource::BalancedDigits { log_basis: self.state.current_lb }
        }
    }

    pub open spec fn inner_range(self) -> Option<BasisRange> {
        self.rules.inner_range_of(self.source(), self.policy)
    }

    /// The opening bases, none below the basis that came in.
    pub open spec fn opening_range(self) -> BasisRange {
        let range = self.rules.opening_range_of(self.policy, self.state.level);
        BasisRange {
            min: if range.min < self.state.current_lb {
                self.state.current_lb
            } else {
                range.min
            },
            max: range.max,
        }
    }

    pub open spec fn openings(self) -> OpeningQuestion<R> {
        OpeningQuestion {
            rules: self.rules,
            policy: self.policy,
            level: self.state.level,
            ceiling: self.state.dimension_ceiling,
            prefixed: self.prefix() is Some,
            root: match self.root() {
                Some(key) => Some(key.precommitteds@),
                None => None,
            },
            fold_policies: self.fold_policies,
            shape: self.shape()->0,
        }
    }

    /// Whether splits are kept as a frontier: where a setup prefix comes in,
    /// where the whole payload is minimised, and while dimensions are searched.
    pub open spec fn frontier(self) -> bool {
        ||| self.prefix() is Some
        ||| self.policy.selection_policy is MinEstimatedProofPayloadV2
        ||| match self.policy.ring_dimension_schedule_mode {
            RingDimensionScheduleMode::AdaptiveDimension { num_search_levels, .. } =>
                self.state.level < num_search_levels,
            RingDimensionScheduleMode::UniformDimension { .. } => false,
        }
    }

    /// Whether the state can be prepared.
    pub open spec fn prepares(self) -> bool {
        &&& !(self.root() is Some && self.prefix() is Some)
        &&& !(self.is_root() && self.root() is None)
        &&& self.layout() is Some
        &&& self.shape() is Some
        &&& self.is_root() ==> self.final_policy is Some
        &&& self.inner_range() is Some
        &&& self.openings().listed()
    }

    /// Why a state cannot be prepared: the first step that fails says so.
    pub open spec fn refusal(self) -> Option<ErrorModel> {
        if self.root() is Some && self.prefix() is Some {
            error::setup_refusal("root batch cannot consume an incoming setup prefix"@)
        } else if self.is_root() && self.root() is None {
            error::setup_refusal("root-level suffix state is missing its opening lookup key"@)
        } else if self.layout() is None {
            match self.root() {
                Some(key) => self.rules.search_refusal_of(
                    CandidateQuestion::RootLayout {
                        final_group: key.final_group,
                        precommitteds: key.precommitteds@,
                    },
                ),
                None => self.rules.search_refusal_of(
                    CandidateQuestion::SuffixLayout {
                        witness_len: self.state.current_witness_len,
                        prefix: self.prefix(),
                    },
                ),
            }
        } else if self.shape() is None {
            self.rules.search_refusal_of(CandidateQuestion::Aggregate(self.layout()->0))
        } else if self.is_root() && self.final_policy is None {
            error::setup_refusal("root batch is missing its honest fold policy"@)
        } else if self.inner_range() is None {
            self.rules.search_refusal_of(
                CandidateQuestion::InnerRange { source: self.source(), policy: self.policy },
            )
        } else {
            self.openings().refusal()
        }
    }

    /// Whether a domain is what the state covers.
    pub open spec fn domain_is(self, d: CandidateDomain<'_>) -> bool {
        &&& match d.root_level_key {
            Some(key) => self.root() == Some(*key),
            None => self.root() is None,
        }
        &&& Some(d.opening_layout@) == self.layout()
        &&& d.inner_source == self.source()
        &&& Some(d.inner_basis_range) == self.inner_range()
        &&& d.opening_basis_range == self.opening_range()
        &&& opening_domain::work_models(d.opening_work@) == self.openings().work()
        &&& d.fold_policy == if self.frontier() {
            FoldCandidatePolicy::Frontier(SplitBoundPolicy::Enabled)
        } else {
            FoldCandidatePolicy::Best
        }
        &&& d.require_child_fold == (self.root() is Some && self.root()->0.precommitteds@.len()
            > 0)
    }
}

impl<'a, R: CandidateRules> SuffixCtx<'a, R> {
    /// The question of what a state covers.
    pub open spec fn preparation(self, state: SuffixState) -> Preparation<R> {
        Preparation {
            rules: *self.rules,
            policy: *self.policy,
            key: match self.root_lookup_key {
                Some(key) => Some(*key),
                None => None,
            },
            final_policy: self.root_honest_fold_policy,
            fold_policies: self.precommitted_honest_fold_policies@,
            level_zero_is_root: self.level_zero_is_root,
            state,
        }
    }
}

impl<'a> CandidateDomain<'a> {
    /// What a state covers.
    pub fn prepare<R: CandidateRules>(ctx: &SuffixCtx<'a, R>, state: SuffixState) -> (r: Result<
        Self,
        AkitaError,
    >)
        ensures
            match r {
                Ok(domain) => ctx.preparation(state).prepares() && ctx.preparation(
                    state,
                ).domain_is(domain),
                Err(e) => !ctx.preparation(state).prepares() && ctx.preparation(state).refusal()
                    == Some(e@),
            },
    {
        let ghost p = ctx.preparation(state);
        let policy = ctx.policy;
        let rules = ctx.rules;
        let root_level_key: Option<&'a AkitaScheduleLookupKey> = if state.level == 0 {
            ctx.root_lookup_key
        } else {
            None
        };
        let at_root: bool = match root_level_key {
            Some(_key) => true,
            None => false,
        };
        let prefix = state.topology.incoming_setup_prefix;
        let prefixed: bool = match prefix {
            Some(_len) => true,
            None => false,
        };
        if at_root && prefixed {
            return Err(AkitaError::setup("root batch cannot consume an incoming setup prefix"));
        }
        if ctx.level_zero_is_root && state.level == 0 && !at_root {
            return Err(
                AkitaError::setup("root-level suffix state is missing its opening lookup key"),
            );
        }
        let layout = match root_level_key {
            Some(key) => rules.root_layout(key),
            None => rules.suffix_layout(state.current_witness_len, prefix),
        };
        let opening_layout = match layout {
            Ok(layout) => layout,
            Err(e) => {
                return Err(e);
            },
        };
        assert(p.layout() == Some(opening_layout@));
        let opening_shape = match rules.aggregate(&opening_layout) {
            Ok(shape) => shape,
            Err(e) => {
                return Err(e);
            },
        };
        let inner_source = if ctx.level_zero_is_root && state.level == 0 {
            match ctx.root_honest_fold_policy {
                Some(final_policy) => rules.root_source(
                    final_policy,
                    policy.decomposition.log_commit_bound,
                ),
                None => {
                    return Err(
                        AkitaError::setup("root batch is missing its honest fold policy"),
                    );
                },
            }
        } else {
            InnerBasisSource::BalancedDigits { log_basis: state.current_lb }
        };
        let inner_basis_range = match rules.inner_range(inner_source, policy) {
            Ok(range) => range,
            Err(e) => {
                return Err(e);
            },
        };
        let range = rules.opening_range(policy, state.level);
        let opening_basis_range = BasisRange {
            min: if range.min < state.current_lb {
                state.current_lb
            } else {
                range.min
            },
            max: range.max,
        };
        let opening_work = match opening_work_domain(
            rules,
            policy,
            state.level,
            state.dimension_ceiling,
            prefixed,
            root_level_key,
            ctx.precommitted_honest_fold_policies,
            opening_shape,
        ) {
            Ok(work) => work,
            Err(e) => {
                return Err(e);
            },
        };
        let whole_payload: bool = match policy.selection_policy {
            SelectionPolicyId::MinEstimatedProofPayloadV2 => true,
            SelectionPolicyId::MinFirstDirectSetupThenPayloadV2 => false,
        };
        let searching: bool = match &policy.ring_dimension_schedule_mode {
            RingDimensionScheduleMode::AdaptiveDimension { num_search_levels, .. } => state.level
                < *num_search_levels,
            RingDimensionScheduleMode::UniformDimension { .. } => false,
        };
        let fold_policy = if prefixed || whole_payload || searching {
            FoldCandidatePolicy::Frontier(SplitBoundPolicy::Enabled)
        } else {
            FoldCandidatePolicy::Best
        };
        let require_child_fold: bool = match root_level_key {
            Some(key) => key.precommitteds.len() > 0,
            None => false,
        };
        Ok(
            CandidateDomain {
                root_level_key,
                opening_layout,
                inner_source,
                inner_basis_range,
                opening_basis_range,
                opening_work,
                fold_policy,
                require_child_fold,
            },
        )
    }
}

// ---------------------------------------------------------------------------
// Generated candidates
// ---------------------------------------------------------------------------

/// A candidate for a terminal fold.
#[derive(Clone, Debug, PartialEq, Eq)]
pub struct RawTerminalCandidate {
    pub params: CommittedGroupParams,
    pub opening_reduction_bytes: usize,
}

/// A candidate for a fold.
#[derive(Clone, Debug, PartialEq, Eq)]
pub struct RawFoldCandidate {
    pub params: CommittedGroupParams,
    pub next_witness_len: usize,
    pub opening_reduction_bytes: usize,
}

/// Candidates for terminals and for folds.
#[derive(Clone, Debug, PartialEq, Eq)]
pub struct GeneratedCandidates {
    pub terminal: Vec<RawTerminalCandidate>,
    pub folds: Vec<RawFoldCandidate>,
}

/// The contents of [`RawTerminalCandidate`].
pub struct RawTerminalModel {
    pub params: CommittedGroupModel,
    pub opening_reduction_bytes: usize,
}

/// The contents of [`RawFoldCandidate`].
pub struct RawFoldModel {
    pub params: CommittedGroupModel,
    pub next_witness_len: usize,
    pub opening_reduction_bytes: usize,
}

/// The contents of [`GeneratedCandidates`].
#[verifier::ext_equal]
pub struct CandidatesModel {
    pub terminal: Seq<RawTerminalModel>,
    pub folds: Seq<RawFoldModel>,
}

pub open spec fn terminal_model(c: RawTerminalCandidate) -> RawTerminalModel {
    RawTerminalModel { params: c.params@, opening_reduction_bytes: c.opening_reduction_bytes }
}

pub open spec fn fold_model(c: RawFoldCandidate) -> RawFoldModel {
    RawFoldModel {
        params: c.params@,
        next_witness_len: c.next_witness_len,
        opening_reduction_bytes: c.opening_reduction_bytes,
    }
}

impl CandidatesModel {
    pub open spec fn none() -> Self {
        CandidatesModel { terminal: Seq::empty(), folds: Seq::empty() }
    }

    pub open spec fn plus(self, more: Self) -> Self {
        CandidatesModel {
            terminal: self.terminal + more.terminal,
            folds: self.folds + more.folds,
        }
    }

    pub open spec fn is_none(self) -> bool {
        self.terminal.len() == 0 && self.folds.len() == 0
    }
}

/// The contents of two lists of candidates.
pub open spec fn contents(
    terminal: Seq<RawTerminalCandidate>,
    folds: Seq<RawFoldCandidate>,
) -> CandidatesModel {
    CandidatesModel {
        terminal: terminal.map_values(|c: RawTerminalCandidate| terminal_model(c)),
        folds: folds.map_values(|c: RawFoldCandidate| fold_model(c)),
    }
}

impl GeneratedCandidates {
    /// The contents.
    pub open spec fn view(self) -> CandidatesModel {
        contents(self.terminal@, self.folds@)
    }
}

/// Both sets of candidates, where both exist.
pub open spec fn joined(a: Option<CandidatesModel>, b: Option<CandidatesModel>) -> Option<
    CandidatesModel,
> {
    match (a, b) {
        (Some(a), Some(b)) => Some(a.plus(b)),
        _ => None,
    }
}

pub open spec fn as_terminals(params: Seq<CommittedGroupModel>, bytes: usize) -> Seq<
    RawTerminalModel,
> {
    params.map_values(
        |p: CommittedGroupModel| RawTerminalModel { params: p, opening_reduction_bytes: bytes },
    )
}

pub open spec fn as_folds(folds: Seq<LevelCandidateModel>, bytes: usize) -> Seq<RawFoldModel> {
    folds.map_values(
        |c: LevelCandidateModel|
            RawFoldModel {
                params: c.params,
                next_witness_len: c.next_witness_len,
                opening_reduction_bytes: bytes,
            },
    )
}

pub open spec fn fold_params(folds: Seq<LevelCandidateModel>) -> Seq<CommittedGroupModel> {
    folds.map_values(|c: LevelCandidateModel| c.params)
}

/// The question of which candidates a state has at an opening basis.
pub struct Generation<R> {
    pub rules: R,
    pub policy: PlannerPolicy,
    pub final_policy: Option<HonestFoldPolicySpec>,
    pub fold_policies: Seq<HonestFoldPolicySpec>,
    pub state: SuffixState,
    pub root: Option<AkitaScheduleLookupKey>,
    pub source: InnerBasisSource,
    pub inner_range: BasisRange,
    pub work: Seq<WorkModel>,
    pub fold_policy: FoldCandidatePolicy,
    pub open_lb: u32,
}

impl<R: CandidateRules> Generation<R> {
    pub open spec fn relation(self, w: WorkModel) -> Option<RelationDomain> {
        self.rules.relation_domain_of(self.state.topology, self.state.level, w.opening.method)
    }

    /// The root folds of an opening.
    pub open spec fn root_folds(self, inner_lb: u32, w: WorkModel) -> Option<
        Seq<LevelCandidateModel>,
    > {
        self.rules.root_folds_of(
            self.policy,
            self.root->0.final_group,
            self.root->0.precommitteds@,
            self.fold_policies,
            w.precommitted_openings,
            RootCandidateRequest {
                final_policy: self.final_policy->0,
                dimensions: w.dimensions,
                opening: w.opening,
                log_basis_inner: inner_lb,
                log_basis_open: self.open_lb,
            },
        )
    }

    /// The candidates of an opening at the root; its folds all take the one
    /// mode that the relation leaves.
    pub open spec fn root_yield(self, inner_lb: u32, w: WorkModel) -> Option<CandidatesModel> {
        let folds = self.root_folds(inner_lb, w)->0;
        if self.final_policy is Some && self.root_folds(inner_lb, w) is Some && self.relation(
            w,
        ) is Some && self.relation(w)->0.only() is Some && (forall|i: int|
            0 <= i < folds.len() ==> (#[trigger] folds[i]).params.ring_relation_mode
                == self.relation(w)->0.only()->0) {
            Some(
                CandidatesModel {
                    terminal: if w.purpose.terminal() {
                        as_terminals(fold_params(folds), w.opening_reduction_bytes)
                    } else {
                        Seq::empty()
                    },
                    folds: if w.purpose.fold() {
                        as_folds(folds, w.opening_reduction_bytes)
                    } else {
                        Seq::empty()
                    },
                },
            )
        } else {
            None
        }
    }

    pub open spec fn request(
        self,
        inner_lb: u32,
        w: WorkModel,
        payload_mode: CommitmentPayloadMode,
    ) -> RecursiveCandidateRequest {
        RecursiveCandidateRequest {
            payload_mode,
            opening: w.opening,
            dimensions: w.dimensions,
            current_witness_len: self.state.current_witness_len,
            source: self.source,
            log_basis_inner: inner_lb,
            log_basis_open: self.open_lb,
            fold_level: self.state.level,
            source_moment: self.state.source_moment,
        }
    }

    /// Candidates that are derived together; every fold takes an admitted mode.
    pub open spec fn views_yield(
        self,
        request: RecursiveCandidateRequest,
        w: WorkModel,
        domain: RelationDomain,
    ) -> Option<CandidatesModel> {
        match self.rules.recursive_views_of(self.policy, request, self.fold_policy, domain) {
            Some(views) => if forall|i: int|
                0 <= i < views.folds.len() ==> domain.has(
                    (#[trigger] views.folds[i]).params.ring_relation_mode,
                ) {
                Some(
                    CandidatesModel {
                        terminal: as_terminals(views.terminal, w.opening_reduction_bytes),
                        folds: as_folds(views.folds, w.opening_reduction_bytes),
                    },
                )
            } else {
                None
            },
            None => None,
        }
    }

    pub open spec fn fold_work(self, domain: RelationDomain) -> RecursiveFoldWork {
        match self.state.topology.incoming_setup_prefix {
            Some(natural_len) => RecursiveFoldWork::SetupPrefixed { natural_len },
            None => RecursiveFoldWork::Direct(domain),
        }
    }

    /// Candidates of one kind.
    pub open spec fn single_yield(
        self,
        request: RecursiveCandidateRequest,
        w: WorkModel,
        domain: RelationDomain,
    ) -> Option<CandidatesModel> {
        let terminals = self.rules.terminals_of(self.policy, request);
        let folds = self.rules.folds_of(
            self.policy,
            request,
            self.fold_work(domain),
            self.fold_policy,
        );
        if (w.purpose.terminal() && terminals is None) || (w.purpose.fold() && folds is None) {
            None
        } else {
            Some(
                CandidatesModel {
                    terminal: if w.purpose.terminal() {
                        as_terminals(terminals->0, w.opening_reduction_bytes)
                    } else {
                        Seq::empty()
                    },
                    folds: if w.purpose.fold() {
                        as_folds(folds->0, w.opening_reduction_bytes)
                    } else {
                        Seq::empty()
                    },
                },
            )
        }
    }

    /// The candidates of an opening under one payload mode.
    pub open spec fn mode_yield(
        self,
        inner_lb: u32,
        w: WorkModel,
        payload_mode: CommitmentPayloadMode,
    ) -> Option<CandidatesModel> {
        let request = self.request(inner_lb, w, payload_mode);
        match self.relation(w) {
            Some(domain) => if w.purpose is TerminalAndFold {
                self.views_yield(request, w, domain)
            } else {
                self.single_yield(request, w, domain)
            },
            None => None,
        }
    }

    pub open spec fn modes(self) -> Seq<CommitmentPayloadMode> {
        self.rules.payload_modes_of(self.state.topology, self.state.level)
    }

    /// The candidates of an opening under the first `n` payload modes.
    pub open spec fn modes_yield(self, inner_lb: u32, w: WorkModel, n: nat) -> Option<
        CandidatesModel,
    >
        decreases n,
    {
        if n == 0 {
            Some(CandidatesModel::none())
        } else {
            joined(
                self.modes_yield(inner_lb, w, (n - 1) as nat),
                self.mode_yield(inner_lb, w, self.modes()[n - 1]),
            )
        }
    }

    /// The candidates of an opening.
    pub open spec fn work_yield(self, inner_lb: u32, w: WorkModel) -> Option<CandidatesModel> {
        if self.root is Some {
            self.root_yield(inner_lb, w)
        } else {
            self.modes_yield(inner_lb, w, self.modes().len())
        }
    }

    /// The candidates of the first `n` openings.
    pub open spec fn works_yield(self, inner_lb: u32, n: nat) -> Option<CandidatesModel>
        decreases n,
    {
        if n == 0 {
            Some(CandidatesModel::none())
        } else {
            joined(
                self.works_yield(inner_lb, (n - 1) as nat),
                self.work_yield(inner_lb, self.work[n - 1]),
            )
        }
    }

    /// The number of inner bases.
    pub open spec fn num_bases(self) -> nat {
        if self.inner_range.min <= self.inner_range.max {
            (self.inner_range.max - self.inner_range.min + 1) as nat
        } else {
            0
        }
    }

    /// The candidates of the first `n` inner bases.
    pub open spec fn bases_yield(self, n: nat) -> Option<CandidatesModel>
        decreases n,
    {
        if n == 0 {
            Some(CandidatesModel::none())
        } else {
            joined(
                self.bases_yield((n - 1) as nat),
                self.works_yield((self.inner_range.min + n - 1) as u32, self.work.len()),
            )
        }
    }

    /// All candidates: by inner basis, then by opening, then by payload mode.
    pub open spec fn candidates(self) -> Option<CandidatesModel> {
        self.bases_yield(self.num_bases())
    }

    /// Why the relation modes of an opening are refused.
    pub open spec fn relation_refusal(self, w: WorkModel) -> Option<ErrorModel> {
        self.rules.search_refusal_of(
            CandidateQuestion::Relation {
                topology: self.state.topology,
                level: self.state.level,
                method: w.opening.method,
            },
        )
    }

    /// Why an opening has no candidates at the root.
    pub open spec fn root_refusal(self, inner_lb: u32, w: WorkModel) -> Option<ErrorModel> {
        if self.final_policy is None {
            error::setup_refusal("root batch is missing its honest fold policy"@)
        } else if self.root_folds(inner_lb, w) is None {
            self.rules.search_refusal_of(
                CandidateQuestion::RootFolds {
                    policy: self.policy,
                    final_group: self.root->0.final_group,
                    precommitteds: self.root->0.precommitteds@,
                    fold_policies: self.fold_policies,
                    precommitted_openings: w.precommitted_openings,
                    request: RootCandidateRequest {
                        final_policy: self.final_policy->0,
                        dimensions: w.dimensions,
                        opening: w.opening,
                        log_basis_inner: inner_lb,
                        log_basis_open: self.open_lb,
                    },
                },
            )
        } else if self.relation(w) is None {
            self.relation_refusal(w)
        } else if self.relation(w)->0.only() is None {
            error::setup_refusal("relation domain does not have exactly one transition"@)
        } else {
            error::setup_refusal("materialized mode disagrees with relation domain"@)
        }
    }

    /// Why an opening has no candidates under one payload mode.
    pub open spec fn mode_refusal(
        self,
        inner_lb: u32,
        w: WorkModel,
        payload_mode: CommitmentPayloadMode,
    ) -> Option<ErrorModel> {
        let request = self.request(inner_lb, w, payload_mode);
        match self.relation(w) {
            None => self.relation_refusal(w),
            Some(domain) => if w.purpose is TerminalAndFold {
                if self.rules.recursive_views_of(
                    self.policy,
                    request,
                    self.fold_policy,
                    domain,
                ) is None {
                    self.rules.search_refusal_of(
                        CandidateQuestion::Views {
                            policy: self.policy,
                            request,
                            fold_policy: self.fold_policy,
                            domain,
                        },
                    )
                } else {
                    error::setup_refusal(
                        "combined recursive view emitted a fold outside its relation domain"@,
                    )
                }
            } else if w.purpose.terminal() && self.rules.terminals_of(
                self.policy,
                request,
            ) is None {
                self.rules.search_refusal_of(
                    CandidateQuestion::Terminals { policy: self.policy, request },
                )
            } else {
                self.rules.search_refusal_of(
                    CandidateQuestion::Folds {
                        policy: self.policy,
                        request,
                        work: self.fold_work(domain),
                        fold_policy: self.fold_policy,
                    },
                )
            },
        }
    }

    /// Why an opening has no candidates under the first `n` payload modes.
    pub open spec fn modes_refusal(self, inner_lb: u32, w: WorkModel, n: nat) -> Option<ErrorModel>
        decreases n,
    {
        if n == 0 {
            None
        } else if self.modes_yield(inner_lb, w, (n - 1) as nat) is None {
            self.modes_refusal(inner_lb, w, (n - 1) as nat)
        } else {
            self.mode_refusal(inner_lb, w, self.modes()[n - 1])
        }
    }

    /// Why an opening has no candidates.
    pub open spec fn work_refusal(self, inner_lb: u32, w: WorkModel) -> Option<ErrorModel> {
        if self.root is Some {
            self.root_refusal(inner_lb, w)
        } else {
            self.modes_refusal(inner_lb, w, self.modes().len())
        }
    }

    /// Why the first `n` openings have no candidates.
    pub open spec fn works_refusal(self, inner_lb: u32, n: nat) -> Option<ErrorModel>
        decreases n,
    {
        if n == 0 {
            None
        } else if self.works_yield(inner_lb, (n - 1) as nat) is None {
            self.works_refusal(inner_lb, (n - 1) as nat)
        } else {
            self.work_refusal(inner_lb, self.work[n - 1])
        }
    }

    /// Why the first `n` inner bases have no candidates.
    pub open spec fn bases_refusal(self, n: nat) -> Option<ErrorModel>
        decreases n,
    {
        if n == 0 {
            None
        } else if self.bases_yield((n - 1) as nat) is None {
            self.bases_refusal((n - 1) as nat)
        } else {
            self.works_refusal((self.inner_range.min + n - 1) as u32, self.work.len())
        }
    }

    /// Why there are no candidates: the first basis, opening and payload mode
    /// without any say so.
    pub open spec fn refusal(self) -> Option<ErrorModel> {
        self.bases_refusal(self.num_bases())
    }

    /// The batches of the first `n` openings, empty ones left out.
    pub open spec fn work_batches(self, inner_lb: u32, n: nat) -> Option<Seq<CandidatesModel>>
        decreases n,
    {
        if n == 0 {
            Some(Seq::empty())
        } else {
            match (
                self.work_batches(inner_lb, (n - 1) as nat),
                self.root_yield(inner_lb, self.work[n - 1]),
            ) {
                (Some(before), Some(batch)) => if batch.is_none() {
                    Some(before)
                } else {
                    Some(before.push(batch))
                },
                _ => None,
            }
        }
    }

    /// The batches of the first `n` inner bases.
    pub open spec fn base_batches(self, n: nat) -> Option<Seq<CandidatesModel>>
        decreases n,
    {
        if n == 0 {
            Some(Seq::empty())
        } else {
            match (
                self.base_batches((n - 1) as nat),
                self.work_batches((self.inner_range.min + n - 1) as u32, self.work.len()),
            ) {
                (Some(before), Some(more)) => Some(before + more),
                _ => None,
            }
        }
    }

    /// The batches of the first `n` inner bases, and of the first `k` openings
    /// of the basis behind them.
    pub open spec fn batches_up_to(self, n: nat, k: nat) -> Option<Seq<CandidatesModel>> {
        match (self.base_batches(n), self.work_batches((self.inner_range.min + n) as u32, k)) {
            (Some(before), Some(more)) => Some(before + more),
            _ => None,
        }
    }

    /// Whether a visitor was handed the batches up to some opening of some inner
    /// basis, in order.
    pub open spec fn handed_over(
        self,
        before: Seq<CandidatesModel>,
        after: Seq<CandidatesModel>,
    ) -> bool {
        exists|n: nat, k: nat|
            n < self.num_bases() && k <= self.work.len() && (#[trigger] self.batches_up_to(n, k))
                is Some && after == before + self.batches_up_to(n, k)->0
    }

    /// All root batches.
    pub open spec fn batches(self) -> Option<Seq<CandidatesModel>> {
        self.base_batches(self.num_bases())
    }
}

/// All batches in one.
pub open spec fn combined(batches: Seq<CandidatesModel>) -> CandidatesModel
    decreases batches.len(),
{
    if batches.len() == 0 {
        CandidatesModel::none()
    } else {
        combined(batches.drop_last()).plus(batches.last())
    }
}

// ---------------------------------------------------------------------------
// Laws
// ---------------------------------------------------------------------------

/// Visiting a root in batches meets the same candidates in the same order as
/// generating them at once.
pub proof fn law_batches_cover<R: CandidateRules>(g: Generation<R>)
    requires
        g.root is Some,
    ensures
        g.batches() is Some <==> g.candidates() is Some,
        g.batches() is Some ==> combined(g.batches()->0) == g.candidates()->0,
{
    lemma_base_batches(g, g.num_bases());
}

/// What a visitor was handed before a visit ended early is the beginning of
/// what it would have been handed.
pub proof fn law_visits_end_on_a_prefix<R: CandidateRules>(
    g: Generation<R>,
    before: Seq<CandidatesModel>,
    after: Seq<CandidatesModel>,
)
    requires
        g.batches() is Some,
        g.handed_over(before, after),
    ensures
        after.is_prefix_of(before + g.batches()->0),
{
    let (n, k) = choose|n: nat, k: nat|
        n < g.num_bases() && k <= g.work.len() && (#[trigger] g.batches_up_to(n, k)) is Some
            && after == before + g.batches_up_to(n, k)->0;
    let lb = (g.inner_range.min + n) as u32;
    lemma_base_prefix(g, n + 1, g.num_bases());
    assert((g.inner_range.min + (n + 1) - 1) as u32 == lb);
    lemma_work_prefix(g, lb, k, g.work.len());
    let whole = g.batches()->0;
    let part = g.batches_up_to(n, k)->0;
    assert(part.is_prefix_of(g.base_batches((n + 1) as nat)->0));
    assert(part.is_prefix_of(whole));
    assert(after =~= (before + whole).take(after.len() as int));
}

proof fn lemma_base_prefix<R: CandidateRules>(g: Generation<R>, a: nat, b: nat)
    requires
        a <= b,
        g.base_batches(b) is Some,
    ensures
        g.base_batches(a) is Some,
        (g.base_batches(a)->0).is_prefix_of(g.base_batches(b)->0),
    decreases b - a,
{
    if a < b {
        lemma_base_prefix(g, a, (b - 1) as nat);
    }
}

proof fn lemma_work_prefix<R: CandidateRules>(g: Generation<R>, lb: u32, a: nat, b: nat)
    requires
        a <= b,
        g.work_batches(lb, b) is Some,
    ensures
        g.work_batches(lb, a) is Some,
        (g.work_batches(lb, a)->0).is_prefix_of(g.work_batches(lb, b)->0),
    decreases b - a,
{
    if a < b {
        lemma_work_prefix(g, lb, a, (b - 1) as nat);
    }
}

proof fn lemma_base_batches<R: CandidateRules>(g: Generation<R>, n: nat)
    requires
        g.root is Some,
    ensures
        g.base_batches(n) is Some <==> g.bases_yield(n) is Some,
        g.base_batches(n) is Some ==> combined(g.base_batches(n)->0) == g.bases_yield(n)->0,
    decreases n,
{
    if n > 0 {
        lemma_base_batches(g, (n - 1) as nat);
        let lb = (g.inner_range.min + n - 1) as u32;
        lemma_work_batches(g, lb, g.work.len());
        if g.base_batches(n) is Some {
            lemma_combined_add(
                g.base_batches((n - 1) as nat)->0,
                g.work_batches(lb, g.work.len())->0,
            );
        }
    }
}

proof fn lemma_work_batches<R: CandidateRules>(g: Generation<R>, lb: u32, n: nat)
    requires
        g.root is Some,
    ensures
        g.work_batches(lb, n) is Some <==> g.works_yield(lb, n) is Some,
        g.work_batches(lb, n) is Some ==> combined(g.work_batches(lb, n)->0) == g.works_yield(
            lb,
            n,
        )->0,
    decreases n,
{
    if n > 0 {
        lemma_work_batches(g, lb, (n - 1) as nat);
        if g.work_batches(lb, n) is Some {
            let before = g.work_batches(lb, (n - 1) as nat)->0;
            let batch = g.root_yield(lb, g.work[n - 1])->0;
            if batch.is_none() {
                assert(combined(before).plus(batch) =~= combined(before));
            } else {
                assert(before.push(batch).drop_last() =~= before);
            }
        }
    }
}

proof fn lemma_combined_add(a: Seq<CandidatesModel>, b: Seq<CandidatesModel>)
    ensures
        combined(a + b) == combined(a).plus(combined(b)),
    decreases b.len(),
{
    if b.len() == 0 {
        assert(a + b =~= a);
        assert(combined(a).plus(CandidatesModel::none()) =~= combined(a));
    } else {
        lemma_combined_add(a, b.drop_last());
        assert((a + b).drop_last() =~= a + b.drop_last());
        assert(combined(a).plus(combined(b.drop_last())).plus(b.last()) =~= combined(a).plus(
            combined(b.drop_last()).plus(b.last()),
        ));
    }
}

/// Failure is not undone by more payload modes, openings or bases.
proof fn lemma_modes_none<R: CandidateRules>(g: Generation<R>, lb: u32, w: WorkModel, a: nat, b: nat)
    requires
        a <= b,
        g.modes_yield(lb, w, a) is None,
    ensures
        g.modes_yield(lb, w, b) is None,
        g.modes_refusal(lb, w, b) == g.modes_refusal(lb, w, a),
    decreases b - a,
{
    if a < b {
        lemma_modes_none(g, lb, w, a, (b - 1) as nat);
    }
}

proof fn lemma_works_none<R: CandidateRules>(g: Generation<R>, lb: u32, a: nat, b: nat)
    requires
        a <= b,
        g.works_yield(lb, a) is None,
    ensures
        g.works_yield(lb, b) is None,
        g.works_refusal(lb, b) == g.works_refusal(lb, a),
    decreases b - a,
{
    if a < b {
        lemma_works_none(g, lb, a, (b - 1) as nat);
    }
}

proof fn lemma_bases_none<R: CandidateRules>(g: Generation<R>, a: nat, b: nat)
    requires
        a <= b,
        g.bases_yield(a) is None,
    ensures
        g.bases_yield(b) is None,
        g.bases_refusal(b) == g.bases_refusal(a),
    decreases b - a,
{
    if a < b {
        lemma_bases_none(g, a, (b - 1) as nat);
    }
}

proof fn lemma_base_batches_none<R: CandidateRules>(g: Generation<R>, a: nat, b: nat)
    requires
        a <= b,
        g.base_batches(a) is None,
    ensures
        g.base_batches(b) is None,
    decreases b - a,
{
    if a < b {
        lemma_base_batches_none(g, a, (b - 1) as nat);
    }
}

proof fn lemma_work_batches_none<R: CandidateRules>(g: Generation<R>, lb: u32, a: nat, b: nat)
    requires
        a <= b,
        g.work_batches(lb, a) is None,
    ensures
        g.work_batches(lb, b) is None,
    decreases b - a,
{
    if a < b {
        lemma_work_batches_none(g, lb, a, (b - 1) as nat);
    }
}

/// Where the batches of a root end is where its candidates end.
proof fn lemma_batch_refusal<R: CandidateRules>(g: Generation<R>, n: nat, k: nat)
    requires
        g.root is Some,
        n < g.num_bases(),
        k < g.work.len(),
        g.base_batches(n) is Some,
        g.work_batches((g.inner_range.min + n) as u32, k) is Some,
        g.root_yield((g.inner_range.min + n) as u32, g.work[k as int]) is None,
    ensures
        g.refusal() == g.root_refusal((g.inner_range.min + n) as u32, g.work[k as int]),
{
    let lb = (g.inner_range.min + n) as u32;
    lemma_base_batches(g, n);
    lemma_work_batches(g, lb, k);
    assert(g.works_yield(lb, k + 1) is None);
    lemma_works_none(g, lb, k + 1, g.work.len());
    assert((g.inner_range.min + (n + 1) - 1) as u32 == lb);
    assert(g.bases_yield(n + 1) is None);
    lemma_bases_none(g, n + 1, g.num_bases());
}

// ---------------------------------------------------------------------------
// Executable generation
// ---------------------------------------------------------------------------

/// Appends parameters as terminal candidates.
fn push_terminals(
    list: &mut Vec<RawTerminalCandidate>,
    params: &Vec<CommittedGroupParams>,
    bytes: usize,
)
    ensures
        forall|folds: Seq<RawFoldCandidate>|
            (#[trigger] contents(final(list)@, folds)).terminal == contents(
                old(list)@,
                folds,
            ).terminal + as_terminals(param_models(params@), bytes),
{
    let ghost start = list@.map_values(|c: RawTerminalCandidate| terminal_model(c));
    let ghost more = as_terminals(param_models(params@), bytes);
    assert(start + more.take(0) =~= start);
    let mut k: usize = 0;
    while k < params.len()
        invariant
            k <= params@.len(),
            more == as_terminals(param_models(params@), bytes),
            list@.map_values(|c: RawTerminalCandidate| terminal_model(c)) == start + more.take(
                k as int,
            ),
        decreases params@.len() - k,
    {
        let ghost before = list@;
        list.push(
            RawTerminalCandidate {
                params: params[k].duplicate(),
                opening_reduction_bytes: bytes,
            },
        );
        proof {
            let last = terminal_model(list@.last());
            assert(more[k as int] == last);
            assert(more.take(k + 1) =~= more.take(k as int).push(last));
            assert(list@.map_values(|c: RawTerminalCandidate| terminal_model(c))
                =~= before.map_values(|c: RawTerminalCandidate| terminal_model(c)).push(last));
            assert(start + more.take(k + 1) =~= (start + more.take(k as int)).push(last));
        }
        k += 1;
    }
    assert(more.take(k as int) =~= more);
}

/// Appends folds as terminal candidates.
fn push_folds_as_terminals(
    list: &mut Vec<RawTerminalCandidate>,
    folds: &Vec<LevelCandidate>,
    bytes: usize,
)
    ensures
        forall|others: Seq<RawFoldCandidate>|
            (#[trigger] contents(final(list)@, others)).terminal == contents(
                old(list)@,
                others,
            ).terminal + as_terminals(fold_params(level_models(folds@)), bytes),
{
    let ghost start = list@.map_values(|c: RawTerminalCandidate| terminal_model(c));
    let ghost more = as_terminals(fold_params(level_models(folds@)), bytes);
    assert(start + more.take(0) =~= start);
    let mut k: usize = 0;
    while k < folds.len()
        invariant
            k <= folds@.len(),
            more == as_terminals(fold_params(level_models(folds@)), bytes),
            list@.map_values(|c: RawTerminalCandidate| terminal_model(c)) == start + more.take(
                k as int,
            ),
        decreases folds@.len() - k,
    {
        let ghost before = list@;
        list.push(
            RawTerminalCandidate {
                params: folds[k].params.duplicate(),
                opening_reduction_bytes: bytes,
            },
        );
        proof {
            let last = terminal_model(list@.last());
            assert(more[k as int] == last);
            assert(more.take(k + 1) =~= more.take(k as int).push(last));
            assert(list@.map_values(|c: RawTerminalCandidate| terminal_model(c))
                =~= before.map_values(|c: RawTerminalCandidate| terminal_model(c)).push(last));
            assert(start + more.take(k + 1) =~= (start + more.take(k as int)).push(last));
        }
        k += 1;
    }
    assert(more.take(k as int) =~= more);
}

/// Appends folds as fold candidates.
fn push_folds(list: &mut Vec<RawFoldCandidate>, folds: &Vec<LevelCandidate>, bytes: usize)
    ensures
        forall|others: Seq<RawTerminalCandidate>|
            (#[trigger] contents(others, final(list)@)).folds == contents(
                others,
                old(list)@,
            ).folds + as_folds(level_models(folds@), bytes),
{
    let ghost start = list@.map_values(|c: RawFoldCandidate| fold_model(c));
    let ghost more = as_folds(level_models(folds@), bytes);
    assert(start + more.take(0) =~= start);
    let mut k: usize = 0;
    while k < folds.len()
        invariant
            k <= folds@.len(),
            more == as_folds(level_models(folds@), bytes),
            list@.map_values(|c: RawFoldCandidate| fold_model(c)) == start + more.take(k as int),
        decreases folds@.len() - k,
    {
        let ghost before = list@;
        list.push(
            RawFoldCandidate {
                params: folds[k].params.duplicate(),
                next_witness_len: folds[k].next_witness_len,
                opening_reduction_bytes: bytes,
            },
        );
        proof {
            let last = fold_model(list@.last());
            assert(more[k as int] == last);
            assert(more.take(k + 1) =~= more.take(k as int).push(last));
            assert(list@.map_values(|c: RawFoldCandidate| fold_model(c)) =~= before.map_values(
                |c: RawFoldCandidate| fold_model(c),
            ).push(last));
            assert(start + more.take(k + 1) =~= (start + more.take(k as int)).push(last));
        }
        k += 1;
    }
    assert(more.take(k as int) =~= more);
}

impl GeneratedCandidates {
    /// No candidates.
    pub fn empty() -> (r: Self)
        ensures
            r@ == CandidatesModel::none(),
    {
        let r = GeneratedCandidates { terminal: Vec::new(), folds: Vec::new() };
        assert(r@ =~= CandidatesModel::none());
        r
    }

    /// Takes in more candidates behind those already there.
    pub fn absorb(&mut self, more: GeneratedCandidates)
        ensures
            final(self)@ == old(self)@.plus(more@),
    {
        let ghost before = *self;
        let ghost extra = more@;
        let mut more = more;
        self.terminal.append(&mut more.terminal);
        self.folds.append(&mut more.folds);
        assert(self@ =~= before@.plus(extra));
    }

    /// Whether there are no candidates.
    pub fn is_empty(&self) -> (b: bool)
        ensures
            b == self@.is_none(),
    {
        self.terminal.len() == 0 && self.folds.len() == 0
    }
}

/// Takes candidates in batches.
pub trait BatchVisitor: Sized {
    /// The batches handed over so far, a refused one among them.
    spec fn seen(&self) -> Seq<CandidatesModel>;

    /// Why the last refused batch was refused.
    spec fn refusal(&self) -> Option<AkitaError>;

    fn visit(&mut self, batch: GeneratedCandidates) -> (r: Result<(), AkitaError>)
        ensures
            final(self).seen() == old(self).seen().push(batch@),
            final(self).refusal() == match r {
                Ok(()) => old(self).refusal(),
                Err(e) => Some(e),
            },
    ;
}

/// Collects every batch.
pub struct BatchCollector {
    pub batches: Vec<GeneratedCandidates>,
}

impl BatchVisitor for BatchCollector {
    open spec fn seen(&self) -> Seq<CandidatesModel> {
        self.batches@.map_values(|b: GeneratedCandidates| b@)
    }

    open spec fn refusal(&self) -> Option<AkitaError> {
        None
    }

    fn visit(&mut self, batch: GeneratedCandidates) -> (r: Result<(), AkitaError>) {
        let ghost before = self.seen();
        let ghost model = batch@;
        self.batches.push(batch);
        assert(self.seen() =~= before.push(model));
        Ok(())
    }
}

impl<'a> CandidateDomain<'a> {
    /// The question of which candidates the state has at an opening basis.
    pub open spec fn generation<R: CandidateRules>(
        self,
        ctx: SuffixCtx<'_, R>,
        state: SuffixState,
        open_lb: u32,
    ) -> Generation<R> {
        Generation {
            rules: *ctx.rules,
            policy: *ctx.policy,
            final_policy: ctx.root_honest_fold_policy,
            fold_policies: ctx.precommitted_honest_fold_policies@,
            state,
            root: match self.root_level_key {
                Some(key) => Some(*key),
                None => None,
            },
            source: self.inner_source,
            inner_range: self.inner_basis_range,
            work: opening_domain::work_models(self.opening_work@),
            fold_policy: self.fold_policy,
            open_lb,
        }
    }

    /// The candidates of one opening at the root.
    fn root_batch<R: CandidateRules>(
        &self,
        ctx: &SuffixCtx<'_, R>,
        state: SuffixState,
        root_key: &AkitaScheduleLookupKey,
        work: &OpeningWork,
        inner_lb: u32,
        open_lb: u32,
    ) -> (r: Result<GeneratedCandidates, AkitaError>)
        requires
            self.root_level_key == Some(root_key),
        ensures
            ({
                let g = self.generation(*ctx, state, open_lb);
                match r {
                    Ok(batch) => g.root_yield(inner_lb, work@) == Some(batch@),
                    Err(e) => g.root_yield(inner_lb, work@) is None && g.root_refusal(
                        inner_lb,
                        work@,
                    ) == Some(e@),
                }
            }),
    {
        let ghost g = self.generation(*ctx, state, open_lb);
        let final_policy = match ctx.root_honest_fold_policy {
            Some(final_policy) => final_policy,
            None => {
                return Err(AkitaError::setup("root batch is missing its honest fold policy"));
            },
        };
        let folds = match ctx.rules.root_folds(
            ctx.policy,
            root_key,
            ctx.precommitted_honest_fold_policies,
            &work.precommitted_openings,
            RootCandidateRequest {
                final_policy,
                dimensions: work.dimensions,
                opening: work.opening,
                log_basis_inner: inner_lb,
                log_basis_open: open_lb,
            },
        ) {
            Ok(folds) => folds,
            Err(e) => {
                return Err(e);
            },
        };
        assert(g.root_folds(inner_lb, work@) == Some(level_models(folds@)));
        let domain = match ctx.rules.relation_domain(
            state.topology,
            state.level,
            work.opening.method(),
        ) {
            Ok(domain) => domain,
            Err(e) => {
                return Err(e);
            },
        };
        let transition = match domain.only_transition() {
            Ok(transition) => transition,
            Err(e) => {
                return Err(e);
            },
        };
        let mut k: usize = 0;
        while k < folds.len()
            invariant
                k <= folds@.len(),
                g.root_folds(inner_lb, work@) == Some(level_models(folds@)),
                g.relation(work@) == Some(domain),
                domain.only() == Some(transition),
                g == self.generation(*ctx, state, open_lb),
                g.final_policy is Some,
                forall|i: int|
                    0 <= i < k ==> (#[trigger] level_models(folds@)[i]).params.ring_relation_mode
                        == transition,
            decreases folds@.len() - k,
        {
            if folds[k].params.ring_relation_mode != transition {
                assert(level_models(folds@)[k as int].params.ring_relation_mode != transition);
                return Err(
                    AkitaError::setup("materialized mode disagrees with relation domain"),
                );
            }
            k += 1;
        }
        let mut batch = GeneratedCandidates::empty();
        let ghost start = batch;
        if work.purpose.allows_terminal() {
            push_folds_as_terminals(&mut batch.terminal, &folds, work.opening_reduction_bytes);
        }
        assert(contents(batch.terminal@, start.folds@).folds == start@.folds);
        let ghost half = batch;
        if work.purpose.allows_fold() {
            push_folds(&mut batch.folds, &folds, work.opening_reduction_bytes);
        }
        proof {
            assert(contents(half.terminal@, start.folds@).terminal == half@.terminal);
            assert(contents(start.terminal@, start.folds@) == start@);
            assert(contents(half.terminal@, batch.folds@) == batch@);
            assert(g.root_yield(inner_lb, work@) is Some);
            assert(batch@ =~= g.root_yield(inner_lb, work@)->0);
        }
        Ok(batch)
    }

    /// The candidates of one opening under one payload mode.
    fn mode_batch<R: CandidateRules>(
        &self,
        ctx: &SuffixCtx<'_, R>,
        state: SuffixState,
        work: &OpeningWork,
        payload_mode: CommitmentPayloadMode,
        inner_lb: u32,
        open_lb: u32,
    ) -> (r: Result<GeneratedCandidates, AkitaError>)
        ensures
            ({
                let g = self.generation(*ctx, state, open_lb);
                match r {
                    Ok(batch) => g.mode_yield(inner_lb, work@, payload_mode) == Some(batch@),
                    Err(e) => g.mode_yield(inner_lb, work@, payload_mode) is None
                        && g.mode_refusal(inner_lb, work@, payload_mode) == Some(e@),
                }
            }),
    {
        let ghost g = self.generation(*ctx, state, open_lb);
        let bytes: usize = work.opening_reduction_bytes;
        let request = RecursiveCandidateRequest {
            payload_mode,
            opening: work.opening,
            dimensions: work.dimensions,
            current_witness_len: state.current_witness_len,
            source: self.inner_source,
            log_basis_inner: inner_lb,
            log_basis_open: open_lb,
            fold_level: state.level,
            source_moment: state.source_moment,
        };
        assert(request == g.request(inner_lb, work@, payload_mode));
        let domain = match ctx.rules.relation_domain(
            state.topology,
            state.level,
            work.opening.method(),
        ) {
            Ok(domain) => domain,
            Err(e) => {
                return Err(e);
            },
        };
        let mut batch = GeneratedCandidates::empty();
        let ghost start = batch;
        assert(contents(start.terminal@, start.folds@) == start@);
        if work.purpose == OpeningPurpose::TerminalAndFold {
            let views = match ctx.rules.recursive_views(
                ctx.policy,
                request,
                self.fold_policy,
                domain,
            ) {
                Ok(views) => views,
                Err(e) => {
                    return Err(e);
                },
            };
            let mut k: usize = 0;
            while k < views.folds.len()
                invariant
                    k <= views.folds@.len(),
                    g.rules.recursive_views_of(g.policy, request, g.fold_policy, domain) is Some,
                    (g.rules.recursive_views_of(
                        g.policy,
                        request,
                        g.fold_policy,
                        domain,
                    )->0).folds == level_models(views.folds@),
                    g.relation(work@) == Some(domain),
                    request == g.request(inner_lb, work@, payload_mode),
                    work.purpose is TerminalAndFold,
                    g == self.generation(*ctx, state, open_lb),
                    forall|i: int|
                        0 <= i < k ==> domain.has(
                            (#[trigger] level_models(views.folds@)[i]).params.ring_relation_mode,
                        ),
                decreases views.folds@.len() - k,
            {
                if !domain.admits(views.folds[k].params.ring_relation_mode) {
                    assert(!domain.has(
                        level_models(views.folds@)[k as int].params.ring_relation_mode,
                    ));
                    return Err(
                        AkitaError::setup(
                            "combined recursive view emitted a fold outside its relation domain",
                        ),
                    );
                }
                k += 1;
            }
            push_terminals(&mut batch.terminal, &views.terminal, bytes);
            let ghost half = batch;
            push_folds(&mut batch.folds, &views.folds, bytes);
            proof {
                assert(contents(half.terminal@, start.folds@).terminal == half@.terminal);
                assert(contents(half.terminal@, start.folds@).folds == start@.folds);
                assert(contents(half.terminal@, batch.folds@) == batch@);
                assert(g.mode_yield(inner_lb, work@, payload_mode) is Some);
                assert(batch@ =~= g.mode_yield(inner_lb, work@, payload_mode)->0);
            }
            return Ok(batch);
        }
        if work.purpose.allows_terminal() {
            let terminals = match ctx.rules.terminals(ctx.policy, request) {
                Ok(terminals) => terminals,
                Err(e) => {
                    return Err(e);
                },
            };
            push_terminals(&mut batch.terminal, &terminals, bytes);
        }
        let ghost half = batch;
        if work.purpose.allows_fold() {
            let fold_work = match state.topology.incoming_setup_prefix {
                Some(natural_len) => RecursiveFoldWork::SetupPrefixed { natural_len },
                None => RecursiveFoldWork::Direct(domain),
            };
            let folds = match ctx.rules.folds(
                ctx.policy,
                request,
                fold_work,
                self.fold_policy,
            ) {
                Ok(folds) => folds,
                Err(e) => {
                    return Err(e);
                },
            };
            push_folds(&mut batch.folds, &folds, bytes);
        }
        proof {
            assert(contents(half.terminal@, start.folds@).terminal == half@.terminal);
            assert(contents(half.terminal@, start.folds@).folds == start@.folds);
            assert(contents(half.terminal@, batch.folds@) == batch@);
            assert(g.mode_yield(inner_lb, work@, payload_mode) is Some);
            assert(batch@ =~= g.mode_yield(inner_lb, work@, payload_mode)->0);
        }
        Ok(batch)
    }

    /// The candidates of one opening below the root.
    fn recursive_batch<R: CandidateRules>(
        &self,
        ctx: &SuffixCtx<'_, R>,
        state: SuffixState,
        work: &OpeningWork,
        inner_lb: u32,
        open_lb: u32,
    ) -> (r: Result<GeneratedCandidates, AkitaError>)
        requires
            self.root_level_key is None,
        ensures
            ({
                let g = self.generation(*ctx, state, open_lb);
                match r {
                    Ok(batch) => g.work_yield(inner_lb, work@) == Some(batch@),
                    Err(e) => g.work_yield(inner_lb, work@) is None && g.work_refusal(
                        inner_lb,
                        work@,
                    ) == Some(e@),
                }
            }),
    {
        let ghost g = self.generation(*ctx, state, open_lb);
        let modes = ctx.rules.payload_modes(state.topology, state.level);
        let mut all = GeneratedCandidates::empty();
        let mut k: usize = 0;
        while k < modes.len()
            invariant
                k <= modes@.len(),
                self.root_level_key is None,
                g == self.generation(*ctx, state, open_lb),
                g.modes() == modes@,
                g.modes_yield(inner_lb, work@, k as nat) == Some(all@),
            decreases modes@.len() - k,
        {
            match self.mode_batch(ctx, state, work, modes[k], inner_lb, open_lb) {
                Ok(batch) => {
                    all.absorb(batch);
                },
                Err(e) => {
                    proof {
                        assert(g.modes_yield(inner_lb, work@, (k + 1) as nat) is None);
                        assert(g.modes_refusal(inner_lb, work@, (k + 1) as nat) == Some(e@));
                        lemma_modes_none(g, inner_lb, work@, (k + 1) as nat, modes@.len());
                    }
                    return Err(e);
                },
            }
            k += 1;
        }
        Ok(all)
    }

    /// All candidates of the state at an opening basis.
    pub fn generate_for_opening_basis<R: CandidateRules>(
        &self,
        ctx: &SuffixCtx<'_, R>,
        state: SuffixState,
        open_lb: u32,
    ) -> (r: Result<GeneratedCandidates, AkitaError>)
        ensures
            match r {
                Ok(all) => self.generation(*ctx, state, open_lb).candidates() == Some(all@),
                Err(e) => self.generation(*ctx, state, open_lb).candidates() is None
                    && self.generation(*ctx, state, open_lb).refusal() == Some(e@),
            },
    {
        let ghost g = self.generation(*ctx, state, open_lb);
        let mut all = GeneratedCandidates::empty();
        let min: u64 = self.inner_basis_range.min as u64;
        let max: u64 = self.inner_basis_range.max as u64;
        let mut lb: u64 = min;
        while lb <= max
            invariant
                min == self.inner_basis_range.min,
                max == self.inner_basis_range.max,
                min <= lb,
                lb <= max + 1 || lb == min,
                g == self.generation(*ctx, state, open_lb),
                g.bases_yield((lb - min) as nat) == Some(all@),
            decreases max + 1 - lb,
        {
            let inner_lb: u32 = lb as u32;
            let ghost so_far = all@;
            let mut basis = GeneratedCandidates::empty();
            let mut k: usize = 0;
            while k < self.opening_work.len()
                invariant
                    k <= self.opening_work@.len(),
                    min == self.inner_basis_range.min,
                    max == self.inner_basis_range.max,
                    min <= lb <= max,
                    inner_lb == lb,
                    g == self.generation(*ctx, state, open_lb),
                    g.bases_yield((lb - min) as nat) == Some(so_far),
                    g.works_yield(inner_lb, k as nat) == Some(basis@),
                decreases self.opening_work@.len() - k,
            {
                let work = &self.opening_work[k];
                assert(g.work[k as int] == work@);
                let outcome = match self.root_level_key {
                    Some(root_key) => self.root_batch(
                        ctx,
                        state,
                        root_key,
                        work,
                        inner_lb,
                        open_lb,
                    ),
                    None => self.recursive_batch(ctx, state, work, inner_lb, open_lb),
                };
                match outcome {
                    Ok(batch) => {
                        basis.absorb(batch);
                    },
                    Err(e) => {
                        proof {
                            assert(g.works_yield(inner_lb, (k + 1) as nat) is None);
                            assert(g.works_refusal(inner_lb, (k + 1) as nat) == Some(e@));
                            lemma_works_none(g, inner_lb, (k + 1) as nat, g.work.len());
                            assert((g.inner_range.min + (lb - min + 1) - 1) as u32 == inner_lb);
                            assert(g.bases_yield((lb - min + 1) as nat) is None);
                            assert(g.bases_refusal((lb - min + 1) as nat) == Some(e@));
                            lemma_bases_none(g, (lb - min + 1) as nat, g.num_bases());
                        }
                        return Err(e);
                    },
                }
                k += 1;
            }
            assert((g.inner_range.min + (lb - min + 1) - 1) as u32 == inner_lb);
            all.absorb(basis);
            lb += 1;
        }
        assert((lb - min) as nat == g.num_bases());
        Ok(all)
    }

    /// Hands one batch per inner basis and opening to a visitor, empty ones
    /// left out.
    pub fn visit_root_batches<R: CandidateRules, V: BatchVisitor>(
        &self,
        ctx: &SuffixCtx<'_, R>,
        state: SuffixState,
        open_lb: u32,
        visitor: &mut V,
    ) -> (r: Result<(), AkitaError>)
        ensures
            ({
                let g = self.generation(*ctx, state, open_lb);
                match r {
                    Ok(()) => {
                        &&& g.root is Some
                        &&& g.final_policy is Some
                        &&& g.batches() is Some
                        &&& final(visitor).seen() == old(visitor).seen() + g.batches()->0
                        &&& final(visitor).refusal() == old(visitor).refusal()
                    },
                    Err(e) => if g.root is None || g.final_policy is None {
                        &&& e.is_setup(
                            if g.root is None {
                                "root batch visitor requires a root lookup key"@
                            } else {
                                "root batch is missing its honest fold policy"@
                            },
                        )
                        &&& final(visitor).seen() == old(visitor).seen()
                        &&& final(visitor).refusal() == old(visitor).refusal()
                    } else {
                        &&& g.handed_over(old(visitor).seen(), final(visitor).seen())
                        &&& {
                            ||| final(visitor).refusal() == Some(e)
                            ||| g.refusal() == Some(e@) && g.batches() is None
                                && final(visitor).refusal() == old(visitor).refusal()
                        }
                    },
                }
            }),
    {
        let ghost g = self.generation(*ctx, state, open_lb);
        let ghost start = visitor.seen();
        let ghost refusal = visitor.refusal();
        let root_key = match self.root_level_key {
            Some(root_key) => root_key,
            None => {
                return Err(AkitaError::setup("root batch visitor requires a root lookup key"));
            },
        };
        match ctx.root_honest_fold_policy {
            Some(_final_policy) => {},
            None => {
                return Err(AkitaError::setup("root batch is missing its honest fold policy"));
            },
        }
        let min: u64 = self.inner_basis_range.min as u64;
        let max: u64 = self.inner_basis_range.max as u64;
        let mut lb: u64 = min;
        assert(start + Seq::<CandidatesModel>::empty() =~= start);
        while lb <= max
            invariant
                min == self.inner_basis_range.min,
                max == self.inner_basis_range.max,
                min <= lb,
                lb <= max + 1 || lb == min,
                g == self.generation(*ctx, state, open_lb),
                self.root_level_key == Some(root_key),
                g.final_policy is Some,
                g.base_batches((lb - min) as nat) is Some,
                visitor.seen() == start + g.base_batches((lb - min) as nat)->0,
                visitor.refusal() == refusal,
                start == old(visitor).seen(),
                refusal == old(visitor).refusal(),
            decreases max + 1 - lb,
        {
            let inner_lb: u32 = lb as u32;
            let ghost so_far = g.base_batches((lb - min) as nat)->0;
            let mut k: usize = 0;
            assert(so_far + Seq::<CandidatesModel>::empty() =~= so_far);
            while k < self.opening_work.len()
                invariant
                    k <= self.opening_work@.len(),
                    min == self.inner_basis_range.min,
                    max == self.inner_basis_range.max,
                    min <= lb <= max,
                    inner_lb == lb,
                    g == self.generation(*ctx, state, open_lb),
                    self.root_level_key == Some(root_key),
                    g.final_policy is Some,
                    g.base_batches((lb - min) as nat) == Some(so_far),
                    g.work_batches(inner_lb, k as nat) is Some,
                    visitor.seen() == start + (so_far + g.work_batches(inner_lb, k as nat)->0),
                    visitor.refusal() == refusal,
                start == old(visitor).seen(),
                refusal == old(visitor).refusal(),
                decreases self.opening_work@.len() - k,
            {
                let work = &self.opening_work[k];
                assert(g.work[k as int] == work@);
                let ghost before = g.work_batches(inner_lb, k as nat)->0;
                match self.root_batch(ctx, state, root_key, work, inner_lb, open_lb) {
                    Ok(batch) => {
                        if !batch.is_empty() {
                            proof {
                                assert(g.work_batches(inner_lb, (k + 1) as nat)
                                    == Some(before.push(batch@)));
                                assert(start + (so_far + before.push(batch@)) =~= (start + (so_far
                                    + before)).push(batch@));
                            }
                            match visitor.visit(batch) {
                                Ok(()) => {},
                                Err(e) => {
                                    proof {
                                        assert(g.batches_up_to(
                                            (lb - min) as nat,
                                            (k + 1) as nat,
                                        ) == Some(so_far + before.push(batch@)));
                                    }
                                    return Err(e);
                                },
                            }
                        }
                    },
                    Err(e) => {
                        proof {
                            assert(g.batches_up_to((lb - min) as nat, k as nat) == Some(
                                so_far + before,
                            ));
                            assert(g.work_batches(inner_lb, (k + 1) as nat) is None);
                            lemma_work_batches_none(g, inner_lb, (k + 1) as nat, g.work.len());
                            assert((g.inner_range.min + (lb - min + 1) - 1) as u32 == inner_lb);
                            assert(g.base_batches((lb - min + 1) as nat) is None);
                            lemma_base_batches_none(g, (lb - min + 1) as nat, g.num_bases());
                            lemma_batch_refusal(g, (lb - min) as nat, k as nat);
                        }
                        return Err(e);
                    },
                }
                k += 1;
            }
            proof {
                assert((g.inner_range.min + (lb - min + 1) - 1) as u32 == inner_lb);
                assert(g.base_batches((lb - min + 1) as nat) == Some(
                    so_far + g.work_batches(inner_lb, g.work.len())->0,
                ));
            }
            lb += 1;
        }
        assert((lb - min) as nat == g.num_bases());
        Ok(())
    }
}

// ---------------------------------------------------------------------------
// Where candidates come from
// ---------------------------------------------------------------------------

/// Whether a fold is one of a list, at the price of an opening.
pub open spec fn is_fold_among(list: Seq<LevelCandidateModel>, bytes: usize, f: RawFoldModel) -> bool {
    &&& f.opening_reduction_bytes == bytes
    &&& exists|j: int|
        0 <= j < list.len() && (#[trigger] list[j]).params == f.params && list[j].next_witness_len
            == f.next_witness_len
}

/// Whether a terminal has one of some parameters, at the price of an opening.
pub open spec fn is_terminal_among(
    list: Seq<CommittedGroupModel>,
    bytes: usize,
    t: RawTerminalModel,
) -> bool {
    t.opening_reduction_bytes == bytes && exists|j: int|
        0 <= j < list.len() && #[trigger] list[j] == t.params
}

/// The folds that the rules derive for an opening of a root.
pub open spec fn derived_root_folds<R: CandidateRules>(
    g: Generation<R>,
    inner_lb: u32,
    w: WorkModel,
) -> Seq<LevelCandidateModel> {
    let key = g.root->0;
    g.rules.root_folds_of(
        g.policy,
        key.final_group,
        key.precommitteds@,
        g.fold_policies,
        w.precommitted_openings,
        RootCandidateRequest {
            final_policy: g.final_policy->0,
            dimensions: w.dimensions,
            opening: w.opening,
            log_basis_inner: inner_lb,
            log_basis_open: g.open_lb,
        },
    )->0
}

/// What the rules are asked for at a later state under a payload mode.
pub open spec fn asked_at<R: CandidateRules>(
    g: Generation<R>,
    inner_lb: u32,
    w: WorkModel,
    payload_mode: CommitmentPayloadMode,
) -> RecursiveCandidateRequest {
    RecursiveCandidateRequest {
        payload_mode,
        opening: w.opening,
        dimensions: w.dimensions,
        current_witness_len: g.state.current_witness_len,
        source: g.source,
        log_basis_inner: inner_lb,
        log_basis_open: g.open_lb,
        fold_level: g.state.level,
        source_moment: g.state.source_moment,
    }
}

/// The folds that the rules derive for an opening of a later state: together
/// with terminals where the opening serves both, else behind the setup prefix
/// that comes in, or directly under the relation modes of the opening.
pub open spec fn derived_folds<R: CandidateRules>(
    g: Generation<R>,
    inner_lb: u32,
    w: WorkModel,
    payload_mode: CommitmentPayloadMode,
) -> Seq<LevelCandidateModel> {
    let request = asked_at(g, inner_lb, w, payload_mode);
    let domain = g.rules.relation_domain_of(g.state.topology, g.state.level, w.opening.method)->0;
    if w.purpose is TerminalAndFold {
        g.rules.recursive_views_of(g.policy, request, g.fold_policy, domain)->0.folds
    } else {
        let fold_work = match g.state.topology.incoming_setup_prefix {
            Some(natural_len) => RecursiveFoldWork::SetupPrefixed { natural_len },
            None => RecursiveFoldWork::Direct(domain),
        };
        g.rules.folds_of(g.policy, request, fold_work, g.fold_policy)->0
    }
}

/// The terminals that the rules derive for an opening of a later state.
pub open spec fn derived_terminals<R: CandidateRules>(
    g: Generation<R>,
    inner_lb: u32,
    w: WorkModel,
    payload_mode: CommitmentPayloadMode,
) -> Seq<CommittedGroupModel> {
    let request = asked_at(g, inner_lb, w, payload_mode);
    if w.purpose is TerminalAndFold {
        let domain = g.rules.relation_domain_of(
            g.state.topology,
            g.state.level,
            w.opening.method,
        )->0;
        g.rules.recursive_views_of(g.policy, request, g.fold_policy, domain)->0.terminal
    } else {
        g.rules.terminals_of(g.policy, request)->0
    }
}

/// Whether a fold is derived for an opening under an inner basis: the opening
/// serves folds, and the rules derive the fold, at the root or under one of the
/// payload modes of the state.
pub open spec fn fold_is_derived<R: CandidateRules>(
    g: Generation<R>,
    inner_lb: u32,
    w: WorkModel,
    f: RawFoldModel,
) -> bool {
    let modes = g.rules.payload_modes_of(g.state.topology, g.state.level);
    &&& w.purpose is FoldOnly || w.purpose is TerminalAndFold
    &&& if g.root is Some {
        is_fold_among(derived_root_folds(g, inner_lb, w), w.opening_reduction_bytes, f)
    } else {
        exists|m: int|
            0 <= m < modes.len() && is_fold_among(
                derived_folds(g, inner_lb, w, #[trigger] modes[m]),
                w.opening_reduction_bytes,
                f,
            )
    }
}

/// Whether a terminal is derived for an opening under an inner basis.
pub open spec fn terminal_is_derived<R: CandidateRules>(
    g: Generation<R>,
    inner_lb: u32,
    w: WorkModel,
    t: RawTerminalModel,
) -> bool {
    let modes = g.rules.payload_modes_of(g.state.topology, g.state.level);
    &&& w.purpose is TerminalOnly || w.purpose is TerminalAndFold
    &&& if g.root is Some {
        is_terminal_among(
            Seq::new(
                derived_root_folds(g, inner_lb, w).len(),
                |j: int| derived_root_folds(g, inner_lb, w)[j].params,
            ),
            w.opening_reduction_bytes,
            t,
        )
    } else {
        exists|m: int|
            0 <= m < modes.len() && is_terminal_among(
                derived_terminals(g, inner_lb, w, #[trigger] modes[m]),
                w.opening_reduction_bytes,
                t,
            )
    }
}

/// The candidates of a state are what the rules derive for the openings that it
/// tries, under every inner basis from the least to the greatest of its range:
/// all of that, and nothing else.
pub proof fn law_candidates_are_what_the_rules_derive<R: CandidateRules>(
    g: Generation<R>,
    f: RawFoldModel,
    t: RawTerminalModel,
)
    requires
        g.candidates() is Some,
    ensures
        g.candidates()->0.folds.contains(f) <==> exists|lb: u32, i: int|
            g.inner_range.min <= lb <= g.inner_range.max && 0 <= i < g.work.len()
                && #[trigger] fold_is_derived(g, lb, g.work[i], f),
        g.candidates()->0.terminal.contains(t) <==> exists|lb: u32, i: int|
            g.inner_range.min <= lb <= g.inner_range.max && 0 <= i < g.work.len()
                && #[trigger] terminal_is_derived(g, lb, g.work[i], t),
{
    lemma_bases_derive(g, g.num_bases(), f, t);
}

/// The folds of an opening take relation modes that it admits: at the
/// root the one mode that is left, and otherwise one of the modes.
pub proof fn law_folds_take_admitted_modes<R: CandidateRules>(
    g: Generation<R>,
    inner_lb: u32,
    w: WorkModel,
    payload_mode: CommitmentPayloadMode,
    j: int,
)
    ensures
        ({
            let domain = g.rules.relation_domain_of(
                g.state.topology,
                g.state.level,
                w.opening.method,
            );
            &&& g.root_yield(inner_lb, w) is Some && 0 <= j < derived_root_folds(
                g,
                inner_lb,
                w,
            ).len() ==> domain is Some && match derived_root_folds(
                g,
                inner_lb,
                w,
            )[j].params.ring_relation_mode {
                RingRelationMode::QuotientLift => domain->0.quotient_lift
                    && !domain->0.reduced_evaluation,
                RingRelationMode::ReducedEvaluation => domain->0.reduced_evaluation
                    && !domain->0.quotient_lift,
            }
            &&& g.mode_yield(inner_lb, w, payload_mode) is Some && w.purpose is TerminalAndFold
                && 0 <= j < derived_folds(g, inner_lb, w, payload_mode).len() ==> domain is Some
                && match derived_folds(
                g,
                inner_lb,
                w,
                payload_mode,
            )[j].params.ring_relation_mode {
                RingRelationMode::QuotientLift => domain->0.quotient_lift,
                RingRelationMode::ReducedEvaluation => domain->0.reduced_evaluation,
            }
        }),
{
    if g.root_yield(inner_lb, w) is Some && 0 <= j < derived_root_folds(g, inner_lb, w).len() {
        let folds = g.root_folds(inner_lb, w)->0;
        assert(folds[j].params.ring_relation_mode == g.relation(w)->0.only()->0);
    }
}

proof fn lemma_either<T>(a: Seq<T>, b: Seq<T>, x: T)
    ensures
        (a + b).contains(x) <==> a.contains(x) || b.contains(x),
{
    let all = a + b;
    if all.contains(x) {
        let k = choose|k: int| 0 <= k < all.len() && all[k] == x;
        if k < a.len() {
            assert(a[k] == x);
        } else {
            assert(b[k - a.len()] == x);
        }
    }
    if a.contains(x) {
        let k = choose|k: int| 0 <= k < a.len() && a[k] == x;
        assert(all[k] == x);
    }
    if b.contains(x) {
        let k = choose|k: int| 0 <= k < b.len() && b[k] == x;
        assert(all[a.len() + k] == x);
    }
}

proof fn lemma_as_folds(list: Seq<LevelCandidateModel>, bytes: usize, f: RawFoldModel)
    ensures
        as_folds(list, bytes).contains(f) <==> is_fold_among(list, bytes, f),
{
    let all = as_folds(list, bytes);
    if all.contains(f) {
        let k = choose|k: int| 0 <= k < all.len() && all[k] == f;
        assert(list[k].params == f.params);
    }
    if is_fold_among(list, bytes, f) {
        let j = choose|j: int|
            0 <= j < list.len() && (#[trigger] list[j]).params == f.params
                && list[j].next_witness_len == f.next_witness_len;
        assert(all[j] == f);
    }
}

proof fn lemma_as_terminals(list: Seq<CommittedGroupModel>, bytes: usize, t: RawTerminalModel)
    ensures
        as_terminals(list, bytes).contains(t) <==> is_terminal_among(list, bytes, t),
{
    let all = as_terminals(list, bytes);
    if all.contains(t) {
        let k = choose|k: int| 0 <= k < all.len() && all[k] == t;
        assert(list[k] == t.params);
    }
    if is_terminal_among(list, bytes, t) {
        let j = choose|j: int| 0 <= j < list.len() && #[trigger] list[j] == t.params;
        assert(all[j] == t);
    }
}

proof fn lemma_root_derives<R: CandidateRules>(
    g: Generation<R>,
    inner_lb: u32,
    w: WorkModel,
    f: RawFoldModel,
    t: RawTerminalModel,
)
    requires
        g.root is Some,
        g.root_yield(inner_lb, w) is Some,
    ensures
        g.root_yield(inner_lb, w)->0.folds.contains(f) <==> fold_is_derived(g, inner_lb, w, f),
        g.root_yield(inner_lb, w)->0.terminal.contains(t) <==> terminal_is_derived(
            g,
            inner_lb,
            w,
            t,
        ),
{
    let folds = derived_root_folds(g, inner_lb, w);
    assert(g.root_folds(inner_lb, w)->0 == folds);
    lemma_as_folds(folds, w.opening_reduction_bytes, f);
    let params = Seq::new(folds.len(), |j: int| folds[j].params);
    assert(fold_params(folds) =~= params);
    assert(params =~= Seq::new(
        derived_root_folds(g, inner_lb, w).len(),
        |j: int| derived_root_folds(g, inner_lb, w)[j].params,
    ));
    lemma_as_terminals(params, w.opening_reduction_bytes, t);
}

proof fn lemma_mode_derives<R: CandidateRules>(
    g: Generation<R>,
    inner_lb: u32,
    w: WorkModel,
    mode: CommitmentPayloadMode,
    f: RawFoldModel,
    t: RawTerminalModel,
)
    requires
        g.mode_yield(inner_lb, w, mode) is Some,
    ensures
        g.mode_yield(inner_lb, w, mode)->0.folds.contains(f) <==> (w.purpose is FoldOnly
            || w.purpose is TerminalAndFold) && is_fold_among(
            derived_folds(g, inner_lb, w, mode),
            w.opening_reduction_bytes,
            f,
        ),
        g.mode_yield(inner_lb, w, mode)->0.terminal.contains(t) <==> (w.purpose is TerminalOnly
            || w.purpose is TerminalAndFold) && is_terminal_among(
            derived_terminals(g, inner_lb, w, mode),
            w.opening_reduction_bytes,
            t,
        ),
{
    assert(g.request(inner_lb, w, mode) == asked_at(g, inner_lb, w, mode));
    lemma_as_folds(derived_folds(g, inner_lb, w, mode), w.opening_reduction_bytes, f);
    lemma_as_terminals(derived_terminals(g, inner_lb, w, mode), w.opening_reduction_bytes, t);
}

proof fn lemma_modes_derive<R: CandidateRules>(
    g: Generation<R>,
    inner_lb: u32,
    w: WorkModel,
    n: nat,
    f: RawFoldModel,
    t: RawTerminalModel,
)
    requires
        n <= g.modes().len(),
        g.modes_yield(inner_lb, w, n) is Some,
    ensures
        g.modes_yield(inner_lb, w, n)->0.folds.contains(f) <==> (w.purpose is FoldOnly || w.purpose
            is TerminalAndFold) && exists|m: int|
            0 <= m < n && is_fold_among(
                derived_folds(g, inner_lb, w, #[trigger] g.modes()[m]),
                w.opening_reduction_bytes,
                f,
            ),
        g.modes_yield(inner_lb, w, n)->0.terminal.contains(t) <==> (w.purpose is TerminalOnly
            || w.purpose is TerminalAndFold) && exists|m: int|
            0 <= m < n && is_terminal_among(
                derived_terminals(g, inner_lb, w, #[trigger] g.modes()[m]),
                w.opening_reduction_bytes,
                t,
            ),
    decreases n,
{
    if n > 0 {
        let mode = g.modes()[n - 1];
        lemma_modes_derive(g, inner_lb, w, (n - 1) as nat, f, t);
        lemma_mode_derives(g, inner_lb, w, mode, f, t);
        let before = g.modes_yield(inner_lb, w, (n - 1) as nat)->0;
        let more = g.mode_yield(inner_lb, w, mode)->0;
        lemma_either(before.folds, more.folds, f);
        lemma_either(before.terminal, more.terminal, t);
    }
}

proof fn lemma_work_derives<R: CandidateRules>(
    g: Generation<R>,
    inner_lb: u32,
    w: WorkModel,
    f: RawFoldModel,
    t: RawTerminalModel,
)
    requires
        g.work_yield(inner_lb, w) is Some,
    ensures
        g.work_yield(inner_lb, w)->0.folds.contains(f) <==> fold_is_derived(g, inner_lb, w, f),
        g.work_yield(inner_lb, w)->0.terminal.contains(t) <==> terminal_is_derived(
            g,
            inner_lb,
            w,
            t,
        ),
{
    if g.root is Some {
        lemma_root_derives(g, inner_lb, w, f, t);
    } else {
        lemma_modes_derive(g, inner_lb, w, g.modes().len(), f, t);
    }
}

proof fn lemma_works_derive<R: CandidateRules>(
    g: Generation<R>,
    inner_lb: u32,
    n: nat,
    f: RawFoldModel,
    t: RawTerminalModel,
)
    requires
        n <= g.work.len(),
        g.works_yield(inner_lb, n) is Some,
    ensures
        g.works_yield(inner_lb, n)->0.folds.contains(f) <==> exists|i: int|
            0 <= i < n && fold_is_derived(g, inner_lb, #[trigger] g.work[i], f),
        g.works_yield(inner_lb, n)->0.terminal.contains(t) <==> exists|i: int|
            0 <= i < n && terminal_is_derived(g, inner_lb, #[trigger] g.work[i], t),
    decreases n,
{
    if n > 0 {
        let w = g.work[n - 1];
        lemma_works_derive(g, inner_lb, (n - 1) as nat, f, t);
        lemma_work_derives(g, inner_lb, w, f, t);
        let before = g.works_yield(inner_lb, (n - 1) as nat)->0;
        let more = g.work_yield(inner_lb, w)->0;
        lemma_either(before.folds, more.folds, f);
        lemma_either(before.terminal, more.terminal, t);
    }
}

proof fn lemma_bases_derive<R: CandidateRules>(
    g: Generation<R>,
    n: nat,
    f: RawFoldModel,
    t: RawTerminalModel,
)
    requires
        n <= g.num_bases(),
        g.bases_yield(n) is Some,
    ensures
        g.bases_yield(n)->0.folds.contains(f) <==> exists|lb: u32, i: int|
            g.inner_range.min <= lb < g.inner_range.min + n && 0 <= i < g.work.len()
                && #[trigger] fold_is_derived(g, lb, g.work[i], f),
        g.bases_yield(n)->0.terminal.contains(t) <==> exists|lb: u32, i: int|
            g.inner_range.min <= lb < g.inner_range.min + n && 0 <= i < g.work.len()
                && #[trigger] terminal_is_derived(g, lb, g.work[i], t),
    decreases n,
{
    if n > 0 {
        let last = (g.inner_range.min + n - 1) as u32;
        lemma_bases_derive(g, (n - 1) as nat, f, t);
        lemma_works_derive(g, last, g.work.len(), f, t);
        let before = g.bases_yield((n - 1) as nat)->0;
        let more = g.works_yield(last, g.work.len())->0;
        lemma_either(before.folds, more.folds, f);
        lemma_either(before.terminal, more.terminal, t);
    }
}

/// What a state covers: the key at level zero alone; openings in no basis below
/// the one that came in; the digits that came in, unless level zero is the root;
/// a frontier of splits where a setup prefix comes in, where the payload is
/// minimised or while dimensions are searched; and a child fold where the key has
/// precommitted groups.
pub proof fn law_states_cover_what_comes_in<R: CandidateRules>(
    p: Preparation<R>,
    d: CandidateDomain<'_>,
)
    requires
        p.prepares(),
        p.domain_is(d),
    ensures
        d.root_level_key is Some <==> p.state.level == 0 && p.key is Some,
        d.root_level_key is Some ==> *d.root_level_key->0 == p.key->0
            && p.state.topology.incoming_setup_prefix is None,
        p.state.level > 0 || !p.level_zero_is_root ==> d.inner_source
            == (InnerBasisSource::BalancedDigits { log_basis: p.state.current_lb }),
        p.state.level == 0 && p.level_zero_is_root ==> p.key is Some && p.final_policy is Some
            && d.inner_source == p.rules.root_source_of(
            p.final_policy->0,
            p.policy.decomposition.log_commit_bound,
        ),
        p.rules.inner_range_of(d.inner_source, p.policy) == Some(d.inner_basis_range),
        ({
            let range = p.rules.opening_range_of(p.policy, p.state.level);
            &&& d.opening_basis_range.max == range.max
            &&& d.opening_basis_range.min >= range.min
            &&& d.opening_basis_range.min >= p.state.current_lb
            &&& d.opening_basis_range.min == range.min || d.opening_basis_range.min
                == p.state.current_lb
        }),
        Some(d.opening_layout@) == if p.state.level == 0 && p.key is Some {
            p.rules.root_layout_of(p.key->0.final_group, p.key->0.precommitteds@)
        } else {
            p.rules.suffix_layout_of(
                p.state.current_witness_len,
                p.state.topology.incoming_setup_prefix,
            )
        },
        p.rules.aggregate_of(d.opening_layout@) is Some,
        opening_domain::work_models(d.opening_work@) == (OpeningQuestion {
            rules: p.rules,
            policy: p.policy,
            level: p.state.level,
            ceiling: p.state.dimension_ceiling,
            prefixed: p.state.topology.incoming_setup_prefix is Some,
            root: if p.state.level == 0 && p.key is Some {
                Some(p.key->0.precommitteds@)
            } else {
                None
            },
            fold_policies: p.fold_policies,
            shape: p.rules.aggregate_of(d.opening_layout@)->0,
        }).work(),
        d.fold_policy == FoldCandidatePolicy::Frontier(SplitBoundPolicy::Enabled) <==> {
            ||| p.state.topology.incoming_setup_prefix is Some
            ||| p.policy.selection_policy is MinEstimatedProofPayloadV2
            ||| (p.policy.ring_dimension_schedule_mode
                matches RingDimensionScheduleMode::AdaptiveDimension { num_search_levels, .. }
                && p.state.level < num_search_levels)
        },
        d.fold_policy is Best || d.fold_policy == FoldCandidatePolicy::Frontier(
            SplitBoundPolicy::Enabled,
        ),
        d.require_child_fold <==> p.state.level == 0 && p.key is Some
            && p.key->0.precommitteds@.len() > 0,
{
}

/// The number of folds that the rules derive for an opening under an inner basis
/// and the first `n` payload modes.
pub open spec fn derived_over_modes<R: CandidateRules>(
    g: Generation<R>,
    inner_lb: u32,
    w: WorkModel,
    n: nat,
) -> nat
    decreases n,
{
    if n == 0 {
        0
    } else {
        derived_over_modes(g, inner_lb, w, (n - 1) as nat) + derived_folds(
            g,
            inner_lb,
            w,
            g.rules.payload_modes_of(g.state.topology, g.state.level)[n - 1],
        ).len()
    }
}

/// The number of folds that the rules derive for an opening under an inner basis.
pub open spec fn derived_for<R: CandidateRules>(
    g: Generation<R>,
    inner_lb: u32,
    w: WorkModel,
) -> nat {
    if !(w.purpose is FoldOnly || w.purpose is TerminalAndFold) {
        0
    } else if g.root is Some {
        derived_root_folds(g, inner_lb, w).len()
    } else {
        derived_over_modes(
            g,
            inner_lb,
            w,
            g.rules.payload_modes_of(g.state.topology, g.state.level).len(),
        )
    }
}

/// The number of folds that the rules derive for the first `n` openings under an
/// inner basis.
pub open spec fn derived_over_work<R: CandidateRules>(
    g: Generation<R>,
    inner_lb: u32,
    n: nat,
) -> nat
    decreases n,
{
    if n == 0 {
        0
    } else {
        derived_over_work(g, inner_lb, (n - 1) as nat) + derived_for(g, inner_lb, g.work[n - 1])
    }
}

/// The number of folds that the rules derive under the first `n` inner bases.
pub open spec fn derived_over_bases<R: CandidateRules>(g: Generation<R>, n: nat) -> nat
    decreases n,
{
    if n == 0 {
        0
    } else {
        derived_over_bases(g, (n - 1) as nat) + derived_over_work(
            g,
            (g.inner_range.min + n - 1) as u32,
            g.work.len(),
        )
    }
}

/// Every fold that the rules derive is a candidate once: there are as many as are
/// derived over the inner bases, the openings and the payload modes of the state.
pub proof fn law_folds_are_candidates_once<R: CandidateRules>(g: Generation<R>)
    requires
        g.candidates() is Some,
        g.inner_range.min <= g.inner_range.max,
    ensures
        g.candidates()->0.folds.len() == derived_over_bases(
            g,
            (g.inner_range.max - g.inner_range.min + 1) as nat,
        ),
{
    lemma_bases_count(g, g.num_bases());
}

proof fn lemma_bases_count<R: CandidateRules>(g: Generation<R>, n: nat)
    requires
        g.bases_yield(n) is Some,
    ensures
        g.bases_yield(n)->0.folds.len() == derived_over_bases(g, n),
    decreases n,
{
    if n > 0 {
        lemma_bases_count(g, (n - 1) as nat);
        lemma_works_count(g, (g.inner_range.min + n - 1) as u32, g.work.len());
    }
}

proof fn lemma_works_count<R: CandidateRules>(g: Generation<R>, inner_lb: u32, n: nat)
    requires
        g.works_yield(inner_lb, n) is Some,
    ensures
        g.works_yield(inner_lb, n)->0.folds.len() == derived_over_work(g, inner_lb, n),
    decreases n,
{
    if n > 0 {
        let w = g.work[n - 1];
        lemma_works_count(g, inner_lb, (n - 1) as nat);
        if g.root is Some {
            assert(g.root_folds(inner_lb, w)->0 == derived_root_folds(g, inner_lb, w));
        } else {
            lemma_modes_count(g, inner_lb, w, g.modes().len());
        }
    }
}

proof fn lemma_modes_count<R: CandidateRules>(
    g: Generation<R>,
    inner_lb: u32,
    w: WorkModel,
    n: nat,
)
    requires
        g.modes_yield(inner_lb, w, n) is Some,
    ensures
        g.modes_yield(inner_lb, w, n)->0.folds.len() == if w.purpose is FoldOnly || w.purpose
            is TerminalAndFold {
            derived_over_modes(g, inner_lb, w, n)
        } else {
            0
        },
    decreases n,
{
    if n > 0 {
        let mode = g.modes()[n - 1];
        lemma_modes_count(g, inner_lb, w, (n - 1) as nat);
        assert(g.request(inner_lb, w, mode) == asked_at(g, inner_lb, w, mode));
    }
}

/// A state can be prepared exactly when no setup prefix comes into a root, a root has
/// its key and its policy, its layouts make up a shape, its digits have a range of
/// bases and its openings can be listed.
pub proof fn law_states_are_prepared<R: CandidateRules>(p: Preparation<R>)
    ensures
        p.prepares() <==> {
            let at_key = p.state.level == 0 && p.key is Some;
            let layout = if at_key {
                p.rules.root_layout_of(p.key->0.final_group, p.key->0.precommitteds@)
            } else {
                p.rules.suffix_layout_of(
                    p.state.current_witness_len,
                    p.state.topology.incoming_setup_prefix,
                )
            };
            let source = if p.level_zero_is_root && p.state.level == 0 {
                p.rules.root_source_of(
                    p.final_policy->0,
                    p.policy.decomposition.log_commit_bound,
                )
            } else {
                InnerBasisSource::BalancedDigits { log_basis: p.state.current_lb }
            };
            &&& at_key ==> p.state.topology.incoming_setup_prefix is None
            &&& p.level_zero_is_root && p.state.level == 0 ==> p.key is Some && p.final_policy
                is Some
            &&& layout is Some
            &&& p.rules.aggregate_of(layout->0) is Some
            &&& p.rules.inner_range_of(source, p.policy) is Some
            &&& (OpeningQuestion {
                rules: p.rules,
                policy: p.policy,
                level: p.state.level,
                ceiling: p.state.dimension_ceiling,
                prefixed: p.state.topology.incoming_setup_prefix is Some,
                root: if at_key {
                    Some(p.key->0.precommitteds@)
                } else {
                    None
                },
                fold_policies: p.fold_policies,
                shape: p.rules.aggregate_of(layout->0)->0,
            }).listed()
        },
{
}

} // verus!
