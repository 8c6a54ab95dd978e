//! The walk over a compact schedule row.
//!
//! One pass expands the root, every recursive fold and the terminal fold, with
//! the witness that each level leaves as the input of the next; a second pass
//! prices the levels. The result is the schedule together with its proof size.

use crate::checked::{checked_pow2, div_ceil};
use crate::checked;
use crate::error;
use crate::error::{message, AkitaError, ErrorModel};
use crate::expand;
use crate::expand::{
    Derivation, GeneratedFoldExpansionRole, GeneratedGroupExpansion, GroupLengthSource,
    LengthModel, TerminalDerivation,
};
use crate::generated::{
    validate_entry_key, EntryModel, GeneratedFoldScheduleEntry, GeneratedPrecommittedGroup,
    GeneratedRecursiveFold,
};
use crate::params::{
    AkitaScheduleLookupKey, ChunkedWitnessCfg, CommitmentPayloadMode, GroupCommitPhaseParams,
    GroupOpenPhaseParams, PlannerPolicy, PolynomialGroupLayout, SparseChallengeConfig,
};
use crate::rules::{
    CommittedGroupModel, CommittedGroupParams, ExpansionQuestion, GrindingCost, LevelPayload,
    ParameterRules, SuccessorModel, TailSegmentGroupLayout, TerminalFoldParams,
};
use crate::schedule;
use crate::text;
use crate::text::{push_decimal, push_text};
use vstd::arithmetic::power2::*;
use vstd::prelude::*;

verus! {

// ---------------------------------------------------------------------------
// The schedule
// ---------------------------------------------------------------------------

/// One fold of a schedule with what it takes in, leaves and costs.
#[derive(Clone, Debug, PartialEq, Eq)]
pub struct FoldStep {
    pub params: CommittedGroupParams,
    pub input_witness_len: usize,
    pub output_witness_len: usize,
    pub direct_payload_bytes: usize,
    pub stage3_payload_bytes: usize,
}

/// The layout of a terminal response.
#[derive(Clone, Debug, PartialEq, Eq)]
pub struct TailSegmentLayout {
    pub ring_dimension: usize,
    pub groups: Vec<TailSegmentGroupLayout>,
    pub logical_num_elems: usize,
}

/// The terminal fold of a schedule.
#[derive(Clone, Debug, PartialEq, Eq)]
pub struct TerminalStep {
    pub params: TerminalFoldParams,
    pub sparse_challenge_config: SparseChallengeConfig,
    pub input_witness_len: usize,
    pub response_shape: TailSegmentLayout,
    pub direct_payload_bytes: usize,
    pub payload_bytes: usize,
}

/// A schedule: its folds from the root on, its terminal fold and its cost.
#[derive(Clone, Debug, PartialEq, Eq)]
pub struct PlannedFoldSchedule {
    pub root: FoldStep,
    pub recursive_folds: Vec<FoldStep>,
    pub terminal: TerminalStep,
    pub total_bytes: usize,
    pub grinding: GrindingCost,
    pub setup_field_elements: usize,
}

/// One expanded level.
pub struct LevelModel {
    pub params: CommittedGroupModel,
    pub input_len: usize,
    pub output_len: usize,
}

/// The questions of the walk that a parameter family may refuse with an error of
/// its own.
pub enum ScheduleQuestion {
    Key {
        final_group: PolynomialGroupLayout,
        precommitteds: Seq<GroupCommitPhaseParams>,
        field_bits: u32,
    },
    ChallengeBits { field_bits: u32, chal_ext_degree: usize },
    OpeningVars(usize),
    NextLen {
        params: CommittedGroupModel,
        field_bits: u32,
        claim_ext_degree: usize,
        num_claims: usize,
        num_chunks: usize,
    },
    GroupedNextLen {
        params: CommittedGroupModel,
        field_bits: u32,
        claim_ext_degree: usize,
        final_group: PolynomialGroupLayout,
        precommitteds: Seq<GroupCommitPhaseParams>,
    },
    Payload {
        params: CommittedGroupModel,
        final_group: PolynomialGroupLayout,
        precommitteds: Seq<GroupCommitPhaseParams>,
        predecessor_rounds: Option<usize>,
        successor: SuccessorModel,
        output_len: usize,
    },
    Reduction { challenge_bits: u32, claim_ext_degree: usize, rounds: usize },
    FoldFields { params: CommittedGroupModel, so_far: usize },
    TerminalFields { params: TerminalFoldParams, so_far: usize },
    Grinding {
        policy: PlannerPolicy,
        final_group: PolynomialGroupLayout,
        precommitteds: Seq<GroupCommitPhaseParams>,
        levels: Seq<LevelModel>,
        terminal: TerminalFoldParams,
    },
}

/// What the walk asks of a parameter family beyond expansion.
pub trait ScheduleRules: ParameterRules {
    /// The error that a question is refused with, if it is refused.
    spec fn walk_refusal_of(&self, question: ScheduleQuestion) -> Option<ErrorModel>;

    /// Whether a key may be looked up over a field of so many bits.
    spec fn key_allowed(
        &self,
        final_group: PolynomialGroupLayout,
        precommitteds: Seq<GroupCommitPhaseParams>,
        field_bits: u32,
    ) -> bool;

    fn check_key(&self, key: &AkitaScheduleLookupKey, field_bits: u32) -> (r: Result<
        (),
        AkitaError,
    >)
        ensures
            error::settles(
                r,
                self.key_allowed(key.final_group, key.precommitteds@, field_bits),
                self.walk_refusal_of(
                    ScheduleQuestion::Key {
                        final_group: key.final_group,
                        precommitteds: key.precommitteds@,
                        field_bits,
                    },
                ),
            ),
    ;

    /// The width of the challenge field.
    spec fn challenge_bits_of(&self, field_bits: u32, chal_ext_degree: usize) -> Option<u32>;

    fn challenge_bits(&self, field_bits: u32, chal_ext_degree: usize) -> (r: Result<
        u32,
        AkitaError,
    >)
        ensures
            error::answers(
                r,
                self.challenge_bits_of(field_bits, chal_ext_degree),
                self.walk_refusal_of(
                    ScheduleQuestion::ChallengeBits { field_bits, chal_ext_degree },
                ),
            ),
    ;

    /// The number of variables of a witness padded to a Boolean domain.
    spec fn opening_vars_of(&self, witness_len: usize) -> Option<usize>;

    fn opening_vars(&self, witness_len: usize) -> (r: Result<usize, AkitaError>)
        ensures
            error::answers(
                r,
                self.opening_vars_of(witness_len),
                self.walk_refusal_of(ScheduleQuestion::OpeningVars(witness_len)),
            ),
    ;

    /// The length of the witness that a fold leaves. There may be none, and the
    /// question may be refused.
    spec fn next_len_of(
        &self,
        params: CommittedGroupModel,
        field_bits: u32,
        claim_ext_degree: usize,
        num_claims: usize,
        num_chunks: usize,
    ) -> Option<usize>;

    fn next_len(
        &self,
        params: &CommittedGroupParams,
        field_bits: u32,
        claim_ext_degree: usize,
        num_claims: usize,
        num_chunks: usize,
    ) -> (r: Result<Option<usize>, AkitaError>)
        ensures
            ({
                let value = self.next_len_of(
                    params@,
                    field_bits,
                    claim_ext_degree,
                    num_claims,
                    num_chunks,
                );
                let refusal = self.walk_refusal_of(
                    ScheduleQuestion::NextLen {
                        params: params@,
                        field_bits,
                        claim_ext_degree,
                        num_claims,
                        num_chunks,
                    },
                );
                match r {
                    Ok(len) => len == value && refusal is None,
                    Err(e) => value is None && refusal == Some(e@),
                }
            }),
    ;

    /// The length of the witness that a grouped root leaves.
    spec fn grouped_next_len_of(
        &self,
        params: CommittedGroupModel,
        field_bits: u32,
        claim_ext_degree: usize,
        final_group: PolynomialGroupLayout,
        precommitteds: Seq<GroupCommitPhaseParams>,
    ) -> Option<usize>;

    fn grouped_next_len(
        &self,
        params: &CommittedGroupParams,
        field_bits: u32,
        claim_ext_degree: usize,
        key: &AkitaScheduleLookupKey,
    ) -> (r: Result<usize, AkitaError>)
        ensures
            error::answers(
                r,
                self.grouped_next_len_of(
                    params@,
                    field_bits,
                    claim_ext_degree,
                    key.final_group,
                    key.precommitteds@,
                ),
                self.walk_refusal_of(
                    ScheduleQuestion::GroupedNextLen {
                        params: params@,
                        field_bits,
                        claim_ext_degree,
                        final_group: key.final_group,
                        precommitteds: key.precommitteds@,
                    },
                ),
            ),
    ;

    /// The payload of a fold. The root opens the layout of the key; a later
    /// fold opens the point that its predecessor left, of so many variables.
    spec fn payload_of(
        &self,
        params: CommittedGroupModel,
        final_group: PolynomialGroupLayout,
        precommitteds: Seq<GroupCommitPhaseParams>,
        predecessor_rounds: Option<usize>,
        successor: SuccessorModel,
        output_len: usize,
    ) -> Option<LevelPayload>;

    fn payload_before_fold(
        &self,
        params: &CommittedGroupParams,
        key: &AkitaScheduleLookupKey,
        predecessor_rounds: Option<usize>,
        successor: &CommittedGroupParams,
        output_len: usize,
    ) -> (r: Result<LevelPayload, AkitaError>)
        ensures
            error::answers(
                r,
                self.payload_of(
                    params@,
                    key.final_group,
                    key.precommitteds@,
                    predecessor_rounds,
                    SuccessorModel::Recursive(successor@),
                    output_len,
                ),
                self.walk_refusal_of(
                    ScheduleQuestion::Payload {
                        params: params@,
                        final_group: key.final_group,
                        precommitteds: key.precommitteds@,
                        predecessor_rounds,
                        successor: SuccessorModel::Recursive(successor@),
                        output_len,
                    },
                ),
            ),
    ;

    fn payload_before_terminal(
        &self,
        params: &CommittedGroupParams,
        key: &AkitaScheduleLookupKey,
        predecessor_rounds: Option<usize>,
        successor: &TerminalFoldParams,
        output_len: usize,
    ) -> (r: Result<LevelPayload, AkitaError>)
        ensures
            error::answers(
                r,
                self.payload_of(
                    params@,
                    key.final_group,
                    key.precommitteds@,
                    predecessor_rounds,
                    SuccessorModel::Terminal(*successor),
                    output_len,
                ),
                self.walk_refusal_of(
                    ScheduleQuestion::Payload {
                        params: params@,
                        final_group: key.final_group,
                        precommitteds: key.precommitteds@,
                        predecessor_rounds,
                        successor: SuccessorModel::Terminal(*successor),
                        output_len,
                    },
                ),
            ),
    ;

    /// The bytes of an opening reduction over so many variables.
    spec fn reduction_bytes_of(
        &self,
        challenge_bits: u32,
        claim_ext_degree: usize,
        rounds: usize,
    ) -> Option<usize>;

    fn reduction_bytes(&self, challenge_bits: u32, claim_ext_degree: usize, rounds: usize) -> (r:
        Result<usize, AkitaError>)
        ensures
            error::answers(
                r,
                self.reduction_bytes_of(challenge_bits, claim_ext_degree, rounds),
                self.walk_refusal_of(
                    ScheduleQuestion::Reduction { challenge_bits, claim_ext_degree, rounds },
                ),
            ),
    ;

    /// The bytes of a terminal response.
    spec fn response_bytes_of(
        &self,
        field_bits: u32,
        layout: TailSegmentGroupLayout,
        logical_num_elems: usize,
        cap: Option<u128>,
    ) -> usize;

    fn response_bytes(
        &self,
        field_bits: u32,
        layout: TailSegmentGroupLayout,
        logical_num_elems: usize,
        cap: Option<u128>,
    ) -> (n: usize)
        ensures
            n == self.response_bytes_of(field_bits, layout, logical_num_elems, cap),
    ;

    /// The field elements of setup once a fold's matrices are provided for.
    spec fn fold_fields_of(&self, params: CommittedGroupModel, so_far: usize) -> Option<usize>;

    fn fold_fields(&self, params: &CommittedGroupParams, so_far: usize) -> (r: Result<
        usize,
        AkitaError,
    >)
        ensures
            error::answers(
                r,
                self.fold_fields_of(params@, so_far),
                self.walk_refusal_of(ScheduleQuestion::FoldFields { params: params@, so_far }),
            ),
    ;

    /// The field elements of setup once the terminal matrix is provided for.
    spec fn terminal_fields_of(&self, params: TerminalFoldParams, so_far: usize) -> Option<usize>;

    fn terminal_fields(&self, params: &TerminalFoldParams, so_far: usize) -> (r: Result<
        usize,
        AkitaError,
    >)
        ensures
            error::answers(
                r,
                self.terminal_fields_of(*params, so_far),
                self.walk_refusal_of(ScheduleQuestion::TerminalFields { params: *params, so_far }),
            ),
    ;

    /// The grinding that the schedule's transcript calls for, under a policy,
    /// for the groups that a key opens.
    spec fn grinding_of(
        &self,
        policy: PlannerPolicy,
        final_group: PolynomialGroupLayout,
        precommitteds: Seq<GroupCommitPhaseParams>,
        levels: Seq<LevelModel>,
        terminal: TerminalFoldParams,
    ) -> Option<GrindingCost>;

    fn grinding(
        &self,
        policy: &PlannerPolicy,
        key: &AkitaScheduleLookupKey,
        levels: &Vec<FoldStep>,
        terminal: &TerminalFoldParams,
    ) -> (r: Result<GrindingCost, AkitaError>)
        ensures
            error::answers(
                r,
                self.grinding_of(
                    *policy,
                    key.final_group,
                    key.precommitteds@,
                    step_levels(levels@),
                    *terminal,
                ),
                self.walk_refusal_of(
                    ScheduleQuestion::Grinding {
                        policy: *policy,
                        final_group: key.final_group,
                        precommitteds: key.precommitteds@,
                        levels: step_levels(levels@),
                        terminal: *terminal,
                    },
                ),
            ),
    ;
}

/// The levels of a list of steps.
pub open spec fn step_levels(steps: Seq<FoldStep>) -> Seq<LevelModel> {
    steps.map_values(
        |s: FoldStep|
            LevelModel {
                params: s.params@,
                input_len: s.input_witness_len,
                output_len: s.output_witness_len,
            },
    )
}

// ---------------------------------------------------------------------------
// Chunks
// ---------------------------------------------------------------------------

/// How many folds in a row from the first have more than one chunk.
pub open spec fn leading_chunked(chunks: Seq<u32>) -> nat
    decreases chunks.len(),
{
    if chunks.len() == 0 || chunks[0] <= 1 {
        0
    } else {
        1 + leading_chunked(chunks.drop_first())
    }
}

/// How many levels from the root on are chunked.
pub open spec fn activation_depth(root_chunks: u32, following: Seq<u32>) -> nat {
    if root_chunks <= 1 {
        0
    } else {
        1 + leading_chunked(following)
    }
}

/// The chunk counts of recursive folds.
pub open spec fn fold_chunks(folds: Seq<GeneratedRecursiveFold>) -> Seq<u32> {
    folds.map_values(|f: GeneratedRecursiveFold| f.core.witness_chunks)
}

/// The chunk layout of a fold.
pub open spec fn chunk_layout<R: ParameterRules>(
    rules: R,
    witness_chunks: u32,
    activated: usize,
) -> Option<ChunkedWitnessCfg> {
    let cfg = ChunkedWitnessCfg {
        num_chunks: witness_chunks as usize,
        num_activated_levels: activated,
    };
    if witness_chunks == 0 {
        None
    } else if witness_chunks == 1 {
        Some(ChunkedWitnessCfg::non_chunked())
    } else if rules.chunks_allowed(cfg) {
        Some(cfg)
    } else {
        None
    }
}

/// Why a chunk count without a layout is refused.
pub open spec fn chunk_refusal<R: ParameterRules>(
    rules: R,
    witness_chunks: u32,
    activated: usize,
) -> Option<ErrorModel> {
    if witness_chunks == 0 {
        error::setup_refusal("generated witness chunk count must be nonzero"@)
    } else {
        rules.refusal_of(
            ExpansionQuestion::Chunks(
                ChunkedWitnessCfg {
                    num_chunks: witness_chunks as usize,
                    num_activated_levels: activated,
                },
            ),
        )
    }
}

/// The chunk layout of a fold; a count of one is the unchunked layout.
pub fn partition_to_chunk<R: ParameterRules>(
    rules: &R,
    witness_chunks: u32,
    activated_levels: usize,
) -> (r: Result<ChunkedWitnessCfg, AkitaError>)
    ensures
        error::answers(
            r,
            chunk_layout(*rules, witness_chunks, activated_levels),
            chunk_refusal(*rules, witness_chunks, activated_levels),
        ),
{
    if witness_chunks == 0 {
        return Err(AkitaError::setup("generated witness chunk count must be nonzero"));
    }
    if witness_chunks == 1 {
        return Ok(ChunkedWitnessCfg::default_non_chunked());
    }
    let cfg = ChunkedWitnessCfg {
        num_chunks: witness_chunks as usize,
        num_activated_levels: activated_levels,
    };
    if let Err(e) = rules.check_chunks(cfg) {
        return Err(e);
    }
    Ok(cfg)
}

/// How many levels from the root on are chunked.
pub fn distributed_activation_depth(
    root_chunks: u32,
    following: &Vec<GeneratedRecursiveFold>,
) -> (n: usize)
    requires
        following@.len() < usize::MAX,
    ensures
        n == activation_depth(root_chunks, fold_chunks(following@)),
        n <= following@.len() + 1,
{
    if root_chunks <= 1 {
        return 0;
    }
    let ghost all = fold_chunks(following@);
    let mut k: usize = 0;
    proof {
        assert(all.subrange(0, all.len() as int) =~= all);
    }
    while k < following.len() && following[k].core.witness_chunks > 1
        invariant
            k <= following@.len(),
            all == fold_chunks(following@),
            leading_chunked(all) == k + leading_chunked(
                all.subrange(k as int, all.len() as int),
            ),
        decreases following@.len() - k,
    {
        proof {
            let rest = all.subrange(k as int, all.len() as int);
            assert(rest[0] == following@[k as int].core.witness_chunks);
            assert(rest.drop_first() =~= all.subrange(k + 1, all.len() as int));
        }
        k += 1;
    }
    proof {
        let rest = all.subrange(k as int, all.len() as int);
        if k < following@.len() {
            assert(rest[0] == following@[k as int].core.witness_chunks);
        }
    }
    1 + k
}

/// What a row is refused with whose precommitted groups are not as many as the
/// key's.
pub open spec fn group_count_text(expected: nat, actual: nat) -> Seq<char> {
    "multi-group root precommitted group count mismatch: expected "@ + text::decimal(expected)
        + ", got "@ + text::decimal(actual)
}

fn group_count_mismatch(expected: usize, actual: usize) -> (e: AkitaError)
    ensures
        e.is_setup(group_count_text(expected as nat, actual as nat)),
{
    let mut out = message("multi-group root precommitted group count mismatch: expected ");
    push_decimal(&mut out, expected as u128);
    push_text(&mut out, message(", got "));
    push_decimal(&mut out, actual as u128);
    AkitaError::InvalidSetup(out)
}

/// What a recursive fold is refused with whose compression has no geometry.
pub open spec fn unsupported_text(index: nat) -> Seq<char> {
    "generated recursive fold "@ + text::decimal(index)
        + " uses unsupported compression-source geometry"@
}

fn unsupported_geometry(index: usize) -> (e: AkitaError)
    ensures
        e.is_setup(unsupported_text(index as nat)),
{
    let mut out = message("generated recursive fold ");
    push_decimal(&mut out, index as u128);
    push_text(&mut out, message(" uses unsupported compression-source geometry"));
    AkitaError::InvalidSetup(out)
}

/// Refuses openings that are not those of the key's precommitted groups.
pub fn validate_expanded_precommitted_groups(
    key: &AkitaScheduleLookupKey,
    groups: &Vec<GroupOpenPhaseParams>,
) -> (r: Result<(), AkitaError>)
    ensures
        match r {
            Ok(()) => profiles_match(key.precommitteds@, groups@),
            Err(e) => !profiles_match(key.precommitteds@, groups@) && e.is_setup(
                profiles_text(key.precommitteds@, groups@),
            ),
        },
{
    if groups.len() != key.precommitteds.len() {
        return Err(group_count_mismatch(key.precommitteds.len(), groups.len()));
    }
    let mut k: usize = 0;
    while k < groups.len()
        invariant
            k <= groups@.len(),
            groups@.len() == key.precommitteds@.len(),
            forall|i: int|
                0 <= i < k ==> (#[trigger] groups@[i]).profile == key.precommitteds@[i],
        decreases groups@.len() - k,
    {
        if groups[k].profile != key.precommitteds[k] {
            assert(groups@[k as int].profile != key.precommitteds@[k as int]);
            return Err(
                AkitaError::setup(
                    "multi-group root expanded precommitted layout does not match frozen key",
                ),
            );
        }
        k += 1;
    }
    Ok(())
}

/// What openings are refused with that are not those of the given profiles.
pub open spec fn profiles_text(
    profiles: Seq<GroupCommitPhaseParams>,
    groups: Seq<GroupOpenPhaseParams>,
) -> Seq<char> {
    if groups.len() != profiles.len() {
        group_count_text(profiles.len(), groups.len())
    } else {
        "multi-group root expanded precommitted layout does not match frozen key"@
    }
}

/// Whether openings are those of the given profiles.
pub open spec fn profiles_match(
    profiles: Seq<GroupCommitPhaseParams>,
    groups: Seq<GroupOpenPhaseParams>,
) -> bool {
    &&& groups.len() == profiles.len()
    &&& forall|i: int| 0 <= i < groups.len() ==> (#[trigger] groups[i]).profile == profiles[i]
}

// ---------------------------------------------------------------------------
// What the walk derives
// ---------------------------------------------------------------------------

/// The question of which schedule a row stands for.
pub struct Walk<R> {
    pub rules: R,
    pub policy: PlannerPolicy,
    pub entry: EntryModel,
    pub key: AkitaScheduleLookupKey,
}

impl<R: ScheduleRules> Walk<R> {
    pub open spec fn field_bits(self) -> u32 {
        self.policy.decomposition.field_bits_spec()
    }

    pub open spec fn grouped(self) -> bool {
        self.key.precommitteds@.len() > 0
    }

    /// The profiles of the row's precommitted groups.
    pub open spec fn profiles(self) -> Seq<GroupCommitPhaseParams> {
        self.entry.root.precommitted_groups.map_values(
            |g: GeneratedPrecommittedGroup| g.group.profile,
        )
    }

    /// Whether the key is admitted and is the row's own.
    pub open spec fn key_fits(self) -> bool {
        &&& self.rules.key_allowed(
            self.key.final_group,
            self.key.precommitteds@,
            self.field_bits(),
        )
        &&& self.entry.final_group == self.key.final_group
        &&& self.profiles() == self.key.precommitteds@
        &&& self.entry.final_group.num_polynomials != 0
        &&& pow2(self.key.final_group.num_vars as nat) <= usize::MAX
        &&& self.challenge_bits() is Some
    }

    pub open spec fn challenge_bits(self) -> Option<u32> {
        self.rules.challenge_bits_of(self.field_bits(), self.policy.chal_ext_degree)
    }

    pub open spec fn root_len(self) -> usize {
        pow2(self.key.final_group.num_vars as nat) as usize
    }

    /// The opening of a precommitted group.
    pub open spec fn precommitted_opening(self, i: int) -> Option<GroupOpenPhaseParams> {
        expand::frozen_opening(
            self.rules,
            self.policy,
            self.entry.root.precommitted_groups[i].group,
            None,
            self.entry.root.core.open_commit_matrix.log_basis,
            self.policy.witness_chunk.chunks_at(0) as usize,
        )
    }

    pub open spec fn precommitted_openings(self) -> Seq<GroupOpenPhaseParams> {
        Seq::new(
            self.entry.root.precommitted_groups.len(),
            |i: int| self.precommitted_opening(i)->0,
        )
    }

    /// Whether every precommitted group of a grouped root is admitted under
    /// the profile that the key asks for.
    pub open spec fn precommitted_fit(self) -> bool {
        self.grouped() ==> {
            &&& forall|i: int|
                0 <= i < self.entry.root.precommitted_groups.len()
                    ==> #[trigger] self.precommitted_opening(i) is Some
            &&& profiles_match(self.key.precommitteds@, self.precommitted_openings())
        }
    }

    pub open spec fn root_source(self) -> LengthModel {
        if self.grouped() {
            LengthModel::Pinned {
                num_claims: self.key.final_group.num_polynomials,
                groups: self.precommitted_openings(),
            }
        } else {
            LengthModel::Incoming {
                len: self.root_len(),
                num_claims: self.key.final_group.num_polynomials,
                prefix: None,
            }
        }
    }

    pub open spec fn root_derivation(self) -> Derivation<R> {
        Derivation {
            rules: self.rules,
            policy: self.policy,
            group: self.entry.root.core.group,
            role: GeneratedFoldExpansionRole::Root {
                num_digits_inner: self.entry.root.num_digits_inner,
            },
            payload_mode: CommitmentPayloadMode::Compressed,
            ring_relation_mode: self.entry.root.core.ring_relation_mode,
            open: self.entry.root.core.open_commit_matrix,
            layout: self.key.final_group,
            source: self.root_source(),
        }
    }

    pub open spec fn activated(self) -> usize {
        activation_depth(
            self.entry.root.core.witness_chunks,
            fold_chunks(self.entry.recursive_folds),
        ) as usize
    }

    pub open spec fn chunk(self, witness_chunks: u32) -> Option<ChunkedWitnessCfg> {
        chunk_layout(self.rules, witness_chunks, self.activated())
    }

    /// Parameters with a chunk layout put in.
    pub open spec fn stamped(
        self,
        params: CommittedGroupModel,
        cfg: ChunkedWitnessCfg,
    ) -> CommittedGroupModel {
        CommittedGroupModel { witness_chunk: cfg, ..params }
    }

    /// The root level.
    #[verifier::opaque]
    pub open spec fn root_level(self) -> Option<LevelModel> {
        let d = self.root_derivation();
        match self.chunk(self.entry.root.core.witness_chunks) {
            Some(cfg) => if d.admitted() {
                let params = self.stamped(d.params(), cfg);
                let next = if self.grouped() {
                    self.rules.grouped_next_len_of(
                        params,
                        self.field_bits(),
                        self.policy.claim_ext_degree,
                        self.key.final_group,
                        self.key.precommitteds@,
                    )
                } else {
                    self.rules.next_len_of(
                        params,
                        self.field_bits(),
                        self.policy.claim_ext_degree,
                        self.key.final_group.num_polynomials,
                        cfg.num_chunks,
                    )
                };
                match next {
                    Some(output_len) => Some(
                        LevelModel { params, input_len: self.root_len(), output_len },
                    ),
                    None => None,
                }
            } else {
                None
            },
            None => None,
        }
    }

    /// The expansion of a recursive fold on a witness of some length.
    pub open spec fn fold_derivation(self, k: int, input_len: usize, vars: usize) -> Derivation<R> {
        let fold = self.entry.recursive_folds[k];
        Derivation {
            rules: self.rules,
            policy: self.policy,
            group: fold.core.group,
            role: GeneratedFoldExpansionRole::Recursive {
                fold_level: (k + 1) as usize,
                response_l2_sq_cap: fold.response_l2_sq_cap,
            },
            payload_mode: fold.payload_mode,
            ring_relation_mode: fold.core.ring_relation_mode,
            open: fold.core.open_commit_matrix,
            layout: PolynomialGroupLayout { num_vars: vars, num_polynomials: 1 },
            source: LengthModel::Incoming {
                len: input_len,
                num_claims: 1,
                prefix: fold.setup_prefix,
            },
        }
    }

    /// The level of a recursive fold on a witness of some length.
    #[verifier::opaque]
    pub open spec fn fold_level(self, k: int, input_len: usize) -> Option<LevelModel> {
        match self.rules.opening_vars_of(input_len) {
            Some(vars) => {
                let d = self.fold_derivation(k, input_len, vars);
                match self.chunk(self.entry.recursive_folds[k].core.witness_chunks) {
                    Some(cfg) => if d.admitted() {
                        let params = self.stamped(d.params(), cfg);
                        match self.rules.next_len_of(
                            params,
                            self.field_bits(),
                            self.policy.claim_ext_degree,
                            1,
                            cfg.num_chunks,
                        ) {
                            Some(output_len) => Some(LevelModel { params, input_len, output_len }),
                            None => None,
                        }
                    } else {
                        None
                    },
                    None => None,
                }
            },
            None => None,
        }
    }

    /// The root level and the first `n` recursive levels, each on the witness
    /// that the one before leaves.
    pub open spec fn levels(self, n: nat) -> Option<Seq<LevelModel>>
        decreases n,
    {
        if n == 0 {
            match self.root_level() {
                Some(level) => Some(seq![level]),
                None => None,
            }
        } else {
            match self.levels((n - 1) as nat) {
                Some(before) => match self.fold_level(n - 1, before.last().output_len) {
                    Some(level) => Some(before.push(level)),
                    None => None,
                },
                None => None,
            }
        }
    }

    pub open spec fn num_folds(self) -> nat {
        self.entry.recursive_folds.len()
    }

    pub open spec fn num_levels(self) -> int {
        self.entry.recursive_folds.len() as int + 1
    }

    pub open spec fn all_levels(self) -> Seq<LevelModel> {
        self.levels(self.num_folds())->0
    }

    pub open spec fn terminal_derivation(self) -> TerminalDerivation<R> {
        TerminalDerivation {
            rules: self.rules,
            policy: self.policy,
            fold: self.entry.terminal,
            level: (self.num_folds() + 1) as usize,
            input_len: self.all_levels().last().output_len,
        }
    }

    pub open spec fn terminal(self) -> TerminalFoldParams {
        self.terminal_derivation().params()
    }

    /// The layout of the response group: coordinates of the folded witness,
    /// of the partial evaluations and of the inner commitments.
    pub open spec fn z_coords(self) -> int {
        self.terminal().inner.matrix.input_width * self.terminal().inner.matrix.ring_dimension
    }

    pub open spec fn e_elems(self) -> int {
        self.terminal().blocks.live_blocks * self.terminal().inner.matrix.ring_dimension
    }

    pub open spec fn t_elems(self) -> int {
        (self.terminal().blocks.live_blocks * self.terminal().inner.matrix.output_rank)
            * self.terminal().inner.matrix.ring_dimension
    }

    pub open spec fn response_elems(self) -> int {
        self.z_coords() + self.e_elems() + self.t_elems()
    }

    pub open spec fn response_fits(self) -> bool {
        &&& self.terminal().blocks.live_blocks * self.terminal().inner.matrix.output_rank
            <= usize::MAX
        &&& self.response_elems() <= usize::MAX
        &&& self.entry.terminal.z_payload_bytes <= usize::MAX
    }

    pub open spec fn response_group(self) -> TailSegmentGroupLayout {
        TailSegmentGroupLayout {
            z_coords: self.z_coords() as usize,
            e_field_elems: self.e_elems() as usize,
            t_field_elems: self.t_elems() as usize,
            z_linf_cap: self.entry.terminal.z_linf_cap,
            z_rice_low_bits: self.entry.terminal.z_rice_low_bits,
            z_payload_bytes: self.entry.terminal.z_payload_bytes as usize,
        }
    }

    pub open spec fn successor(self, i: int) -> SuccessorModel {
        if i + 1 < self.all_levels().len() {
            SuccessorModel::Recursive(self.all_levels()[i + 1].params)
        } else {
            SuccessorModel::Terminal(self.terminal())
        }
    }

    /// The payload of a level; it opens the point that the one before left.
    pub open spec fn payload(self, i: int) -> Option<LevelPayload>
        decreases i,
    {
        if i < 0 {
            None
        } else {
            let rounds = if i == 0 {
                None
            } else {
                match self.payload(i - 1) {
                    Some(p) => Some(p.rounds),
                    None => None,
                }
            };
            self.rules.payload_of(
                self.all_levels()[i].params,
                self.key.final_group,
                self.key.precommitteds@,
                rounds,
                self.successor(i),
                self.all_levels()[i].output_len,
            )
        }
    }

    /// The bytes of the first `n` levels.
    pub open spec fn level_bytes(self, n: int) -> int
        decreases n,
    {
        if n <= 0 {
            0
        } else {
            self.level_bytes(n - 1) + (self.payload(n - 1)->0).direct + (self.payload(
                n - 1,
            )->0).stage3
        }
    }

    pub open spec fn terminal_rounds(self) -> usize {
        (self.payload(self.num_folds() as int)->0).rounds
    }

    pub open spec fn terminal_direct(self) -> Option<usize> {
        self.rules.reduction_bytes_of(
            self.challenge_bits()->0,
            self.policy.claim_ext_degree,
            self.terminal_rounds(),
        )
    }

    pub open spec fn terminal_bytes(self) -> usize {
        self.rules.response_bytes_of(
            self.field_bits(),
            self.response_group(),
            self.response_elems() as usize,
            self.terminal().inner.matrix.l2_cap(),
        )
    }

    /// The field elements of setup once the first `n` levels are provided for.
    pub open spec fn setup_fields(self, n: int) -> Option<usize>
        decreases n,
    {
        if n <= 0 {
            Some(1)
        } else {
            match self.setup_fields(n - 1) {
                Some(so_far) => self.rules.fold_fields_of(
                    self.all_levels()[n - 1].params,
                    so_far,
                ),
                None => None,
            }
        }
    }

    pub open spec fn all_setup_fields(self) -> Option<usize> {
        match self.setup_fields(self.num_levels()) {
            Some(so_far) => self.rules.terminal_fields_of(self.terminal(), so_far),
            None => None,
        }
    }

    pub open spec fn grinding(self) -> Option<GrindingCost> {
        self.rules.grinding_of(
            self.policy,
            self.key.final_group,
            self.key.precommitteds@,
            self.all_levels(),
            self.terminal(),
        )
    }

    /// The size of the proof without its nonces.
    pub open spec fn payload_bytes(self) -> int {
        self.level_bytes(self.num_levels()) + self.terminal_direct()->0 + self.terminal_bytes()
    }

    /// The size of the proof.
    pub open spec fn total_bytes(self) -> int {
        self.payload_bytes() + checked::ceil_div(
            (self.grinding()->0).total_nonce_bits as int,
            8,
        )
    }

    /// Whether every level of the row expands.
    pub open spec fn expands(self) -> bool {
        &&& self.key_fits()
        &&& self.precommitted_fit()
        &&& self.levels(self.num_folds()) is Some
        &&& self.terminal_derivation().admitted()
        &&& self.response_fits()
    }

    /// Whether every cost of the row exists.
    pub open spec fn priced(self) -> bool {
        &&& forall|i: int| 0 <= i <= self.num_folds() ==> #[trigger] self.payload(i) is Some
        &&& self.level_bytes(self.num_levels()) <= usize::MAX
        &&& self.terminal_direct() is Some
        &&& 0 < self.payload_bytes()
        &&& self.all_setup_fields() is Some
        &&& self.grinding() is Some
        &&& self.total_bytes() <= usize::MAX
    }

    /// Why a key is refused that does not fit.
    #[verifier::opaque]
    pub open spec fn key_refusal(self) -> Option<ErrorModel> {
        if !self.rules.key_allowed(
            self.key.final_group,
            self.key.precommitteds@,
            self.field_bits(),
        ) {
            self.rules.walk_refusal_of(
                ScheduleQuestion::Key {
                    final_group: self.key.final_group,
                    precommitteds: self.key.precommitteds@,
                    field_bits: self.field_bits(),
                },
            )
        } else if !(self.entry.final_group == self.key.final_group && self.profiles()
            == self.key.precommitteds@) {
            error::setup_refusal("generated schedule key mismatch"@)
        } else if self.entry.final_group.num_polynomials == 0 {
            Some(ErrorModel::UnsupportedSchedule("generated root final group must be nonempty"@))
        } else if pow2(self.key.final_group.num_vars as nat) > usize::MAX {
            error::setup_refusal("root witness length overflow"@)
        } else {
            self.rules.walk_refusal_of(
                ScheduleQuestion::ChallengeBits {
                    field_bits: self.field_bits(),
                    chal_ext_degree: self.policy.chal_ext_degree,
                },
            )
        }
    }

    /// Why the first `n` precommitted groups are refused: the first without an
    /// opening says so.
    pub open spec fn opening_refusal(self, n: nat) -> Option<ErrorModel>
        decreases n,
    {
        if n == 0 {
            None
        } else {
            match self.opening_refusal((n - 1) as nat) {
                Some(e) => Some(e),
                None => if self.precommitted_opening(n - 1) is None {
                    expand::frozen_refusal(
                        self.rules,
                        self.policy,
                        self.entry.root.precommitted_groups[n - 1].group,
                        None,
                        self.entry.root.core.open_commit_matrix.log_basis,
                        self.policy.witness_chunk.chunks_at(0) as usize,
                    )
                } else {
                    None
                },
            }
        }
    }

    /// Whether every precommitted group has an opening.
    pub open spec fn all_opened(self) -> bool {
        forall|i: int|
            0 <= i < self.entry.root.precommitted_groups.len()
                ==> #[trigger] self.precommitted_opening(i) is Some
    }

    /// Why a fold with these parameters leaves no witness; what is said where
    /// there is none is `text`.
    pub open spec fn next_refusal(
        self,
        params: CommittedGroupModel,
        num_claims: usize,
        num_chunks: usize,
        text: Seq<char>,
    ) -> Option<ErrorModel> {
        match self.rules.walk_refusal_of(
            ScheduleQuestion::NextLen {
                params,
                field_bits: self.field_bits(),
                claim_ext_degree: self.policy.claim_ext_degree,
                num_claims,
                num_chunks,
            },
        ) {
            Some(e) => Some(e),
            None => error::setup_refusal(text),
        }
    }

    /// Why the root does not expand.
    #[verifier::opaque]
    pub open spec fn root_refusal(self) -> Option<ErrorModel> {
        let d = self.root_derivation();
        let chunks = self.entry.root.core.witness_chunks;
        if self.grouped() && !self.all_opened() {
            self.opening_refusal(self.entry.root.precommitted_groups.len())
        } else if !self.precommitted_fit() {
            error::setup_refusal(
                profiles_text(self.key.precommitteds@, self.precommitted_openings()),
            )
        } else if !d.admitted() {
            d.refusal()
        } else {
            match self.chunk(chunks) {
                None => chunk_refusal(self.rules, chunks, self.activated()),
                Some(cfg) => if self.grouped() {
                    self.rules.walk_refusal_of(
                        ScheduleQuestion::GroupedNextLen {
                            params: self.stamped(d.params(), cfg),
                            field_bits: self.field_bits(),
                            claim_ext_degree: self.policy.claim_ext_degree,
                            final_group: self.key.final_group,
                            precommitteds: self.key.precommitteds@,
                        },
                    )
                } else {
                    self.next_refusal(
                        self.stamped(d.params(), cfg),
                        self.key.final_group.num_polynomials,
                        cfg.num_chunks,
                        "generated root uses unsupported compression-source geometry"@,
                    )
                },
            }
        }
    }

    /// Why a recursive fold does not expand on a witness of some length.
    #[verifier::opaque]
    pub open spec fn fold_refusal(self, k: int, input_len: usize) -> Option<ErrorModel> {
        let chunks = self.entry.recursive_folds[k].core.witness_chunks;
        match self.rules.opening_vars_of(input_len) {
            None => self.rules.walk_refusal_of(ScheduleQuestion::OpeningVars(input_len)),
            Some(vars) => {
                let d = self.fold_derivation(k, input_len, vars);
                if !d.admitted() {
                    d.refusal()
                } else {
                    match self.chunk(chunks) {
                        None => chunk_refusal(self.rules, chunks, self.activated()),
                        Some(cfg) => self.next_refusal(
                            self.stamped(d.params(), cfg),
                            1,
                            cfg.num_chunks,
                            unsupported_text(k as nat),
                        ),
                    }
                }
            },
        }
    }

    /// Why the root level and the first `n` recursive levels do not expand: the
    /// first that does not says so.
    pub open spec fn levels_refusal(self, n: nat) -> Option<ErrorModel>
        decreases n,
    {
        if n == 0 {
            self.root_refusal()
        } else {
            match self.levels((n - 1) as nat) {
                Some(before) => self.fold_refusal(n - 1, before.last().output_len),
                None => self.levels_refusal((n - 1) as nat),
            }
        }
    }

    /// Why the levels before the terminal one do not expand.
    pub open spec fn expansion_refusal(self) -> Option<ErrorModel> {
        if !self.precommitted_fit() || self.root_level() is None {
            self.root_refusal()
        } else {
            self.levels_refusal(self.num_folds())
        }
    }

    /// Why a response has no size.
    #[verifier::opaque]
    pub open spec fn response_refusal(self) -> Option<ErrorModel> {
        let t_rows = self.terminal().blocks.live_blocks * self.terminal().inner.matrix.output_rank;
        error::setup_refusal(
            if self.z_coords() > usize::MAX {
                "terminal z coordinates overflow"@
            } else if self.e_elems() > usize::MAX {
                "terminal e coordinates overflow"@
            } else if t_rows > usize::MAX || self.t_elems() > usize::MAX {
                "terminal t coordinates overflow"@
            } else if self.response_elems() > usize::MAX {
                "terminal response coordinates overflow"@
            } else {
                expand::count_text("terminal payload budget"@)
            },
        )
    }

    /// Why the first `n` levels have no price: one of them has no payload, or
    /// they are too large together.
    pub open spec fn levels_price_refusal(self, n: nat) -> Option<ErrorModel>
        decreases n,
    {
        if n == 0 {
            None
        } else {
            let i = n - 1;
            match self.levels_price_refusal((n - 1) as nat) {
                Some(e) => Some(e),
                None => if self.payload(i) is None {
                    self.rules.walk_refusal_of(
                        ScheduleQuestion::Payload {
                            params: self.all_levels()[i].params,
                            final_group: self.key.final_group,
                            precommitteds: self.key.precommitteds@,
                            predecessor_rounds: if i == 0 {
                                None
                            } else {
                                Some((self.payload(i - 1)->0).rounds)
                            },
                            successor: self.successor(i),
                            output_len: self.all_levels()[i].output_len,
                        },
                    )
                } else if self.level_bytes(n as int) > usize::MAX {
                    error::setup_refusal("generated proof byte total overflow"@)
                } else {
                    None
                },
            }
        }
    }

    /// Why the first `n` levels have no setup.
    pub open spec fn fields_refusal(self, n: nat) -> Option<ErrorModel>
        decreases n,
    {
        if n == 0 {
            None
        } else {
            match self.setup_fields(n - 1) {
                Some(so_far) => self.rules.walk_refusal_of(
                    ScheduleQuestion::FoldFields {
                        params: self.all_levels()[n - 1].params,
                        so_far,
                    },
                ),
                None => self.fields_refusal((n - 1) as nat),
            }
        }
    }

    /// Why a schedule has no setup.
    #[verifier::opaque]
    pub open spec fn setup_refusal(self) -> Option<ErrorModel> {
        match self.setup_fields(self.num_levels()) {
            Some(so_far) => self.rules.walk_refusal_of(
                ScheduleQuestion::TerminalFields { params: self.terminal(), so_far },
            ),
            None => self.fields_refusal(self.num_levels() as nat),
        }
    }

    /// Why a row that expands has no price.
    #[verifier::opaque]
    pub open spec fn price_refusal(self) -> Option<ErrorModel> {
        if self.levels_price_refusal(self.num_levels() as nat) is Some {
            self.levels_price_refusal(self.num_levels() as nat)
        } else if self.terminal_direct() is None {
            self.rules.walk_refusal_of(
                ScheduleQuestion::Reduction {
                    challenge_bits: self.challenge_bits()->0,
                    claim_ext_degree: self.policy.claim_ext_degree,
                    rounds: self.terminal_rounds(),
                },
            )
        } else if self.payload_bytes() > usize::MAX {
            error::setup_refusal("generated proof byte total overflow"@)
        } else if self.payload_bytes() == 0 {
            error::setup_refusal("generated schedule validates to zero proof bytes"@)
        } else if self.all_setup_fields() is None {
            self.setup_refusal()
        } else if self.grinding() is None {
            self.rules.walk_refusal_of(
                ScheduleQuestion::Grinding {
                    policy: self.policy,
                    final_group: self.key.final_group,
                    precommitteds: self.key.precommitteds@,
                    levels: self.all_levels(),
                    terminal: self.terminal(),
                },
            )
        } else {
            error::setup_refusal("generated proof byte total overflow"@)
        }
    }

    /// Why a row is refused that stands for no schedule: the first step of the
    /// walk that fails says so, with the error of the rules where they refuse it
    /// themselves.
    pub open spec fn refusal(self) -> Option<ErrorModel> {
        if !self.key_fits() {
            self.key_refusal()
        } else if !(self.precommitted_fit() && self.levels(self.num_folds()) is Some) {
            self.expansion_refusal()
        } else if !self.terminal_derivation().admitted() {
            self.terminal_derivation().refusal()
        } else if !self.response_fits() {
            self.response_refusal()
        } else {
            self.price_refusal()
        }
    }

    /// Whether a fold step is level `i` of the schedule with its price.
    pub open spec fn step_is(self, step: FoldStep, i: int) -> bool {
        let level = self.all_levels()[i];
        &&& step.params@ == level.params
        &&& step.input_witness_len == level.input_len
        &&& step.output_witness_len == level.output_len
        &&& step.direct_payload_bytes == (self.payload(i)->0).direct
        &&& step.stage3_payload_bytes == (self.payload(i)->0).stage3
    }

    /// Whether a schedule is the one that the row stands for.
    pub open spec fn schedule_is(self, s: PlannedFoldSchedule) -> bool {
        &&& self.step_is(s.root, 0)
        &&& s.recursive_folds@.len() == self.num_folds()
        &&& forall|i: int|
            0 <= i < self.num_folds() ==> self.step_is(#[trigger] s.recursive_folds@[i], i + 1)
        &&& s.terminal.params == self.terminal()
        &&& s.terminal.sparse_challenge_config == self.terminal().fold_challenge_config
        &&& s.terminal.input_witness_len == self.all_levels().last().output_len
        &&& s.terminal.response_shape.ring_dimension == self.terminal().inner.matrix.ring_dimension
        &&& s.terminal.response_shape.groups@ == seq![self.response_group()]
        &&& s.terminal.response_shape.logical_num_elems == self.response_elems()
        &&& Some(s.terminal.direct_payload_bytes) == self.terminal_direct()
        &&& s.terminal.payload_bytes == self.terminal_bytes()
        &&& s.total_bytes == self.total_bytes()
        &&& Some(s.grinding) == self.grinding()
        &&& Some(s.setup_field_elements) == self.all_setup_fields()
    }
}

// ---------------------------------------------------------------------------
// Laws
// ---------------------------------------------------------------------------

/// Every level takes in the witness that the level before it leaves.
pub proof fn law_levels_chain<R: ScheduleRules>(w: Walk<R>, n: nat, i: int)
    requires
        w.levels(n) is Some,
        0 < i <= n,
    ensures
        w.levels(n)->0.len() == n + 1,
        (w.levels(n)->0)[i].input_len == (w.levels(n)->0)[i - 1].output_len,
    decreases n,
{
    reveal(Walk::fold_level);
    lemma_levels_len(w, n);
    let before = w.levels((n - 1) as nat)->0;
    lemma_levels_len(w, (n - 1) as nat);
    if i < n {
        law_levels_chain(w, (n - 1) as nat, i);
    }
}

pub proof fn lemma_levels_len<R: ScheduleRules>(w: Walk<R>, n: nat)
    requires
        w.levels(n) is Some,
    ensures
        w.levels(n)->0.len() == n + 1,
    decreases n,
{
    if n > 0 {
        lemma_levels_len(w, (n - 1) as nat);
    }
}

/// Levels that expand have every shorter prefix expand, and share it.
pub proof fn lemma_levels_prefix<R: ScheduleRules>(w: Walk<R>, k: nat, n: nat)
    requires
        k <= n,
        w.levels(n) is Some,
    ensures
        w.levels(k) is Some,
        w.levels(k)->0 == (w.levels(n)->0).take(k as int + 1),
    decreases n - k,
{
    lemma_levels_len(w, n);
    if k < n {
        lemma_levels_prefix(w, k + 1, n);
        lemma_levels_len(w, k);
        let long = w.levels(n)->0;
        let mid = w.levels(k + 1)->0;
        let short = w.levels(k)->0;
        assert(mid.drop_last() =~= short);
        assert(long.take(k as int + 2).drop_last() =~= long.take(k as int + 1));
    } else {
        assert((w.levels(n)->0).take(n as int + 1) =~= w.levels(n)->0);
    }
}

// ---------------------------------------------------------------------------
// Executable functions
// ---------------------------------------------------------------------------

/// The openings of the precommitted groups of a grouped root.
fn expand_precommitted<R: ScheduleRules>(
    rules: &R,
    policy: &PlannerPolicy,
    entry: &GeneratedFoldScheduleEntry,
    Ghost(w): Ghost<Walk<R>>,
) -> (r: Result<Vec<GroupOpenPhaseParams>, AkitaError>)
    requires
        w.rules == *rules,
        w.policy == *policy,
        w.entry == entry@,
    ensures
        match r {
            Ok(openings) => openings@ == w.precommitted_openings() && forall|i: int|
                0 <= i < entry.root.precommitted_groups@.len()
                    ==> #[trigger] w.precommitted_opening(i) is Some,
            Err(e) => !w.all_opened() && w.opening_refusal(entry.root.precommitted_groups@.len())
                == Some(e@),
        },
{
    let mut openings: Vec<GroupOpenPhaseParams> = Vec::new();
    let log_basis: u32 = entry.root.core.open_commit_matrix.log_basis;
    let chunks: usize = policy.chunks_at_level(0);
    let mut k: usize = 0;
    while k < entry.root.precommitted_groups.len()
        invariant
            k <= entry.root.precommitted_groups@.len(),
            w.rules == *rules,
            w.policy == *policy,
            w.entry == entry@,
            log_basis == entry.root.core.open_commit_matrix.log_basis,
            chunks == policy.witness_chunk.chunks_at(0),
            openings@ == w.precommitted_openings().take(k as int),
            forall|i: int| 0 <= i < k ==> #[trigger] w.precommitted_opening(i) is Some,
            w.opening_refusal(k as nat) is None,
        decreases entry.root.precommitted_groups@.len() - k,
    {
        let group = entry.root.precommitted_groups[k].group;
        match group.expand_to_group(rules, None, policy, log_basis, chunks) {
            Ok(opening) => {
                assert(w.precommitted_opening(k as int) == Some(opening));
                openings.push(opening);
                proof {
                    assert(w.precommitted_openings().take(k + 1)
                        =~= w.precommitted_openings().take(k as int).push(opening));
                }
            },
            Err(e) => {
                proof {
                    assert(w.precommitted_opening(k as int) is None);
                    assert(w.opening_refusal((k + 1) as nat) == Some(e@));
                    lemma_opening_refusal_stays(
                        w,
                        (k + 1) as nat,
                        entry.root.precommitted_groups@.len(),
                    );
                }
                return Err(e);
            },
        }
        k += 1;
    }
    assert(openings@ =~= w.precommitted_openings());
    Ok(openings)
}

/// Whether a step is a level, its price aside.
pub open spec fn step_at(step: FoldStep, level: LevelModel) -> bool {
    &&& step.params@ == level.params
    &&& step.input_witness_len == level.input_len
    &&& step.output_witness_len == level.output_len
}

/// A refusal of the first precommitted groups is that of all of them.
proof fn lemma_opening_refusal_stays<R: ScheduleRules>(w: Walk<R>, a: nat, b: nat)
    requires
        a <= b,
        w.opening_refusal(a) is Some,
    ensures
        w.opening_refusal(b) == w.opening_refusal(a),
    decreases b - a,
{
    if a < b {
        lemma_opening_refusal_stays(w, a, (b - 1) as nat);
    }
}

/// Where the levels end before a fold, the fold is refused.
proof fn lemma_levels_refusal_stays<R: ScheduleRules>(w: Walk<R>, k: nat, n: nat)
    requires
        k < n,
        w.levels(k) is Some,
        w.levels(k + 1) is None,
    ensures
        w.levels(n) is None,
        w.levels_refusal(n) == w.fold_refusal(
            k as int,
            (w.levels(k)->0).last().output_len,
        ),
    decreases n - k,
{
    if k + 1 < n {
        lemma_levels_refusal_stays(w, k, (n - 1) as nat);
    }
}

/// The root level.
fn expand_root<R: ScheduleRules>(
    rules: &R,
    policy: &PlannerPolicy,
    entry: &GeneratedFoldScheduleEntry,
    key: &AkitaScheduleLookupKey,
    root_len: usize,
    activated: usize,
    Ghost(w): Ghost<Walk<R>>,
) -> (r: Result<FoldStep, AkitaError>)
    requires
        w.rules == *rules,
        w.policy == *policy,
        w.entry == entry@,
        w.key == *key,
        w.root_len() == root_len,
        w.activated() == activated,
    ensures
        match r {
            Ok(step) => w.precommitted_fit() && w.root_level() is Some && step_at(
                step,
                w.root_level()->0,
            ),
            Err(e) => !(w.precommitted_fit() && w.root_level() is Some) && w.root_refusal() == Some(
                e@,
            ),
        },
{
    proof {
        reveal(Walk::root_level);
        reveal(Walk::root_refusal);
    }
    let grouped = key.precommitteds.len() > 0;
    let claims: usize = key.final_group.num_polynomials();
    let source = if grouped {
        let openings = match expand_precommitted(rules, policy, entry, Ghost(w)) {
            Ok(openings) => openings,
            Err(e) => {
                return Err(e);
            },
        };
        match validate_expanded_precommitted_groups(key, &openings) {
            Ok(()) => {},
            Err(e) => {
                return Err(e);
            },
        }
        GroupLengthSource::PinnedGrouped { num_claims: claims, precommitted_groups: openings }
    } else {
        GroupLengthSource::IncomingWitness {
            input_witness_len: root_len,
            num_claims: claims,
            setup_prefix: None,
        }
    };
    let expansion = GeneratedGroupExpansion {
        role: GeneratedFoldExpansionRole::Root { num_digits_inner: entry.root.num_digits_inner },
        payload_mode: CommitmentPayloadMode::Compressed,
        ring_relation_mode: entry.root.core.ring_relation_mode,
        open_commit_matrix: entry.root.core.open_commit_matrix,
        group: key.final_group,
        source,
    };
    assert(expand::derivation(*rules, *policy, entry.root.core.group, expansion)
        == w.root_derivation());
    let mut params = match entry.root.core.group.expand_group(rules, policy, &expansion) {
        Ok(params) => params,
        Err(e) => {
            return Err(e);
        },
    };
    let cfg = match partition_to_chunk(rules, entry.root.core.witness_chunks, activated) {
        Ok(cfg) => cfg,
        Err(e) => {
            return Err(e);
        },
    };
    params.witness_chunk = cfg;
    assert(params@ == w.stamped(w.root_derivation().params(), cfg));
    let bits: u32 = policy.decomposition.field_bits();
    let next: Result<usize, AkitaError> = if grouped {
        rules.grouped_next_len(&params, bits, policy.claim_ext_degree, key)
    } else {
        match rules.next_len(&params, bits, policy.claim_ext_degree, claims, cfg.num_chunks) {
            Ok(Some(output_len)) => Ok(output_len),
            Ok(None) => Err(
                AkitaError::setup("generated root uses unsupported compression-source geometry"),
            ),
            Err(e) => Err(e),
        }
    };
    match next {
        Ok(output_len) => Ok(
            FoldStep {
                params,
                input_witness_len: root_len,
                output_witness_len: output_len,
                direct_payload_bytes: 0,
                stage3_payload_bytes: 0,
            },
        ),
        Err(e) => Err(e),
    }
}

/// The level of a recursive fold.
fn expand_fold<R: ScheduleRules>(
    rules: &R,
    policy: &PlannerPolicy,
    entry: &GeneratedFoldScheduleEntry,
    k: usize,
    input_len: usize,
    activated: usize,
    Ghost(w): Ghost<Walk<R>>,
) -> (r: Result<FoldStep, AkitaError>)
    requires
        w.rules == *rules,
        w.policy == *policy,
        w.entry == entry@,
        k < entry.recursive_folds@.len(),
        k < usize::MAX,
        w.activated() == activated,
    ensures
        match r {
            Ok(step) => w.fold_level(k as int, input_len) is Some && step_at(
                step,
                w.fold_level(k as int, input_len)->0,
            ),
            Err(e) => w.fold_level(k as int, input_len) is None && w.fold_refusal(
                k as int,
                input_len,
            ) == Some(e@),
        },
{
    proof {
        reveal(Walk::fold_level);
        reveal(Walk::fold_refusal);
    }
    let fold = entry.recursive_folds[k];
    let vars: usize = match rules.opening_vars(input_len) {
        Ok(vars) => vars,
        Err(e) => {
            return Err(e);
        },
    };
    let expansion = GeneratedGroupExpansion {
        role: GeneratedFoldExpansionRole::Recursive {
            fold_level: k + 1,
            response_l2_sq_cap: fold.response_l2_sq_cap,
        },
        payload_mode: fold.payload_mode,
        ring_relation_mode: fold.core.ring_relation_mode,
        open_commit_matrix: fold.core.open_commit_matrix,
        group: PolynomialGroupLayout::singleton(vars),
        source: GroupLengthSource::IncomingWitness {
            input_witness_len: input_len,
            num_claims: 1,
            setup_prefix: fold.setup_prefix,
        },
    };
    assert(expand::derivation(*rules, *policy, fold.core.group, expansion) == w.fold_derivation(
        k as int,
        input_len,
        vars,
    ));
    let mut params = match fold.core.group.expand_group(rules, policy, &expansion) {
        Ok(params) => params,
        Err(e) => {
            return Err(e);
        },
    };
    let cfg = match partition_to_chunk(rules, fold.core.witness_chunks, activated) {
        Ok(cfg) => cfg,
        Err(e) => {
            return Err(e);
        },
    };
    params.witness_chunk = cfg;
    assert(params@ == w.stamped(w.fold_derivation(k as int, input_len, vars).params(), cfg));
    match rules.next_len(
        &params,
        policy.decomposition.field_bits(),
        policy.claim_ext_degree,
        1,
        cfg.num_chunks,
    ) {
        Ok(Some(output_len)) => Ok(
            FoldStep {
                params,
                input_witness_len: input_len,
                output_witness_len: output_len,
                direct_payload_bytes: 0,
                stage3_payload_bytes: 0,
            },
        ),
        Ok(None) => Err(unsupported_geometry(k)),
        Err(e) => Err(e),
    }
}

/// Every level but the terminal one.
fn expand_levels<R: ScheduleRules>(
    rules: &R,
    policy: &PlannerPolicy,
    entry: &GeneratedFoldScheduleEntry,
    key: &AkitaScheduleLookupKey,
    root_len: usize,
    Ghost(w): Ghost<Walk<R>>,
) -> (r: Result<Vec<FoldStep>, AkitaError>)
    requires
        w.rules == *rules,
        w.policy == *policy,
        w.entry == entry@,
        w.key == *key,
        w.root_len() == root_len,
        entry.recursive_folds@.len() + 2 <= usize::MAX,
    ensures
        match r {
            Ok(steps) => w.precommitted_fit() && w.levels(w.num_folds()) is Some && steps@.len()
                == w.num_levels() && w.all_levels().len() == w.num_levels() && forall|i: int|
                0 <= i < w.num_levels() ==> step_at(#[trigger] steps@[i], w.all_levels()[i]),
            Err(e) => !(w.precommitted_fit() && w.levels(w.num_folds()) is Some)
                && w.expansion_refusal() == Some(e@),
        },
{
    let activated: usize = distributed_activation_depth(
        entry.root.core.witness_chunks,
        &entry.recursive_folds,
    );
    let root = match expand_root(rules, policy, entry, key, root_len, activated, Ghost(w)) {
        Ok(root) => root,
        Err(e) => {
            proof {
                if w.levels(w.num_folds()) is Some {
                    lemma_levels_prefix(w, 0, w.num_folds());
                }
            }
            return Err(e);
        },
    };
    let mut input_len: usize = root.output_witness_len;
    let mut steps: Vec<FoldStep> = Vec::new();
    steps.push(root);
    let mut k: usize = 0;
    while k < entry.recursive_folds.len()
        invariant
            k <= entry.recursive_folds@.len(),
            entry.recursive_folds@.len() + 2 <= usize::MAX,
            w.rules == *rules,
            w.policy == *policy,
            w.entry == entry@,
            w.activated() == activated,
            w.precommitted_fit(),
            w.root_level() is Some,
            w.levels(k as nat) is Some,
            w.levels(k as nat)->0.len() == k + 1,
            steps@.len() == k + 1,
            input_len == (w.levels(k as nat)->0).last().output_len,
            forall|i: int|
                0 <= i <= k ==> step_at(#[trigger] steps@[i], (w.levels(k as nat)->0)[i]),
        decreases entry.recursive_folds@.len() - k,
    {
        let step = match expand_fold(rules, policy, entry, k, input_len, activated, Ghost(w)) {
            Ok(step) => step,
            Err(e) => {
                proof {
                    assert(w.levels((k + 1) as nat) is None);
                    lemma_levels_refusal_stays(w, k as nat, w.num_folds());
                }
                return Err(e);
            },
        };
        input_len = step.output_witness_len;
        let ghost before = steps@;
        let ghost levels = w.levels(k as nat)->0;
        steps.push(step);
        proof {
            let next = w.levels((k + 1) as nat)->0;
            assert(next == levels.push(w.fold_level(k as int, levels.last().output_len)->0));
            assert forall|i: int| 0 <= i <= k + 1 implies step_at(
                #[trigger] steps@[i],
                next[i],
            ) by {
                if i <= k {
                    assert(step_at(before[i], levels[i]));
                }
            }
        }
        k += 1;
    }
    Ok(steps)
}

/// The size of a response in field elements.
fn response_group<R: ScheduleRules>(
    terminal: &TerminalFoldParams,
    entry: &GeneratedFoldScheduleEntry,
    Ghost(w): Ghost<Walk<R>>,
) -> (r: Result<(TailSegmentGroupLayout, usize), AkitaError>)
    requires
        w.entry == entry@,
        *terminal == w.terminal(),
    ensures
        match r {
            Ok((group, total)) => w.response_fits() && group == w.response_group() && total
                == w.response_elems(),
            Err(e) => !w.response_fits() && w.response_refusal() == Some(e@),
        },
{
    proof {
        reveal(Walk::response_refusal);
    }
    let d_a: usize = terminal.d_a();
    let blocks: usize = terminal.blocks.live_blocks;
    proof {
        let b = blocks as int;
        let rank = terminal.inner.matrix.output_rank as int;
        let d = d_a as int;
        let width = terminal.inner.matrix.input_width as int;
        assert(width * d >= 0 && b * d >= 0 && (b * rank) * d >= 0 && b * rank >= 0)
            by (nonlinear_arith)
            requires
                b >= 0,
                rank >= 0,
                d >= 0,
                width >= 0,
        ;
    }
    let z_coords: usize = match terminal.inner_width().checked_mul(d_a) {
        Some(n) => n,
        None => {
            return Err(AkitaError::setup("terminal z coordinates overflow"));
        },
    };
    let e_elems: usize = match blocks.checked_mul(d_a) {
        Some(n) => n,
        None => {
            return Err(AkitaError::setup("terminal e coordinates overflow"));
        },
    };
    let t_rows: usize = match blocks.checked_mul(terminal.inner.matrix.output_rank()) {
        Some(n) => n,
        None => {
            return Err(AkitaError::setup("terminal t coordinates overflow"));
        },
    };
    let t_elems: usize = match t_rows.checked_mul(d_a) {
        Some(n) => n,
        None => {
            return Err(AkitaError::setup("terminal t coordinates overflow"));
        },
    };
    let ze: usize = match z_coords.checked_add(e_elems) {
        Some(n) => n,
        None => {
            return Err(AkitaError::setup("terminal response coordinates overflow"));
        },
    };
    let total: usize = match ze.checked_add(t_elems) {
        Some(n) => n,
        None => {
            return Err(AkitaError::setup("terminal response coordinates overflow"));
        },
    };
    let z_payload_bytes: usize = match expand::generated_count(
        entry.terminal.z_payload_bytes,
        "terminal payload budget",
    ) {
        Ok(n) => n,
        Err(e) => {
            return Err(e);
        },
    };
    Ok(
        (
            TailSegmentGroupLayout {
                z_coords,
                e_field_elems: e_elems,
                t_field_elems: t_elems,
                z_linf_cap: entry.terminal.z_linf_cap,
                z_rice_low_bits: entry.terminal.z_rice_low_bits,
                z_payload_bytes,
            },
            total,
        ),
    )
}

/// The levels with their prices, their total and the rounds that the last of
/// them leaves open.
fn price_levels<R: ScheduleRules>(
    rules: &R,
    key: &AkitaScheduleLookupKey,
    steps: &Vec<FoldStep>,
    terminal: &TerminalFoldParams,
    Ghost(w): Ghost<Walk<R>>,
) -> (r: Result<(Vec<FoldStep>, usize, usize), AkitaError>)
    requires
        w.rules == *rules,
        w.key == *key,
        w.num_levels() >= 1,
        steps@.len() == w.num_levels(),
        w.all_levels().len() == w.num_levels(),
        forall|i: int| 0 <= i < steps@.len() ==> step_at(#[trigger] steps@[i], w.all_levels()[i]),
        *terminal == w.terminal(),
    ensures
        match r {
            Ok((priced, total, rounds)) => {
                &&& forall|i: int|
                    0 <= i < w.num_levels() ==> #[trigger] w.payload(i) is Some
                &&& w.levels_price_refusal(w.num_levels() as nat) is None
                &&& total == w.level_bytes(w.num_levels())
                &&& rounds == w.terminal_rounds()
                &&& priced@.len() == w.num_levels()
                &&& forall|i: int|
                    0 <= i < w.num_levels() ==> w.step_is(#[trigger] priced@[i], i)
            },
            Err(e) => w.levels_price_refusal(w.num_levels() as nat) == Some(e@) && ((exists|i: int|
                0 <= i < w.num_levels() && #[trigger] w.payload(i) is None) || w.level_bytes(
                w.num_levels(),
            ) > usize::MAX),
        },
{
    let mut priced: Vec<FoldStep> = Vec::new();
    let mut total: usize = 0;
    let mut rounds: Option<usize> = None;
    let mut last_rounds: usize = 0;
    let mut k: usize = 0;
    while k < steps.len()
        invariant
            k <= steps@.len(),
            w.rules == *rules,
            w.key == *key,
            w.num_levels() >= 1,
            steps@.len() == w.num_levels(),
            w.all_levels().len() == w.num_levels(),
            forall|i: int|
                0 <= i < steps@.len() ==> step_at(#[trigger] steps@[i], w.all_levels()[i]),
            *terminal == w.terminal(),
            priced@.len() == k,
            forall|i: int| 0 <= i < k ==> #[trigger] w.payload(i) is Some,
            forall|i: int| 0 <= i < k ==> w.step_is(#[trigger] priced@[i], i),
            total == w.level_bytes(k as int),
            w.levels_price_refusal(k as nat) is None,
            rounds == if k == 0 {
                None
            } else {
                Some((w.payload(k - 1)->0).rounds)
            },
            k > 0 ==> last_rounds == (w.payload(k - 1)->0).rounds,
        decreases steps@.len() - k,
    {
        let step = &steps[k];
        assert(step_at(steps@[k as int], w.all_levels()[k as int]));
        let outcome = if k + 1 < steps.len() {
            assert(step_at(steps@[k + 1], w.all_levels()[k + 1]));
            rules.payload_before_fold(
                &step.params,
                key,
                rounds,
                &steps[k + 1].params,
                step.output_witness_len,
            )
        } else {
            rules.payload_before_terminal(
                &step.params,
                key,
                rounds,
                terminal,
                step.output_witness_len,
            )
        };
        proof {
            if k > 0 {
                assert(w.payload(k - 1) is Some);
            }
            assert(w.payload(k as int) is Some == outcome is Ok);
            assert(outcome is Ok ==> w.payload(k as int) == Some(outcome->Ok_0));
            assert(w.level_bytes(k + 1) == w.level_bytes(k as int) + (w.payload(
                k as int,
            )->0).direct + (w.payload(k as int)->0).stage3);
            lemma_level_bytes_grow(w, k + 1, w.num_levels());
            lemma_price_refusal_stays(w, (k + 1) as nat, w.num_levels() as nat);
        }
        let payload = match outcome {
            Ok(payload) => payload,
            Err(e) => {
                assert(w.levels_price_refusal((k + 1) as nat) == Some(e@));
                return Err(e);
            },
        };
        let sum: usize = match total.checked_add(payload.direct) {
            Some(sum) => sum,
            None => {
                return Err(AkitaError::setup("generated proof byte total overflow"));
            },
        };
        total = match sum.checked_add(payload.stage3) {
            Some(sum) => sum,
            None => {
                return Err(AkitaError::setup("generated proof byte total overflow"));
            },
        };
        rounds = Some(payload.rounds);
        last_rounds = payload.rounds;
        let ghost before = priced@;
        priced.push(
            FoldStep {
                params: step.params.duplicate(),
                input_witness_len: step.input_witness_len,
                output_witness_len: step.output_witness_len,
                direct_payload_bytes: payload.direct,
                stage3_payload_bytes: payload.stage3,
            },
        );
        proof {
            assert(w.step_is(priced@[k as int], k as int));
            assert forall|i: int| 0 <= i < k + 1 implies w.step_is(#[trigger] priced@[i], i) by {
                if i < k {
                    assert(priced@[i] == before[i]);
                }
            }
        }
        k += 1;
    }
    Ok((priced, total, last_rounds))
}

/// A refusal of the first levels is that of all of them.
proof fn lemma_price_refusal_stays<R: ScheduleRules>(w: Walk<R>, a: nat, b: nat)
    requires
        a <= b,
    ensures
        w.levels_price_refusal(a) is Some ==> w.levels_price_refusal(b)
            == w.levels_price_refusal(a),
    decreases b - a,
{
    if a < b {
        lemma_price_refusal_stays(w, a, (b - 1) as nat);
    }
}

/// The bytes of more levels are no fewer.
proof fn lemma_level_bytes_grow<R: ScheduleRules>(w: Walk<R>, a: int, b: int)
    requires
        0 <= a <= b,
    ensures
        w.level_bytes(a) <= w.level_bytes(b),
    decreases b - a,
{
    if a < b {
        lemma_level_bytes_grow(w, a, b - 1);
    }
}

/// The field elements of setup.
fn setup_elements<R: ScheduleRules>(
    rules: &R,
    steps: &Vec<FoldStep>,
    terminal: &TerminalFoldParams,
    Ghost(w): Ghost<Walk<R>>,
) -> (r: Result<usize, AkitaError>)
    requires
        w.rules == *rules,
        w.num_levels() >= 1,
        steps@.len() == w.num_levels(),
        w.all_levels().len() == w.num_levels(),
        forall|i: int|
            0 <= i < steps@.len() ==> (#[trigger] steps@[i]).params@ == w.all_levels()[i].params,
        *terminal == w.terminal(),
    ensures
        match r {
            Ok(n) => w.all_setup_fields() == Some(n),
            Err(e) => w.all_setup_fields() is None && w.setup_refusal() == Some(e@),
        },
{
    proof {
        reveal(Walk::setup_refusal);
    }
    let mut so_far: usize = 1;
    let mut k: usize = 0;
    while k < steps.len()
        invariant
            k <= steps@.len(),
            w.rules == *rules,
            steps@.len() == w.num_levels(),
            forall|i: int|
                0 <= i < steps@.len() ==> (#[trigger] steps@[i]).params@
                    == w.all_levels()[i].params,
            w.setup_fields(k as int) == Some(so_far),
        decreases steps@.len() - k,
    {
        assert(steps@[k as int].params@ == w.all_levels()[k as int].params);
        match rules.fold_fields(&steps[k].params, so_far) {
            Ok(n) => {
                so_far = n;
            },
            Err(e) => {
                proof {
                    reveal(Walk::setup_refusal);
                    assert(w.setup_fields(k + 1) is None);
                    assert(w.fields_refusal((k + 1) as nat) == Some(e@));
                    lemma_setup_fields_none(w, k + 1, w.num_levels());
                }
                return Err(e);
            },
        }
        k += 1;
    }
    rules.terminal_fields(terminal, so_far)
}

/// Setup that fails at a level fails at all later ones.
proof fn lemma_setup_fields_none<R: ScheduleRules>(w: Walk<R>, a: int, b: int)
    requires
        1 <= a <= b,
        w.setup_fields(a) is None,
    ensures
        w.setup_fields(b) is None,
        w.fields_refusal(b as nat) == w.fields_refusal(a as nat),
    decreases b - a,
{
    if a < b {
        lemma_setup_fields_none(w, a, b - 1);
    }
}

/// The length of the witness of the root and the width of the challenge field,
/// where the key fits the row.
fn admit_key<R: ScheduleRules>(
    rules: &R,
    policy: &PlannerPolicy,
    entry: &GeneratedFoldScheduleEntry,
    key: &AkitaScheduleLookupKey,
    Ghost(w): Ghost<Walk<R>>,
) -> (r: Result<(usize, u32), AkitaError>)
    requires
        w.rules == *rules,
        w.policy == *policy,
        w.entry == entry@,
        w.key == *key,
    ensures
        match r {
            Ok((root_len, challenge_bits)) => w.key_fits() && root_len == w.root_len()
                && w.challenge_bits() == Some(challenge_bits),
            Err(e) => !w.key_fits() && w.key_refusal() == Some(e@),
        },
{
    proof {
        reveal(Walk::key_refusal);
    }
    let bits: u32 = policy.decomposition.field_bits();
    if let Err(e) = rules.check_key(key, bits) {
        return Err(e);
    }
    match validate_entry_key(entry, key) {
        Ok(()) => {},
        Err(e) => {
            return Err(e);
        },
    }
    match entry.validate() {
        Ok(()) => {},
        Err(e) => {
            return Err(e);
        },
    }
    let root_len: usize = match checked_pow2(key.final_group.num_vars()) {
        Some(len) => len,
        None => {
            return Err(AkitaError::setup("root witness length overflow"));
        },
    };
    match rules.challenge_bits(bits, policy.chal_ext_degree) {
        Ok(challenge_bits) => Ok((root_len, challenge_bits)),
        Err(e) => Err(e),
    }
}

/// The levels of a row with their prices, put together.
fn put_together<R: ScheduleRules>(
    entry: &GeneratedFoldScheduleEntry,
    key: &AkitaScheduleLookupKey,
    policy: &PlannerPolicy,
    rules: &R,
) -> (r: Result<PlannedFoldSchedule, AkitaError>)
    requires
        entry.recursive_folds@.len() + 2 <= usize::MAX,
    ensures
        ({
            let w = Walk { rules: *rules, policy: *policy, entry: entry@, key: *key };
            match r {
                Ok(schedule) => w.expands() && w.priced() && w.schedule_is(schedule),
                Err(e) => !(w.expands() && w.priced()) && w.refusal() == Some(e@),
            }
        }),
{
    let ghost w = Walk { rules: *rules, policy: *policy, entry: entry@, key: *key };
    let bits: u32 = policy.decomposition.field_bits();
    let (root_len, challenge_bits): (usize, u32) = match admit_key(
        rules,
        policy,
        entry,
        key,
        Ghost(w),
    ) {
        Ok(admitted) => admitted,
        Err(e) => {
            return Err(e);
        },
    };
    assert(w.key_fits());
    let steps = match expand_levels(rules, policy, entry, key, root_len, Ghost(w)) {
        Ok(steps) => steps,
        Err(e) => {
            return Err(e);
        },
    };
    let last: usize = steps.len() - 1;
    assert(step_at(steps@[last as int], w.all_levels()[last as int]));
    let terminal_input: usize = steps[last].output_witness_len;
    let terminal = match entry.terminal.expand_to_level_params(
        rules,
        policy,
        entry.recursive_folds.len() + 1,
        terminal_input,
    ) {
        Ok(terminal) => terminal,
        Err(e) => {
            return Err(e);
        },
    };
    assert(w.terminal_derivation().admitted());
    let (group, response_elems): (TailSegmentGroupLayout, usize) = match response_group::<R>(
        &terminal,
        entry,
        Ghost(w),
    ) {
        Ok(response) => response,
        Err(e) => {
            return Err(e);
        },
    };
    assert(w.expands());
    proof {
        reveal(Walk::price_refusal);
    }
    let (mut priced, level_bytes, rounds): (Vec<FoldStep>, usize, usize) = match price_levels(
        rules,
        key,
        &steps,
        &terminal,
        Ghost(w),
    ) {
        Ok(priced) => priced,
        Err(e) => {
            return Err(e);
        },
    };
    let direct: usize = match rules.reduction_bytes(
        challenge_bits,
        policy.claim_ext_degree,
        rounds,
    ) {
        Ok(direct) => direct,
        Err(e) => {
            return Err(e);
        },
    };
    let response_bytes: usize = rules.response_bytes(
        bits,
        group,
        response_elems,
        terminal.response_l2_sq_cap(),
    );
    let with_direct: usize = match level_bytes.checked_add(direct) {
        Some(sum) => sum,
        None => {
            return Err(AkitaError::setup("generated proof byte total overflow"));
        },
    };
    let payload_bytes: usize = match with_direct.checked_add(response_bytes) {
        Some(sum) => sum,
        None => {
            return Err(AkitaError::setup("generated proof byte total overflow"));
        },
    };
    if payload_bytes == 0 {
        return Err(AkitaError::setup("generated schedule validates to zero proof bytes"));
    }
    proof {
        assert forall|i: int| 0 <= i < priced@.len() implies (#[trigger] priced@[i]).params@
            == w.all_levels()[i].params by {
            assert(w.step_is(priced@[i], i));
        }
    }
    let setup_field_elements: usize = match setup_elements(rules, &priced, &terminal, Ghost(w)) {
        Ok(n) => n,
        Err(e) => {
            return Err(e);
        },
    };
    proof {
        assert forall|i: int| 0 <= i < priced@.len() implies #[trigger] step_levels(priced@)[i]
            == w.all_levels()[i] by {
            assert(w.step_is(priced@[i], i));
        }
        assert(step_levels(priced@) =~= w.all_levels());
    }
    let grinding = match rules.grinding(policy, key, &priced, &terminal) {
        Ok(cost) => cost,
        Err(e) => {
            return Err(e);
        },
    };
    let nonce_bytes: usize = div_ceil(grinding.total_nonce_bits, 8);
    let total_bytes: usize = match payload_bytes.checked_add(nonce_bytes) {
        Some(sum) => sum,
        None => {
            return Err(AkitaError::setup("generated proof byte total overflow"));
        },
    };
    let ghost all_priced = priced@;
    assert(w.step_is(all_priced[0], 0));
    let root = priced.remove(0);
    proof {
        assert forall|i: int| 0 <= i < w.num_folds() implies w.step_is(
            #[trigger] priced@[i],
            i + 1,
        ) by {
            assert(priced@[i] == all_priced[i + 1]);
        }
    }
    let mut groups: Vec<TailSegmentGroupLayout> = Vec::new();
    groups.push(group);
    assert(groups@ =~= seq![w.response_group()]);
    let terminal_step = TerminalStep {
        params: terminal,
        sparse_challenge_config: terminal.fold_challenge_config,
        input_witness_len: terminal_input,
        response_shape: TailSegmentLayout {
            ring_dimension: terminal.d_a(),
            groups,
            logical_num_elems: response_elems,
        },
        direct_payload_bytes: direct,
        payload_bytes: response_bytes,
    };
    Ok(
        PlannedFoldSchedule {
            root,
            recursive_folds: priced,
            terminal: terminal_step,
            total_bytes,
            grinding,
            setup_field_elements,
        },
    )
}

/// The schedule that a row stands for.
pub fn walk_generated_schedule_entry<R: ScheduleRules>(
    entry: &GeneratedFoldScheduleEntry,
    key: &AkitaScheduleLookupKey,
    policy: &PlannerPolicy,
    rules: &R,
) -> (r: Result<PlannedFoldSchedule, AkitaError>)
    requires
        entry.recursive_folds@.len() + 2 <= usize::MAX,
    ensures
        ({
            let w = Walk { rules: *rules, policy: *policy, entry: entry@, key: *key };
            match r {
                Ok(schedule) => w.expands() && w.priced() && w.schedule_is(schedule),
                Err(e) => !(w.expands() && w.priced()) && w.refusal() == Some(e@),
            }
        }),
        r is Ok ==> {
            let schedule = r->Ok_0;
            &&& schedule::response_is_laid_out(schedule, entry.terminal)
            &&& schedule::witnesses_chain(schedule, key.final_group.num_vars)
            &&& schedule::bytes_add_up(schedule)
            &&& schedule::costs_are_ruled(*rules, *policy, *key, schedule)
            &&& schedule::levels_are_the_rows(*rules, *policy, entry@, *key, schedule)
            &&& schedule::stands_for(*rules, *policy, entry@, *key, schedule)
        },
        r is Err ==> forall|schedule: PlannedFoldSchedule|
            !#[trigger] schedule::stands_for(*rules, *policy, entry@, *key, schedule),
{
    let r = put_together(entry, key, policy, rules);
    proof {
        let w = Walk { rules: *rules, policy: *policy, entry: entry@, key: *key };
        if r is Ok {
            schedule::law_rows_stand_for_their_expansions(w, r->Ok_0);
        } else {
            assert forall|schedule: PlannedFoldSchedule|
                !#[trigger] schedule::stands_for(*rules, *policy, entry@, *key, schedule) by {
                schedule::law_rows_stand_for_their_expansions(w, schedule);
            }
        }
    }
    r
}

/// The schedule of a row, by the name callers know it under.
pub fn schedule_from_entry<R: ScheduleRules>(
    entry: &GeneratedFoldScheduleEntry,
    key: &AkitaScheduleLookupKey,
    policy: &PlannerPolicy,
    rules: &R,
) -> (r: Result<PlannedFoldSchedule, AkitaError>)
    requires
        entry.recursive_folds@.len() + 2 <= usize::MAX,
    ensures
        ({
            let w = Walk { rules: *rules, policy: *policy, entry: entry@, key: *key };
            match r {
                Ok(schedule) => w.expands() && w.priced() && w.schedule_is(schedule),
                Err(e) => !(w.expands() && w.priced()) && w.refusal() == Some(e@),
            }
        }),
        r is Ok ==> {
            let schedule = r->Ok_0;
            &&& schedule::response_is_laid_out(schedule, entry.terminal)
            &&& schedule::witnesses_chain(schedule, key.final_group.num_vars)
            &&& schedule::bytes_add_up(schedule)
            &&& schedule::costs_are_ruled(*rules, *policy, *key, schedule)
            &&& schedule::levels_are_the_rows(*rules, *policy, entry@, *key, schedule)
            &&& schedule::stands_for(*rules, *policy, entry@, *key, schedule)
        },
        r is Err ==> forall|schedule: PlannedFoldSchedule|
            !#[trigger] schedule::stands_for(*rules, *policy, entry@, *key, schedule),
{
    walk_generated_schedule_entry(entry, key, policy, rules)
}

} // verus!
