//! Rows and catalogs written out as Rust source.
//!
//! Each emitter has a text function that says which characters it writes.

use crate::compact;
use crate::compact::generated_entry;
use crate::describe;
use crate::describe::describe_key;
use crate::descriptor;
use crate::descriptor::push_bytes;
use crate::error;
use crate::generated::{
    GeneratedFoldCore, GeneratedFoldScheduleEntry, GeneratedFrozenGroup, GeneratedGroup,
    GeneratedMatrix, GeneratedPrecommittedGroup, GeneratedRecursiveFold, GeneratedRootFold,
    GeneratedScheduleCatalogIdentity, GeneratedSetupPrefix, GeneratedTerminalFold,
};
use crate::params::{
    AkitaScheduleLookupKey, BlockGeometry, ChunkedWitnessCfg, CommitmentPayloadMode,
    CommitmentSliceCount, DecompositionParams, GadgetDigits, GroupCommitPhaseParams,
    InnerCommitSecurityRoute, OpeningMethod, PlannerPolicy, PolynomialGroupLayout,
    RingDimensionScheduleMode, RingRelationMode, SisModulusProfileId, SisTableKey,
};
use crate::producers::{
    CommittedSourceContract, GroupedGenerationRequest, MaterializedEntry, PrecommittedProducer,
    SourceAnnotations,
};
use crate::text;
use crate::text::{
    bool_word, decimal_bytes, format_bytes, format_dimensions, push_decimal, push_text,
};
use crate::walk::PlannedFoldSchedule;
use vstd::prelude::*;
use vstd::string::*;

verus! {

// ---------------------------------------------------------------------------
// Profiles
// ---------------------------------------------------------------------------

/// The layout of a group.
pub open spec fn key_text(key: PolynomialGroupLayout) -> Seq<char> {
    "PolynomialGroupLayout::new("@
        + text::decimal(key.num_vars as nat)
        + ", "@
        + text::decimal(key.num_polynomials as nat)
        + ")"@
}

/// The layout of a group.
pub fn emit_key(key: PolynomialGroupLayout) -> (r: String)
    ensures
        r@ == key_text(key),
{
    let mut out = String::from_str("PolynomialGroupLayout::new(");
    push_decimal(&mut out, key.num_vars as u128);
    out.append(", ");
    push_decimal(&mut out, key.num_polynomials as u128);
    out.append(")");
    out
}

/// The geometry of a group.
pub open spec fn geometry_text(value: BlockGeometry) -> Seq<char> {
    "BlockGeometry::new("@
        + text::decimal(value.live_ring_elements_per_claim as nat)
        + ", "@
        + text::decimal(value.positions_per_block as nat)
        + ", "@
        + text::decimal(value.live_blocks as nat)
        + ")"@
}

/// The geometry of a group.
pub fn emit_geometry(value: BlockGeometry) -> (r: String)
    ensures
        r@ == geometry_text(value),
{
    let mut out = String::from_str("BlockGeometry::new(");
    push_decimal(&mut out, value.live_ring_elements_per_claim as u128);
    out.append(", ");
    push_decimal(&mut out, value.positions_per_block as u128);
    out.append(", ");
    push_decimal(&mut out, value.live_blocks as u128);
    out.append(")");
    out
}

/// A role: its digits and the text of its matrix.
pub open spec fn role_text(digits: GadgetDigits, matrix: Seq<char>) -> Seq<char> {
    "akita_types::RoleParams::new(akita_types::GadgetDigits::new("@
        + text::decimal(digits.log_basis as nat)
        + ", "@
        + text::decimal(digits.num_digits as nat)
        + "), "@
        + matrix
        + ")"@
}

/// A role: its digits and the text of its matrix.
pub fn emit_role_params(digits: GadgetDigits, matrix: &str) -> (r: String)
    ensures
        r@ == role_text(digits, matrix@),
{
    let mut out = String::from_str("akita_types::RoleParams::new(akita_types::GadgetDigits::new(");
    push_decimal(&mut out, digits.log_basis as u128);
    out.append(", ");
    push_decimal(&mut out, digits.num_digits as u128);
    out.append("), ");
    out.append(matrix);
    out.append(")");
    out
}

/// The bytes of a digest.
pub open spec fn digest_bytes(high: u128, low: u128) -> Seq<u8> {
    descriptor::be_bytes(high as nat, 16) + descriptor::be_bytes(low as nat, 16)
}

/// The bytes of a digest.
fn digest_vec(high: u128, low: u128) -> (r: Vec<u8>)
    ensures
        r@ == digest_bytes(high, low),
{
    let mut out: Vec<u8> = Vec::new();
    push_bytes(&mut out, high, 16);
    push_bytes(&mut out, low, 16);
    proof {
        assert(out@ =~= digest_bytes(high, low));
    }
    out
}

/// A matrix with its rank-table key.
pub open spec fn profile_matrix_text(matrix_type: Seq<char>,
    output_rank: usize,
    input_width: usize,
    key: SisTableKey,
) -> Seq<char> {
    matrix_type
        + "::new_unchecked(SisSecurityPolicyId::"@
        + key.policy.name_spec()
        + ", SisTableDigest("@
        + text::byte_array(digest_bytes(key.table_digest.high, key.table_digest.low))
        + "), SisModulusProfileId::"@
        + key.modulus_profile.name_spec()
        + ", "@
        + text::decimal(output_rank as nat)
        + ", "@
        + text::decimal(input_width as nat)
        + ", "@
        + text::decimal(key.coeff_linf_bound as nat)
        + ", "@
        + text::decimal(key.ring_dimension as nat)
        + ")"@
}

/// A matrix with its rank-table key.
pub fn emit_profile_matrix(
    matrix_type: &str,
    output_rank: usize,
    input_width: usize,
    key: SisTableKey,
) -> (r: String)
    ensures
        r@ == profile_matrix_text(matrix_type@, output_rank, input_width, key),
{
    let mut out = String::from_str(matrix_type);
    out.append("::new_unchecked(SisSecurityPolicyId::");
    out.append(key.policy.name());
    out.append(", SisTableDigest(");
    push_text(&mut out, decimal_bytes(&digest_vec(key.table_digest.high, key.table_digest.low)));
    out.append("), SisModulusProfileId::");
    out.append(key.modulus_profile.name());
    out.append(", ");
    push_decimal(&mut out, output_rank as u128);
    out.append(", ");
    push_decimal(&mut out, input_width as u128);
    out.append(", ");
    push_decimal(&mut out, key.coeff_linf_bound as u128);
    out.append(", ");
    push_decimal(&mut out, key.ring_dimension as u128);
    out.append(")");
    out
}

/// The name of a slice count.
pub open spec fn slice_text(count: CommitmentSliceCount) -> Seq<char> {
    match count {
        CommitmentSliceCount::One => "ONE"@,
        CommitmentSliceCount::Two => "TWO"@,
        CommitmentSliceCount::Four => "FOUR"@,
        CommitmentSliceCount::Eight => "EIGHT"@,
    }
}

fn slice_name(count: CommitmentSliceCount) -> (r: &'static str)
    ensures
        r@ == slice_text(count),
{
    match count {
        CommitmentSliceCount::One => "ONE",
        CommitmentSliceCount::Two => "TWO",
        CommitmentSliceCount::Four => "FOUR",
        CommitmentSliceCount::Eight => "EIGHT",
    }
}

/// Whether a profile can be written: its inner matrix is bounded by
/// coefficients.
pub open spec fn profile_printable(layout: GroupCommitPhaseParams) -> bool {
    layout.inner.matrix.route is Linf
}

/// The inner role of a profile.
pub open spec fn inner_role_text(layout: GroupCommitPhaseParams) -> Seq<char> {
    role_text(
        layout.inner.digits,
        profile_matrix_text(
            "InnerCommitMatrixParams"@,
            layout.inner.matrix.output_rank,
            layout.inner.matrix.input_width,
            layout.inner.matrix.route->Linf_0,
        ),
    )
}

/// The outer role of a profile.
pub open spec fn outer_role_text(layout: GroupCommitPhaseParams) -> Seq<char> {
    role_text(
        layout.outer.digits,
        profile_matrix_text(
            "OuterCommitMatrixParams"@,
            layout.outer.matrix.output_rank,
            layout.outer.matrix.input_width,
            layout.outer.matrix.key,
        ),
    )
}

fn emit_inner_role(layout: &GroupCommitPhaseParams) -> (r: String)
    requires
        profile_printable(*layout),
    ensures
        r@ == inner_role_text(*layout),
{
    let key: SisTableKey = match layout.inner.matrix.route {
        InnerCommitSecurityRoute::Linf(key) => key,
        InnerCommitSecurityRoute::L2 { .. } => layout.outer.matrix.key,
    };
    let matrix = emit_profile_matrix(
        "InnerCommitMatrixParams",
        layout.inner.matrix.output_rank,
        layout.inner.matrix.input_width,
        key,
    );
    emit_role_params(layout.inner.digits, matrix.as_str())
}

fn emit_outer_role(layout: &GroupCommitPhaseParams) -> (r: String)
    ensures
        r@ == outer_role_text(*layout),
{
    let matrix = emit_profile_matrix(
        "OuterCommitMatrixParams",
        layout.outer.matrix.output_rank,
        layout.outer.matrix.input_width,
        layout.outer.matrix.sis_table_key(),
    );
    emit_role_params(layout.outer.digits, matrix.as_str())
}

/// A commitment profile.
pub open spec fn profile_text(layout: GroupCommitPhaseParams) -> Seq<char> {
    "GroupCommitPhaseParams { version: GroupCommitPhaseParams::VERSION, group: "@
        + key_text(layout.group)
        + ", blocks: "@
        + geometry_text(layout.blocks)
        + ", outer_slice_count: akita_types::CommitmentSliceCount::"@
        + slice_text(layout.outer_slice_count)
        + ", inner: "@
        + inner_role_text(layout)
        + ", outer: "@
        + outer_role_text(layout)
        + " }"@
}

/// A commitment profile.
pub fn emit_precommitted_group_key(layout: &GroupCommitPhaseParams) -> (r: String)
    requires
        profile_printable(*layout),
    ensures
        r@ == profile_text(*layout),
{
    let mut out = String::from_str("GroupCommitPhaseParams { version: GroupCommitPhaseParams::VERSION, group: ");
    push_text(&mut out, emit_key(layout.group));
    out.append(", blocks: ");
    push_text(&mut out, emit_geometry(layout.blocks));
    out.append(", outer_slice_count: akita_types::CommitmentSliceCount::");
    out.append(slice_name(layout.outer_slice_count));
    out.append(", inner: ");
    push_text(&mut out, emit_inner_role(layout));
    out.append(", outer: ");
    push_text(&mut out, emit_outer_role(layout));
    out.append(" }");
    out
}

// ---------------------------------------------------------------------------
// Folds
// ---------------------------------------------------------------------------

/// The planner's choice for a matrix.
pub open spec fn matrix_text(value: GeneratedMatrix) -> Seq<char> {
    "GeneratedMatrix { ring_dimension: "@
        + text::decimal(value.ring_dimension as nat)
        + ", log_basis: "@
        + text::decimal(value.log_basis as nat)
        + " }"@
}

/// The planner's choice for a matrix.
pub fn emit_open_matrix(value: GeneratedMatrix) -> (r: String)
    ensures
        r@ == matrix_text(value),
{
    let mut out = String::from_str("GeneratedMatrix { ring_dimension: ");
    push_decimal(&mut out, value.ring_dimension as u128);
    out.append(", log_basis: ");
    push_decimal(&mut out, value.log_basis as u128);
    out.append(" }");
    out
}

/// An opening method.
pub open spec fn opening_text(value: OpeningMethod) -> Seq<char> {
    match value {
        OpeningMethod::EvaluationTrace => "akita_types::OpeningMethod::EvaluationTrace"@,
        OpeningMethod::SubringCoefficientPacking { challenge_subring_dimension } =>
            "akita_types::OpeningMethod::SubringCoefficientPacking { challenge_subring_dimension: "@
            + text::decimal(challenge_subring_dimension as nat) + " }"@,
    }
}

/// An opening method.
pub fn emit_opening_method(value: OpeningMethod) -> (r: String)
    ensures
        r@ == opening_text(value),
{
    match value {
        OpeningMethod::EvaluationTrace => error::message(
            "akita_types::OpeningMethod::EvaluationTrace",
        ),
        OpeningMethod::SubringCoefficientPacking { challenge_subring_dimension } => {
            let mut out = String::from_str(
                "akita_types::OpeningMethod::SubringCoefficientPacking { challenge_subring_dimension: ",
            );
            push_decimal(&mut out, challenge_subring_dimension as u128);
            out.append(" }");
            out
        },
    }
}

/// The name of a payload mode.
pub open spec fn payload_text(value: CommitmentPayloadMode) -> Seq<char> {
    match value {
        CommitmentPayloadMode::Compressed => "CommitmentPayloadMode::Compressed"@,
        CommitmentPayloadMode::Raw => "CommitmentPayloadMode::Raw"@,
    }
}

/// The name of a payload mode.
pub fn emit_payload_mode(value: CommitmentPayloadMode) -> (r: &'static str)
    ensures
        r@ == payload_text(value),
{
    match value {
        CommitmentPayloadMode::Compressed => "CommitmentPayloadMode::Compressed",
        CommitmentPayloadMode::Raw => "CommitmentPayloadMode::Raw",
    }
}

/// The name of a relation mode.
pub open spec fn relation_text(mode: RingRelationMode) -> Seq<char> {
    match mode {
        RingRelationMode::QuotientLift => "akita_types::RingRelationMode::QuotientLift"@,
        RingRelationMode::ReducedEvaluation => "akita_types::RingRelationMode::ReducedEvaluation"@,
    }
}

/// The name of a relation mode.
pub fn emit_ring_relation_mode(mode: RingRelationMode) -> (r: &'static str)
    ensures
        r@ == relation_text(mode),
{
    match mode {
        RingRelationMode::QuotientLift => "akita_types::RingRelationMode::QuotientLift",
        RingRelationMode::ReducedEvaluation => "akita_types::RingRelationMode::ReducedEvaluation",
    }
}

/// An optional number.
pub open spec fn optional_text(value: Option<u128>) -> Seq<char> {
    match value {
        Some(n) => "Some("@ + text::decimal(n as nat) + ")"@,
        None => "None"@,
    }
}

/// An optional number.
pub fn emit_optional(value: Option<u128>) -> (r: String)
    ensures
        r@ == optional_text(value),
{
    match value {
        Some(n) => {
            let mut out = String::from_str("Some(");
            push_decimal(&mut out, n);
            out.append(")");
            out
        },
        None => error::message("None"),
    }
}

/// A fold's own group.
pub open spec fn group_text(value: GeneratedGroup) -> Seq<char> {
    "GeneratedGroup { geometry: "@
        + geometry_text(value.geometry)
        + ", inner_commit_matrix: GeneratedMatrix { ring_dimension: "@
        + text::decimal(value.inner_commit_matrix.ring_dimension as nat)
        + ", log_basis: "@
        + text::decimal(value.inner_commit_matrix.log_basis as nat)
        + " }, outer_commit_matrix: GeneratedMatrix { ring_dimension: "@
        + text::decimal(value.outer_commit_matrix.ring_dimension as nat)
        + ", log_basis: "@
        + text::decimal(value.outer_commit_matrix.log_basis as nat)
        + " }, outer_slice_count: "@
        + text::decimal(value.outer_slice_count as nat)
        + ", num_digits_fold: "@
        + text::decimal(value.num_digits_fold as nat)
        + ", opening_method: "@
        + opening_text(value.opening_method)
        + " }"@
}

/// A fold's own group.
pub fn emit_group(value: GeneratedGroup) -> (r: String)
    ensures
        r@ == group_text(value),
{
    let mut out = String::from_str("GeneratedGroup { geometry: ");
    push_text(&mut out, emit_geometry(value.geometry));
    out.append(", inner_commit_matrix: GeneratedMatrix { ring_dimension: ");
    push_decimal(&mut out, value.inner_commit_matrix.ring_dimension as u128);
    out.append(", log_basis: ");
    push_decimal(&mut out, value.inner_commit_matrix.log_basis as u128);
    out.append(" }, outer_commit_matrix: GeneratedMatrix { ring_dimension: ");
    push_decimal(&mut out, value.outer_commit_matrix.ring_dimension as u128);
    out.append(", log_basis: ");
    push_decimal(&mut out, value.outer_commit_matrix.log_basis as u128);
    out.append(" }, outer_slice_count: ");
    push_decimal(&mut out, value.outer_slice_count as u128);
    out.append(", num_digits_fold: ");
    push_decimal(&mut out, value.num_digits_fold as u128);
    out.append(", opening_method: ");
    push_text(&mut out, emit_opening_method(value.opening_method));
    out.append(" }");
    out
}

/// A frozen group.
pub open spec fn frozen_text(value: GeneratedFrozenGroup) -> Seq<char> {
    "GeneratedFrozenGroup { profile: "@
        + profile_text(value.profile)
        + ", opening_method: "@
        + opening_text(value.opening_method)
        + ", num_digits_fold: "@
        + text::decimal(value.num_digits_fold as nat)
        + " }"@
}

/// A frozen group.
pub fn emit_frozen_group(value: &GeneratedFrozenGroup) -> (r: String)
    requires
        profile_printable(value.profile),
    ensures
        r@ == frozen_text(*value),
{
    let mut out = String::from_str("GeneratedFrozenGroup { profile: ");
    push_text(&mut out, emit_precommitted_group_key(&value.profile));
    out.append(", opening_method: ");
    push_text(&mut out, emit_opening_method(value.opening_method));
    out.append(", num_digits_fold: ");
    push_decimal(&mut out, value.num_digits_fold as u128);
    out.append(" }");
    out
}

/// What every fold but the terminal one holds.
pub open spec fn core_text(fold: GeneratedFoldCore) -> Seq<char> {
    "GeneratedFoldCore { group: "@
        + group_text(fold.group)
        + ", open_commit_matrix: "@
        + matrix_text(fold.open_commit_matrix)
        + ", witness_chunks: "@
        + text::decimal(fold.witness_chunks as nat)
        + ", ring_relation_mode: "@
        + relation_text(fold.ring_relation_mode)
        + " }"@
}

/// What every fold but the terminal one holds.
pub fn emit_fold_core(fold: GeneratedFoldCore) -> (r: String)
    ensures
        r@ == core_text(fold),
{
    let mut out = String::from_str("GeneratedFoldCore { group: ");
    push_text(&mut out, emit_group(fold.group));
    out.append(", open_commit_matrix: ");
    push_text(&mut out, emit_open_matrix(fold.open_commit_matrix));
    out.append(", witness_chunks: ");
    push_decimal(&mut out, fold.witness_chunks as u128);
    out.append(", ring_relation_mode: ");
    out.append(emit_ring_relation_mode(fold.ring_relation_mode));
    out.append(" }");
    out
}

/// A setup prefix.
pub open spec fn prefix_text(prefix: GeneratedSetupPrefix) -> Seq<char> {
    "GeneratedSetupPrefix { group: "@
        + frozen_text(prefix.group)
        + ", natural_len: "@
        + text::decimal(prefix.natural_len as nat)
        + " }"@
}

/// A setup prefix.
pub fn emit_setup_prefix(prefix: &GeneratedSetupPrefix) -> (r: String)
    requires
        profile_printable(prefix.group.profile),
    ensures
        r@ == prefix_text(*prefix),
{
    let mut out = String::from_str("GeneratedSetupPrefix { group: ");
    push_text(&mut out, emit_frozen_group(&prefix.group));
    out.append(", natural_len: ");
    push_decimal(&mut out, prefix.natural_len as u128);
    out.append(" }");
    out
}

/// An optional setup prefix.
pub open spec fn optional_prefix_text(prefix: Option<GeneratedSetupPrefix>) -> Seq<char> {
    match prefix {
        Some(p) => "Some("@ + prefix_text(p) + ")"@,
        None => "None"@,
    }
}

/// Whether an optional setup prefix can be written.
pub open spec fn prefix_printable(prefix: Option<GeneratedSetupPrefix>) -> bool {
    prefix matches Some(p) ==> profile_printable(p.group.profile)
}

fn emit_optional_prefix(prefix: &Option<GeneratedSetupPrefix>) -> (r: String)
    requires
        prefix_printable(*prefix),
    ensures
        r@ == optional_prefix_text(*prefix),
{
    match prefix {
        Some(p) => {
            let mut out = String::from_str("Some(");
            push_text(&mut out, emit_setup_prefix(p));
            out.append(")");
            out
        },
        None => error::message("None"),
    }
}

/// A recursive fold.
pub open spec fn recursive_text(fold: GeneratedRecursiveFold) -> Seq<char> {
    "GeneratedRecursiveFold { core: "@
        + core_text(fold.core)
        + ", setup_prefix: "@
        + optional_prefix_text(fold.setup_prefix)
        + ", payload_mode: "@
        + payload_text(fold.payload_mode)
        + ", response_l2_sq_cap: "@
        + optional_text(fold.response_l2_sq_cap)
        + " }"@
}

/// A recursive fold.
pub fn emit_recursive_fold(fold: &GeneratedRecursiveFold) -> (r: String)
    requires
        prefix_printable(fold.setup_prefix),
    ensures
        r@ == recursive_text(*fold),
{
    let mut out = String::from_str("GeneratedRecursiveFold { core: ");
    push_text(&mut out, emit_fold_core(fold.core));
    out.append(", setup_prefix: ");
    push_text(&mut out, emit_optional_prefix(&fold.setup_prefix));
    out.append(", payload_mode: ");
    out.append(emit_payload_mode(fold.payload_mode));
    out.append(", response_l2_sq_cap: ");
    push_text(&mut out, emit_optional(fold.response_l2_sq_cap));
    out.append(" }");
    out
}

/// The terminal fold, on a line of its own.
pub open spec fn terminal_text(terminal: GeneratedTerminalFold) -> Seq<char> {
    "        terminal: GeneratedTerminalFold { geometry: "@
        + geometry_text(terminal.geometry)
        + ", inner_commit_matrix: GeneratedMatrix { ring_dimension: "@
        + text::decimal(terminal.inner_commit_matrix.ring_dimension as nat)
        + ", log_basis: "@
        + text::decimal(terminal.inner_commit_matrix.log_basis as nat)
        + " }, num_digits_inner: "@
        + text::decimal(terminal.num_digits_inner as nat)
        + ", fold_log_basis: "@
        + text::decimal(terminal.fold_log_basis as nat)
        + ", fold_digit_count: "@
        + text::decimal(terminal.fold_digit_count as nat)
        + ", inner_output_rank: "@
        + text::decimal(terminal.inner_output_rank as nat)
        + ", inner_coeff_linf_bound: "@
        + text::decimal(terminal.inner_coeff_linf_bound as nat)
        + ", response_l2_sq_cap: "@
        + optional_text(terminal.response_l2_sq_cap)
        + ", z_linf_cap: "@
        + optional_text(terminal.z_linf_cap)
        + ", z_rice_low_bits: "@
        + text::decimal(terminal.z_rice_low_bits as nat)
        + ", z_payload_bytes: "@
        + text::decimal(terminal.z_payload_bytes as nat)
        + " },\n"@
}

/// The terminal fold, on a line of its own.
pub fn emit_terminal_fold(terminal: &GeneratedTerminalFold) -> (r: String)
    ensures
        r@ == terminal_text(*terminal),
{
    let mut out = String::from_str("        terminal: GeneratedTerminalFold { geometry: ");
    push_text(&mut out, emit_geometry(terminal.geometry));
    out.append(", inner_commit_matrix: GeneratedMatrix { ring_dimension: ");
    push_decimal(&mut out, terminal.inner_commit_matrix.ring_dimension as u128);
    out.append(", log_basis: ");
    push_decimal(&mut out, terminal.inner_commit_matrix.log_basis as u128);
    out.append(" }, num_digits_inner: ");
    push_decimal(&mut out, terminal.num_digits_inner as u128);
    out.append(", fold_log_basis: ");
    push_decimal(&mut out, terminal.fold_log_basis as u128);
    out.append(", fold_digit_count: ");
    push_decimal(&mut out, terminal.fold_digit_count as u128);
    out.append(", inner_output_rank: ");
    push_decimal(&mut out, terminal.inner_output_rank as u128);
    out.append(", inner_coeff_linf_bound: ");
    push_decimal(&mut out, terminal.inner_coeff_linf_bound as u128);
    out.append(", response_l2_sq_cap: ");
    push_text(&mut out, emit_optional(terminal.response_l2_sq_cap));
    out.append(", z_linf_cap: ");
    push_text(&mut out, emit_optional(terminal.z_linf_cap));
    out.append(", z_rice_low_bits: ");
    push_decimal(&mut out, terminal.z_rice_low_bits as u128);
    out.append(", z_payload_bytes: ");
    push_decimal(&mut out, terminal.z_payload_bytes as u128);
    out.append(" },\n");
    out
}

// ---------------------------------------------------------------------------
// Rows
// ---------------------------------------------------------------------------

/// The first `n` precommitted groups of a root fold, each on a line behind its
/// remark.
pub open spec fn groups_text<N: SourceAnnotations>(
    notes: N,
    indent: Seq<char>,
    groups: Seq<GeneratedPrecommittedGroup>,
    producers: Seq<PrecommittedProducer>,
    n: nat,
) -> Seq<char>
    decreases n,
{
    if n == 0 {
        Seq::empty()
    } else {
        let i = n - 1;
        let digits = groups[i].group.profile.inner.digits;
        groups_text(notes, indent, groups, producers, (n - 1) as nat) + notes.note_of(
            digits.log_basis,
            digits.num_digits,
            producers[i].contract.class,
        ) + indent + "        GeneratedPrecommittedGroup { group: "@ + frozen_text(groups[i].group)
            + " },\n"@
    }
}

/// A root fold.
pub open spec fn root_text<N: SourceAnnotations>(
    notes: N,
    indent: Seq<char>,
    label: Seq<char>,
    core: GeneratedFoldCore,
    num_digits_inner: u32,
    groups: Seq<GeneratedPrecommittedGroup>,
    producers: Seq<PrecommittedProducer>,
) -> Seq<char> {
    if groups.len() == 0 {
        indent + label + "GeneratedRootFold { core: "@ + core_text(core) + ", num_digits_inner: "@
            + text::decimal(num_digits_inner as nat) + ", precommitted_groups: &[] },\n"@
    } else {
        indent + label + "GeneratedRootFold {\n"@ + indent + "    core: "@ + core_text(core)
            + ",\n"@ + indent + "    num_digits_inner: "@ + text::decimal(num_digits_inner as nat)
            + ",\n"@ + indent + "    precommitted_groups: &[\n"@ + groups_text(
            notes,
            indent,
            groups,
            producers,
            groups.len(),
        ) + indent + "    ],\n"@ + indent + "},\n"@
    }
}

/// Why a root fold cannot be written: its groups and its producers differ in
/// number.
pub open spec fn root_refusal(
    key: AkitaScheduleLookupKey,
    groups: nat,
    producers: nat,
) -> Option<Seq<char>> {
    if groups == 0 || producers == groups {
        None
    } else {
        Some(
            "grouped key "@ + describe::key_text(key.final_group, key.precommitteds@)
                + " carries "@ + text::decimal(producers) + " producer records for "@
                + text::decimal(groups) + " precommitted groups"@,
        )
    }
}

/// Whether every precommitted group can be written.
pub open spec fn groups_printable(groups: Seq<GeneratedPrecommittedGroup>) -> bool {
    forall|i: int|
        0 <= i < groups.len() ==> profile_printable((#[trigger] groups[i]).group.profile)
}

/// Writes a root fold.
pub fn emit_root_fold<N: SourceAnnotations>(
    out: &mut String,
    indent: &str,
    label: &str,
    fold: &GeneratedRootFold,
    key: &AkitaScheduleLookupKey,
    precommitted_producers: &Vec<PrecommittedProducer>,
    notes: &N,
) -> (r: Result<(), String>)
    requires
        groups_printable(fold.precommitted_groups@),
    ensures
        match r {
            Ok(()) => root_refusal(
                *key,
                fold.precommitted_groups@.len(),
                precommitted_producers@.len(),
            ) is None && final(out)@ == old(out)@ + root_text(
                *notes,
                indent@,
                label@,
                fold.core,
                fold.num_digits_inner,
                fold.precommitted_groups@,
                precommitted_producers@,
            ),
            Err(e) => root_refusal(
                *key,
                fold.precommitted_groups@.len(),
                precommitted_producers@.len(),
            ) == Some(e@) && final(out)@ == old(out)@,
        },
{
    if fold.precommitted_groups.len() == 0 {
        let mut body = String::from_str(indent);
        body.append(label);
        body.append("GeneratedRootFold { core: ");
        push_text(&mut body, emit_fold_core(fold.core));
        body.append(", num_digits_inner: ");
        push_decimal(&mut body, fold.num_digits_inner as u128);
        body.append(", precommitted_groups: &[] },\n");
        push_text(out, body);
        return Ok(());
    }
    if precommitted_producers.len() != fold.precommitted_groups.len() {
        let mut message = String::from_str("grouped key ");
        push_text(&mut message, describe_key(key));
        message.append(" carries ");
        push_decimal(&mut message, precommitted_producers.len() as u128);
        message.append(" producer records for ");
        push_decimal(&mut message, fold.precommitted_groups.len() as u128);
        message.append(" precommitted groups");
        return Err(message);
    }
    let mut body = String::from_str(indent);
    body.append(label);
    body.append("GeneratedRootFold {\n");
    body.append(indent);
    body.append("    core: ");
    push_text(&mut body, emit_fold_core(fold.core));
    body.append(",\n");
    body.append(indent);
    body.append("    num_digits_inner: ");
    push_decimal(&mut body, fold.num_digits_inner as u128);
    body.append(",\n");
    body.append(indent);
    body.append("    precommitted_groups: &[\n");
    push_text(
        &mut body,
        emit_precommitted_groups(indent, &fold.precommitted_groups, precommitted_producers, notes),
    );
    body.append(indent);
    body.append("    ],\n");
    body.append(indent);
    body.append("},\n");
    push_text(out, body);
    Ok(())
}

/// The precommitted groups of a root fold.
fn emit_precommitted_groups<N: SourceAnnotations>(
    indent: &str,
    groups: &Vec<GeneratedPrecommittedGroup>,
    producers: &Vec<PrecommittedProducer>,
    notes: &N,
) -> (r: String)
    requires
        groups_printable(groups@),
        producers@.len() == groups@.len(),
    ensures
        r@ == groups_text(*notes, indent@, groups@, producers@, groups@.len()),
{
    let mut out = String::new();
    let mut k: usize = 0;
    while k < groups.len()
        invariant
            k <= groups@.len(),
            groups_printable(groups@),
            producers@.len() == groups@.len(),
            out@ == groups_text(*notes, indent@, groups@, producers@, k as nat),
        decreases groups@.len() - k,
    {
        push_text(
            &mut out,
            notes.precommitted_source_note(
                groups[k].group.profile.inner.digits.log_basis,
                groups[k].group.profile.inner.digits.num_digits,
                producers[k].contract().class(),
            ),
        );
        out.append(indent);
        out.append("        GeneratedPrecommittedGroup { group: ");
        push_text(&mut out, emit_frozen_group(&groups[k].group));
        out.append(" },\n");
        k += 1;
    }
    out
}

/// The first `n` recursive folds of a row, each on a line.
pub open spec fn folds_text(folds: Seq<GeneratedRecursiveFold>, n: nat) -> Seq<char>
    decreases n,
{
    if n == 0 {
        Seq::empty()
    } else {
        folds_text(folds, (n - 1) as nat) + "            "@ + recursive_text(folds[n - 1])
            + ",\n"@
    }
}

/// The list of the recursive folds of a row.
pub open spec fn fold_list_text(folds: Seq<GeneratedRecursiveFold>) -> Seq<char> {
    if folds.len() == 0 {
        "        recursive_folds: &[],\n"@
    } else {
        "        recursive_folds: &[\n"@ + folds_text(folds, folds.len()) + "        ],\n"@
    }
}

/// Whether every recursive fold can be written.
pub open spec fn folds_printable(folds: Seq<GeneratedRecursiveFold>) -> bool {
    forall|i: int| 0 <= i < folds.len() ==> prefix_printable((#[trigger] folds[i]).setup_prefix)
}

fn emit_fold_list(folds: &Vec<GeneratedRecursiveFold>) -> (r: String)
    requires
        folds_printable(folds@),
    ensures
        r@ == fold_list_text(folds@),
{
    if folds.len() == 0 {
        return error::message("        recursive_folds: &[],\n");
    }
    let mut lines = String::new();
    let mut k: usize = 0;
    while k < folds.len()
        invariant
            k <= folds@.len(),
            folds_printable(folds@),
            lines@ == folds_text(folds@, k as nat),
        decreases folds@.len() - k,
    {
        lines.append("            ");
        push_text(&mut lines, emit_recursive_fold(&folds[k]));
        lines.append(",\n");
        k += 1;
    }
    let mut out = String::from_str("        recursive_folds: &[\n");
    push_text(&mut out, lines);
    out.append("        ],\n");
    out
}

/// The lines of a row before its root fold.
pub open spec fn entry_head(final_group: PolynomialGroupLayout) -> Seq<char> {
    "    GeneratedFoldScheduleEntry {\n        final_group: "@ + key_text(final_group) + ",\n"@
}

/// The row of a key and a schedule, or why it cannot be written.
pub open spec fn entry_text<N: SourceAnnotations>(
    notes: N,
    key: AkitaScheduleLookupKey,
    s: PlannedFoldSchedule,
    producers: Seq<PrecommittedProducer>,
) -> Result<Seq<char>, Seq<char>> {
    let groups = compact::precommitted_of(key.precommitteds@, s.root.params.precommitted_groups@);
    match compact::refusal(s) {
        Some(e) => Err(e),
        None => match root_refusal(key, groups.len(), producers.len()) {
            Some(e) => Err(e),
            None => Ok(
                entry_head(key.final_group) + root_text(
                    notes,
                    "        "@,
                    "root: "@,
                    compact::core_of(s.root.params@),
                    s.root.params.own.profile.inner.digits.num_digits as u32,
                    groups,
                    producers,
                ) + fold_list_text(compact::folds_of(s.recursive_folds@)) + terminal_text(
                    compact::terminal_of(s.terminal.params, s.terminal.response_shape.groups@[0]),
                ) + "    },\n"@,
            ),
        },
    }
}

/// Whether the profiles of a row can be written, if it has one.
pub open spec fn entry_printable(key: AkitaScheduleLookupKey, s: PlannedFoldSchedule) -> bool {
    compact::refusal(s) is None ==> {
        &&& groups_printable(
            compact::precommitted_of(key.precommitteds@, s.root.params.precommitted_groups@),
        )
        &&& folds_printable(compact::folds_of(s.recursive_folds@))
    }
}

/// Writes the row of a key and a schedule. A row that has no producers for its
/// groups is left off after its head.
pub fn emit_schedule_entry<N: SourceAnnotations>(
    out: &mut String,
    key: &AkitaScheduleLookupKey,
    schedule: &PlannedFoldSchedule,
    precommitted_producers: &Vec<PrecommittedProducer>,
    notes: &N,
) -> (r: Result<(), String>)
    requires
        entry_printable(*key, *schedule),
    ensures
        match entry_text(*notes, *key, *schedule, precommitted_producers@) {
            Ok(row) => r is Ok && final(out)@ == old(out)@ + row,
            Err(e) => r is Err && (r->Err_0)@ == e && final(out)@ == old(out)@ + (
            if compact::refusal(*schedule) is Some {
                Seq::empty()
            } else {
                entry_head(key.final_group)
            }),
        },
{
    let ghost before = out@;
    let entry = match generated_entry(key, schedule) {
        Ok(entry) => entry,
        Err(e) => {
            proof {
                assert(before + Seq::<char>::empty() =~= before);
            }
            return Err(e);
        },
    };
    let mut body = String::from_str("    GeneratedFoldScheduleEntry {\n        final_group: ");
    push_text(&mut body, emit_key(entry.final_group));
    body.append(",\n");
    let root = emit_root_fold(
        &mut body,
        "        ",
        "root: ",
        &entry.root,
        key,
        precommitted_producers,
        notes,
    );
    if let Err(e) = root {
        push_text(out, body);
        return Err(e);
    }
    push_text(&mut body, emit_fold_list(&entry.recursive_folds));
    push_text(&mut body, emit_terminal_fold(&entry.terminal));
    body.append("    },\n");
    push_text(out, body);
    Ok(())
}

// ---------------------------------------------------------------------------
// The identity of a catalog
// ---------------------------------------------------------------------------

/// The bounds of a decomposition.
pub open spec fn decomposition_text(d: DecompositionParams) -> Seq<char> {
    "DecompositionParams { log_basis: "@ + text::decimal(d.log_basis as nat)
        + ", log_commit_bound: "@ + text::decimal(d.log_commit_bound as nat)
        + ", log_open_bound: "@ + (match d.log_open_bound {
        Some(v) => "Some("@ + text::decimal(v as nat) + ")"@,
        None => "None"@,
    }) + " }"@
}

/// The bounds of a decomposition.
pub fn emit_decomposition(d: DecompositionParams) -> (r: String)
    ensures
        r@ == decomposition_text(d),
{
    let mut out = String::from_str("DecompositionParams { log_basis: ");
    push_decimal(&mut out, d.log_basis as u128);
    out.append(", log_commit_bound: ");
    push_decimal(&mut out, d.log_commit_bound as u128);
    out.append(", log_open_bound: ");
    let bound: Option<u128> = match d.log_open_bound {
        Some(v) => Some(v as u128),
        None => None,
    };
    push_text(&mut out, emit_optional(bound));
    out.append(" }");
    out
}

/// The name of a modulus profile.
pub open spec fn modulus_text(family: SisModulusProfileId) -> Seq<char> {
    match family {
        SisModulusProfileId::Q32Offset99 => "SisModulusProfileId::Q32Offset99"@,
        SisModulusProfileId::Q64Offset59 => "SisModulusProfileId::Q64Offset59"@,
        SisModulusProfileId::Q128OffsetA7F7 => "SisModulusProfileId::Q128OffsetA7F7"@,
    }
}

/// The name of a modulus profile.
pub fn emit_sis_modulus_profile(family: SisModulusProfileId) -> (r: &'static str)
    ensures
        r@ == modulus_text(family),
{
    match family {
        SisModulusProfileId::Q32Offset99 => "SisModulusProfileId::Q32Offset99",
        SisModulusProfileId::Q64Offset59 => "SisModulusProfileId::Q64Offset59",
        SisModulusProfileId::Q128OffsetA7F7 => "SisModulusProfileId::Q128OffsetA7F7",
    }
}

/// A chunk layout.
pub open spec fn chunk_text(cfg: ChunkedWitnessCfg) -> Seq<char> {
    "ChunkedWitnessCfg { num_chunks: "@
        + text::decimal(cfg.num_chunks as nat)
        + ", num_activated_levels: "@
        + text::decimal(cfg.num_activated_levels as nat)
        + " }"@
}

/// A chunk layout.
pub fn emit_witness_chunk(cfg: ChunkedWitnessCfg) -> (r: String)
    ensures
        r@ == chunk_text(cfg),
{
    let mut out = String::from_str("ChunkedWitnessCfg { num_chunks: ");
    push_decimal(&mut out, cfg.num_chunks as u128);
    out.append(", num_activated_levels: ");
    push_decimal(&mut out, cfg.num_activated_levels as u128);
    out.append(" }");
    out
}

/// A budget as a number.
pub open spec fn budget_number(value: Option<usize>) -> Option<u128> {
    match value {
        Some(n) => Some(n as u128),
        None => None,
    }
}

fn budget(value: Option<usize>) -> (r: Option<u128>)
    ensures
        r == budget_number(value),
{
    match value {
        Some(n) => Some(n as u128),
        None => None,
    }
}

/// The dimension lists that an adaptive mode needs beside the identity.
pub open spec fn dimension_statics(mode: RingDimensionScheduleMode) -> Seq<char> {
    match mode {
        RingDimensionScheduleMode::UniformDimension { .. } => Seq::empty(),
        RingDimensionScheduleMode::AdaptiveDimension {
            num_search_levels,
            suffix_dimensions,
            potential_a_dimensions,
            potential_b_dimensions,
            potential_d_dimensions,
        } => "#[rustfmt::skip]\npub(crate) static CATALOG_SUFFIX_DIMENSIONS: &[usize] = &["@
            + text::usize_list(suffix_dimensions@)
            + "];\n#[rustfmt::skip]\npub(crate) static CATALOG_POTENTIAL_A_DIMENSIONS: &[usize] = &["@
            + text::usize_list(potential_a_dimensions@)
            + "];\n#[rustfmt::skip]\npub(crate) static CATALOG_POTENTIAL_B_DIMENSIONS: &[usize] = &["@
            + text::usize_list(potential_b_dimensions@)
            + "];\n#[rustfmt::skip]\npub(crate) static CATALOG_POTENTIAL_D_DIMENSIONS: &[usize] = &["@
            + text::usize_list(potential_d_dimensions@)
            + "];\n"@,
    }
}

/// A dimension mode, its lists by name.
pub open spec fn mode_text(mode: RingDimensionScheduleMode) -> Seq<char> {
    match mode {
        RingDimensionScheduleMode::UniformDimension { ring_dimension } =>
            "RingDimensionScheduleMode::UniformDimension { ring_dimension: "@
            + text::decimal(ring_dimension as nat) + " }"@,
        RingDimensionScheduleMode::AdaptiveDimension { num_search_levels, .. } =>
            "RingDimensionScheduleMode::AdaptiveDimension { num_search_levels: "@
            + text::decimal(num_search_levels as nat)
            + ", suffix_dimensions: CATALOG_SUFFIX_DIMENSIONS, potential_a_dimensions: CATALOG_POTENTIAL_A_DIMENSIONS, potential_b_dimensions: CATALOG_POTENTIAL_B_DIMENSIONS, potential_d_dimensions: CATALOG_POTENTIAL_D_DIMENSIONS }"@,
    }
}

fn emit_dimension_mode(mode: &RingDimensionScheduleMode) -> (r: (String, String))
    ensures
        r.0@ == dimension_statics(*mode),
        r.1@ == mode_text(*mode),
{
    match mode {
        RingDimensionScheduleMode::UniformDimension { ring_dimension } => {
            let mut name = String::from_str(
                "RingDimensionScheduleMode::UniformDimension { ring_dimension: ",
            );
            push_decimal(&mut name, *ring_dimension as u128);
            name.append(" }");
            (String::new(), name)
        },
        RingDimensionScheduleMode::AdaptiveDimension {
            num_search_levels,
            suffix_dimensions,
            potential_a_dimensions,
            potential_b_dimensions,
            potential_d_dimensions,
        } => {
            let mut statics = String::from_str(
                "#[rustfmt::skip]\npub(crate) static CATALOG_SUFFIX_DIMENSIONS: &[usize] = &[",
            );
            push_text(&mut statics, format_dimensions(suffix_dimensions));
            statics.append(
                "];\n#[rustfmt::skip]\npub(crate) static CATALOG_POTENTIAL_A_DIMENSIONS: &[usize] = &[",
            );
            push_text(&mut statics, format_dimensions(potential_a_dimensions));
            statics.append(
                "];\n#[rustfmt::skip]\npub(crate) static CATALOG_POTENTIAL_B_DIMENSIONS: &[usize] = &[",
            );
            push_text(&mut statics, format_dimensions(potential_b_dimensions));
            statics.append(
                "];\n#[rustfmt::skip]\npub(crate) static CATALOG_POTENTIAL_D_DIMENSIONS: &[usize] = &[",
            );
            push_text(&mut statics, format_dimensions(potential_d_dimensions));
            statics.append("];\n");
            let mut name = String::from_str(
                "RingDimensionScheduleMode::AdaptiveDimension { num_search_levels: ",
            );
            push_decimal(&mut name, *num_search_levels as u128);
            name.append(
                ", suffix_dimensions: CATALOG_SUFFIX_DIMENSIONS, potential_a_dimensions: CATALOG_POTENTIAL_A_DIMENSIONS, potential_b_dimensions: CATALOG_POTENTIAL_B_DIMENSIONS, potential_d_dimensions: CATALOG_POTENTIAL_D_DIMENSIONS }",
            );
            (statics, name)
        },
    }
}

/// The constants that hold a catalog's identity.
pub open spec fn identity_text(identity: GeneratedScheduleCatalogIdentity) -> Seq<char> {
    dimension_statics(identity.ring_dimension_schedule_mode)
        + "#[rustfmt::skip]\npub(crate) static CATALOG_RING_DIMENSIONS: &[usize] = &["@
        + text::usize_list(identity.ring_dimensions@)
        + "];\n#[rustfmt::skip]\npub(crate) static CATALOG_IDENTITY: GeneratedScheduleCatalogIdentity = GeneratedScheduleCatalogIdentity {\n    family_name: \""@
        + identity.family_name@
        + "\",\n    protocol_epoch: "@
        + text::decimal(identity.protocol_epoch as nat)
        + ",\n    cost_model: PlannerCostModelId::"@
        + identity.cost_model.name_spec()
        + ",\n    selective_l2_response_model: SelectiveL2ResponseModelId::"@
        + identity.selective_l2_response_model.name_spec()
        + ",\n    selection_policy: SelectionPolicyId::"@
        + identity.selection_policy.name_spec()
        + ",\n    recursive_split_search_policy: crate::RecursiveSplitSearchPolicy::"@
        + identity.recursive_split_search_policy.name_spec()
        + ",\n    recursive_setup_search_policy: crate::RecursiveSetupSearchPolicy::"@
        + identity.recursive_setup_search_policy.name_spec()
        + ",\n    setup_field_budget: "@
        + optional_text(budget_number(identity.setup_field_budget))
        + ",\n    min_offloaded_witness_contraction: "@
        + text::decimal(identity.min_offloaded_witness_contraction as nat)
        + ",\n    sis_modulus_profile: "@
        + modulus_text(identity.sis_modulus_profile)
        + ",\n    sis_security_policy: SisSecurityPolicyId::"@
        + identity.sis_security_policy.name_spec()
        + ",\n    sis_table_digest: SisTableDigest("@
        + text::hex_array(digest_bytes(identity.sis_table_digest.high, identity.sis_table_digest.low))
        + "),\n    sis_l2_table_digest: SisL2TableDigest("@
        + text::hex_array(digest_bytes(identity.sis_l2_table_digest.high, identity.sis_l2_table_digest.low))
        + "),\n    decomposition: "@
        + decomposition_text(identity.decomposition)
        + ",\n    claim_ext_degree: "@
        + text::decimal(identity.claim_ext_degree as nat)
        + ",\n    chal_ext_degree: "@
        + text::decimal(identity.chal_ext_degree as nat)
        + ",\n    inner_basis_range: ("@
        + text::decimal(identity.inner_basis_range.min as nat)
        + ", "@
        + text::decimal(identity.inner_basis_range.max as nat)
        + "),\n    opening_basis_range: ("@
        + text::decimal(identity.opening_basis_range.min as nat)
        + ", "@
        + text::decimal(identity.opening_basis_range.max as nat)
        + "),\n    witness_chunk: "@
        + chunk_text(identity.witness_chunk)
        + ",\n    recursive_setup_planning: "@
        + text::bool_text(identity.recursive_setup_planning)
        + ",\n    ring_dimension_schedule_mode: "@
        + mode_text(identity.ring_dimension_schedule_mode)
        + ",\n    ring_dimensions: CATALOG_RING_DIMENSIONS,\n    ring_challenge_config_digest: "@
        + text::decimal(identity.ring_challenge_config_digest as nat)
        + ",\n    key_count: "@
        + text::decimal(identity.key_count as nat)
        + ",\n    key_digest: "@
        + text::decimal(identity.key_digest as nat)
        + ",\n};\n"@
}

/// The constants that hold a catalog's identity.
pub fn emit_identity_const(identity: &GeneratedScheduleCatalogIdentity) -> (r: String)
    ensures
        r@ == identity_text(*identity),
{
    let (statics, mode) = emit_dimension_mode(&identity.ring_dimension_schedule_mode);
    let mut out = String::from_str(statics.as_str());
    out.append("#[rustfmt::skip]\npub(crate) static CATALOG_RING_DIMENSIONS: &[usize] = &[");
    push_text(&mut out, format_dimensions(&identity.ring_dimensions));
    out.append("];\n#[rustfmt::skip]\npub(crate) static CATALOG_IDENTITY: GeneratedScheduleCatalogIdentity = GeneratedScheduleCatalogIdentity {\n    family_name: \"");
    out.append(identity.family_name.as_str());
    out.append("\",\n    protocol_epoch: ");
    push_decimal(&mut out, identity.protocol_epoch as u128);
    out.append(",\n    cost_model: PlannerCostModelId::");
    out.append(identity.cost_model.name());
    out.append(",\n    selective_l2_response_model: SelectiveL2ResponseModelId::");
    out.append(identity.selective_l2_response_model.name());
    out.append(",\n    selection_policy: SelectionPolicyId::");
    out.append(identity.selection_policy.name());
    out.append(",\n    recursive_split_search_policy: crate::RecursiveSplitSearchPolicy::");
    out.append(identity.recursive_split_search_policy.name());
    out.append(",\n    recursive_setup_search_policy: crate::RecursiveSetupSearchPolicy::");
    out.append(identity.recursive_setup_search_policy.name());
    out.append(",\n    setup_field_budget: ");
    push_text(&mut out, emit_optional(budget(identity.setup_field_budget)));
    out.append(",\n    min_offloaded_witness_contraction: ");
    push_decimal(&mut out, identity.min_offloaded_witness_contraction as u128);
    out.append(",\n    sis_modulus_profile: ");
    out.append(emit_sis_modulus_profile(identity.sis_modulus_profile));
    out.append(",\n    sis_security_policy: SisSecurityPolicyId::");
    out.append(identity.sis_security_policy.name());
    out.append(",\n    sis_table_digest: SisTableDigest(");
    push_text(&mut out, format_bytes(&digest_vec(identity.sis_table_digest.high, identity.sis_table_digest.low)));
    out.append("),\n    sis_l2_table_digest: SisL2TableDigest(");
    push_text(&mut out, format_bytes(&digest_vec(identity.sis_l2_table_digest.high, identity.sis_l2_table_digest.low)));
    out.append("),\n    decomposition: ");
    push_text(&mut out, emit_decomposition(identity.decomposition));
    out.append(",\n    claim_ext_degree: ");
    push_decimal(&mut out, identity.claim_ext_degree as u128);
    out.append(",\n    chal_ext_degree: ");
    push_decimal(&mut out, identity.chal_ext_degree as u128);
    out.append(",\n    inner_basis_range: (");
    push_decimal(&mut out, identity.inner_basis_range.min as u128);
    out.append(", ");
    push_decimal(&mut out, identity.inner_basis_range.max as u128);
    out.append("),\n    opening_basis_range: (");
    push_decimal(&mut out, identity.opening_basis_range.min as u128);
    out.append(", ");
    push_decimal(&mut out, identity.opening_basis_range.max as u128);
    out.append("),\n    witness_chunk: ");
    push_text(&mut out, emit_witness_chunk(identity.witness_chunk));
    out.append(",\n    recursive_setup_planning: ");
    out.append(bool_word(identity.recursive_setup_planning));
    out.append(",\n    ring_dimension_schedule_mode: ");
    push_text(&mut out, mode);
    out.append(",\n    ring_dimensions: CATALOG_RING_DIMENSIONS,\n    ring_challenge_config_digest: ");
    push_decimal(&mut out, identity.ring_challenge_config_digest as u128);
    out.append(",\n    key_count: ");
    push_decimal(&mut out, identity.key_count as u128);
    out.append(",\n    key_digest: ");
    push_decimal(&mut out, identity.key_digest as u128);
    out.append(",\n};\n");
    out
}

// ---------------------------------------------------------------------------
// Catalogs
// ---------------------------------------------------------------------------

/// One catalog to be written.
#[derive(Clone, Debug)]
pub struct EmitSpec {
    pub module_name: String,
    pub const_name: String,
    pub family_name: String,
    pub schedule_feature: String,
    pub policy: PlannerPolicy,
    pub source_contract: CommittedSourceContract,
    pub keys: Vec<PolynomialGroupLayout>,
    pub grouped_requests: Vec<GroupedGenerationRequest>,
    /// Scalar schedules that are known already.
    pub preplanned_scalar: Vec<(PolynomialGroupLayout, PlannedFoldSchedule)>,
    pub output_dir: String,
    pub generator_command: String,
}

/// The rows of schedules in order, or why the first that fails cannot be
/// written.
pub open spec fn rows_text<N: SourceAnnotations>(
    notes: N,
    entries: Seq<MaterializedEntry>,
) -> Result<Seq<char>, Seq<char>>
    decreases entries.len(),
{
    if entries.len() == 0 {
        Ok(Seq::empty())
    } else {
        let last = entries.last();
        match rows_text(notes, entries.drop_last()) {
            Ok(before) => match entry_text(
                notes,
                last.key,
                last.schedule,
                last.precommitted_producers@,
            ) {
                Ok(row) => Ok(before + row),
                Err(e) => Err(e),
            },
            Err(e) => Err(e),
        }
    }
}

/// The imports of a catalog module.
pub open spec fn imports_text() -> Seq<char> {
    "#[allow(unused_imports)]\nuse super::{\n    BlockGeometry, ChunkedWitnessCfg, DecompositionParams, GeneratedFoldCore, GeneratedFoldScheduleEntry, GeneratedFrozenGroup, GeneratedGroup, GeneratedMatrix, GeneratedPrecommittedGroup, GeneratedRecursiveFold, GeneratedRootFold, GeneratedScheduleCatalogIdentity, GeneratedSetupPrefix, GeneratedTerminalFold, CommitmentRingDims, PlannerCostModelId, PolynomialGroupLayout, GroupCommitPhaseParams, InnerCommitMatrixParams, OuterCommitMatrixParams, CommitmentPayloadMode, RingDimensionScheduleMode, SelectionPolicyId, SelectiveL2ResponseModelId, SisL2TableDigest, SisModulusProfileId, SisSecurityPolicyId, SisTableDigest, \n};\n\n"@
}

/// The lines of a catalog module before its rows.
pub open spec fn module_head<N: SourceAnnotations>(notes: N, spec: EmitSpec) -> Seq<char> {
    "// Generated by `"@ + spec.generator_command@ + "`\n"@ + notes.banner_of(spec.source_contract)
        + imports_text() + "#[rustfmt::skip]\npub(crate) static "@ + spec.const_name@
        + ": &[GeneratedFoldScheduleEntry] = &[\n"@
}

/// A catalog module: its rows and its identity. A row that cannot be written
/// comes before an identity that does not exist.
pub open spec fn module_text<N: SourceAnnotations>(
    notes: N,
    spec: EmitSpec,
    entries: Seq<MaterializedEntry>,
    identity: Result<GeneratedScheduleCatalogIdentity, Seq<char>>,
) -> Result<Seq<char>, Seq<char>> {
    match rows_text(notes, entries) {
        Ok(rows) => match identity {
            Ok(id) => Ok(
                module_head(notes, spec) + rows + "];\n\n"@ + identity_text(id),
            ),
            Err(e) => Err(spec.module_name@ + ": catalog identity: "@ + e),
        },
        Err(e) => Err(e),
    }
}

/// An identity, or the text of why there is none.
pub open spec fn identity_view(
    identity: Result<GeneratedScheduleCatalogIdentity, String>,
) -> Result<GeneratedScheduleCatalogIdentity, Seq<char>> {
    match identity {
        Ok(id) => Ok(id),
        Err(e) => Err(e@),
    }
}

/// Whether the profiles of every row can be written.
pub open spec fn entries_printable(entries: Seq<MaterializedEntry>) -> bool {
    forall|i: int|
        0 <= i < entries.len() ==> entry_printable(
            (#[trigger] entries[i]).key,
            entries[i].schedule,
        )
}

/// Rows that fail at some schedule fail with every longer list.
proof fn lemma_rows_fail<N: SourceAnnotations>(
    notes: N,
    entries: Seq<MaterializedEntry>,
    k: int,
    e: Seq<char>,
)
    requires
        0 <= k <= entries.len(),
        rows_text(notes, entries.take(k)) == Err::<Seq<char>, Seq<char>>(e),
    ensures
        rows_text(notes, entries) == Err::<Seq<char>, Seq<char>>(e),
    decreases entries.len() - k,
{
    if k < entries.len() {
        assert(entries.take(k + 1).drop_last() =~= entries.take(k));
        lemma_rows_fail(notes, entries, k + 1, e);
    } else {
        assert(entries.take(k) =~= entries);
    }
}

/// One more row at the end of a list.
proof fn lemma_rows_step<N: SourceAnnotations>(notes: N, entries: Seq<MaterializedEntry>, k: int)
    requires
        0 <= k < entries.len(),
        rows_text(notes, entries.take(k)) is Ok,
    ensures
        rows_text(notes, entries.take(k + 1)) == match entry_text(
            notes,
            entries[k].key,
            entries[k].schedule,
            entries[k].precommitted_producers@,
        ) {
            Ok(row) => Ok::<Seq<char>, Seq<char>>(rows_text(notes, entries.take(k))->Ok_0 + row),
            Err(e) => Err(e),
        },
{
    assert(entries.take(k + 1).drop_last() =~= entries.take(k));
    assert(entries.take(k + 1).last() == entries[k]);
}

/// Writes the rows of schedules in order.
#[verifier::rlimit(60)]
fn emit_rows<N: SourceAnnotations>(materialized: &Vec<MaterializedEntry>, notes: &N) -> (r: Result<
    String,
    String,
>)
    requires
        entries_printable(materialized@),
    ensures
        match rows_text(*notes, materialized@) {
            Ok(rows) => r is Ok && (r->Ok_0)@ == rows,
            Err(e) => r is Err && (r->Err_0)@ == e,
        },
{
    let mut out = String::new();
    let mut k: usize = 0;
    while k < materialized.len()
        invariant
            k <= materialized@.len(),
            entries_printable(materialized@),
            rows_text(*notes, materialized@.take(k as int)) == Ok::<Seq<char>, Seq<char>>(out@),
        decreases materialized@.len() - k,
    {
        let entry = &materialized[k];
        proof {
            lemma_rows_step(*notes, materialized@, k as int);
        }
        let row = emit_schedule_entry(
            &mut out,
            &entry.key,
            &entry.schedule,
            &entry.precommitted_producers,
            notes,
        );
        if let Err(e) = row {
            proof {
                lemma_rows_fail(*notes, materialized@, k + 1, e@);
            }
            return Err(e);
        }
        k += 1;
    }
    proof {
        assert(materialized@.take(k as int) =~= materialized@);
    }
    Ok(out)
}

/// The module of one catalog, from its schedules and the identity that was
/// computed for its rows.
pub fn emit_family_module_from_entries<N: SourceAnnotations>(
    spec: &EmitSpec,
    materialized: &Vec<MaterializedEntry>,
    identity: Result<GeneratedScheduleCatalogIdentity, String>,
    notes: &N,
) -> (r: Result<String, String>)
    requires
        entries_printable(materialized@),
    ensures
        match module_text(*notes, *spec, materialized@, identity_view(identity)) {
            Ok(module) => r is Ok && (r->Ok_0)@ == module,
            Err(e) => r is Err && (r->Err_0)@ == e,
        },
{
    let mut out = String::from_str("// Generated by `");
    out.append(spec.generator_command.as_str());
    out.append("`\n");
    push_text(&mut out, notes.bounded_source_banner(spec.source_contract));
    out.append(
        "#[allow(unused_imports)]\nuse super::{\n    BlockGeometry, ChunkedWitnessCfg, DecompositionParams, GeneratedFoldCore, GeneratedFoldScheduleEntry, GeneratedFrozenGroup, GeneratedGroup, GeneratedMatrix, GeneratedPrecommittedGroup, GeneratedRecursiveFold, GeneratedRootFold, GeneratedScheduleCatalogIdentity, GeneratedSetupPrefix, GeneratedTerminalFold, CommitmentRingDims, PlannerCostModelId, PolynomialGroupLayout, GroupCommitPhaseParams, InnerCommitMatrixParams, OuterCommitMatrixParams, CommitmentPayloadMode, RingDimensionScheduleMode, SelectionPolicyId, SelectiveL2ResponseModelId, SisL2TableDigest, SisModulusProfileId, SisSecurityPolicyId, SisTableDigest, \n};\n\n",
    );
    out.append("#[rustfmt::skip]\npub(crate) static ");
    out.append(spec.const_name.as_str());
    out.append(": &[GeneratedFoldScheduleEntry] = &[\n");
    let rows = match emit_rows(materialized, notes) {
        Ok(rows) => rows,
        Err(e) => return Err(e),
    };
    match identity {
        Ok(id) => {
            push_text(&mut out, rows);
            out.append("];\n\n");
            push_text(&mut out, emit_identity_const(&id));
            Ok(out)
        },
        Err(e) => {
            let mut message = String::from_str(spec.module_name.as_str());
            message.append(": catalog identity: ");
            message.append(e.as_str());
            Err(message)
        },
    }
}

/// The module of one catalog, from the families that were materialized for it.
pub fn emit_family_module<N: SourceAnnotations>(
    spec: &EmitSpec,
    materialized: &Vec<Vec<MaterializedEntry>>,
    identity: Result<GeneratedScheduleCatalogIdentity, String>,
    notes: &N,
) -> (r: Result<String, String>)
    requires
        materialized@.len() > 0 ==> entries_printable(materialized@.last()@),
    ensures
        materialized@.len() == 0 ==> r is Err && (r->Err_0)@
            == "missing materialized schedule family"@,
        materialized@.len() > 0 ==> match module_text(
            *notes,
            *spec,
            materialized@.last()@,
            identity_view(identity),
        ) {
            Ok(module) => r is Ok && (r->Ok_0)@ == module,
            Err(e) => r is Err && (r->Err_0)@ == e,
        },
{
    if materialized.len() == 0 {
        return Err(error::message("missing materialized schedule family"));
    }
    emit_family_module_from_entries(spec, &materialized[materialized.len() - 1], identity, notes)
}

/// Why no row can hold an entry.
#[verifier::opaque]
pub open spec fn entry_refusal(entry: MaterializedEntry) -> Option<Seq<char>> {
    compact::refusal(entry.schedule)
}

/// Whether a row is the one that holds an entry.
#[verifier::opaque]
pub open spec fn holds_entry(row: GeneratedFoldScheduleEntry, entry: MaterializedEntry) -> bool {
    compact::row_of(row, entry.key, entry.schedule)
}

/// The row that holds an entry.
fn entry_row(entry: &MaterializedEntry) -> (r: Result<GeneratedFoldScheduleEntry, String>)
    ensures
        match r {
            Ok(row) => entry_refusal(*entry) is None && holds_entry(row, *entry),
            Err(e) => entry_refusal(*entry) == Some(e@),
        },
{
    proof {
        reveal(entry_refusal);
        reveal(holds_entry);
    }
    generated_entry(&entry.key, &entry.schedule)
}

/// The rows that a catalog's identity is computed over, or why the first
/// schedule that no row can hold has none.
pub fn family_rows(materialized: &Vec<MaterializedEntry>) -> (r: Result<
    Vec<GeneratedFoldScheduleEntry>,
    String,
>)
    ensures
        match r {
            Ok(rows) => rows@.len() == materialized@.len() && forall|i: int|
                0 <= i < rows@.len() ==> entry_refusal(#[trigger] materialized@[i]) is None
                    && holds_entry(rows@[i], materialized@[i]),
            Err(e) => exists|i: int|
                0 <= i < materialized@.len() && entry_refusal(#[trigger] materialized@[i]) == Some(
                    e@,
                ) && forall|j: int|
                    0 <= j < i ==> entry_refusal(#[trigger] materialized@[j]) is None,
        },
{
    let mut rows: Vec<GeneratedFoldScheduleEntry> = Vec::new();
    let mut k: usize = 0;
    while k < materialized.len()
        invariant
            k <= materialized@.len(),
            rows@.len() == k,
            forall|i: int|
                0 <= i < k ==> entry_refusal(#[trigger] materialized@[i]) is None && holds_entry(
                    rows@[i],
                    materialized@[i],
                ),
        decreases materialized@.len() - k,
    {
        match entry_row(&materialized[k]) {
            Ok(row) => rows.push(row),
            Err(e) => {
                assert(entry_refusal(materialized@[k as int]) == Some(e@));
                return Err(e);
            },
        }
        k += 1;
    }
    Ok(rows)
}

} // verus!
