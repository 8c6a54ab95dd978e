//! Lookup keys as text.
//!
//! A key is written out with the names of its parts: what a reader of an error
//! needs to find the key again.

use crate::error::message;
use crate::params::{
    AkitaScheduleLookupKey, BlockGeometry, CommitmentSliceCount, GadgetDigits,
    GroupCommitPhaseParams, InnerCommitMatrixParams, InnerCommitSecurityRoute, InnerRole,
    OuterCommitMatrixParams, OuterRole, PolynomialGroupLayout, SisL2TableKey, SisMatrixRole,
    SisModulusProfileId, SisSecurityPolicyId, SisTableDigest, SisTableKey,
};
use crate::text;
use crate::text::{push_decimal, push_text};
use vstd::prelude::*;
use vstd::string::*;

verus! {

/// The name of a security policy.
pub open spec fn policy_word(v: SisSecurityPolicyId) -> Seq<char> {
    match v {
        SisSecurityPolicyId::Quantum128BitADPS16 => "Quantum128BitADPS16"@,
    }
}

fn policy_name(v: SisSecurityPolicyId) -> (r: &'static str)
    ensures
        r@ == policy_word(v),
{
    match v {
        SisSecurityPolicyId::Quantum128BitADPS16 => "Quantum128BitADPS16",
    }
}

/// The name of a modulus profile.
pub open spec fn profile_word(v: SisModulusProfileId) -> Seq<char> {
    match v {
        SisModulusProfileId::Q32Offset99 => "Q32Offset99"@,
        SisModulusProfileId::Q64Offset59 => "Q64Offset59"@,
        SisModulusProfileId::Q128OffsetA7F7 => "Q128OffsetA7F7"@,
    }
}

fn profile_name(v: SisModulusProfileId) -> (r: &'static str)
    ensures
        r@ == profile_word(v),
{
    match v {
        SisModulusProfileId::Q32Offset99 => "Q32Offset99",
        SisModulusProfileId::Q64Offset59 => "Q64Offset59",
        SisModulusProfileId::Q128OffsetA7F7 => "Q128OffsetA7F7",
    }
}

/// The name of a matrix role.
pub open spec fn role_word(v: SisMatrixRole) -> Seq<char> {
    match v {
        SisMatrixRole::Inner => "Inner"@,
        SisMatrixRole::Outer => "Outer"@,
        SisMatrixRole::Open => "Open"@,
    }
}

fn role_name(v: SisMatrixRole) -> (r: &'static str)
    ensures
        r@ == role_word(v),
{
    match v {
        SisMatrixRole::Inner => "Inner",
        SisMatrixRole::Outer => "Outer",
        SisMatrixRole::Open => "Open",
    }
}

/// The name of a count of slices.
pub open spec fn slices_word(v: CommitmentSliceCount) -> Seq<char> {
    match v {
        CommitmentSliceCount::One => "One"@,
        CommitmentSliceCount::Two => "Two"@,
        CommitmentSliceCount::Four => "Four"@,
        CommitmentSliceCount::Eight => "Eight"@,
    }
}

fn slices_name(v: CommitmentSliceCount) -> (r: &'static str)
    ensures
        r@ == slices_word(v),
{
    match v {
        CommitmentSliceCount::One => "One",
        CommitmentSliceCount::Two => "Two",
        CommitmentSliceCount::Four => "Four",
        CommitmentSliceCount::Eight => "Eight",
    }
}

/// A group layout.
pub open spec fn layout_text(v: PolynomialGroupLayout) -> Seq<char> {
    "PolynomialGroupLayout { num_vars: "@
        + text::decimal(v.num_vars as nat)
        + ", num_polynomials: "@
        + text::decimal(v.num_polynomials as nat)
        + " }"@
}

fn describe_layout(v: PolynomialGroupLayout) -> (r: String)
    ensures
        r@ == layout_text(v),
{
    let mut out = message("PolynomialGroupLayout { num_vars: ");
    push_decimal(&mut out, v.num_vars as u128);
    out.append(", num_polynomials: ");
    push_decimal(&mut out, v.num_polynomials as u128);
    out.append(" }");
    out
}

/// A block geometry.
pub open spec fn blocks_text(v: BlockGeometry) -> Seq<char> {
    "BlockGeometry { live_ring_elements_per_claim: "@
        + text::decimal(v.live_ring_elements_per_claim as nat)
        + ", positions_per_block: "@
        + text::decimal(v.positions_per_block as nat)
        + ", live_blocks: "@
        + text::decimal(v.live_blocks as nat)
        + " }"@
}

fn describe_blocks(v: BlockGeometry) -> (r: String)
    ensures
        r@ == blocks_text(v),
{
    let mut out = message("BlockGeometry { live_ring_elements_per_claim: ");
    push_decimal(&mut out, v.live_ring_elements_per_claim as u128);
    out.append(", positions_per_block: ");
    push_decimal(&mut out, v.positions_per_block as u128);
    out.append(", live_blocks: ");
    push_decimal(&mut out, v.live_blocks as u128);
    out.append(" }");
    out
}

/// Gadget digits.
pub open spec fn digits_text(v: GadgetDigits) -> Seq<char> {
    "GadgetDigits { log_basis: "@
        + text::decimal(v.log_basis as nat)
        + ", num_digits: "@
        + text::decimal(v.num_digits as nat)
        + " }"@
}

fn describe_digits(v: GadgetDigits) -> (r: String)
    ensures
        r@ == digits_text(v),
{
    let mut out = message("GadgetDigits { log_basis: ");
    push_decimal(&mut out, v.log_basis as u128);
    out.append(", num_digits: ");
    push_decimal(&mut out, v.num_digits as u128);
    out.append(" }");
    out
}

/// A digest.
pub open spec fn digest_text(v: SisTableDigest) -> Seq<char> {
    "SisTableDigest { high: "@
        + text::decimal(v.high as nat)
        + ", low: "@
        + text::decimal(v.low as nat)
        + " }"@
}

fn describe_digest(v: SisTableDigest) -> (r: String)
    ensures
        r@ == digest_text(v),
{
    let mut out = message("SisTableDigest { high: ");
    push_decimal(&mut out, v.high);
    out.append(", low: ");
    push_decimal(&mut out, v.low);
    out.append(" }");
    out
}

/// A key of the rank table.
pub open spec fn table_key_text(v: SisTableKey) -> Seq<char> {
    "SisTableKey { policy: "@
        + policy_word(v.policy)
        + ", table_digest: "@
        + digest_text(v.table_digest)
        + ", modulus_profile: "@
        + profile_word(v.modulus_profile)
        + ", role: "@
        + role_word(v.role)
        + ", ring_dimension: "@
        + text::decimal(v.ring_dimension as nat)
        + ", coeff_linf_bound: "@
        + text::decimal(v.coeff_linf_bound as nat)
        + " }"@
}

fn describe_table_key(v: SisTableKey) -> (r: String)
    ensures
        r@ == table_key_text(v),
{
    let mut out = message("SisTableKey { policy: ");
    out.append(policy_name(v.policy));
    out.append(", table_digest: ");
    push_text(&mut out, describe_digest(v.table_digest));
    out.append(", modulus_profile: ");
    out.append(profile_name(v.modulus_profile));
    out.append(", role: ");
    out.append(role_name(v.role));
    out.append(", ring_dimension: ");
    push_decimal(&mut out, v.ring_dimension as u128);
    out.append(", coeff_linf_bound: ");
    push_decimal(&mut out, v.coeff_linf_bound);
    out.append(" }");
    out
}

/// A key of the table for Euclidean bounds.
pub open spec fn l2_key_text(v: SisL2TableKey) -> Seq<char> {
    "SisL2TableKey { ring_dimension: "@
        + text::decimal(v.ring_dimension as nat)
        + ", collision_l2_sq: "@
        + text::decimal(v.collision_l2_sq as nat)
        + " }"@
}

fn describe_l2_key(v: SisL2TableKey) -> (r: String)
    ensures
        r@ == l2_key_text(v),
{
    let mut out = message("SisL2TableKey { ring_dimension: ");
    push_decimal(&mut out, v.ring_dimension as u128);
    out.append(", collision_l2_sq: ");
    push_decimal(&mut out, v.collision_l2_sq);
    out.append(" }");
    out
}

/// The bound that an inner matrix answers to.
pub open spec fn route_text(v: InnerCommitSecurityRoute) -> Seq<char> {
    match v {
        InnerCommitSecurityRoute::Linf(key) => "Linf("@ + table_key_text(key) + ")"@,
        InnerCommitSecurityRoute::L2 { table_key, response_l2_sq_cap } => "L2 { table_key: "@
            + l2_key_text(table_key) + ", response_l2_sq_cap: "@ + text::decimal(
            response_l2_sq_cap as nat,
        ) + " }"@,
    }
}

fn describe_route(v: InnerCommitSecurityRoute) -> (r: String)
    ensures
        r@ == route_text(v),
{
    match v {
        InnerCommitSecurityRoute::Linf(key) => {
            let mut out = message("Linf(");
            push_text(&mut out, describe_table_key(key));
            out.append(")");
            out
        },
        InnerCommitSecurityRoute::L2 { table_key, response_l2_sq_cap } => {
            let mut out = message("L2 { table_key: ");
            push_text(&mut out, describe_l2_key(table_key));
            out.append(", response_l2_sq_cap: ");
            push_decimal(&mut out, response_l2_sq_cap);
            out.append(" }");
            out
        },
    }
}

/// An inner matrix.
pub open spec fn inner_matrix_text(v: InnerCommitMatrixParams) -> Seq<char> {
    "InnerCommitMatrixParams { output_rank: "@
        + text::decimal(v.output_rank as nat)
        + ", input_width: "@
        + text::decimal(v.input_width as nat)
        + ", ring_dimension: "@
        + text::decimal(v.ring_dimension as nat)
        + ", route: "@
        + route_text(v.route)
        + " }"@
}

fn describe_inner_matrix(v: InnerCommitMatrixParams) -> (r: String)
    ensures
        r@ == inner_matrix_text(v),
{
    let mut out = message("InnerCommitMatrixParams { output_rank: ");
    push_decimal(&mut out, v.output_rank as u128);
    out.append(", input_width: ");
    push_decimal(&mut out, v.input_width as u128);
    out.append(", ring_dimension: ");
    push_decimal(&mut out, v.ring_dimension as u128);
    out.append(", route: ");
    push_text(&mut out, describe_route(v.route));
    out.append(" }");
    out
}

/// An outer matrix.
pub open spec fn outer_matrix_text(v: OuterCommitMatrixParams) -> Seq<char> {
    "OuterCommitMatrixParams { output_rank: "@
        + text::decimal(v.output_rank as nat)
        + ", input_width: "@
        + text::decimal(v.input_width as nat)
        + ", key: "@
        + table_key_text(v.key)
        + " }"@
}

fn describe_outer_matrix(v: OuterCommitMatrixParams) -> (r: String)
    ensures
        r@ == outer_matrix_text(v),
{
    let mut out = message("OuterCommitMatrixParams { output_rank: ");
    push_decimal(&mut out, v.output_rank as u128);
    out.append(", input_width: ");
    push_decimal(&mut out, v.input_width as u128);
    out.append(", key: ");
    push_text(&mut out, describe_table_key(v.key));
    out.append(" }");
    out
}

/// The inner role of a group.
pub open spec fn inner_text(v: InnerRole) -> Seq<char> {
    "InnerRole { digits: "@
        + digits_text(v.digits)
        + ", matrix: "@
        + inner_matrix_text(v.matrix)
        + " }"@
}

fn describe_inner(v: InnerRole) -> (r: String)
    ensures
        r@ == inner_text(v),
{
    let mut out = message("InnerRole { digits: ");
    push_text(&mut out, describe_digits(v.digits));
    out.append(", matrix: ");
    push_text(&mut out, describe_inner_matrix(v.matrix));
    out.append(" }");
    out
}

/// The outer role of a group.
pub open spec fn outer_text(v: OuterRole) -> Seq<char> {
    "OuterRole { digits: "@
        + digits_text(v.digits)
        + ", matrix: "@
        + outer_matrix_text(v.matrix)
        + " }"@
}

fn describe_outer(v: OuterRole) -> (r: String)
    ensures
        r@ == outer_text(v),
{
    let mut out = message("OuterRole { digits: ");
    push_text(&mut out, describe_digits(v.digits));
    out.append(", matrix: ");
    push_text(&mut out, describe_outer_matrix(v.matrix));
    out.append(" }");
    out
}

/// A precommitted group.
pub open spec fn group_text(v: GroupCommitPhaseParams) -> Seq<char> {
    "GroupCommitPhaseParams { version: "@
        + text::decimal(v.version as nat)
        + ", group: "@
        + layout_text(v.group)
        + ", blocks: "@
        + blocks_text(v.blocks)
        + ", outer_slice_count: "@
        + slices_word(v.outer_slice_count)
        + ", inner: "@
        + inner_text(v.inner)
        + ", outer: "@
        + outer_text(v.outer)
        + " }"@
}

fn describe_group(v: GroupCommitPhaseParams) -> (r: String)
    ensures
        r@ == group_text(v),
{
    let mut out = message("GroupCommitPhaseParams { version: ");
    push_decimal(&mut out, v.version as u128);
    out.append(", group: ");
    push_text(&mut out, describe_layout(v.group));
    out.append(", blocks: ");
    push_text(&mut out, describe_blocks(v.blocks));
    out.append(", outer_slice_count: ");
    out.append(slices_name(v.outer_slice_count));
    out.append(", inner: ");
    push_text(&mut out, describe_inner(v.inner));
    out.append(", outer: ");
    push_text(&mut out, describe_outer(v.outer));
    out.append(" }");
    out
}

/// The first `n` precommitted groups of a key.
pub open spec fn groups_text(groups: Seq<GroupCommitPhaseParams>, n: nat) -> Seq<char>
    decreases n,
{
    if n == 0 {
        Seq::empty()
    } else if n == 1 {
        group_text(groups[0])
    } else {
        groups_text(groups, (n - 1) as nat) + ", "@ + group_text(groups[n - 1])
    }
}

/// A lookup key.
pub open spec fn key_text(
    final_group: PolynomialGroupLayout,
    precommitteds: Seq<GroupCommitPhaseParams>,
) -> Seq<char> {
    "AkitaScheduleLookupKey { final_group: "@ + layout_text(final_group) + ", precommitteds: ["@
        + groups_text(precommitteds, precommitteds.len()) + "] }"@
}

/// A lookup key, written out.
pub fn describe_key(key: &AkitaScheduleLookupKey) -> (r: String)
    ensures
        r@ == key_text(key.final_group, key.precommitteds@),
{
    let mut groups = String::new();
    let mut k: usize = 0;
    while k < key.precommitteds.len()
        invariant
            k <= key.precommitteds@.len(),
            groups@ == groups_text(key.precommitteds@, k as nat),
        decreases key.precommitteds@.len() - k,
    {
        if k > 0 {
            groups.append(", ");
        }
        push_text(&mut groups, describe_group(key.precommitteds[k]));
        proof {
            if k == 0 {
                assert(groups@ =~= group_text(key.precommitteds@[0]));
            }
        }
        k += 1;
    }
    let mut out = message("AkitaScheduleLookupKey { final_group: ");
    push_text(&mut out, describe_layout(key.final_group));
    out.append(", precommitteds: [");
    push_text(&mut out, groups);
    out.append("] }");
    out
}

} // verus!
