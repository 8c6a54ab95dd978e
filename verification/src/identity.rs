//! What a catalog was generated under, and whether it still holds.

use crate::assignments::copy_list;
use crate::error::AkitaError;
use crate::generated::{
    GeneratedFoldScheduleEntry, GeneratedScheduleCatalogIdentity, GeneratedScheduleTable,
};
use crate::params::{PlannerPolicy, RingDimensionScheduleMode};
use vstd::prelude::*;
use vstd::string::*;

verus! {

/// What a catalog's identity holds beyond its policy: the protocol's epoch, the
/// dimensions that its rows use, and digests of their challenges and keys.
#[derive(Clone, Debug, PartialEq, Eq)]
pub struct CatalogFingerprint {
    pub protocol_epoch: u32,
    pub ring_dimensions: Vec<usize>,
    pub ring_challenge_config_digest: u64,
    pub key_digest: u64,
}

/// Whether two dimension modes are the same.
pub open spec fn same_mode(a: RingDimensionScheduleMode, b: RingDimensionScheduleMode) -> bool {
    match (a, b) {
        (
            RingDimensionScheduleMode::UniformDimension { ring_dimension: x },
            RingDimensionScheduleMode::UniformDimension { ring_dimension: y },
        ) => x == y,
        (
            RingDimensionScheduleMode::AdaptiveDimension {
                num_search_levels: n,
                suffix_dimensions: s,
                potential_a_dimensions: pa,
                potential_b_dimensions: pb,
                potential_d_dimensions: pd,
            },
            RingDimensionScheduleMode::AdaptiveDimension {
                num_search_levels: m,
                suffix_dimensions: t,
                potential_a_dimensions: qa,
                potential_b_dimensions: qb,
                potential_d_dimensions: qd,
            },
        ) => n == m && s@ == t@ && pa@ == qa@ && pb@ == qb@ && pd@ == qd@,
        _ => false,
    }
}

/// Whether an identity is the one of a family, a policy, a number of rows and a
/// fingerprint.
pub open spec fn identity_is(
    id: GeneratedScheduleCatalogIdentity,
    family_name: Seq<char>,
    policy: PlannerPolicy,
    rows: nat,
    fingerprint: CatalogFingerprint,
) -> bool {
    &&& id.family_name@ == family_name
    &&& id.protocol_epoch == fingerprint.protocol_epoch
    &&& id.cost_model == policy.cost_model
    &&& id.selective_l2_response_model == policy.selective_l2_response_model
    &&& id.selection_policy == policy.selection_policy
    &&& id.recursive_split_search_policy == policy.recursive_split_search_policy
    &&& id.recursive_setup_search_policy == policy.recursive_setup_search_policy
    &&& id.setup_field_budget == policy.setup_field_budget
    &&& id.min_offloaded_witness_contraction == policy.min_offloaded_witness_contraction
    &&& id.sis_modulus_profile == policy.sis_modulus_profile
    &&& id.sis_security_policy == policy.sis_security_policy
    &&& id.sis_table_digest == policy.sis_table_digest
    &&& id.sis_l2_table_digest == policy.sis_l2_table_digest
    &&& id.decomposition == policy.decomposition
    &&& id.claim_ext_degree == policy.claim_ext_degree
    &&& id.chal_ext_degree == policy.chal_ext_degree
    &&& id.inner_basis_range == policy.inner_basis_range
    &&& id.opening_basis_range == policy.opening_basis_range
    &&& id.witness_chunk == policy.witness_chunk
    &&& id.recursive_setup_planning == policy.recursive_setup_planning
    &&& same_mode(id.ring_dimension_schedule_mode, policy.ring_dimension_schedule_mode)
    &&& id.ring_dimensions@ == fingerprint.ring_dimensions@
    &&& id.ring_challenge_config_digest == fingerprint.ring_challenge_config_digest
    &&& id.key_count == rows
    &&& id.key_digest == fingerprint.key_digest
}

/// The inner dimension of the fold before the terminal one.
pub open spec fn predecessor_dimension(row: GeneratedFoldScheduleEntry) -> u32 {
    if row.recursive_folds@.len() == 0 {
        row.root.core.group.inner_commit_matrix.ring_dimension
    } else {
        row.recursive_folds@.last().core.group.inner_commit_matrix.ring_dimension
    }
}

/// Whether a row's terminal dimension does not grow.
pub open spec fn terminal_shrinks(row: GeneratedFoldScheduleEntry) -> bool {
    row.terminal.inner_commit_matrix.ring_dimension <= predecessor_dimension(row)
}

fn copy_mode(mode: &RingDimensionScheduleMode) -> (r: RingDimensionScheduleMode)
    ensures
        same_mode(r, *mode),
{
    match mode {
        RingDimensionScheduleMode::UniformDimension { ring_dimension } =>
            RingDimensionScheduleMode::UniformDimension { ring_dimension: *ring_dimension },
        RingDimensionScheduleMode::AdaptiveDimension {
            num_search_levels,
            suffix_dimensions,
            potential_a_dimensions,
            potential_b_dimensions,
            potential_d_dimensions,
        } => RingDimensionScheduleMode::AdaptiveDimension {
            num_search_levels: *num_search_levels,
            suffix_dimensions: copy_list(suffix_dimensions),
            potential_a_dimensions: copy_list(potential_a_dimensions),
            potential_b_dimensions: copy_list(potential_b_dimensions),
            potential_d_dimensions: copy_list(potential_d_dimensions),
        },
    }
}

fn lists_equal(a: &Vec<usize>, b: &Vec<usize>) -> (r: bool)
    ensures
        r == (a@ == b@),
{
    if a.len() != b.len() {
        return false;
    }
    let mut k: usize = 0;
    while k < a.len()
        invariant
            k <= a@.len(),
            a@.len() == b@.len(),
            forall|i: int| 0 <= i < k ==> a@[i] == b@[i],
        decreases a@.len() - k,
    {
        if a[k] != b[k] {
            return false;
        }
        k += 1;
    }
    proof {
        assert(a@ =~= b@);
    }
    true
}

fn modes_equal(a: &RingDimensionScheduleMode, b: &RingDimensionScheduleMode) -> (r: bool)
    ensures
        r == same_mode(*a, *b),
{
    match (a, b) {
        (
            RingDimensionScheduleMode::UniformDimension { ring_dimension: x },
            RingDimensionScheduleMode::UniformDimension { ring_dimension: y },
        ) => *x == *y,
        (
            RingDimensionScheduleMode::AdaptiveDimension {
                num_search_levels: n,
                suffix_dimensions: s,
                potential_a_dimensions: pa,
                potential_b_dimensions: pb,
                potential_d_dimensions: pd,
            },
            RingDimensionScheduleMode::AdaptiveDimension {
                num_search_levels: m,
                suffix_dimensions: t,
                potential_a_dimensions: qa,
                potential_b_dimensions: qb,
                potential_d_dimensions: qd,
            },
        ) => *n == *m && lists_equal(s, t) && lists_equal(pa, qa) && lists_equal(pb, qb)
            && lists_equal(pd, qd),
        _ => false,
    }
}

/// The identity of a catalog of rows.
pub fn expected_catalog_identity(
    family_name: &str,
    policy: &PlannerPolicy,
    entries: &Vec<GeneratedFoldScheduleEntry>,
    fingerprint: &CatalogFingerprint,
) -> (r: GeneratedScheduleCatalogIdentity)
    ensures
        identity_is(r, family_name@, *policy, entries@.len(), *fingerprint),
{
    GeneratedScheduleCatalogIdentity {
        family_name: String::from_str(family_name),
        protocol_epoch: fingerprint.protocol_epoch,
        cost_model: policy.cost_model,
        selective_l2_response_model: policy.selective_l2_response_model,
        selection_policy: policy.selection_policy,
        recursive_split_search_policy: policy.recursive_split_search_policy,
        recursive_setup_search_policy: policy.recursive_setup_search_policy,
        setup_field_budget: policy.setup_field_budget,
        min_offloaded_witness_contraction: policy.min_offloaded_witness_contraction,
        sis_modulus_profile: policy.sis_modulus_profile,
        sis_security_policy: policy.sis_security_policy,
        sis_table_digest: policy.sis_table_digest,
        sis_l2_table_digest: policy.sis_l2_table_digest,
        decomposition: policy.decomposition,
        claim_ext_degree: policy.claim_ext_degree,
        chal_ext_degree: policy.chal_ext_degree,
        inner_basis_range: policy.inner_basis_range,
        opening_basis_range: policy.opening_basis_range,
        witness_chunk: policy.witness_chunk,
        recursive_setup_planning: policy.recursive_setup_planning,
        ring_dimension_schedule_mode: copy_mode(&policy.ring_dimension_schedule_mode),
        ring_dimensions: copy_list(&fingerprint.ring_dimensions),
        ring_challenge_config_digest: fingerprint.ring_challenge_config_digest,
        key_count: entries.len(),
        key_digest: fingerprint.key_digest,
    }
}

fn identity_matches(
    id: &GeneratedScheduleCatalogIdentity,
    policy: &PlannerPolicy,
    rows: usize,
    fingerprint: &CatalogFingerprint,
) -> (b: bool)
    ensures
        b == identity_is(*id, id.family_name@, *policy, rows as nat, *fingerprint),
{
    id.protocol_epoch == fingerprint.protocol_epoch && id.cost_model == policy.cost_model
        && id.selective_l2_response_model == policy.selective_l2_response_model
        && id.selection_policy == policy.selection_policy && id.recursive_split_search_policy
        == policy.recursive_split_search_policy && id.recursive_setup_search_policy
        == policy.recursive_setup_search_policy && id.setup_field_budget
        == policy.setup_field_budget && id.min_offloaded_witness_contraction
        == policy.min_offloaded_witness_contraction && id.sis_modulus_profile
        == policy.sis_modulus_profile && id.sis_security_policy == policy.sis_security_policy
        && id.sis_table_digest == policy.sis_table_digest && id.sis_l2_table_digest
        == policy.sis_l2_table_digest && id.decomposition == policy.decomposition
        && id.claim_ext_degree == policy.claim_ext_degree && id.chal_ext_degree
        == policy.chal_ext_degree && id.inner_basis_range == policy.inner_basis_range
        && id.opening_basis_range == policy.opening_basis_range && id.witness_chunk
        == policy.witness_chunk && id.recursive_setup_planning == policy.recursive_setup_planning
        && modes_equal(&id.ring_dimension_schedule_mode, &policy.ring_dimension_schedule_mode)
        && lists_equal(&id.ring_dimensions, &fingerprint.ring_dimensions)
        && id.ring_challenge_config_digest == fingerprint.ring_challenge_config_digest
        && id.key_count == rows && id.key_digest == fingerprint.key_digest
}

/// Whether some row of an adaptive catalog has a terminal dimension that grows.
pub open spec fn terminal_grows(table: GeneratedScheduleTable) -> bool {
    &&& table.identity.ring_dimension_schedule_mode is AdaptiveDimension
    &&& exists|i: int|
        0 <= i < table.entries@.len() && !terminal_shrinks(#[trigger] table.entries@[i])
}

/// Accepts a catalog whose identity is the one of the policy and of its rows.
/// In an adaptive catalog, no terminal dimension may grow above that of the fold
/// before it; this is looked at first.
pub fn validate_catalog_identity(
    table: &GeneratedScheduleTable,
    policy: &PlannerPolicy,
    fingerprint: &CatalogFingerprint,
) -> (r: Result<(), AkitaError>)
    ensures
        ({
            let current = identity_is(
                table.identity,
                table.identity.family_name@,
                *policy,
                table.entries@.len(),
                *fingerprint,
            );
            match r {
                Ok(()) => !terminal_grows(*table) && current,
                Err(e) => if terminal_grows(*table) {
                    e.is_setup("terminal ring dimension exceeds predecessor A dimension"@)
                } else {
                    !current && e.is_setup("generated schedule catalog identity mismatch"@)
                },
            }
        }),
{
    let adaptive: bool = match table.identity.ring_dimension_schedule_mode {
        RingDimensionScheduleMode::AdaptiveDimension { .. } => true,
        _ => false,
    };
    if adaptive {
        let mut k: usize = 0;
        while k < table.entries.len()
            invariant
                k <= table.entries@.len(),
                adaptive == (table.identity.ring_dimension_schedule_mode is AdaptiveDimension),
                adaptive,
                forall|i: int| 0 <= i < k ==> terminal_shrinks(#[trigger] table.entries@[i]),
            decreases table.entries@.len() - k,
        {
            let row = &table.entries[k];
            let before: u32 = if row.recursive_folds.len() == 0 {
                row.root.core.group.inner_commit_matrix.ring_dimension
            } else {
                row.recursive_folds[row.recursive_folds.len()
                    - 1].core.group.inner_commit_matrix.ring_dimension
            };
            if row.terminal.inner_commit_matrix.ring_dimension > before {
                proof {
                    assert(!terminal_shrinks(table.entries@[k as int]));
                }
                return Err(
                    AkitaError::setup("terminal ring dimension exceeds predecessor A dimension"),
                );
            }
            k += 1;
        }
    }
    if !identity_matches(&table.identity, policy, table.entries.len(), fingerprint) {
        return Err(AkitaError::setup("generated schedule catalog identity mismatch"));
    }
    Ok(())
}

/// Identities of one family that are accepted under the same policy, rows and
/// fingerprint agree: a catalog that differs in what it was generated under is
/// never accepted in place of the other.
pub proof fn law_accepted_identities_agree(
    a: GeneratedScheduleCatalogIdentity,
    b: GeneratedScheduleCatalogIdentity,
    policy: PlannerPolicy,
    rows: nat,
    fingerprint: CatalogFingerprint,
)
    requires
        identity_is(a, a.family_name@, policy, rows, fingerprint),
        identity_is(b, b.family_name@, policy, rows, fingerprint),
        a.family_name@ == b.family_name@,
    ensures
        a.protocol_epoch == b.protocol_epoch,
        a.selection_policy == b.selection_policy,
        a.setup_field_budget == b.setup_field_budget,
        a.min_offloaded_witness_contraction == b.min_offloaded_witness_contraction,
        a.selective_l2_response_model == b.selective_l2_response_model,
        a.decomposition == b.decomposition,
        a.witness_chunk == b.witness_chunk,
        same_mode(a.ring_dimension_schedule_mode, b.ring_dimension_schedule_mode),
        a.ring_dimensions@ == b.ring_dimensions@,
        a.key_count == b.key_count,
        a.key_digest == b.key_digest,
{
}

/// In an adaptive catalog without a terminal that grows, every terminal ring is at
/// most as large as the inner ring of the fold before it: of the last recursive
/// fold, or of the root where there is none. In a uniform catalog none grows.
pub proof fn law_terminals_stay_within_their_predecessors(table: GeneratedScheduleTable, i: int)
    requires
        0 <= i < table.entries@.len(),
    ensures
        table.identity.ring_dimension_schedule_mode is UniformDimension ==> !terminal_grows(table),
        table.identity.ring_dimension_schedule_mode is AdaptiveDimension && !terminal_grows(table)
            ==> {
            let row = table.entries@[i];
            let folds = row.recursive_folds@;
            let terminal = row.terminal.inner_commit_matrix.ring_dimension;
            if folds.len() > 0 {
                terminal <= folds[folds.len() - 1].core.group.inner_commit_matrix.ring_dimension
            } else {
                terminal <= row.root.core.group.inner_commit_matrix.ring_dimension
            }
        },
        table.identity.ring_dimension_schedule_mode is AdaptiveDimension && (
        table.entries@[i].recursive_folds@.len() == 0
            && table.entries@[i].terminal.inner_commit_matrix.ring_dimension
            > table.entries@[i].root.core.group.inner_commit_matrix.ring_dimension)
            ==> terminal_grows(table),
{
    assert(terminal_grows(table) || terminal_shrinks(table.entries@[i])
        || table.identity.ring_dimension_schedule_mode is UniformDimension);
}

/// A catalog is accepted under one policy and one fingerprint only: two that
/// accept it agree in everything that a catalog is generated under.
pub proof fn law_catalogs_have_one_policy(
    id: GeneratedScheduleCatalogIdentity,
    a: PlannerPolicy,
    b: PlannerPolicy,
    rows_a: nat,
    rows_b: nat,
    mark_a: CatalogFingerprint,
    mark_b: CatalogFingerprint,
)
    requires
        identity_is(id, id.family_name@, a, rows_a, mark_a),
        identity_is(id, id.family_name@, b, rows_b, mark_b),
    ensures
        rows_a == rows_b,
        mark_a.protocol_epoch == mark_b.protocol_epoch,
        mark_a.ring_dimensions@ == mark_b.ring_dimensions@,
        mark_a.ring_challenge_config_digest == mark_b.ring_challenge_config_digest,
        mark_a.key_digest == mark_b.key_digest,
        a.cost_model == b.cost_model,
        a.selective_l2_response_model == b.selective_l2_response_model,
        a.selection_policy == b.selection_policy,
        a.recursive_split_search_policy == b.recursive_split_search_policy,
        a.recursive_setup_search_policy == b.recursive_setup_search_policy,
        a.setup_field_budget == b.setup_field_budget,
        a.min_offloaded_witness_contraction == b.min_offloaded_witness_contraction,
        a.sis_modulus_profile == b.sis_modulus_profile,
        a.sis_security_policy == b.sis_security_policy,
        a.sis_table_digest == b.sis_table_digest,
        a.sis_l2_table_digest == b.sis_l2_table_digest,
        a.decomposition == b.decomposition,
        a.claim_ext_degree == b.claim_ext_degree,
        a.chal_ext_degree == b.chal_ext_degree,
        a.inner_basis_range == b.inner_basis_range,
        a.opening_basis_range == b.opening_basis_range,
        a.witness_chunk == b.witness_chunk,
        a.recursive_setup_planning == b.recursive_setup_planning,
        match (a.ring_dimension_schedule_mode, b.ring_dimension_schedule_mode) {
            (
                RingDimensionScheduleMode::UniformDimension { ring_dimension: x },
                RingDimensionScheduleMode::UniformDimension { ring_dimension: y },
            ) => x == y,
            (
                RingDimensionScheduleMode::AdaptiveDimension {
                    num_search_levels: n,
                    suffix_dimensions: s,
                    potential_a_dimensions: pa,
                    potential_b_dimensions: pb,
                    potential_d_dimensions: pd,
                },
                RingDimensionScheduleMode::AdaptiveDimension {
                    num_search_levels: m,
                    suffix_dimensions: t,
                    potential_a_dimensions: qa,
                    potential_b_dimensions: qb,
                    potential_d_dimensions: qd,
                },
            ) => n == m && s@ == t@ && pa@ == qa@ && pb@ == qb@ && pd@ == qd@,
            _ => false,
        },
{
}

} // verus!
