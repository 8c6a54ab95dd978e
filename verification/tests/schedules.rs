//! Rows, keys, catalogs and their expansion.

use akita::candidates::{
    BatchCollector, CandidateDomain, FoldCandidatePolicy, SuffixCtx, SuffixState, SuffixTopology,
};
use akita::compact::generated_entry;
use akita::error::AkitaError;
use akita::expand::{GeneratedFoldExpansionRole, GeneratedGroupExpansion, GroupLengthSource};
use akita::family::UniformFamily;
use akita::generated::{
    catalog_entries_sorted_for_lookup, generated_schedule_key_cmp,
    generated_schedule_key_cmp_runtime, precommitted_group_key_eq, precommitted_group_sort_key,
    runtime_schedule_key_cmp, schedule_key_eq, table_entry, table_entry_range, validate_entry_key,
    GeneratedFoldCore, GeneratedFoldScheduleEntry, GeneratedFrozenGroup, GeneratedGroup,
    GeneratedMatrix, GeneratedPrecommittedGroup, GeneratedRecursiveFold, GeneratedRootFold,
    GeneratedScheduleTable, GeneratedSetupPrefix, GeneratedTerminalFold,
};
use akita::identity::{expected_catalog_identity, validate_catalog_identity, CatalogFingerprint};
use akita::opening_domain::{
    opening_work_domain, packing_precommit_opening_products, state_allows_terminal_seed,
    trace_opening_purpose, OpeningPurpose,
};
use akita::params::{
    AkitaScheduleLookupKey, BasisRange, BlockGeometry, ChunkedWitnessCfg, CommitmentPayloadMode,
    CommitmentRingDims, CommitmentSliceCount, DecompositionParams, GadgetDigits,
    GroupCommitPhaseParams, GroupOpenPhaseParams, GroupOpeningPlan, HonestFoldPolicySpec,
    InnerCommitMatrixParams, InnerRole, OpenCommitMatrixParams, OpeningMethod,
    OuterCommitMatrixParams, OuterRole, PlannerCostModelId, PlannerPolicy, PolynomialGroupLayout,
    RecursiveSetupSearchPolicy, RecursiveSplitSearchPolicy, RingDimensionScheduleMode,
    RingRelationMode, SelectionPolicyId, SelectiveL2ResponseModelId, SisL2TableDigest,
    SisMatrixRole, SisModulusProfileId, SisSecurityPolicyId, SisTableDigest, SisTableKey,
    SparseChallengeConfig, GROUP_COMMIT_PHASE_VERSION,
};
use akita::rules::{GrindingCost, LevelPayload};
use akita::walk::{
    distributed_activation_depth, partition_to_chunk, schedule_from_entry,
    validate_expanded_precommitted_groups, walk_generated_schedule_entry,
};
use std::cmp::Ordering;

const POLICY: SisSecurityPolicyId = SisSecurityPolicyId::Quantum128BitADPS16;
const PROFILE: SisModulusProfileId = SisModulusProfileId::Q128OffsetA7F7;
const DIGEST: SisTableDigest = SisTableDigest { high: 0x0102, low: 0xff };

fn descriptor() -> GroupCommitPhaseParams {
    GroupCommitPhaseParams {
        version: GROUP_COMMIT_PHASE_VERSION,
        group: PolynomialGroupLayout::new(12, 1),
        blocks: BlockGeometry::new(32, 8, 4),
        outer_slice_count: CommitmentSliceCount::One,
        inner: InnerRole {
            digits: GadgetDigits::new(4, 2),
            matrix: InnerCommitMatrixParams::new_unchecked(POLICY, DIGEST, PROFILE, 3, 16, 7, 128),
        },
        outer: OuterRole {
            digits: GadgetDigits::new(5, 2),
            matrix: OuterCommitMatrixParams::new_unchecked(POLICY, DIGEST, PROFILE, 2, 48, 11, 64),
        },
    }
}

fn open_matrix() -> OpenCommitMatrixParams {
    OpenCommitMatrixParams {
        output_rank: 1,
        input_width: 2,
        key: SisTableKey {
            policy: POLICY,
            table_digest: DIGEST,
            modulus_profile: PROFILE,
            role: SisMatrixRole::Open,
            ring_dimension: 64,
            coeff_linf_bound: 5,
        },
    }
}

fn family() -> UniformFamily {
    let challenge = SparseChallengeConfig { count_pm1: 3, count_pm2: 0 };
    UniformFamily {
        dims: CommitmentRingDims::uniform(64),
        challenge,
        num_digits: 3,
        norm: 5,
        rank: 1,
        next_witness_len: 256,
        payload: LevelPayload { direct: 10, stage3: 1, rounds: 4 },
        terminal_bytes: 20,
        grinding: GrindingCost { total_nonce_bits: 13, expanded_query_count: 2 },
        own: GroupOpenPhaseParams {
            profile: descriptor(),
            opening: GroupOpeningPlan {
                opening_method: OpeningMethod::EvaluationTrace,
                fold_challenge_config: challenge,
                log_basis_open: 3,
                num_digits_open: 3,
                num_digits_fold: 2,
            },
            setup_natural_len: None,
        },
        open_matrix: open_matrix(),
    }
}

fn policy() -> PlannerPolicy {
    PlannerPolicy {
        cost_model: PlannerCostModelId::ExactPayloadAndSetupEnvelope,
        selective_l2_response_model: SelectiveL2ResponseModelId::TypedProtocolMomentsV1,
        selection_policy: SelectionPolicyId::MinFirstDirectSetupThenPayloadV2,
        recursive_split_search_policy: RecursiveSplitSearchPolicy::Exhaustive,
        recursive_setup_search_policy: RecursiveSetupSearchPolicy::Exhaustive,
        setup_field_budget: None,
        min_offloaded_witness_contraction: 3,
        ring_dimension_schedule_mode: RingDimensionScheduleMode::UniformDimension {
            ring_dimension: 64,
        },
        decomposition: DecompositionParams {
            log_basis: 3,
            log_commit_bound: 1,
            log_open_bound: Some(128),
        },
        sis_modulus_profile: PROFILE,
        sis_security_policy: POLICY,
        sis_table_digest: DIGEST,
        sis_l2_table_digest: SisL2TableDigest { high: 1, low: 2 },
        claim_ext_degree: 1,
        chal_ext_degree: 1,
        inner_basis_range: BasisRange { min: 3, max: 4 },
        opening_basis_range: BasisRange { min: 3, max: 6 },
        witness_chunk: ChunkedWitnessCfg::default_non_chunked(),
        recursive_setup_planning: true,
    }
}

fn matrix(ring_dimension: u32) -> GeneratedMatrix {
    GeneratedMatrix { ring_dimension, log_basis: 3 }
}

fn fold_core(opening_method: OpeningMethod) -> GeneratedFoldCore {
    GeneratedFoldCore {
        group: GeneratedGroup {
            geometry: BlockGeometry::new(4, 2, 2),
            inner_commit_matrix: matrix(64),
            outer_commit_matrix: matrix(32),
            outer_slice_count: 2,
            num_digits_fold: 2,
            opening_method,
        },
        open_commit_matrix: matrix(64),
        witness_chunks: 1,
        ring_relation_mode: RingRelationMode::QuotientLift,
    }
}

fn row() -> GeneratedFoldScheduleEntry {
    GeneratedFoldScheduleEntry {
        final_group: PolynomialGroupLayout::new(8, 1),
        root: GeneratedRootFold {
            core: fold_core(OpeningMethod::SubringCoefficientPacking {
                challenge_subring_dimension: 16,
            }),
            num_digits_inner: 2,
            precommitted_groups: vec![],
        },
        recursive_folds: vec![
            GeneratedRecursiveFold {
                core: fold_core(OpeningMethod::EvaluationTrace),
                setup_prefix: None,
                payload_mode: CommitmentPayloadMode::Raw,
                response_l2_sq_cap: Some(99),
            },
            GeneratedRecursiveFold {
                core: fold_core(OpeningMethod::EvaluationTrace),
                setup_prefix: Some(prefix()),
                payload_mode: CommitmentPayloadMode::Compressed,
                response_l2_sq_cap: None,
            },
        ],
        terminal: GeneratedTerminalFold {
            geometry: BlockGeometry::new(4, 2, 2),
            inner_commit_matrix: matrix(64),
            num_digits_inner: 3,
            fold_log_basis: 3,
            fold_digit_count: 2,
            inner_output_rank: 1,
            inner_coeff_linf_bound: 7,
            response_l2_sq_cap: None,
            z_linf_cap: Some(6),
            z_rice_low_bits: 2,
            z_payload_bytes: 30,
        },
    }
}

fn prefix() -> GeneratedSetupPrefix {
    GeneratedSetupPrefix {
        group: GeneratedFrozenGroup {
            profile: descriptor(),
            opening_method: OpeningMethod::EvaluationTrace,
            num_digits_fold: 2,
        },
        natural_len: 4000,
    }
}

fn fingerprint() -> CatalogFingerprint {
    CatalogFingerprint {
        protocol_epoch: 4,
        ring_dimensions: vec![32, 64],
        ring_challenge_config_digest: 11,
        key_digest: 12,
    }
}

fn catalog_of(rows: Vec<GeneratedFoldScheduleEntry>, policy: &PlannerPolicy) -> GeneratedScheduleTable {
    let identity = expected_catalog_identity("test", policy, &rows, &fingerprint());
    GeneratedScheduleTable { entries: rows, identity }
}

fn message(error: AkitaError) -> String {
    match error {
        AkitaError::InvalidInput(text)
        | AkitaError::InvalidSetup(text)
        | AkitaError::UnsupportedSchedule(text) => text,
        other => format!("{other:?}"),
    }
}

#[test]
fn precommitted_key_identity_includes_both_native_ring_dimensions() {
    let base = descriptor();
    let mut changed_inner = base;
    changed_inner.inner.matrix =
        InnerCommitMatrixParams::new_unchecked(POLICY, DIGEST, PROFILE, 3, 16, 7, 64);
    let mut changed_outer = base;
    changed_outer.outer.matrix =
        OuterCommitMatrixParams::new_unchecked(POLICY, DIGEST, PROFILE, 2, 48, 11, 32);
    for changed in [changed_inner, changed_outer] {
        assert!(!precommitted_group_key_eq(&base, &changed));
        assert_ne!(
            precommitted_group_sort_key(&base),
            precommitted_group_sort_key(&changed)
        );
    }
}

#[test]
fn generated_expansion_rejects_zero_witness_chunks() {
    let original = row();
    let mut root_zero = original.clone();
    root_zero.root.core.witness_chunks = 0;
    let error = schedule_from_entry(
        &root_zero,
        &root_zero.to_runtime_lookup_key(),
        &policy(),
        &family(),
    )
    .expect_err("zero root chunk count must reject");
    assert!(message(error).contains("chunk count must be nonzero"));

    let mut recursive_zero = original;
    recursive_zero.recursive_folds[0].core.witness_chunks = 0;
    let error = schedule_from_entry(
        &recursive_zero,
        &recursive_zero.to_runtime_lookup_key(),
        &policy(),
        &family(),
    )
    .expect_err("zero recursive chunk count must reject");
    assert!(message(error).contains("chunk count must be nonzero"));
}

#[test]
fn equal_lookup_keys_form_one_contiguous_candidate_range() {
    let entry = row();
    let duplicate_table = catalog_of(vec![entry.clone(), entry.clone()], &policy());
    let key = entry.to_runtime_lookup_key();

    assert!(catalog_entries_sorted_for_lookup(&duplicate_table.entries));
    assert_eq!(table_entry_range(&duplicate_table, &key), 0..2);
    assert_eq!(
        table_entry(&duplicate_table, &key),
        duplicate_table.entries.first()
    );
}

#[test]
fn catalog_identity_rejects_noncurrent_protocol_epoch() {
    let policy = policy();
    let mut catalog = catalog_of(vec![row()], &policy);
    assert_eq!(validate_catalog_identity(&catalog, &policy, &fingerprint()), Ok(()));
    catalog.identity.protocol_epoch -= 1;
    let error = validate_catalog_identity(&catalog, &policy, &fingerprint())
        .expect_err("noncurrent protocol epoch must not validate");
    assert!(message(error).contains("catalog identity mismatch"));
}

#[test]
fn catalog_identity_rejects_planner_policy_changes() {
    let policy = policy();
    let catalog = catalog_of(vec![row()], &policy);
    let assert_rejected = |label: &str, mutated: GeneratedScheduleTable| {
        let error = validate_catalog_identity(&mutated, &policy, &fingerprint())
            .expect_err("planner-policy mismatch must not validate");
        let text = message(error);
        assert!(
            text.contains("catalog identity mismatch"),
            "{label} mutation returned the wrong error: {text}"
        );
    };

    let mut mutated = catalog.clone();
    mutated.identity.selection_policy = SelectionPolicyId::MinEstimatedProofPayloadV2;
    assert_rejected("selection policy", mutated);

    let mut mutated = catalog.clone();
    mutated.identity.setup_field_budget = Some(1);
    assert_rejected("setup capacity ceiling", mutated);

    let mut mutated = catalog.clone();
    mutated.identity.min_offloaded_witness_contraction += 1;
    assert_rejected("offloaded witness contraction", mutated);

    let mut mutated = catalog;
    mutated.identity.selective_l2_response_model = SelectiveL2ResponseModelId::Disabled;
    assert_rejected("selective L2 response model", mutated);
}

fn adaptive_policy() -> PlannerPolicy {
    let mut policy = policy();
    policy.ring_dimension_schedule_mode = RingDimensionScheduleMode::AdaptiveDimension {
        num_search_levels: 2,
        suffix_dimensions: vec![64],
        potential_a_dimensions: vec![64, 128, 256],
        potential_b_dimensions: vec![64],
        potential_d_dimensions: vec![64],
    };
    policy
}

#[test]
fn mixed_catalog_identity_binds_candidate_dimensions() {
    let policy = adaptive_policy();
    let catalog = catalog_of(vec![row()], &policy);
    assert_eq!(validate_catalog_identity(&catalog, &policy, &fingerprint()), Ok(()));
    let mut mutated = catalog;
    let RingDimensionScheduleMode::AdaptiveDimension {
        num_search_levels,
        suffix_dimensions,
        potential_b_dimensions,
        potential_d_dimensions,
        ..
    } = mutated.identity.ring_dimension_schedule_mode
    else {
        panic!("mixed catalog must use adaptive dimensions");
    };
    mutated.identity.ring_dimension_schedule_mode = RingDimensionScheduleMode::AdaptiveDimension {
        num_search_levels,
        suffix_dimensions,
        potential_a_dimensions: vec![64, 256],
        potential_b_dimensions,
        potential_d_dimensions,
    };
    let error = validate_catalog_identity(&mutated, &policy, &fingerprint())
        .expect_err("removing an admitted nonwinner must invalidate the catalog");
    assert!(message(error).contains("catalog identity mismatch"));
}

#[test]
fn adaptive_catalog_identity_rejects_terminal_dimension_growth() {
    let policy = adaptive_policy();
    let catalog = catalog_of(vec![row()], &policy);
    let mut entry = row();
    let last = entry.recursive_folds.last_mut().expect("recursive fold");
    last.core.group.inner_commit_matrix.ring_dimension = 64;
    last.core.group.outer_commit_matrix.ring_dimension = 64;
    last.core.open_commit_matrix.ring_dimension = 64;
    entry.terminal.inner_commit_matrix.ring_dimension = 128;

    let mutated = GeneratedScheduleTable {
        entries: vec![entry],
        identity: catalog.identity,
    };
    let error = validate_catalog_identity(&mutated, &policy, &fingerprint())
        .expect_err("terminal dimensions must not grow above the preceding A dimension");
    let text = message(error);
    assert!(
        text.contains("exceeds predecessor A dimension"),
        "unexpected validation error: {text}"
    );
}

#[test]
fn trace_purpose_separates_early_packing_and_terminal_admission() {
    assert_eq!(
        trace_opening_purpose(true, true),
        Some(OpeningPurpose::TerminalOnly)
    );
    assert_eq!(trace_opening_purpose(true, false), None);
    assert_eq!(
        trace_opening_purpose(false, true),
        Some(OpeningPurpose::TerminalAndFold)
    );
    assert_eq!(
        trace_opening_purpose(false, false),
        Some(OpeningPurpose::FoldOnly)
    );
}

#[test]
fn setup_prefix_expansion_preserves_independent_a_b_dimensions() {
    let input = prefix();
    let expanded = input
        .expand_to_group(&family(), &policy(), 3, 1)
        .expect("mixed-dimension setup-prefix layout");
    assert_eq!(expanded.profile, input.group.profile);
    assert_eq!(expanded.profile.inner.matrix.ring_dimension(), 128);
    assert_eq!(expanded.profile.outer.matrix.ring_dimension(), 64);
    assert_eq!(expanded.opening.opening_method, input.group.opening_method);
    assert_eq!(
        expanded.opening.num_digits_fold,
        input.group.num_digits_fold as usize
    );
    assert_eq!(expanded.opening.log_basis_open, 3);
    assert_eq!(expanded.setup_natural_len, Some(4000));
}

#[test]
fn setup_prefix_expansion_rejects_frozen_profile_mutation() {
    let mut input = prefix();
    input.group.profile.blocks.live_blocks += 1;
    input
        .expand_to_group(&family(), &policy(), 3, 1)
        .expect_err("frozen setup-prefix profile mutation must reject");
}

#[test]
fn setup_prefix_expansion_rejects_zero_natural_length() {
    let mut input = prefix();
    input.natural_len = 0;
    input
        .expand_to_group(&family(), &policy(), 3, 1)
        .expect_err("zero setup-prefix natural length must reject");
}

#[test]
fn walking_a_row_chains_its_levels_and_adds_up_its_bytes() {
    let entry = row();
    let schedule = walk_generated_schedule_entry(
        &entry,
        &entry.to_runtime_lookup_key(),
        &policy(),
        &family(),
    )
    .unwrap();
    assert_eq!(schedule.recursive_folds.len(), 2);
    assert_eq!(schedule.root.input_witness_len, 256);
    let mut incoming = schedule.root.output_witness_len;
    for step in &schedule.recursive_folds {
        assert_eq!(step.input_witness_len, incoming);
        incoming = step.output_witness_len;
    }
    assert_eq!(schedule.terminal.input_witness_len, incoming);
    assert!(schedule.terminal.params.inner_width() > 0);
    assert_eq!(schedule.terminal.params.inner_width(), 6);
    assert_eq!(schedule.total_bytes, 3 * 11 + 20 + 2);
    assert_eq!(schedule.setup_field_elements, 4);
    let group = schedule.terminal.response_shape.groups[0];
    assert_eq!((group.z_coords, group.e_field_elems, group.t_field_elems), (384, 128, 128));
    assert_eq!(schedule.terminal.response_shape.logical_num_elems, 640);
    assert_eq!(entry.num_fold_levels(), 4);
}

#[test]
fn writing_an_expanded_row_back_gives_the_row() {
    let entry = row();
    let key = entry.to_runtime_lookup_key();
    let schedule = schedule_from_entry(&entry, &key, &policy(), &family()).unwrap();
    let again = generated_entry(&key, &schedule).unwrap();
    assert_eq!(again, entry);
    let replayed = schedule_from_entry(&again, &key, &policy(), &family()).unwrap();
    assert_eq!(replayed, schedule);
}

#[test]
fn schedules_that_no_row_can_hold_are_refused_in_order() {
    let entry = row();
    let key = entry.to_runtime_lookup_key();
    let good = schedule_from_entry(&entry, &key, &policy(), &family()).unwrap();

    let mut s = good.clone();
    s.recursive_folds[1].params.setup_prefix.as_mut().unwrap().setup_natural_len = None;
    s.terminal.response_shape.groups.clear();
    assert_eq!(
        generated_entry(&key, &s).unwrap_err(),
        "generated setup prefix must carry a natural length"
    );
    let mut s = good.clone();
    let slot = s.recursive_folds[1].params.setup_prefix.unwrap();
    s.recursive_folds[0].params.precommitted_groups.push(slot);
    assert_eq!(
        generated_entry(&key, &s).unwrap_err(),
        "generated recursive fold cannot carry precommitted groups"
    );
    let mut s = good.clone();
    s.terminal.response_shape.groups.clear();
    assert_eq!(
        generated_entry(&key, &s).unwrap_err(),
        "terminal response shape has no group"
    );
    let mut s = good.clone();
    let group = s.terminal.response_shape.groups[0];
    s.terminal.response_shape.groups.push(group);
    assert_eq!(
        generated_entry(&key, &s).unwrap_err(),
        "generated scalar terminal response must have exactly one group"
    );
    let mut s = good.clone();
    s.root.params.setup_prefix = Some(slot);
    assert_eq!(
        generated_entry(&key, &s).unwrap_err(),
        "generated root fold cannot carry a setup prefix"
    );
    let mut s = good;
    s.root.params.payload_mode = CommitmentPayloadMode::Raw;
    assert_eq!(
        generated_entry(&key, &s).unwrap_err(),
        "generated root fold must use the canonical compressed Linf route"
    );
}

#[test]
fn rows_that_do_not_fit_are_refused() {
    let entry = row();
    let key = entry.to_runtime_lookup_key();
    let mut empty = entry.clone();
    empty.final_group.num_polynomials = 0;
    assert!(matches!(empty.validate(), Err(AkitaError::UnsupportedSchedule(_))));
    assert!(matches!(
        schedule_from_entry(&empty, &empty.to_runtime_lookup_key(), &policy(), &family()),
        Err(AkitaError::UnsupportedSchedule(_))
    ));
    let other = AkitaScheduleLookupKey::single(PolynomialGroupLayout::singleton(9));
    assert!(matches!(
        schedule_from_entry(&entry, &other, &policy(), &family()),
        Err(AkitaError::InvalidSetup(_))
    ));
    assert!(validate_entry_key(&entry, &other).is_err());
    assert!(validate_entry_key(&entry, &key).is_ok());
    let mut wrong = entry.clone();
    wrong.root.core.group.geometry.live_blocks = 3;
    assert!(matches!(
        schedule_from_entry(&wrong, &key, &policy(), &family()),
        Err(AkitaError::InvalidSetup(_))
    ));
    let mut wrong = entry;
    wrong.terminal.inner_output_rank = 2;
    assert!(matches!(
        schedule_from_entry(&wrong, &key, &policy(), &family()),
        Err(AkitaError::InvalidSetup(_))
    ));
}

#[test]
fn keys_are_ordered_by_size_and_then_by_their_groups() {
    let small = AkitaScheduleLookupKey::single(PolynomialGroupLayout::new(8, 1));
    let wide = AkitaScheduleLookupKey::single(PolynomialGroupLayout::new(8, 2));
    let tall = AkitaScheduleLookupKey::single(PolynomialGroupLayout::new(9, 1));
    let grouped = AkitaScheduleLookupKey {
        final_group: PolynomialGroupLayout::new(8, 1),
        precommitteds: vec![descriptor()],
    };
    assert_eq!(runtime_schedule_key_cmp(&small, &wide), Ordering::Less);
    assert_eq!(runtime_schedule_key_cmp(&wide, &tall), Ordering::Less);
    assert_eq!(runtime_schedule_key_cmp(&grouped, &small), Ordering::Greater);
    assert_eq!(runtime_schedule_key_cmp(&small, &small), Ordering::Equal);
    let mut later = descriptor();
    later.outer.digits.log_basis += 1;
    let grouped_later = AkitaScheduleLookupKey {
        final_group: PolynomialGroupLayout::new(8, 1),
        precommitteds: vec![later],
    };
    assert_eq!(runtime_schedule_key_cmp(&grouped, &grouped_later), Ordering::Less);
    assert_eq!(runtime_schedule_key_cmp(&grouped_later, &grouped), Ordering::Greater);

    let entry = row();
    let mut taller = row();
    taller.final_group.num_vars = 9;
    assert_eq!(generated_schedule_key_cmp(&entry, &taller), Ordering::Less);
    assert_eq!(generated_schedule_key_cmp_runtime(&entry, &small), Ordering::Equal);
    assert!(schedule_key_eq(&entry, &small));
    assert!(!schedule_key_eq(&entry, &grouped));
    let table = catalog_of(vec![entry.clone(), taller.clone()], &policy());
    assert!(catalog_entries_sorted_for_lookup(&table.entries));
    assert!(!catalog_entries_sorted_for_lookup(&[taller, entry]));
    assert_eq!(table_entry_range(&table, &tall), 1..2);
    assert_eq!(table_entry(&table, &wide), None);
}

#[test]
fn grouped_roots_expand_their_precommitted_groups() {
    let mut entry = row();
    entry.recursive_folds.clear();
    entry.root.precommitted_groups.push(GeneratedPrecommittedGroup { group: prefix().group });
    let key = entry.to_runtime_lookup_key();
    assert_eq!(key.precommitteds, vec![descriptor()]);
    let schedule = schedule_from_entry(&entry, &key, &policy(), &family()).unwrap();
    assert_eq!(schedule.root.params.precommitted_groups.len(), 1);
    assert_eq!(schedule.root.params.precommitted_groups[0].profile, descriptor());
    assert_eq!(schedule.root.params.open_matrix.input_width, 2 + 4);
    assert_eq!(generated_entry(&key, &schedule).unwrap(), entry);
}

#[test]
fn rows_keep_all_that_their_price_depends_on() {
    let mut entry = row();
    entry.root.core.group.geometry.live_ring_elements_per_claim = 7;
    entry.recursive_folds[1].core.group.geometry.live_ring_elements_per_claim = 999;
    entry.terminal.response_l2_sq_cap = Some(50);
    let key = entry.to_runtime_lookup_key();
    let schedule = schedule_from_entry(&entry, &key, &policy(), &family()).unwrap();
    let written = generated_entry(&key, &schedule).unwrap();
    assert_ne!(written, entry);
    assert_eq!(written.terminal.inner_coeff_linf_bound, 0);
    assert_eq!(schedule_from_entry(&written, &key, &policy(), &family()).unwrap(), schedule);
    assert_eq!(generated_entry(&key, &schedule).unwrap(), written);
}

#[test]
fn grouped_roots_encode_their_source_by_the_length_they_store() {
    let mut entry = row();
    entry.recursive_folds.clear();
    entry.root.precommitted_groups.push(GeneratedPrecommittedGroup { group: prefix().group });
    entry.root.core.group.geometry.live_ring_elements_per_claim = 8;
    let key = entry.to_runtime_lookup_key();
    let schedule = schedule_from_entry(&entry, &key, &policy(), &family()).unwrap();
    let written = generated_entry(&key, &schedule).unwrap();
    let again = schedule_from_entry(&written, &key, &policy(), &family()).unwrap();
    assert_eq!(schedule.root.params.source_encoding.num_vars, 9);
    assert_eq!(again.root.params.source_encoding.num_vars, 8);
}

#[test]
fn refusals_of_the_rules_are_passed_on() {
    let refused = || AkitaError::InvalidSetup("the parameter family has no answer".to_string());
    let rules = family();
    let key = row().to_runtime_lookup_key();
    let mut input = prefix();
    input.group.profile.blocks.live_blocks += 1;
    assert_eq!(input.expand_to_group(&rules, &policy(), 3, 1), Err(refused()));
    let mut input = prefix();
    input.natural_len = 0;
    assert_eq!(
        message(input.expand_to_group(&rules, &policy(), 3, 1).unwrap_err()),
        "setup prefix has no natural length"
    );
    input.natural_len = 5000;
    assert_eq!(
        GeneratedGroup::expand_setup_prefix(&rules, Some(input), &policy(), 3, 1),
        Err(refused())
    );
    assert_eq!(partition_to_chunk(&rules, 4, 0), Err(refused()));
    let mut entry = row();
    entry.terminal.inner_output_rank = 2;
    assert_eq!(schedule_from_entry(&entry, &key, &policy(), &rules), Err(refused()));
    let mut entry = row();
    entry.recursive_folds[0].core.group.outer_commit_matrix.ring_dimension = 0;
    assert_eq!(schedule_from_entry(&entry, &key, &policy(), &rules), Err(refused()));
    let mut entry = row();
    entry.recursive_folds[0].core.group.num_digits_fold = 0;
    assert_eq!(
        message(schedule_from_entry(&entry, &key, &policy(), &rules).unwrap_err()),
        "generated fold digit depth must be nonzero"
    );
    let mut wide = policy();
    wide.chal_ext_degree = usize::MAX;
    assert_eq!(schedule_from_entry(&row(), &key, &wide, &rules), Err(refused()));
    let shape = PolynomialGroupLayout::new(8, 1);
    assert_eq!(
        opening_work_domain(&rules, &wide, 2, None, false, None, &vec![], shape),
        Err(refused())
    );
    let none: Vec<HonestFoldPolicySpec> = vec![];
    let policy = policy();
    let ctx = SuffixCtx {
        rules: &rules,
        policy: &policy,
        root_lookup_key: None,
        root_honest_fold_policy: None,
        precommitted_honest_fold_policies: &none,
        level_zero_is_root: false,
    };
    let state = SuffixState {
        level: 1,
        current_witness_len: 0,
        current_lb: 3,
        source_moment: 0,
        dimension_ceiling: None,
        topology: SuffixTopology { phase: 0, incoming_setup_prefix: None },
    };
    assert_eq!(CandidateDomain::prepare(&ctx, state).err(), Some(refused()));
}

#[test]
fn chunk_counts_decide_the_activated_levels() {
    let rules = family();
    assert_eq!(
        partition_to_chunk(&rules, 1, 5).unwrap(),
        ChunkedWitnessCfg::default_non_chunked()
    );
    assert_eq!(
        partition_to_chunk(&rules, 4, 2).unwrap(),
        ChunkedWitnessCfg { num_chunks: 4, num_activated_levels: 2 }
    );
    assert!(partition_to_chunk(&rules, 4, 0).is_err());
    let folds = row().recursive_folds;
    assert_eq!(distributed_activation_depth(1, &folds), 0);
    assert_eq!(distributed_activation_depth(2, &folds), 1);
    let mut chunked = folds;
    chunked[0].core.witness_chunks = 2;
    assert_eq!(distributed_activation_depth(2, &chunked), 2);
}

#[test]
fn groups_expand_on_their_own() {
    let entry = row();
    let expansion = GeneratedGroupExpansion {
        role: GeneratedFoldExpansionRole::Root { num_digits_inner: 2 },
        payload_mode: CommitmentPayloadMode::Compressed,
        ring_relation_mode: RingRelationMode::ReducedEvaluation,
        open_commit_matrix: matrix(64),
        group: PolynomialGroupLayout::new(8, 1),
        source: GroupLengthSource::IncomingWitness {
            input_witness_len: 256,
            num_claims: 1,
            setup_prefix: None,
        },
    };
    let params = entry
        .root
        .core
        .group
        .expand_group(&family(), &policy(), &expansion)
        .unwrap();
    assert_eq!(params.own.profile.blocks, BlockGeometry::new(4, 2, 2));
    assert_eq!(params.own.profile.inner.matrix.input_width(), 4);
    assert_eq!(params.own.profile.outer_slice_count, CommitmentSliceCount::Two);
    assert_eq!(params.ring_relation_mode, RingRelationMode::ReducedEvaluation);
    let mut slices = entry.root.core.group;
    slices.outer_slice_count = 3;
    assert!(matches!(
        slices.expand_group(&family(), &policy(), &expansion),
        Err(AkitaError::InvalidSetup(_))
    ));
}

#[test]
fn groups_are_refused_with_what_is_wrong() {
    let expansion = |input_witness_len: usize| GeneratedGroupExpansion {
        role: GeneratedFoldExpansionRole::Root { num_digits_inner: 2 },
        payload_mode: CommitmentPayloadMode::Compressed,
        ring_relation_mode: RingRelationMode::ReducedEvaluation,
        open_commit_matrix: matrix(64),
        group: PolynomialGroupLayout::new(7, 1),
        source: GroupLengthSource::IncomingWitness {
            input_witness_len,
            num_claims: 1,
            setup_prefix: None,
        },
    };
    let refusal = |group: GeneratedGroup, len: usize| {
        message(group.expand_group(&family(), &policy(), &expansion(len)).unwrap_err())
    };
    let mut group = row().root.core.group;
    group.outer_slice_count = 1;
    group.geometry = BlockGeometry::new(1, 1, 1);
    assert_eq!(
        refusal(group, 128),
        "generated schedule num_live_blocks=1 does not match ceil(N=2 / M=1)=2"
    );
    assert_eq!(refusal(group, 0), "witness length must be nonzero");
    let key = AkitaScheduleLookupKey {
        final_group: PolynomialGroupLayout::new(8, 1),
        precommitteds: vec![descriptor(), descriptor()],
    };
    assert_eq!(
        message(validate_expanded_precommitted_groups(&key, &vec![family().own]).unwrap_err()),
        "multi-group root precommitted group count mismatch: expected 2, got 1"
    );
    assert!(validate_expanded_precommitted_groups(&key, &vec![family().own, family().own]).is_ok());
}

#[test]
fn opening_work_lists_packed_openings_early_and_traces_later() {
    assert!(!state_allows_terminal_seed(true, false));
    assert!(state_allows_terminal_seed(false, false));
    assert!(!state_allows_terminal_seed(false, true));
    let rules = family();
    let key = AkitaScheduleLookupKey::single(PolynomialGroupLayout::new(8, 1));
    let shape = PolynomialGroupLayout::new(8, 1);
    let root = opening_work_domain(&rules, &policy(), 0, None, false, Some(&key), &vec![], shape)
        .unwrap();
    assert_eq!(root.len(), 1);
    assert_eq!(root[0].purpose, OpeningPurpose::FoldOnly);
    assert_eq!(
        root[0].opening.method(),
        OpeningMethod::SubringCoefficientPacking { challenge_subring_dimension: 64 }
    );
    let late = opening_work_domain(&rules, &policy(), 2, None, false, None, &vec![], shape).unwrap();
    assert_eq!(late.len(), 1);
    assert_eq!(late[0].purpose, OpeningPurpose::TerminalAndFold);
    assert_eq!(late[0].opening.method(), OpeningMethod::EvaluationTrace);

    let grouped = AkitaScheduleLookupKey {
        final_group: shape,
        precommitteds: vec![descriptor(), descriptor()],
    };
    let bound = HonestFoldPolicySpec { kind: 0, bound: 1 };
    let products = packing_precommit_opening_products(
        &rules,
        &policy(),
        CommitmentRingDims::uniform(64),
        &grouped,
        &vec![bound, bound],
    )
    .unwrap();
    assert_eq!(products.len(), 1);
    assert_eq!(products[0].len(), 2);
}

#[test]
fn root_batches_hold_every_candidate_of_the_list() {
    let rules = family();
    let policy = policy();
    let key = AkitaScheduleLookupKey::single(PolynomialGroupLayout::new(8, 1));
    let none: Vec<HonestFoldPolicySpec> = vec![];
    let ctx = SuffixCtx {
        rules: &rules,
        policy: &policy,
        root_lookup_key: Some(&key),
        root_honest_fold_policy: Some(HonestFoldPolicySpec { kind: 0, bound: 1 }),
        precommitted_honest_fold_policies: &none,
        level_zero_is_root: true,
    };
    let state = SuffixState {
        level: 0,
        current_witness_len: 256,
        current_lb: 3,
        source_moment: 0,
        dimension_ceiling: None,
        topology: SuffixTopology { phase: 0, incoming_setup_prefix: None },
    };
    let domain = CandidateDomain::prepare(&ctx, state).unwrap();
    assert!(matches!(domain.fold_policy, FoldCandidatePolicy::Best));
    let all = domain.generate_for_opening_basis(&ctx, state, 4).unwrap();
    assert_eq!(all.terminal.len(), 0);
    assert_eq!(all.folds.len(), 2);
    let mut collector = BatchCollector { batches: vec![] };
    domain.visit_root_batches(&ctx, state, 4, &mut collector).unwrap();
    let visited: usize = collector.batches.iter().map(|batch| batch.folds.len()).sum();
    assert_eq!(visited, all.folds.len());
    assert!(collector.batches.iter().all(|batch| !batch.is_empty()));
}

#[test]
fn descriptors_are_fixed_width() {
    let bytes = descriptor().canonical_descriptor_bytes();
    assert_eq!(bytes.len(), 31 * 16);
    assert_eq!(&bytes[..16], &[0, 0, 0, 0, 0, 0, 0, 0, 0, 0, 0, 0, 0, 0, 0, 1]);
    assert_eq!(bytes[31], 12);
}
