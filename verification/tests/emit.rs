//! The text of rows and catalogs, producers, and planning workers.

use akita::describe::describe_key;
use akita::emit::{
    emit_decomposition, emit_family_module, emit_family_module_from_entries, emit_fold_core,
    emit_frozen_group, emit_geometry, emit_identity_const, emit_key, emit_opening_method,
    emit_precommitted_group_key, emit_recursive_fold, emit_root_fold, emit_schedule_entry,
    emit_setup_prefix, emit_witness_chunk, family_rows, EmitSpec,
};
use akita::error::AkitaError;
use akita::generated::{
    GeneratedFoldCore, GeneratedFrozenGroup, GeneratedGroup, GeneratedMatrix,
    GeneratedPrecommittedGroup, GeneratedRecursiveFold, GeneratedRootFold, GeneratedSetupPrefix,
};
use akita::identity::{expected_catalog_identity, CatalogFingerprint};
use akita::params::{
    AkitaScheduleLookupKey, BasisRange, BlockGeometry, ChunkedWitnessCfg, CommitmentPayloadMode,
    CommitmentSliceCount, CommittedSourceEncoding, DecompositionParams, GadgetDigits,
    GroupCommitPhaseParams, GroupOpenPhaseParams, GroupOpeningPlan, HonestFoldPolicySpec,
    InnerCommitMatrixParams, InnerCommitSecurityRoute, InnerRole, OpenCommitMatrixParams,
    OpeningMethod, OuterCommitMatrixParams, OuterRole, PlannerCostModelId, PlannerPolicy,
    PolynomialGroupLayout, RecursiveSetupSearchPolicy, RecursiveSplitSearchPolicy,
    RingDimensionScheduleMode, RingRelationMode, SelectionPolicyId, SelectiveL2ResponseModelId,
    SisL2TableDigest, SisL2TableKey, SisMatrixRole, SisModulusProfileId, SisSecurityPolicyId,
    SisTableDigest, SisTableKey, SparseChallengeConfig,
};
use akita::producers::{
    CommittedSourceClass, CommittedSourceContract, FixedRemarks, GroupedGenerationRequest,
    MaterializationDiagnostics, MaterializedEntry, PrecommittedProducer,
};
use akita::rules::{
    CommittedGroupParams, GrindingCost, TailSegmentGroupLayout, TerminalFoldParams,
};
use akita::text::{decimal_bytes, format_bytes, format_dimensions, push_decimal};
use akita::walk::{FoldStep, PlannedFoldSchedule, TailSegmentLayout, TerminalStep};
use akita::workers::{
    filter_map_in_order, merge_outputs, offline_planning_worker_count, run_worker, Drawing,
    WorkerOutput,
};
use std::cell::Cell;

const POLICY: SisSecurityPolicyId = SisSecurityPolicyId::Quantum128BitADPS16;
const PROFILE: SisModulusProfileId = SisModulusProfileId::Q32Offset99;
const DIGEST: SisTableDigest = SisTableDigest { high: 1, low: 255 };
const DIGEST_TEXT: &str =
    "[0, 0, 0, 0, 0, 0, 0, 0, 0, 0, 0, 0, 0, 0, 0, 1, 0, 0, 0, 0, 0, 0, 0, 0, 0, 0, 0, 0, 0, 0, 0, 255]";

fn profile() -> GroupCommitPhaseParams {
    GroupCommitPhaseParams {
        version: 1,
        group: PolynomialGroupLayout::new(12, 1),
        blocks: BlockGeometry::new(32, 8, 4),
        outer_slice_count: CommitmentSliceCount::Four,
        inner: InnerRole {
            digits: GadgetDigits::new(4, 2),
            matrix: InnerCommitMatrixParams::new_unchecked(POLICY, DIGEST, PROFILE, 3, 16, 7, 128),
        },
        outer: OuterRole {
            digits: GadgetDigits::new(5, 2),
            matrix: OuterCommitMatrixParams::new_unchecked(POLICY, DIGEST, PROFILE, 2, 48, 11, 64),
        },
    }
}

fn profile_text() -> String {
    format!(
        "GroupCommitPhaseParams {{ version: GroupCommitPhaseParams::VERSION, group: PolynomialGroupLayout::new(12, 1), blocks: BlockGeometry::new(32, 8, 4), outer_slice_count: akita_types::CommitmentSliceCount::FOUR, inner: akita_types::RoleParams::new(akita_types::GadgetDigits::new(4, 2), InnerCommitMatrixParams::new_unchecked(SisSecurityPolicyId::Quantum128BitADPS16, SisTableDigest({DIGEST_TEXT}), SisModulusProfileId::Q32Offset99, 3, 16, 7, 128)), outer: akita_types::RoleParams::new(akita_types::GadgetDigits::new(5, 2), OuterCommitMatrixParams::new_unchecked(SisSecurityPolicyId::Quantum128BitADPS16, SisTableDigest({DIGEST_TEXT}), SisModulusProfileId::Q32Offset99, 2, 48, 11, 64)) }}"
    )
}

fn frozen() -> GeneratedFrozenGroup {
    GeneratedFrozenGroup {
        profile: profile(),
        opening_method: OpeningMethod::EvaluationTrace,
        num_digits_fold: 6,
    }
}

fn frozen_text() -> String {
    format!(
        "GeneratedFrozenGroup {{ profile: {}, opening_method: akita_types::OpeningMethod::EvaluationTrace, num_digits_fold: 6 }}",
        profile_text()
    )
}

fn own() -> GroupOpenPhaseParams {
    GroupOpenPhaseParams {
        profile: profile(),
        opening: GroupOpeningPlan {
            opening_method: OpeningMethod::EvaluationTrace,
            fold_challenge_config: SparseChallengeConfig { count_pm1: 3, count_pm2: 0 },
            log_basis_open: 3,
            num_digits_open: 2,
            num_digits_fold: 6,
        },
        setup_natural_len: Some(77),
    }
}

fn fold(payload_mode: CommitmentPayloadMode) -> FoldStep {
    FoldStep {
        params: CommittedGroupParams {
            setup_prefix: None,
            precommitted_groups: vec![],
            own: own(),
            open_matrix: OpenCommitMatrixParams {
                output_rank: 1,
                input_width: 2,
                key: SisTableKey {
                    policy: POLICY,
                    table_digest: DIGEST,
                    modulus_profile: PROFILE,
                    role: SisMatrixRole::Open,
                    ring_dimension: 32,
                    coeff_linf_bound: 5,
                },
            },
            payload_mode,
            ring_relation_mode: RingRelationMode::QuotientLift,
            source_encoding: CommittedSourceEncoding { tag: 0, num_vars: 0 },
            witness_chunk: ChunkedWitnessCfg { num_chunks: 1, num_activated_levels: 0 },
        },
        input_witness_len: 10,
        output_witness_len: 11,
        direct_payload_bytes: 0,
        stage3_payload_bytes: 0,
    }
}

const CORE_TEXT: &str = "GeneratedFoldCore { group: GeneratedGroup { geometry: BlockGeometry::new(32, 8, 4), inner_commit_matrix: GeneratedMatrix { ring_dimension: 128, log_basis: 4 }, outer_commit_matrix: GeneratedMatrix { ring_dimension: 64, log_basis: 5 }, outer_slice_count: 4, num_digits_fold: 6, opening_method: akita_types::OpeningMethod::EvaluationTrace }, open_commit_matrix: GeneratedMatrix { ring_dimension: 32, log_basis: 3 }, witness_chunks: 1, ring_relation_mode: akita_types::RingRelationMode::QuotientLift }";

fn fold_core() -> GeneratedFoldCore {
    GeneratedFoldCore {
        group: GeneratedGroup {
            geometry: BlockGeometry::new(32, 8, 4),
            inner_commit_matrix: GeneratedMatrix { ring_dimension: 128, log_basis: 4 },
            outer_commit_matrix: GeneratedMatrix { ring_dimension: 64, log_basis: 5 },
            outer_slice_count: 4,
            num_digits_fold: 6,
            opening_method: OpeningMethod::EvaluationTrace,
        },
        open_commit_matrix: GeneratedMatrix { ring_dimension: 32, log_basis: 3 },
        witness_chunks: 1,
        ring_relation_mode: RingRelationMode::QuotientLift,
    }
}

fn schedule() -> PlannedFoldSchedule {
    PlannedFoldSchedule {
        root: fold(CommitmentPayloadMode::Compressed),
        recursive_folds: vec![fold(CommitmentPayloadMode::Raw)],
        terminal: TerminalStep {
            params: TerminalFoldParams {
                fold_challenge_config: SparseChallengeConfig { count_pm1: 3, count_pm2: 0 },
                blocks: BlockGeometry::new(9, 4, 3),
                inner: profile().inner,
                fold: GadgetDigits::new(3, 5),
            },
            sparse_challenge_config: SparseChallengeConfig { count_pm1: 3, count_pm2: 0 },
            input_witness_len: 11,
            response_shape: TailSegmentLayout {
                ring_dimension: 128,
                groups: vec![TailSegmentGroupLayout {
                    z_coords: 1,
                    e_field_elems: 2,
                    t_field_elems: 3,
                    z_linf_cap: Some(14),
                    z_rice_low_bits: 2,
                    z_payload_bytes: 30,
                }],
                logical_num_elems: 6,
            },
            direct_payload_bytes: 0,
            payload_bytes: 1,
        },
        total_bytes: 1,
        grinding: GrindingCost { total_nonce_bits: 0, expanded_query_count: 0 },
        setup_field_elements: 1,
    }
}

fn row_text() -> String {
    format!(
        "    GeneratedFoldScheduleEntry {{\n        final_group: PolynomialGroupLayout::new(12, 1),\n        root: GeneratedRootFold {{ core: {CORE_TEXT}, num_digits_inner: 2, precommitted_groups: &[] }},\n        recursive_folds: &[\n            GeneratedRecursiveFold {{ core: {CORE_TEXT}, setup_prefix: None, payload_mode: CommitmentPayloadMode::Raw, response_l2_sq_cap: None }},\n        ],\n        terminal: GeneratedTerminalFold {{ geometry: BlockGeometry::new(9, 4, 3), inner_commit_matrix: GeneratedMatrix {{ ring_dimension: 128, log_basis: 4 }}, num_digits_inner: 2, fold_log_basis: 3, fold_digit_count: 5, inner_output_rank: 3, inner_coeff_linf_bound: 7, response_l2_sq_cap: None, z_linf_cap: Some(14), z_rice_low_bits: 2, z_payload_bytes: 30 }},\n    }},\n"
    )
}

fn key() -> AkitaScheduleLookupKey {
    AkitaScheduleLookupKey::single(PolynomialGroupLayout::new(12, 1))
}

fn contract(kind: u32) -> CommittedSourceContract {
    CommittedSourceContract { class: CommittedSourceClass { kind, bound: 1 } }
}

fn producer(kind: u32) -> PrecommittedProducer {
    PrecommittedProducer::from_config(
        profile(),
        Ok(contract(kind)),
        HonestFoldPolicySpec { kind, bound: 9 },
    )
    .unwrap()
}

fn policy(mode: RingDimensionScheduleMode) -> PlannerPolicy {
    PlannerPolicy {
        cost_model: PlannerCostModelId::ExactPayloadAndSetupEnvelope,
        selective_l2_response_model: SelectiveL2ResponseModelId::Disabled,
        selection_policy: SelectionPolicyId::MinEstimatedProofPayloadV2,
        recursive_split_search_policy: RecursiveSplitSearchPolicy::Exhaustive,
        recursive_setup_search_policy: RecursiveSetupSearchPolicy::Exhaustive,
        setup_field_budget: Some(99),
        min_offloaded_witness_contraction: 3,
        ring_dimension_schedule_mode: mode,
        decomposition: DecompositionParams {
            log_basis: 3,
            log_commit_bound: 1,
            log_open_bound: None,
        },
        sis_modulus_profile: PROFILE,
        sis_security_policy: POLICY,
        sis_table_digest: DIGEST,
        sis_l2_table_digest: SisL2TableDigest { high: 0, low: 16 },
        claim_ext_degree: 1,
        chal_ext_degree: 2,
        inner_basis_range: BasisRange { min: 3, max: 16 },
        opening_basis_range: BasisRange { min: 4, max: 6 },
        witness_chunk: ChunkedWitnessCfg { num_chunks: 8, num_activated_levels: 2 },
        recursive_setup_planning: true,
    }
}

fn fingerprint() -> CatalogFingerprint {
    CatalogFingerprint {
        protocol_epoch: 4,
        ring_dimensions: vec![32, 64, 128],
        ring_challenge_config_digest: 11,
        key_digest: 12,
    }
}

const UNIFORM: RingDimensionScheduleMode =
    RingDimensionScheduleMode::UniformDimension { ring_dimension: 64 };

const ZEROS: &str = "0x00, 0x00, 0x00, 0x00, 0x00, 0x00, 0x00, 0x00, 0x00, 0x00, 0x00, 0x00, 0x00, 0x00, 0x00";

fn identity_text(statics: &str, mode: &str, keys: usize) -> String {
    format!(
        "{statics}#[rustfmt::skip]\npub(crate) static CATALOG_RING_DIMENSIONS: &[usize] = &[32, 64, 128];\n#[rustfmt::skip]\npub(crate) static CATALOG_IDENTITY: GeneratedScheduleCatalogIdentity = GeneratedScheduleCatalogIdentity {{\n    family_name: \"family\",\n    protocol_epoch: 4,\n    cost_model: PlannerCostModelId::ExactPayloadAndSetupEnvelope,\n    selective_l2_response_model: SelectiveL2ResponseModelId::Disabled,\n    selection_policy: SelectionPolicyId::MinEstimatedProofPayloadV2,\n    recursive_split_search_policy: crate::RecursiveSplitSearchPolicy::Exhaustive,\n    recursive_setup_search_policy: crate::RecursiveSetupSearchPolicy::Exhaustive,\n    setup_field_budget: Some(99),\n    min_offloaded_witness_contraction: 3,\n    sis_modulus_profile: SisModulusProfileId::Q32Offset99,\n    sis_security_policy: SisSecurityPolicyId::Quantum128BitADPS16,\n    sis_table_digest: SisTableDigest([{ZEROS}, 0x01, {ZEROS}, 0xff]),\n    sis_l2_table_digest: SisL2TableDigest([{ZEROS}, 0x00, {ZEROS}, 0x10]),\n    decomposition: DecompositionParams {{ log_basis: 3, log_commit_bound: 1, log_open_bound: None }},\n    claim_ext_degree: 1,\n    chal_ext_degree: 2,\n    inner_basis_range: (3, 16),\n    opening_basis_range: (4, 6),\n    witness_chunk: ChunkedWitnessCfg {{ num_chunks: 8, num_activated_levels: 2 }},\n    recursive_setup_planning: true,\n    ring_dimension_schedule_mode: {mode},\n    ring_dimensions: CATALOG_RING_DIMENSIONS,\n    ring_challenge_config_digest: 11,\n    key_count: {keys},\n    key_digest: 12,\n}};\n"
    )
}

#[test]
fn numerals_are_written_in_full() {
    let mut out = String::new();
    for n in [0u128, 7, 10, 105, u128::MAX] {
        push_decimal(&mut out, n);
        out.push(' ');
    }
    assert_eq!(out, "0 7 10 105 340282366920938463463374607431768211455 ");
    assert_eq!(format_bytes(&vec![0, 9, 0xab, 255]), "[0x00, 0x09, 0xab, 0xff]");
    assert_eq!(decimal_bytes(&vec![0, 9, 255]), "[0, 9, 255]");
    assert_eq!(decimal_bytes(&vec![]), "[]");
    assert_eq!(format_dimensions(&vec![]), "");
    assert_eq!(format_dimensions(&vec![64, 8]), "64, 8");
}

#[test]
fn small_parts_have_their_text() {
    assert_eq!(emit_key(PolynomialGroupLayout::new(30, 2)), "PolynomialGroupLayout::new(30, 2)");
    assert_eq!(emit_geometry(BlockGeometry::new(1, 20, 3)), "BlockGeometry::new(1, 20, 3)");
    assert_eq!(
        emit_opening_method(OpeningMethod::SubringCoefficientPacking {
            challenge_subring_dimension: 16
        }),
        "akita_types::OpeningMethod::SubringCoefficientPacking { challenge_subring_dimension: 16 }"
    );
    assert_eq!(
        emit_decomposition(DecompositionParams {
            log_basis: 2,
            log_commit_bound: 1,
            log_open_bound: Some(128)
        }),
        "DecompositionParams { log_basis: 2, log_commit_bound: 1, log_open_bound: Some(128) }"
    );
    assert_eq!(
        emit_witness_chunk(ChunkedWitnessCfg { num_chunks: 4, num_activated_levels: 1 }),
        "ChunkedWitnessCfg { num_chunks: 4, num_activated_levels: 1 }"
    );
    assert_eq!(emit_precommitted_group_key(&profile()), profile_text());
    assert_eq!(emit_frozen_group(&frozen()), frozen_text());
    assert_eq!(emit_fold_core(fold_core()), CORE_TEXT);
}

#[test]
fn recursive_folds_name_their_prefix_and_cap() {
    let prefix = GeneratedSetupPrefix { group: frozen(), natural_len: 77 };
    let prefix_text = format!(
        "GeneratedSetupPrefix {{ group: {}, natural_len: 77 }}",
        frozen_text()
    );
    assert_eq!(emit_setup_prefix(&prefix), prefix_text);
    let fold = GeneratedRecursiveFold {
        core: fold_core(),
        setup_prefix: Some(prefix),
        payload_mode: CommitmentPayloadMode::Compressed,
        response_l2_sq_cap: Some(5),
    };
    assert_eq!(
        emit_recursive_fold(&fold),
        format!(
            "GeneratedRecursiveFold {{ core: {CORE_TEXT}, setup_prefix: Some({prefix_text}), payload_mode: CommitmentPayloadMode::Compressed, response_l2_sq_cap: Some(5) }}"
        )
    );
}

fn remarks() -> FixedRemarks {
    FixedRemarks { banner: "// source\n".to_string(), note: "// note\n".to_string() }
}

#[test]
fn root_folds_list_their_groups_behind_remarks() {
    let root = GeneratedRootFold {
        core: fold_core(),
        num_digits_inner: 2,
        precommitted_groups: vec![
            GeneratedPrecommittedGroup { group: frozen() },
            GeneratedPrecommittedGroup { group: frozen() },
        ],
    };
    let key = AkitaScheduleLookupKey {
        final_group: PolynomialGroupLayout::new(12, 1),
        precommitteds: vec![profile(), profile()],
    };
    let both = vec![producer(1), producer(2)];
    let mut out = String::from("head\n");
    emit_root_fold(&mut out, "  ", "root: ", &root, &key, &both, &remarks()).unwrap();
    let group = frozen_text();
    assert_eq!(
        out,
        format!(
            "head\n  root: GeneratedRootFold {{\n      core: {CORE_TEXT},\n      num_digits_inner: 2,\n      precommitted_groups: &[\n// note\n          GeneratedPrecommittedGroup {{ group: {group} }},\n// note\n          GeneratedPrecommittedGroup {{ group: {group} }},\n      ],\n  }},\n"
        )
    );
    let mut unchanged = String::from("head\n");
    let none = FixedRemarks::none();
    let error =
        emit_root_fold(&mut unchanged, "  ", "root: ", &root, &key, &vec![producer(1)], &none)
            .unwrap_err();
    assert_eq!(
        error,
        format!("grouped key {key:?} carries 1 producer records for 2 precommitted groups")
    );
    assert_eq!(unchanged, "head\n");
}

#[test]
fn keys_are_written_with_all_their_parts() {
    let mut bounded = profile();
    bounded.outer_slice_count = CommitmentSliceCount::Eight;
    bounded.inner.matrix.route = InnerCommitSecurityRoute::L2 {
        table_key: SisL2TableKey { ring_dimension: 64, collision_l2_sq: 12 },
        response_l2_sq_cap: u128::MAX,
    };
    let single = AkitaScheduleLookupKey::single(PolynomialGroupLayout::new(3, 2));
    assert_eq!(
        describe_key(&single),
        "AkitaScheduleLookupKey { final_group: PolynomialGroupLayout { num_vars: 3, num_polynomials: 2 }, precommitteds: [] }"
    );
    for precommitteds in [vec![profile()], vec![profile(), bounded], vec![bounded; 3]] {
        let key =
            AkitaScheduleLookupKey { final_group: PolynomialGroupLayout::new(12, 1), precommitteds };
        assert_eq!(describe_key(&key), format!("{key:?}"));
    }
}

#[test]
fn rows_are_written_line_by_line() {
    let mut out = String::new();
    emit_schedule_entry(&mut out, &key(), &schedule(), &vec![], &FixedRemarks::none()).unwrap();
    assert_eq!(out, row_text());
    let mut plain = schedule();
    plain.recursive_folds.clear();
    let mut out = String::new();
    emit_schedule_entry(&mut out, &key(), &plain, &vec![], &FixedRemarks::none()).unwrap();
    assert!(out.contains("        recursive_folds: &[],\n"));
    let mut refused = schedule();
    refused.terminal.response_shape.groups.clear();
    let mut out = String::from("kept");
    assert_eq!(
        emit_schedule_entry(&mut out, &key(), &refused, &vec![], &FixedRemarks::none()).unwrap_err(),
        "terminal response shape has no group"
    );
    assert_eq!(out, "kept");
}

#[test]
fn identities_name_their_dimension_lists() {
    let identity = expected_catalog_identity("family", &policy(UNIFORM), &vec![], &fingerprint());
    assert_eq!(
        emit_identity_const(&identity),
        identity_text("", "RingDimensionScheduleMode::UniformDimension { ring_dimension: 64 }", 0)
    );
    let adaptive = RingDimensionScheduleMode::AdaptiveDimension {
        num_search_levels: 2,
        suffix_dimensions: vec![64],
        potential_a_dimensions: vec![64, 128],
        potential_b_dimensions: vec![],
        potential_d_dimensions: vec![32],
    };
    let identity = expected_catalog_identity("family", &policy(adaptive), &vec![], &fingerprint());
    let statics = "#[rustfmt::skip]\npub(crate) static CATALOG_SUFFIX_DIMENSIONS: &[usize] = &[64];\n#[rustfmt::skip]\npub(crate) static CATALOG_POTENTIAL_A_DIMENSIONS: &[usize] = &[64, 128];\n#[rustfmt::skip]\npub(crate) static CATALOG_POTENTIAL_B_DIMENSIONS: &[usize] = &[];\n#[rustfmt::skip]\npub(crate) static CATALOG_POTENTIAL_D_DIMENSIONS: &[usize] = &[32];\n";
    let mode = "RingDimensionScheduleMode::AdaptiveDimension { num_search_levels: 2, suffix_dimensions: CATALOG_SUFFIX_DIMENSIONS, potential_a_dimensions: CATALOG_POTENTIAL_A_DIMENSIONS, potential_b_dimensions: CATALOG_POTENTIAL_B_DIMENSIONS, potential_d_dimensions: CATALOG_POTENTIAL_D_DIMENSIONS }";
    assert_eq!(emit_identity_const(&identity), identity_text(statics, mode, 0));
}

fn spec() -> EmitSpec {
    EmitSpec {
        module_name: "module".to_string(),
        const_name: "SCHEDULES".to_string(),
        family_name: "family".to_string(),
        schedule_feature: "feature".to_string(),
        policy: policy(UNIFORM),
        source_contract: contract(5),
        keys: vec![],
        grouped_requests: vec![],
        preplanned_scalar: vec![],
        output_dir: "out".to_string(),
        generator_command: "make tables".to_string(),
    }
}

fn materialized() -> Vec<MaterializedEntry> {
    vec![
        MaterializedEntry { key: key(), schedule: schedule(), precommitted_producers: vec![] },
        MaterializedEntry { key: key(), schedule: schedule(), precommitted_producers: vec![] },
    ]
}

#[test]
fn modules_hold_their_rows_and_their_identity() {
    let entries = materialized();
    let rows = family_rows(&entries).unwrap();
    let identity = expected_catalog_identity("family", &policy(UNIFORM), &rows, &fingerprint());
    let module =
        emit_family_module_from_entries(&spec(), &entries, Ok(identity.clone()), &remarks()).unwrap();
    let row = row_text();
    let head = "// Generated by `make tables`\n// source\n#[allow(unused_imports)]\nuse super::{\n    BlockGeometry, ";
    assert!(module.starts_with(head));
    let tail = format!(
        "SisTableDigest, \n}};\n\n#[rustfmt::skip]\npub(crate) static SCHEDULES: &[GeneratedFoldScheduleEntry] = &[\n{row}{row}];\n\n{}",
        identity_text("", "RingDimensionScheduleMode::UniformDimension { ring_dimension: 64 }", 2)
    );
    assert!(module.ends_with(&tail));

    let families = vec![vec![], entries];
    assert_eq!(emit_family_module(&spec(), &families, Ok(identity.clone()), &remarks()), Ok(module));
    assert_eq!(
        emit_family_module(&spec(), &vec![], Ok(identity.clone()), &remarks()).unwrap_err(),
        "missing materialized schedule family"
    );
    assert_eq!(
        emit_family_module(&spec(), &families, Err("lost".to_string()), &remarks()).unwrap_err(),
        "module: catalog identity: lost"
    );
    let mut broken = materialized();
    broken[1].schedule.terminal.response_shape.groups.clear();
    assert_eq!(
        emit_family_module_from_entries(&spec(), &broken, Err("lost".to_string()), &remarks())
            .unwrap_err(),
        "terminal response shape has no group"
    );
    assert_eq!(family_rows(&broken).unwrap_err(), "terminal response shape has no group");
    assert_eq!(identity.key_count, 2);
}

#[test]
fn requests_take_their_key_from_their_producers() {
    let request = GroupedGenerationRequest::new(
        PolynomialGroupLayout::new(9, 2),
        vec![producer(1), producer(2)],
    );
    let key = request.key();
    assert_eq!(key.final_group, PolynomialGroupLayout::new(9, 2));
    assert_eq!(key.precommitteds, vec![profile(), profile()]);
    assert_eq!(
        request.fold_policies(),
        vec![
            HonestFoldPolicySpec { kind: 1, bound: 9 },
            HonestFoldPolicySpec { kind: 2, bound: 9 },
        ]
    );
    assert_eq!(request.precommitted_producers()[1].source_contract(), contract(2));
    assert_eq!(
        PrecommittedProducer::from_config(
            profile(),
            Err(AkitaError::InvalidProof),
            HonestFoldPolicySpec { kind: 0, bound: 0 }
        ),
        Err(AkitaError::InvalidProof)
    );
    assert!(!MaterializationDiagnostics::default().row_progress);
}

#[test]
fn workers_are_bounded_by_the_machine_the_setting_and_the_work() {
    assert_eq!(offline_planning_worker_count(100, None, Some(16)), 3);
    assert_eq!(offline_planning_worker_count(100, Some(0), Some(16)), 3);
    assert_eq!(offline_planning_worker_count(100, Some(8), Some(16)), 8);
    assert_eq!(offline_planning_worker_count(100, Some(8), Some(4)), 4);
    assert_eq!(offline_planning_worker_count(2, Some(8), Some(4)), 2);
    assert_eq!(offline_planning_worker_count(0, Some(8), Some(4)), 1);
    assert_eq!(offline_planning_worker_count(9, None, None), 1);
}

#[test]
fn merged_results_stand_in_input_order() {
    let items = [5u32, 6, 7, 8, 9];
    let keep = |item: &u32| -> Result<Option<u32>, String> {
        if item % 3 == 0 {
            Ok(None)
        } else {
            Ok(Some(item * 10))
        }
    };
    let serial = filter_map_in_order(&items, keep).unwrap();
    assert_eq!(serial, vec![50, 70, 80]);
    let outputs = vec![
        WorkerOutput::Finished(vec![(3, 80), (0, 50)]),
        WorkerOutput::Finished(vec![]),
        WorkerOutput::Finished(vec![(2, 70)]),
    ];
    assert_eq!(merge_outputs(outputs).unwrap(), serial);
    let failing = |item: &u32| -> Result<Option<u32>, String> {
        if *item > 6 {
            Err(format!("bad {item}"))
        } else {
            Ok(Some(*item))
        }
    };
    assert_eq!(filter_map_in_order(&items, failing).unwrap_err(), "bad 7");
    let outputs: Vec<WorkerOutput<u32>> = vec![
        WorkerOutput::Finished(vec![(0, 1)]),
        WorkerOutput::Failed("first".to_string()),
        WorkerOutput::Panicked,
    ];
    assert_eq!(merge_outputs(outputs).unwrap_err(), "first");
    let outputs: Vec<WorkerOutput<u32>> = vec![WorkerOutput::Panicked];
    assert_eq!(merge_outputs(outputs).unwrap_err(), "schedule generation worker panicked");
}

#[test]
fn several_workers_agree_with_one() {
    let items: Vec<u32> = (0..9).collect();
    let map = |item: &u32| Ok((item % 3 != 1).then_some(item * 10));
    let alone = filter_map_in_order(&items, map).unwrap();
    assert_eq!(alone, vec![0, 20, 30, 50, 60, 80]);
    let shares: [&[usize]; 3] = [&[4, 1, 8], &[], &[7, 0, 2, 6, 3, 5]];
    let outputs = shares
        .iter()
        .map(|share| {
            let turn = Cell::new(0);
            let next = || {
                let at: usize = turn.get();
                turn.set(at + 1);
                share.get(at).copied().unwrap_or(items.len())
            };
            run_worker(&items, &mut Drawing::new(next), map)
        })
        .collect();
    assert_eq!(merge_outputs(outputs), Ok(alone));
    let failing = |item: &u32| if *item == 2 { Err("two".to_string()) } else { Ok(Some(*item)) };
    let turn = Cell::new(0);
    let next = || {
        let at: usize = turn.get();
        turn.set(at + 1);
        at
    };
    assert_eq!(merge_outputs(vec![run_worker(&items, &mut Drawing::new(next), failing)]), Err("two".to_string()));
}

#[test]
fn a_worker_stops_at_the_first_position_past_the_end() {
    let items = [10u32, 11, 12];
    let positions: [usize; 5] = [2, 0, 3, 1, 1];
    let turn = Cell::new(0);
    let next = || {
        let at: usize = turn.get();
        turn.set(at + 1);
        positions[at]
    };
    let output = run_worker(&items, &mut Drawing::new(next), |item: &u32| Ok(Some(item + 1)));
    match output {
        WorkerOutput::Finished(results) => assert_eq!(results, vec![(2, 13), (0, 11)]),
        _ => panic!("the worker finishes"),
    }
    assert_eq!(turn.get(), 3);
}
