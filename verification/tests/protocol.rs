//! Norm claims, root replays, dense openings and assignments.

use akita::assignments::{
    nondecreasing_opening_assignments, precommitted_group_equivalence_classes,
};
use akita::cyclotomic::CyclotomicRing;
use akita::decompose::{DecomposeParams, SparseChallenge};
use akita::dense::{DensePoly, SubfieldMultiplierOpeningPoint};
use akita::error::AkitaError;
use akita::family::BasisBelowModulus;
use akita::field::Field;
use akita::l2_norm::{
    batch_subclaims, centered_lift, limb_gram_layout, reconstruct_l2_sq_from_gram,
    validate_integer_claim, verify_physical_l2_norm, LimbGramLayout, PhysicalL2NormProof,
    PhysicalL2NormProofShape, PhysicalL2NormVerifier, PhysicalL2RangeClaim, PhysicalResponsePlan,
};
use akita::params::{
    BlockGeometry, CommitmentSliceCount, GadgetDigits, GroupCommitPhaseParams,
    HonestFoldPolicySpec, InnerCommitMatrixParams, InnerRole, OpeningMethod,
    OuterCommitMatrixParams, OuterRole, PolynomialGroupLayout, SisModulusProfileId,
    SisSecurityPolicyId, SisTableDigest,
};
use akita::prime_field::{Prime128OffsetA7F7, Prime32Offset99, Prime64Offset59};
use akita::quadratic::Ext2;
use akita::root::{
    replay_root, verify_root, BasisMode, FixedVerdict, NextFold, PreparedNextWitness,
    RootGroupClaim, RootProof, SetupContributionMode,
};
use akita::transcript::{Reduction, ScriptedTranscript};

type F = Prime32Offset99;
const PROFILE: SisModulusProfileId = SisModulusProfileId::Q32Offset99;

fn f(v: i64) -> F {
    F::from_i64(v)
}

#[test]
fn centered_lift_accepts_both_boundary_representatives() {
    let modulus = PROFILE.modulus();
    let half = modulus / 2;
    let positive = F::from_u128_reduced(half);
    let negative = F::from_u128_reduced(half + 1);

    assert_eq!(centered_lift(positive, PROFILE).unwrap(), half as i128);
    assert_eq!(centered_lift(negative, PROFILE).unwrap(), -(half as i128));
}

#[test]
fn lifts_go_by_the_profile_and_need_a_small_one() {
    assert_eq!(centered_lift(f(1), SisModulusProfileId::Q64Offset59).unwrap(), 1);
    assert_eq!(
        centered_lift(Ext2::new(f(1), f(1)), PROFILE),
        Err(AkitaError::InvalidProof)
    );
    assert!(matches!(
        centered_lift(f(1), SisModulusProfileId::Q128OffsetA7F7),
        Err(AkitaError::InvalidSetup(_))
    ));
    assert_eq!(centered_lift(f(-5), PROFILE).unwrap(), -5);
    assert_eq!(
        centered_lift(Prime64Offset59::from_i64(-1), SisModulusProfileId::Q64Offset59).unwrap(),
        -1
    );
}

fn gram_plan() -> PhysicalResponsePlan {
    PhysicalResponsePlan {
        shape: PhysicalL2NormProofShape::LimbGram { response_len: 3, block_len: 2, limb_count: 2 },
        num_vars: 2,
        fold_basis: 8,
        fold_digit_count: 2,
    }
}

/// Responses 9, -2 and 20 in limbs to the base eight.
fn gram_proof() -> PhysicalL2NormProof<F> {
    let low = [1i64, -2, 4];
    let high = [1i64, 0, 2];
    let dot = |a: &[i64], b: &[i64]| a.iter().zip(b).map(|(x, y)| x * y).sum::<i64>();
    let mut subclaims = vec![];
    for block in [0..2, 2..3] {
        let (l, h) = (&low[block.clone()], &high[block]);
        subclaims.extend([f(dot(l, l)), f(dot(l, h)), f(dot(h, h))]);
    }
    PhysicalL2NormProof {
        response_l2_sq: 9 * 9 + 2 * 2 + 20 * 20,
        subclaims,
        virtual_evaluations: vec![f(3), f(-4)],
    }
}

#[test]
fn inner_products_of_limbs_make_up_the_norm() {
    let layout = LimbGramLayout { response_len: 3, block_len: 2, limb_count: 2 };
    assert_eq!(limb_gram_layout(gram_plan().shape), Some(layout));
    assert_eq!((layout.pair_count(), layout.block_count(), layout.subclaim_count()), (3, 2, 6));
    let integers = vec![5i128, 1, 1, 16, 8, 4];
    assert_eq!(reconstruct_l2_sq_from_gram(layout, 8, &integers).unwrap(), 485);
    let plan = gram_plan();
    let proof = gram_proof();
    let check = |proof: &PhysicalL2NormProof<F>, cap: u128| {
        validate_integer_claim(&BasisBelowModulus, &plan, proof, PROFILE, cap)
    };
    assert_eq!(check(&proof, 485), Ok(()));
    assert_eq!(check(&proof, 484), Err(AkitaError::InvalidProof));
    let mut other = gram_proof();
    other.response_l2_sq = 484;
    assert_eq!(check(&other, 1000), Err(AkitaError::InvalidProof));
    let mut short = gram_proof();
    short.subclaims.pop();
    assert_eq!(check(&short, 1000), Err(AkitaError::InvalidProof));
    let mut large = gram_proof();
    large.subclaims[0] = f(33);
    assert_eq!(check(&large, 1000000), Err(AkitaError::InvalidProof));
    assert!(matches!(
        validate_integer_claim(
            &BasisBelowModulus,
            &plan,
            &proof,
            SisModulusProfileId::Q64Offset59,
            485
        ),
        Err(AkitaError::InvalidSetup(_))
    ));
    let lifted = |tail: i64| PhysicalL2NormProof {
        response_l2_sq: 485,
        subclaims: gram_proof()
            .subclaims
            .iter()
            .map(|&claim| Ext2::new(claim, f(tail)))
            .collect(),
        virtual_evaluations: vec![Ext2::zero(), Ext2::zero()],
    };
    let check_lifted = |proof: &PhysicalL2NormProof<Ext2<4294967197>>| {
        validate_integer_claim(&BasisBelowModulus, &plan, proof, PROFILE, 485)
    };
    assert_eq!(check_lifted(&lifted(0)), Ok(()));
    assert_eq!(check_lifted(&lifted(1)), Err(AkitaError::InvalidProof));
}

fn range<'a>(point: &'a [F], leaves: &'a [F]) -> PhysicalL2RangeClaim<'a, F> {
    PhysicalL2RangeClaim {
        equality_point: point,
        input_claim: f(6),
        leaf_coefficients: leaves,
        image_evaluation: f(2),
    }
}

#[test]
fn a_norm_proof_is_accepted_for_the_claim_at_its_point_only() {
    let plan = gram_plan();
    let proof = gram_proof();
    let equality = [f(5), f(7)];
    let leaves = [f(1), f(0), f(2)];
    let (gamma, merge) = (f(10), f(11));
    let point = vec![f(12), f(13)];
    let (weights, claim) = batch_subclaims(&proof.subclaims, gamma);
    assert_eq!(weights[0], f(1));
    assert_eq!(weights[2], f(100));
    let verifier = PhysicalL2NormVerifier {
        plan: &plan,
        proof: &proof,
        range_equality_point: &equality,
        range_leaf_coefficients: &leaves,
        range_image_evaluation: f(2),
        subclaim_weights: weights,
        input_claim: f(6).add(merge.mul(claim)),
        norm_merge: merge,
    };
    assert_eq!(verifier.num_rounds(), 2);
    assert_eq!(verifier.degree_bound(), 3);
    let output = verifier.expected_output_claim(&point).unwrap();
    let run = |output: F, challenges: Vec<F>| {
        let reductions = vec![Reduction { point: point.clone(), output }];
        let mut transcript = ScriptedTranscript::new(challenges, reductions);
        verify_physical_l2_norm(
            &BasisBelowModulus,
            &plan,
            &proof,
            range(&equality, &leaves),
            PROFILE,
            485,
            &mut transcript,
            0,
        )
        .map(|replay| (replay.point, replay.virtual_evaluations.clone()))
    };
    assert_eq!(
        run(output, vec![gamma, merge]),
        Ok((point.clone(), proof.virtual_evaluations.clone()))
    );
    assert_eq!(run(output.add(f(1)), vec![gamma, merge]), Err(AkitaError::InvalidProof));
    assert_eq!(run(output, vec![gamma]), Err(AkitaError::InvalidProof));
    assert_eq!(run(output, vec![gamma, f(1)]), Err(AkitaError::InvalidProof));
    assert!(verifier.expected_output_claim(&point[..1]).is_err());
}

#[test]
fn a_direct_norm_proof_claims_one_sum_of_squares() {
    let plan = PhysicalResponsePlan {
        shape: PhysicalL2NormProofShape::Direct { response_len: 3 },
        num_vars: 2,
        fold_basis: 8,
        fold_digit_count: 2,
    };
    let proof = PhysicalL2NormProof {
        response_l2_sq: 485,
        subclaims: vec![],
        virtual_evaluations: vec![f(3)],
    };
    assert_eq!(
        validate_integer_claim(&BasisBelowModulus, &plan, &proof, PROFILE, 485),
        Ok(())
    );
    let equality = [f(5)];
    let leaves = [f(1), f(0), f(2)];
    let mut transcript = ScriptedTranscript::new(vec![f(1)], vec![]);
    let refused = verify_physical_l2_norm(
        &BasisBelowModulus,
        &plan,
        &proof,
        range(&equality, &leaves),
        PROFILE,
        485,
        &mut transcript,
        0,
    );
    assert!(matches!(refused, Err(AkitaError::InvalidSetup(_))));
}

fn group(commitment: &[i64], point: &[i64], evaluations: &[i64]) -> RootGroupClaim<F> {
    let values = |list: &[i64]| list.iter().map(|&v| f(v)).collect::<Vec<F>>();
    RootGroupClaim {
        layout: PolynomialGroupLayout::new(point.len(), evaluations.len()),
        opening_method: OpeningMethod::SubringCoefficientPacking {
            challenge_subring_dimension: 16,
        },
        commitment: values(commitment),
        terminal_coefficients: commitment.len(),
        map_dimensions: vec![64, 32],
        point: values(point),
        evaluations: values(evaluations),
    }
}

fn root() -> RootProof<F> {
    RootProof {
        has_extension_reduction: false,
        canonical_source: true,
        batch_refusal: None,
        groups: vec![group(&[10, 11], &[1, 2], &[3]), group(&[20], &[1], &[3, 4])],
        basis: BasisMode::Lagrange,
        opening_payload: vec![f(30)],
        stage1: vec![f(41), f(42)],
        stage2: vec![f(51)],
        stage3: None,
        next_fold: Some(NextFold {
            predecessor_setup: SetupContributionMode::Direct,
            transcript_ring_dimension: Ok(64),
        }),
        next_payload: Some(vec![f(60), f(61)]),
        terminal_state: None,
        relation_refusal: None,
        claim_refusal: None,
        group_order: Ok(vec![1, 0]),
        witness_len: Ok(100),
        committed_witness_len: Ok(128),
        next_witness_ring_dim: 32,
    }
}

#[test]
fn errors_are_written_out_with_their_variant() {
    let text = "a \"b\" \\ c\n\u{7f}\u{e9}".to_string();
    for error in [
        AkitaError::InvalidInput(text.clone()),
        AkitaError::InvalidSetup(text.clone()),
        AkitaError::UnsupportedSchedule(text),
        AkitaError::InvalidSize { expected: 3, actual: 10 },
        AkitaError::InvalidProof,
    ] {
        assert_eq!(error.describe(), format!("{error:?}"));
    }
    assert_eq!(
        AkitaError::InvalidSetup("no \"rank\"".to_string()).describe(),
        "InvalidSetup(\"no \\\"rank\\\"\")"
    );
}

fn verified(proof: &RootProof<F>, accepts: bool) -> Result<Vec<F>, AkitaError> {
    let mut transcript = ScriptedTranscript::new(vec![], vec![]);
    verify_root(proof, &FixedVerdict { accepts }, &mut transcript)
}

#[test]
fn a_root_is_prepared_as_its_layout_says() {
    let mut transcript = ScriptedTranscript::new(vec![], vec![]);
    assert_eq!(
        replay_root(&root(), &mut transcript),
        Ok(PreparedNextWitness::Commitment { commitment: &vec![f(60), f(61)], ring_dim: 64 })
    );
    assert_eq!(verified(&root(), true), Ok([20, 10, 11].map(f).to_vec()));
    assert_eq!(
        verified(&root(), false),
        Err(AkitaError::InvalidInput("compressed root fold failed: InvalidProof".to_string()))
    );

    let mut terminal = root();
    terminal.next_fold = None;
    terminal.next_payload = None;
    terminal.terminal_state = Some(vec![7, 8]);
    assert_eq!(
        replay_root(&terminal, &mut transcript),
        Ok(PreparedNextWitness::TerminalT(&vec![7, 8]))
    );
    terminal.terminal_state = Some(vec![]);
    assert_eq!(replay_root(&terminal, &mut transcript), Err(AkitaError::InvalidProof));

    let mut recursive = root();
    recursive.next_fold = Some(NextFold {
        predecessor_setup: SetupContributionMode::Recursive,
        transcript_ring_dimension: Ok(64),
    });
    assert_eq!(replay_root(&recursive, &mut transcript), Err(AkitaError::InvalidProof));
    recursive.stage3 = Some(vec![f(71)]);
    assert!(replay_root(&recursive, &mut transcript).is_ok());
}

#[test]
fn roots_of_another_shape_are_refused() {
    let refused = |change: &dyn Fn(&mut RootProof<F>)| {
        let mut proof = root();
        change(&mut proof);
        verified(&proof, true).err()
    };
    let invalid = Some(AkitaError::InvalidProof);
    assert_eq!(refused(&|p| p.has_extension_reduction = true), invalid);
    assert_eq!(refused(&|p| p.canonical_source = false), invalid);
    assert_eq!(
        refused(&|p| p.groups[1].opening_method = OpeningMethod::EvaluationTrace),
        invalid
    );
    assert_eq!(refused(&|p| p.groups[1].layout.num_polynomials = 1), invalid);
    assert_eq!(refused(&|p| p.stage3 = Some(vec![])), invalid);
    assert_eq!(refused(&|p| p.terminal_state = Some(vec![1])), invalid);
    assert_eq!(refused(&|p| p.next_fold = None), invalid);
    assert_eq!(refused(&|p| p.groups[0].terminal_coefficients = 9), invalid);
    assert_eq!(refused(&|p| p.groups[0].map_dimensions.clear()), invalid);
    assert_eq!(refused(&|p| p.group_order = Ok(vec![0, 2])), invalid);
    assert_eq!(refused(&|_| ()), None);
}

#[test]
fn refusals_of_the_layout_are_passed_on() {
    let refused = |change: &dyn Fn(&mut RootProof<F>, AkitaError)| {
        let mut proof = root();
        change(&mut proof, AkitaError::setup("no layout"));
        verified(&proof, true).err()
    };
    let passed = Some(AkitaError::setup("no layout"));
    assert_eq!(refused(&|p, e| p.batch_refusal = Some(e)), passed);
    assert_eq!(refused(&|p, e| p.relation_refusal = Some(e)), passed);
    assert_eq!(refused(&|p, e| p.claim_refusal = Some(e)), passed);
    assert_eq!(refused(&|p, e| p.group_order = Err(e)), passed);
    assert_eq!(refused(&|p, e| p.witness_len = Err(e)), passed);
    assert_eq!(refused(&|p, e| p.committed_witness_len = Err(e)), passed);
    assert_eq!(
        refused(&|p, e| p.next_fold = Some(NextFold {
            predecessor_setup: SetupContributionMode::Direct,
            transcript_ring_dimension: Err(e),
        })),
        passed
    );
}

type R = CyclotomicRing<F, 2>;

fn r(a: i64, b: i64) -> R {
    R::from_coefficients([f(a), f(b)])
}

#[test]
fn dense_polynomials_are_folded_block_by_block() {
    let poly = DensePoly { coeffs: (1..=8).map(f).collect() };
    assert_eq!(poly.ring_coeffs::<2>().unwrap(), vec![r(1, 2), r(3, 4), r(5, 6), r(7, 8)]);
    assert!(poly.ring_coeffs::<3>().is_err());
    let folded = poly.fold_blocks::<2>(&[f(1), f(10)], 2);
    assert_eq!(folded, vec![r(31, 42), r(75, 86)]);
    let (value, blocks) = poly.evaluate_and_fold::<2>(&[f(2), f(3)], &[f(1), f(10)], 2);
    assert_eq!(blocks, folded);
    assert_eq!(value, r(2 * 31 + 3 * 75, 2 * 42 + 3 * 86));
    let by_rings = poly.fold_blocks_ring::<2>(&vec![r(0, 1), r(1, 0)], 2);
    assert_eq!(by_rings, vec![r(-2 + 3, 1 + 4), r(-6 + 7, 5 + 8)]);
    let points = SubfieldMultiplierOpeningPoint {
        positions: vec![r(1, 0), r(10, 0)],
        blocks: vec![r(2, 0), r(3, 0)],
    };
    assert_eq!(
        poly.evaluate_and_fold_subfield::<2>(&points, 2).unwrap(),
        (value, folded)
    );
}

#[test]
fn wide_digits_hold_representatives_beyond_a_signed_integer() {
    let modulus = Prime128OffsetA7F7::modulus();
    let values = [0, 1, modulus - 1, modulus / 2, modulus / 2 + 1, 12_345, modulus - 98_765, 40_000];
    let poly = DensePoly {
        coeffs: values.map(Prime128OffsetA7F7::from_u128_reduced).to_vec(),
    };
    for (num_digits, log_basis) in [(9, 16), (13, 11), (33, 4)] {
        let params = DecomposeParams { threshold: 0, num_digits, log_basis };
        let challenges = vec![SparseChallenge { positions: vec![0], coeffs: vec![1] }];
        let witness = poly.decompose_fold::<2>(&challenges, 4, params);
        assert_eq!(witness.centered_coeffs.len(), 4 * num_digits);
        let base = Prime128OffsetA7F7::from_u64(1 << log_basis);
        for (at, &value) in values.iter().enumerate() {
            let mut sum = Prime128OffsetA7F7::zero();
            for digit in (0..num_digits).rev() {
                let plane = witness.centered_coeffs[(at / 2) * num_digits + digit];
                assert!(plane[at % 2].abs() <= 1 << (log_basis - 1));
                sum = sum.mul(base).add(Prime128OffsetA7F7::from_i64(i64::from(plane[at % 2])));
            }
            assert_eq!(sum.to_u128(), value);
        }
    }
}

#[test]
fn decomposed_folds_recompose_to_the_folded_blocks() {
    let poly = DensePoly { coeffs: [5, -3, 7, 11, -9, 2, 4, 0].map(f).to_vec() };
    let params = DecomposeParams {
        threshold: PROFILE.modulus() / 2,
        num_digits: 3,
        log_basis: 3,
    };
    let challenges = vec![
        SparseChallenge { positions: vec![0], coeffs: vec![1] },
        SparseChallenge { positions: vec![1], coeffs: vec![-1] },
    ];
    let witness = poly.decompose_fold::<2>(&challenges, 2, params);
    assert_eq!(witness.centered_coeffs.len(), 6);
    let rings = poly.ring_coeffs::<2>().unwrap();
    for position in 0..2 {
        let mut expected = R::zero();
        rings[position].shift_accumulate_into(&mut expected, 0);
        rings[2 + position].shift_sub_into(&mut expected, 1);
        let mut actual = R::zero();
        for digit in 0..3 {
            let scale = F::from_u64(1 << (3 * digit));
            witness.z_folded_rings[3 * position + digit].scale_accumulate_into(&mut actual, scale);
        }
        assert_eq!(actual, expected);
    }
    let largest = witness
        .centered_coeffs
        .iter()
        .flatten()
        .map(|c| c.unsigned_abs() as u64)
        .max();
    assert_eq!(Some(witness.centered_inf_norm), largest);
}

#[test]
fn assignments_are_listed_in_order_without_decreasing() {
    let list = nondecreasing_opening_assignments(&vec!['a', 'b', 'c'], 2);
    let expected = ["aa", "ab", "ac", "bb", "bc", "cc"];
    let words: Vec<String> = list.iter().map(|word| word.iter().collect()).collect();
    assert_eq!(words, expected);
    assert_eq!(nondecreasing_opening_assignments(&vec!['a'], 0), vec![Vec::<char>::new()]);
    assert!(nondecreasing_opening_assignments(&Vec::<char>::new(), 1).is_empty());
}

#[test]
fn groups_with_one_profile_and_policy_form_a_class() {
    let policy = SisSecurityPolicyId::Quantum128BitADPS16;
    let digest = SisTableDigest { high: 0, low: 0 };
    let profile = |vars: usize| GroupCommitPhaseParams {
        version: 1,
        group: PolynomialGroupLayout::new(vars, 1),
        blocks: BlockGeometry::new(4, 2, 2),
        outer_slice_count: CommitmentSliceCount::One,
        inner: InnerRole {
            digits: GadgetDigits::new(3, 2),
            matrix: InnerCommitMatrixParams::new_unchecked(policy, digest, PROFILE, 1, 2, 3, 64),
        },
        outer: OuterRole {
            digits: GadgetDigits::new(3, 2),
            matrix: OuterCommitMatrixParams::new_unchecked(policy, digest, PROFILE, 1, 2, 3, 64),
        },
    };
    let bound = |bound: u128| HonestFoldPolicySpec { kind: 0, bound };
    let profiles = vec![profile(5), profile(6), profile(5), profile(5)];
    let policies = vec![bound(1), bound(1), bound(1), bound(2)];
    assert_eq!(
        precommitted_group_equivalence_classes(&profiles, &policies),
        vec![vec![0, 2], vec![1], vec![3]]
    );
}

#[test]
fn residues_behave_as_integers_modulo_the_prime() {
    assert_eq!(f(-1).to_u128(), 4294967196);
    assert_eq!(f(3).mul(f(-5)), f(-15));
    assert_eq!(f(3).inverse().unwrap().mul(f(3)), F::one());
    assert_eq!(F::zero().inverse(), None);
    assert_eq!(F::modulus(), PROFILE.modulus());
    let big = Prime64Offset59::from_u64(u64::MAX);
    assert_eq!(big, Prime64Offset59::from_u64(58));
}
