//! The grinding plan and its stream of nonces.

use akita::error::AkitaError;
use akita::grinding::{
    grind_bits_for_loss, ring_switch_alpha_loss_factor, GrindingPlan, GrindingPlanAccumulator,
    GrindingRun, GrindingSite, SumcheckProtocol, TranscriptGrindingCost, FOLD_RESPONSE_ATTEMPTS,
    GRINDING_NONCE_SLACK_BITS, MAX_GRINDING_BITS, TRANSCRIPT_GRINDING_QUERY_LIMIT,
};
use akita::nonce_stream::{TranscriptNonceStream, TranscriptNonceWriter};
use akita::params::OpeningMethod;

fn stream_test_plan() -> GrindingPlan {
    GrindingPlan::new(
        vec![
            GrindingRun::proof_of_work(GrindingSite::RingSwitchAlpha { level: 0 }, 2, 128).unwrap(),
            GrindingRun::fold_response(0),
            GrindingRun::proof_of_work(GrindingSite::Tau0Point { level: 0 }, 4, 128).unwrap(),
            GrindingRun::fold_response(1),
        ],
        128,
    )
    .unwrap()
}

fn test_fold_response_nonce(site: GrindingSite) -> u32 {
    site.canonical_bytes()
        .into_iter()
        .fold(0u32, |value, byte| value.wrapping_add(u32::from(byte)))
        % FOLD_RESPONSE_ATTEMPTS
}

fn test_nonce(site: GrindingSite, width: u8) -> u32 {
    let mask = (1u32 << width) - 1;
    site.canonical_bytes()
        .into_iter()
        .fold(u32::default(), |value, byte| {
            value.rotate_left(5) ^ u32::from(byte)
        })
        & mask
}

#[test]
fn nonce_stream_is_little_endian_and_crosses_byte_boundaries() {
    let plan = stream_test_plan();
    let alpha = test_nonce(GrindingSite::RingSwitchAlpha { level: 0 }, 8);
    let first_fold = test_fold_response_nonce(GrindingSite::FoldResponse { level: 0 });
    let tau0 = test_nonce(GrindingSite::Tau0Point { level: 0 }, 9);
    let second_fold = test_fold_response_nonce(GrindingSite::FoldResponse { level: 1 });
    let mut writer = TranscriptNonceWriter::new(&plan).unwrap();
    writer
        .write(GrindingSite::RingSwitchAlpha { level: 0 }, alpha)
        .unwrap();
    writer
        .write(GrindingSite::FoldResponse { level: 0 }, first_fold)
        .unwrap();
    writer
        .write(GrindingSite::Tau0Point { level: 0 }, tau0)
        .unwrap();
    writer
        .write(GrindingSite::FoldResponse { level: 1 }, second_fold)
        .unwrap();
    let stream = writer.finish().unwrap();
    assert_eq!(stream.bit_len(), 41);
    assert_eq!(stream.as_bytes(), &[0x00, 0x04, 0x00, 0xa0, 0x00, 0x00]);

    let mut reader = stream.reader(&plan).unwrap();
    assert_eq!(
        reader
            .read(GrindingSite::RingSwitchAlpha { level: 0 })
            .unwrap(),
        alpha
    );
    assert_eq!(
        reader
            .read(GrindingSite::FoldResponse { level: 0 })
            .unwrap(),
        first_fold
    );
    assert_eq!(
        reader.read(GrindingSite::Tau0Point { level: 0 }).unwrap(),
        tau0
    );
    assert_eq!(
        reader
            .read(GrindingSite::FoldResponse { level: 1 })
            .unwrap(),
        second_fold
    );
    reader.finish().unwrap();
}

#[test]
fn exact_cursor_rejects_omitted_entries_and_checks_fold_width() {
    let plan = stream_test_plan();
    let first_fold_nonce = test_fold_response_nonce(GrindingSite::FoldResponse { level: 0 });
    let second_fold_nonce = test_fold_response_nonce(GrindingSite::FoldResponse { level: 1 });
    let mut writer = TranscriptNonceWriter::new(&plan).unwrap();
    assert!(writer
        .write_fold_response(GrindingSite::FoldResponse { level: 0 }, first_fold_nonce,)
        .is_err());

    let mut writer = TranscriptNonceWriter::new(&plan).unwrap();
    writer
        .write(GrindingSite::RingSwitchAlpha { level: 0 }, u32::default())
        .unwrap();
    writer
        .write_fold_response(GrindingSite::FoldResponse { level: 0 }, first_fold_nonce)
        .unwrap();
    writer
        .write(GrindingSite::Tau0Point { level: 0 }, u32::default())
        .unwrap();
    assert!(writer
        .write_fold_response(
            GrindingSite::FoldResponse { level: 1 },
            FOLD_RESPONSE_ATTEMPTS,
        )
        .is_err());

    let mut writer = TranscriptNonceWriter::new(&plan).unwrap();
    writer
        .write(GrindingSite::RingSwitchAlpha { level: 0 }, u32::default())
        .unwrap();
    writer
        .write_fold_response(GrindingSite::FoldResponse { level: 0 }, first_fold_nonce)
        .unwrap();
    writer
        .write(GrindingSite::Tau0Point { level: 0 }, u32::default())
        .unwrap();
    writer
        .write_fold_response(GrindingSite::FoldResponse { level: 1 }, second_fold_nonce)
        .unwrap();
    let stream = writer.finish().unwrap();

    let mut reader = stream.reader(&plan).unwrap();
    assert!(reader
        .read_fold_response(GrindingSite::FoldResponse { level: 0 })
        .is_err());

    let mut reader = stream.reader(&plan).unwrap();
    assert_eq!(
        reader
            .read(GrindingSite::RingSwitchAlpha { level: 0 })
            .unwrap(),
        0
    );
    assert_eq!(
        reader
            .read_fold_response(GrindingSite::FoldResponse { level: 0 })
            .unwrap(),
        first_fold_nonce
    );
    assert_eq!(
        reader.read(GrindingSite::Tau0Point { level: 0 }).unwrap(),
        0
    );
    assert_eq!(
        reader
            .read_fold_response(GrindingSite::FoldResponse { level: 1 })
            .unwrap(),
        second_fold_nonce
    );
    reader.finish().unwrap();
}

#[test]
fn nonce_stream_packs_max_width_after_an_unaligned_entry() {
    let fold_site = GrindingSite::FoldResponse { level: 0 };
    let pow_site = GrindingSite::RingSwitchAlpha { level: 0 };
    let plan = GrindingPlan::new(
        vec![
            GrindingRun::fold_response(0),
            GrindingRun::proof_of_work(pow_site, 1u64 << MAX_GRINDING_BITS, 128).unwrap(),
        ],
        128,
    )
    .unwrap();
    assert_eq!(plan.runs()[1].nonce_bits(), 32);

    let mut writer = TranscriptNonceWriter::new(&plan).unwrap();
    writer.write_fold_response(fold_site, 0xabc).unwrap();
    writer.write(pow_site, u32::MAX).unwrap();
    let stream = writer.finish().unwrap();
    assert_eq!(stream.bit_len(), 44);
    assert_eq!(stream.as_bytes(), &[0xbc, 0xfa, 0xff, 0xff, 0xff, 0x0f]);

    let mut reader = stream.reader(&plan).unwrap();
    assert_eq!(reader.read_fold_response(fold_site).unwrap(), 0xabc);
    assert_eq!(reader.read(pow_site).unwrap(), u32::MAX);
    reader.finish().unwrap();
}

#[test]
fn nonce_stream_rejects_wrong_length_and_nonzero_padding() {
    assert!(TranscriptNonceStream::from_bytes(vec![0], 9).is_err());
    assert!(TranscriptNonceStream::from_bytes(vec![0, 0x80], 9).is_err());
    assert!(TranscriptNonceStream::from_bytes(vec![0, 1], 9).is_ok());
}

#[test]
fn current_capacity_prices_exact_nominal_loss_bits() {
    for (loss, expected) in [(1, 0), (2, 1), (3, 2), (4, 2), (5, 3), (u64::MAX, 64)] {
        let actual = if expected > u32::from(MAX_GRINDING_BITS) {
            grind_bits_for_loss(loss, 128).expect_err("oversized target")
        } else {
            let actual = grind_bits_for_loss(loss, 128).expect("supported target");
            assert_eq!(u32::from(actual), expected);
            continue;
        };
        assert!(matches!(actual, AkitaError::InvalidSetup(_)));
    }
}

#[test]
fn nominal_security_inequality_holds_for_every_supported_target() {
    let losses = [
        1,
        2,
        3,
        4,
        5,
        (1u64 << (MAX_GRINDING_BITS - 1)) - 1,
        1u64 << (MAX_GRINDING_BITS - 1),
        (1u64 << MAX_GRINDING_BITS) - 1,
        1u64 << MAX_GRINDING_BITS,
    ];
    for loss in losses {
        let grind = grind_bits_for_loss(loss, 128).expect("supported loss");
        assert!(u128::from(loss) <= (1u128 << grind));
    }
}

#[test]
fn nonce_slack_provisions_exactly_128_expected_trials() {
    for grind in 1..=MAX_GRINDING_BITS {
        let nonce_bits = grind + GRINDING_NONCE_SLACK_BITS;
        assert_eq!((1u64 << nonce_bits) / (1u64 << grind), 128);
        let failure = (1.0 - 2f64.powi(-i32::from(grind))).powf(2f64.powi(i32::from(nonce_bits)));
        assert!(failure <= (-128f64).exp());
    }
}

#[test]
fn ring_switch_loss_uses_the_opening_polynomial_dimension() {
    assert_eq!(
        ring_switch_alpha_loss_factor(OpeningMethod::EvaluationTrace, 64).unwrap(),
        127
    );
    assert_eq!(
        ring_switch_alpha_loss_factor(
            OpeningMethod::SubringCoefficientPacking {
                challenge_subring_dimension: 16,
            },
            64,
        )
        .unwrap(),
        31
    );
}

#[test]
fn special_proof_of_work_site_and_reserved_sentinel_are_rejected() {
    assert!(GrindingRun::proof_of_work(GrindingSite::FoldResponse { level: 0 }, 1, 128).is_err());

    let mut underpriced =
        GrindingRun::proof_of_work(GrindingSite::RingSwitchAlpha { level: 0 }, 3, 128).unwrap();
    underpriced.grind_bits = 1;
    underpriced.nonce_bits = 8;
    assert!(GrindingPlan::new(vec![underpriced], 128).is_err());

    let reserved = GrindingRun::proof_of_work(
        GrindingSite::SumcheckRound {
            protocol: SumcheckProtocol::Stage2,
            level: u32::MAX,
            stage: 0,
            round: 0,
        },
        3,
        128,
    )
    .unwrap();
    assert!(GrindingPlan::new(vec![reserved], 128).is_err());
}

#[test]
fn public_plan_rejects_query_limit_without_expanding_runs() {
    let accepted =
        GrindingRun::fold_challenge_group(0, 0, TRANSCRIPT_GRINDING_QUERY_LIMIT - 2).unwrap();
    assert_eq!(
        GrindingPlan::new(vec![accepted], 128)
            .unwrap()
            .expanded_query_count(),
        TRANSCRIPT_GRINDING_QUERY_LIMIT - 1
    );

    let excessive =
        GrindingRun::fold_challenge_group(0, 0, TRANSCRIPT_GRINDING_QUERY_LIMIT - 1).unwrap();
    assert!(matches!(
        GrindingPlan::new(vec![excessive], 128),
        Err(AkitaError::InvalidSetup(_))
    ));
}

#[test]
fn planner_accumulator_prices_an_oversized_edge_without_plan_validation() {
    let run = GrindingRun::fold_challenge_group(0, 0, TRANSCRIPT_GRINDING_QUERY_LIMIT - 1).unwrap();
    let mut accumulator = GrindingPlanAccumulator::new(128).unwrap();
    accumulator.push(run).unwrap();
    assert_eq!(
        accumulator.cost(),
        TranscriptGrindingCost {
            total_nonce_bits: 0,
            expanded_query_count: TRANSCRIPT_GRINDING_QUERY_LIMIT,
        }
    );
}

/// One run for every kind of site, with the totals that they add up to.
#[test]
fn plan_encoding_covers_every_discriminator() {
    let capacity = 128;
    let sites = [
        GrindingSite::EvaluationBatch { level: 0 },
        GrindingSite::ExtensionOpeningPoint { level: 0 },
        GrindingSite::ExtensionOpeningClaimBatch { level: 0 },
        GrindingSite::SumcheckRound {
            protocol: SumcheckProtocol::ExtensionOpeningReduction,
            level: 0,
            stage: 1,
            round: 2,
        },
        GrindingSite::SumcheckRound {
            protocol: SumcheckProtocol::Stage1,
            level: 3,
            stage: 4,
            round: 5,
        },
        GrindingSite::SumcheckRound {
            protocol: SumcheckProtocol::PhysicalL2,
            level: 6,
            stage: 7,
            round: 8,
        },
        GrindingSite::SumcheckRound {
            protocol: SumcheckProtocol::Stage2,
            level: 9,
            stage: 10,
            round: 11,
        },
        GrindingSite::SumcheckRound {
            protocol: SumcheckProtocol::Stage3,
            level: 12,
            stage: 13,
            round: 14,
        },
        GrindingSite::RingSwitchAlpha { level: 1 },
        GrindingSite::Tau0Point { level: 1 },
        GrindingSite::Tau1Point { level: 1 },
        GrindingSite::Stage1InterstageBatch { level: 1, stage: 2 },
        GrindingSite::L2SubclaimBatch { level: 1 },
        GrindingSite::L2NormMerge { level: 1 },
        GrindingSite::L2VirtualBatch { level: 1 },
        GrindingSite::CompressionBinary { level: 1 },
        GrindingSite::Stage2Batch { level: 1 },
    ];
    let mut runs = sites
        .iter()
        .map(|&site| GrindingRun::proof_of_work(site, 3, capacity).unwrap())
        .collect::<Vec<_>>();
    runs.push(GrindingRun::fold_response(2));
    runs.push(GrindingRun::fold_challenge_group(2, 3, 4).unwrap());
    let plan = GrindingPlan::new(runs, capacity).unwrap();
    assert_eq!(plan.expanded_query_count(), 23);
    assert_eq!(plan.total_nonce_bits(), 17 * 9 + 12);

    for (i, a) in plan.runs().iter().enumerate() {
        for b in &plan.runs()[i + 1..] {
            assert_ne!(a.site.canonical_bytes(), b.site.canonical_bytes());
        }
    }
}

#[test]
fn site_bytes_hold_the_kind_the_level_and_the_detail() {
    let site = GrindingSite::SumcheckRound {
        protocol: SumcheckProtocol::PhysicalL2,
        level: 0x0102,
        stage: 3,
        round: 0x04000000,
    };
    assert_eq!(
        site.canonical_bytes(),
        vec![3, 2, 1, 0, 0, 2, 3, 0, 0, 0, 0, 0, 0, 4]
    );
    assert_eq!(
        GrindingSite::FoldResponse { level: 7 }.canonical_bytes(),
        vec![4, 7, 0, 0, 0]
    );
}

#[test]
fn a_field_below_the_target_is_made_up_for_by_work() {
    assert_eq!(grind_bits_for_loss(1, 127).unwrap(), 1);
    assert_eq!(grind_bits_for_loss(3, 120).unwrap(), 10);
    assert_eq!(grind_bits_for_loss(1, 200).unwrap(), 0);
    assert!(grind_bits_for_loss(0, 128).is_err());
    let run = GrindingRun::proof_of_work(GrindingSite::Tau0Point { level: 0 }, 1, 127).unwrap();
    assert_eq!((run.grind_bits(), run.nonce_bits()), (1, 8));
    let free = GrindingRun::proof_of_work(GrindingSite::Tau0Point { level: 0 }, 1, 128).unwrap();
    assert_eq!((free.grind_bits(), free.nonce_bits()), (0, 0));
    assert!(matches!(
        GrindingPlanAccumulator::new(102),
        Err(AkitaError::InvalidSetup(_))
    ));
    assert!(GrindingPlanAccumulator::new(103).is_ok());
}

#[test]
fn a_refused_run_leaves_the_accumulator_as_it_was() {
    let mut accumulator = GrindingPlanAccumulator::new(128).unwrap();
    accumulator.push(GrindingRun::fold_response(0)).unwrap();
    let before = accumulator.cost();
    let mut wide = GrindingRun::fold_response(1);
    wide.nonce_bits = 13;
    assert!(matches!(accumulator.push(wide), Err(AkitaError::InvalidSetup(_))));
    let huge = GrindingRun::fold_challenge_group(0, 0, u64::MAX - 1).unwrap();
    assert!(matches!(accumulator.push(huge), Err(AkitaError::InvalidSetup(_))));
    assert_eq!(accumulator.cost(), before);
    assert!(GrindingRun::fold_challenge_group(0, 0, u64::MAX).is_err());
}

#[test]
fn sites_without_a_nonce_are_passed_over() {
    let free = GrindingSite::Tau1Point { level: 0 };
    let paid = GrindingSite::Tau0Point { level: 0 };
    let plan = GrindingPlan::new(
        vec![
            GrindingRun::proof_of_work(free, 1, 128).unwrap(),
            GrindingRun::proof_of_work(paid, 2, 128).unwrap(),
            GrindingRun::fold_challenge_group(0, 0, 9).unwrap(),
        ],
        128,
    )
    .unwrap();
    let mut writer = TranscriptNonceWriter::new(&plan).unwrap();
    assert!(writer.write(free, 0).is_err());
    assert!(writer.write(paid, 256).is_err());
    writer.write(paid, 255).unwrap();
    assert!(writer.write(paid, 1).is_err());
    let stream = writer.finish().unwrap();
    assert_eq!(stream.as_bytes(), &[0xff]);
    let mut reader = stream.reader(&plan).unwrap();
    assert!(reader.finish().is_err());
    assert_eq!(reader.read(paid).unwrap(), 255);
    reader.finish().unwrap();

    let unfinished = TranscriptNonceWriter::new(&plan).unwrap();
    assert!(matches!(unfinished.finish(), Err(AkitaError::InvalidInput(_))));
    let other = TranscriptNonceStream::from_bytes(vec![0, 0], 9).unwrap();
    assert!(matches!(other.reader(&plan), Err(AkitaError::InvalidProof)));
}

#[test]
fn ring_switch_loss_rejects_an_empty_polynomial() {
    assert!(matches!(
        ring_switch_alpha_loss_factor(OpeningMethod::EvaluationTrace, 0),
        Err(AkitaError::InvalidSetup(_))
    ));
    assert_eq!(
        ring_switch_alpha_loss_factor(OpeningMethod::EvaluationTrace, 1).unwrap(),
        1
    );
}
