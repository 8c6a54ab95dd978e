//! Packed proof costs, layout scores and dimension domains.

use akita::error::AkitaError;
use akita::grinding::TRANSCRIPT_GRINDING_QUERY_LIMIT;
use akita::params::CommitmentRingDims;
use akita::proof_cost::{layout_candidate_score, PackedProofCost, RingDimensionSearchDomain};

fn exhaustive_parent_alignment_cmp(
    left: PackedProofCost,
    right: PackedProofCost,
    compare: impl Fn(usize, usize) -> bool,
) -> bool {
    (0..8).all(|parent_remainder| {
        left.checked_proof_bytes_with_parent_remainder(parent_remainder)
            .zip(right.checked_proof_bytes_with_parent_remainder(parent_remainder))
            .is_some_and(|(left, right)| compare(left, right))
    })
}

#[test]
fn packed_proof_cost_alignment_order_matches_exhaustive_comparison() {
    let mut costs = Vec::new();
    for payload_bytes in 0..=3 {
        for nonce_bits in 0..=24 {
            costs.push(PackedProofCost::new(payload_bytes, nonce_bits, 0).unwrap());
        }
    }
    costs.push(PackedProofCost::new(usize::MAX, 0, 0).unwrap());

    for &left in &costs {
        for &right in &costs {
            assert_eq!(
                left.never_worse_for_every_parent(right),
                exhaustive_parent_alignment_cmp(left, right, |left, right| left <= right),
            );
            assert_eq!(
                left.strictly_better_for_every_parent(right),
                exhaustive_parent_alignment_cmp(left, right, |left, right| left < right),
            );
        }
    }
}

#[test]
fn packed_proof_cost_rejects_only_query_budget_exhaustion() {
    let limit = TRANSCRIPT_GRINDING_QUERY_LIMIT;
    let empty = PackedProofCost::new(0, 0, 0).unwrap();
    assert_eq!(empty.checked_prepend(0, 0, limit).unwrap(), None);

    let individually_valid_suffix = PackedProofCost::new(0, 0, limit - 2).unwrap();
    assert_eq!(
        individually_valid_suffix.checked_prepend(0, 0, 2).unwrap(),
        None,
        "two individually valid edge totals can exhaust the complete budget"
    );
    assert!(matches!(
        individually_valid_suffix.checked_prepend(0, 0, u64::MAX),
        Err(AkitaError::InvalidSetup(_))
    ));
    assert!(matches!(
        PackedProofCost::new(usize::MAX, 0, 0)
            .unwrap()
            .checked_prepend(1, 0, limit),
        Err(AkitaError::InvalidSetup(_))
    ));
}

#[test]
fn oversized_candidate_is_skipped_while_valid_alternative_is_retained() {
    let limit = TRANSCRIPT_GRINDING_QUERY_LIMIT;
    let suffix = PackedProofCost::new(0, 0, 0).unwrap();
    let selected = [(10, limit), (20, 1)]
        .into_iter()
        .filter_map(|(payload_bytes, queries)| {
            suffix.checked_prepend(payload_bytes, 0, queries).unwrap()
        })
        .min_by_key(|cost| cost.proof_bytes());

    assert_eq!(selected, Some(PackedProofCost::new(20, 0, 1).unwrap()));
    assert!([limit, limit + 1]
        .into_iter()
        .all(|queries| suffix.checked_prepend(0, 0, queries).unwrap().is_none()));
}

#[test]
fn packed_proof_cost_dominance_requires_no_more_queries() {
    let smaller_proof_more_queries = PackedProofCost::new(9, 0, 11).unwrap();
    let larger_proof_fewer_queries = PackedProofCost::new(10, 0, 10).unwrap();

    assert!(!smaller_proof_more_queries.never_worse_for_every_parent(larger_proof_fewer_queries));
    assert!(
        !smaller_proof_more_queries.strictly_better_for_every_parent(larger_proof_fewer_queries)
    );
    assert!(!larger_proof_fewer_queries.never_worse_for_every_parent(smaller_proof_more_queries));
}

#[test]
fn dyadic_chunk_geometry_prices_exact_work_and_residual_imbalance() {
    assert_eq!(
        layout_candidate_score(100, 13, 4).unwrap(),
        (127, 100, 13, 1)
    );
    assert_eq!(
        layout_candidate_score(100, 12, 4).unwrap(),
        (124, 100, 12, 0)
    );
    assert_eq!(layout_candidate_score(100, 4, 8).unwrap(), (109, 100, 4, 1));
    for (blocks, chunks) in [(0, 1), (8, 0), (8, 3), (8, 128)] {
        assert!(layout_candidate_score(100, blocks, chunks).is_err());
    }
}

#[test]
fn ring_dimension_domain_is_canonical_and_rejects_invalid_carriers() {
    let domain = RingDimensionSearchDomain::new(vec![
        CommitmentRingDims {
            inner: 128,
            outer: 64,
            opening: 64,
        },
        CommitmentRingDims::uniform(64),
        CommitmentRingDims {
            inner: 128,
            outer: 64,
            opening: 64,
        },
    ])
    .unwrap();
    assert_eq!(
        domain.candidates(),
        &[
            CommitmentRingDims::uniform(64),
            CommitmentRingDims {
                inner: 128,
                outer: 64,
                opening: 64
            },
        ]
    );
    assert!(RingDimensionSearchDomain::new(vec![CommitmentRingDims {
        inner: 64,
        outer: 128,
        opening: 64
    }])
    .is_err());
    assert!(RingDimensionSearchDomain::new(vec![CommitmentRingDims::uniform(256)]).is_ok());
}

#[test]
fn dominance_survives_a_common_parent() {
    let light = PackedProofCost::new(1, 9, 0).unwrap();
    let heavy = PackedProofCost::new(2, 12, 0).unwrap();
    assert!(light.never_worse_for_every_parent(heavy));
    for nonce_bits in 0..32 {
        let a = light.checked_prepend(7, nonce_bits, 3).unwrap().unwrap();
        let b = heavy.checked_prepend(7, nonce_bits, 3).unwrap().unwrap();
        assert!(a.proof_bytes() <= b.proof_bytes());
        assert!(a.never_worse_for_every_parent(b));
    }
}

#[test]
fn proof_bytes_round_nonces_up() {
    assert_eq!(PackedProofCost::new(10, 0, 0).unwrap().proof_bytes(), 10);
    assert_eq!(PackedProofCost::new(10, 1, 0).unwrap().proof_bytes(), 11);
    assert_eq!(PackedProofCost::new(10, 8, 0).unwrap().proof_bytes(), 11);
    assert_eq!(PackedProofCost::new(10, 9, 0).unwrap().proof_bytes(), 12);
    assert!(matches!(
        PackedProofCost::new(usize::MAX, 1, 0),
        Err(AkitaError::InvalidSetup(_))
    ));
    assert!(matches!(
        PackedProofCost::new(0, 0, TRANSCRIPT_GRINDING_QUERY_LIMIT),
        Err(AkitaError::InvalidSetup(_))
    ));
    let cost = PackedProofCost::new(usize::MAX, 0, 0).unwrap();
    assert_eq!(cost.checked_proof_bytes_with_parent_remainder(0), Some(usize::MAX));
    assert_eq!(cost.checked_proof_bytes_with_parent_remainder(1), None);
}

#[test]
fn dimension_domains_do_not_depend_on_the_order_of_their_triples() {
    let triples = [
        CommitmentRingDims { inner: 64, outer: 32, opening: 64 },
        CommitmentRingDims { inner: 64, outer: 64, opening: 32 },
        CommitmentRingDims { inner: 32, outer: 32, opening: 32 },
    ];
    let forward = RingDimensionSearchDomain::new(triples.to_vec()).unwrap();
    let mut reversed = triples.to_vec();
    reversed.reverse();
    assert_eq!(forward, RingDimensionSearchDomain::new(reversed).unwrap());
    assert_eq!(forward.candidates(), &[triples[2], triples[0], triples[1]]);
    assert!(RingDimensionSearchDomain::new(vec![]).is_err());
    assert!(RingDimensionSearchDomain::new(vec![CommitmentRingDims::uniform(48)]).is_err());
}
