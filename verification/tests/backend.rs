//! Ring arithmetic and the kernels of the processor backend.

use akita::compression::{mat_vec_mul_ntt_compression_i8, validate_compression_batch_shape};
use akita::cyclic::{add_cyclic_product_into, half, quotient_from_cyclic_and_negacyclic};
use akita::cyclotomic::CyclotomicRing;
use akita::error::AkitaError;
use akita::family::FixedCapacity;
use akita::field::Field;
use akita::fused::{
    fused_split_eq_quotients, fused_split_eq_quotients_prover_bounds,
    fused_split_eq_quotients_streamed_prover_bounds, CrtProfile, PreparedBase, PreparedNttCache,
};
use akita::prime_field::{
    Prime128Offset275, Prime128OffsetA7F7, Prime32Offset99, Prime64Offset59,
};
use akita::quotients::{
    balanced_digit_abs_bound, centered_rows_within_bound, fused_quotient_digit_bound,
    fused_quotient_matrix_extent, CenteredRhs, FusedMatrixSource, FusedQuotientPlan,
};
use akita::relation::{
    digit_relation_rows, validate_role_shape, CpuBackend, CpuPreparedSetup, NttCacheKey,
    NttOperationCluster, NttTransformDomain, RelationRole, RingSwitchRelationPlan,
    RingSwitchRelationRows, RingSwitchRelationView,
};
use akita::sparse_sampler::SparseSampler;

type F = Prime64Offset59;
const D: usize = 64;
const WIDE: FixedCapacity = FixedCapacity { limit: 1 << 40, tail_limit: 1 << 50 };

fn ring<E: Field, const N: usize>(seed: usize) -> CyclotomicRing<E, N> {
    CyclotomicRing::from_coefficients(std::array::from_fn(|k| {
        E::from_i64(((seed * 7 + k * 3) % 17) as i64 - 8)
    }))
}

fn matrix<E: Field, const N: usize>(len: usize) -> Vec<CyclotomicRing<E, N>> {
    (0..len).map(ring).collect()
}

fn digits<const N: usize>(row: &[i8; N]) -> [i64; N] {
    std::array::from_fn(|k| i64::from(row[k]))
}

fn centered<const N: usize>(row: &[i32; N]) -> [i64; N] {
    std::array::from_fn(|k| i64::from(row[k]))
}

/// The product modulo `X^N - 1` or modulo `X^N + 1`, by the schoolbook.
fn schoolbook<E: Field, const N: usize>(
    left: &CyclotomicRing<E, N>,
    right: &[i64; N],
    wrap: E,
) -> CyclotomicRing<E, N> {
    let mut out = [E::zero(); N];
    for (i, a) in left.coefficients().iter().enumerate() {
        for (j, &b) in right.iter().enumerate() {
            let product = a.mul(E::from_i64(b));
            let at = (i + j) % N;
            let product = if i + j >= N { product.mul(wrap) } else { product };
            out[at] = out[at].add(product);
        }
    }
    CyclotomicRing::from_coefficients(out)
}

/// A matrix row against a vector.
fn row_product<E: Field, const N: usize>(
    row: &[CyclotomicRing<E, N>],
    vector: &[[i64; N]],
    wrap: E,
) -> CyclotomicRing<E, N> {
    let mut out = CyclotomicRing::<E, N>::zero();
    for (left, right) in row.iter().zip(vector) {
        out.add_assign(&schoolbook(left, right, wrap));
    }
    out
}

/// What a product carries over the degree.
fn quotient_product<E: Field, const N: usize>(
    row: &[CyclotomicRing<E, N>],
    vector: &[[i64; N]],
) -> CyclotomicRing<E, N> {
    let mut out = [E::zero(); N];
    for (left, right) in row.iter().zip(vector) {
        for (i, a) in left.coefficients().iter().enumerate() {
            for (j, &b) in right.iter().enumerate() {
                if i + j >= N {
                    out[i + j - N] = out[i + j - N].add(a.mul(E::from_i64(b)));
                }
            }
        }
    }
    CyclotomicRing::from_coefficients(out)
}

fn prepared<E: Field>(len: usize, params: FixedCapacity) -> CpuPreparedSetup<E, FixedCapacity, D> {
    CpuPreparedSetup { matrix: matrix(len), profile: CrtProfile::Q64, params }
}

fn slot<E: Field, const N: usize>(
    list: &[CyclotomicRing<E, N>],
) -> PreparedNttCache<E, FixedCapacity, N> {
    PreparedNttCache {
        base: Some(PreparedBase {
            profile: CrtProfile::Q64,
            params: WIDE,
            negacyclic: Some(list.to_vec()),
            cyclic: Some(list.to_vec()),
        }),
        tail: None,
    }
}

fn backends() -> (CpuBackend, CpuBackend) {
    let scratch = CpuBackend::DEFAULT_COMMIT_SCRATCH_BYTES_PER_WORKER;
    (
        CpuBackend::with_resource_limits(usize::MAX, scratch).unwrap(),
        CpuBackend::with_resource_limits(0, scratch).unwrap(),
    )
}

fn assert_same<E: Field + PartialEq + std::fmt::Debug>(
    a: &RingSwitchRelationRows<E, D>,
    b: &RingSwitchRelationRows<E, D>,
) {
    assert_eq!(a.d_negacyclic, b.d_negacyclic);
    assert_eq!(a.d_cyclic, b.d_cyclic);
    assert_eq!(a.b_cyclic, b.b_cyclic);
    assert_eq!(a.a_quotients, b.a_quotients);
}

#[test]
fn cpu_resource_limits_have_checked_defaults_and_boundaries() {
    let default = CpuBackend::default();
    assert_eq!(
        default.max_cached_ring_switch_elements(),
        CpuBackend::DEFAULT_MAX_CACHED_RING_SWITCH_ELEMENTS
    );
    assert_eq!(
        default.commit_scratch_bytes_per_worker(),
        CpuBackend::DEFAULT_COMMIT_SCRATCH_BYTES_PER_WORKER
    );

    let stream_all =
        CpuBackend::with_resource_limits(0, CpuBackend::DEFAULT_COMMIT_SCRATCH_BYTES_PER_WORKER)
            .unwrap();
    assert!(!stream_all.ntt_operation_uses_cache(NttOperationCluster::RingSwitch, 1));
    assert!(stream_all.ntt_operation_uses_cache(NttOperationCluster::Commit, usize::MAX));

    let retain_all = CpuBackend::with_resource_limits(
        usize::MAX,
        CpuBackend::DEFAULT_COMMIT_SCRATCH_BYTES_PER_WORKER,
    )
    .unwrap();
    assert!(retain_all.ntt_operation_uses_cache(NttOperationCluster::RingSwitch, usize::MAX));
    assert!(CpuBackend::with_resource_limits(1, 0).is_err());
}

#[test]
fn configured_ring_switch_routes_preserve_relation_rows() {
    let (cached_backend, streamed_backend) = backends();
    let setup = prepared::<F>(64, WIDE);
    let e_hat = vec![[1i8; D], [-1i8; D], [1i8; D]];
    let t_hat = vec![[-1i8; D], [3i8; D]];
    let z_segment = vec![[1i32; D], [-2i32; D], [3i32; D], [5i32; D]];
    let source = RingSwitchRelationView {
        e_hat: &e_hat,
        t_hat: &t_hat,
        z_segment: &z_segment,
        z_folded_centered_inf_norm: 5,
    };
    let plan = RingSwitchRelationPlan {
        n_d: 2,
        n_b: 2,
        n_a: 1,
        log_basis_open: 2,
        log_basis_outer: 3,
    };
    let cached = cached_backend.relation_rows(&setup, source, plan).expect("cached relation rows");
    let streamed = streamed_backend
        .relation_rows(&setup, source, plan)
        .expect("streamed relation rows");
    assert_same(&streamed, &cached);
    assert_eq!(cached.d_negacyclic.len(), plan.n_d);

    let e: Vec<_> = e_hat.iter().map(digits).collect();
    let t: Vec<_> = t_hat.iter().map(digits).collect();
    let z: Vec<_> = z_segment.iter().map(centered).collect();
    for row in 0..2 {
        let d = &setup.matrix[row * 3..row * 3 + 3];
        assert_eq!(cached.d_negacyclic[row], row_product(d, &e, F::one().neg()));
        assert_eq!(cached.d_cyclic[row], row_product(d, &e, F::one()));
        let b = &setup.matrix[row * 2..row * 2 + 2];
        assert_eq!(cached.b_cyclic[row], row_product(b, &t, F::one()));
    }
    assert_eq!(cached.a_quotients, vec![quotient_product(&setup.matrix[..4], &z)]);
}

#[test]
fn cpu_ring_switch_relation_rows_use_distinct_open_and_outer_bases() {
    let setup = prepared::<F>(64, WIDE);
    let e_hat = vec![[1i8; D], [-1i8; D]];
    let t_hat = vec![[-1i8; D], [3i8; D]];
    let z_segment = vec![[1i32; D], [-2i32; D], [3i32; D]];
    let via_backend = CpuBackend::default()
        .relation_rows(
            &setup,
            RingSwitchRelationView {
                e_hat: &e_hat,
                t_hat: &t_hat,
                z_segment: &z_segment,
                z_folded_centered_inf_norm: 3,
            },
            RingSwitchRelationPlan {
                n_d: 1,
                n_b: 1,
                n_a: 1,
                log_basis_open: 2,
                log_basis_outer: 3,
            },
        )
        .expect("backend ring-switch relation rows");
    let shared = |domain| {
        let key = NttCacheKey::from_matrix_shape(D, 1, z_segment.len(), domain).unwrap();
        setup.shared_ntt(key).unwrap()
    };
    let direct = fused_split_eq_quotients_prover_bounds(
        &shared(NttTransformDomain::Negacyclic),
        &shared(NttTransformDomain::Cyclic),
        1,
        1,
        &t_hat,
        CenteredRhs::new(&z_segment, 3),
        3,
    )
    .expect("direct fused split-eq rows");
    let e: Vec<_> = e_hat.iter().map(digits).collect();
    let expected_d_negacyclic = vec![row_product(&setup.matrix[..2], &e, F::one().neg())];
    assert_eq!(via_backend.d_negacyclic, expected_d_negacyclic);
    assert_eq!(via_backend.b_cyclic, direct.b_cyclic);
    assert_eq!(via_backend.a_quotients, direct.a_quotients);
}

#[test]
fn configured_ring_switch_routes_reject_malformed_active_roles() {
    let (cached_backend, streamed_backend) = backends();
    let setup = prepared::<F>(64, WIDE);
    let digits = [[1i8; D]];
    let centered = [[1i32; D]];

    let malformed = [
        (
            RingSwitchRelationView {
                e_hat: &[],
                t_hat: &digits,
                z_segment: &[],
                z_folded_centered_inf_norm: 0,
            },
            RingSwitchRelationPlan {
                n_d: 1,
                n_b: 1,
                n_a: 0,
                log_basis_open: 2,
                log_basis_outer: 2,
            },
        ),
        (
            RingSwitchRelationView {
                e_hat: &digits,
                t_hat: &[],
                z_segment: &[],
                z_folded_centered_inf_norm: 0,
            },
            RingSwitchRelationPlan {
                n_d: 1,
                n_b: 1,
                n_a: 0,
                log_basis_open: 2,
                log_basis_outer: 2,
            },
        ),
        (
            RingSwitchRelationView {
                e_hat: &digits,
                t_hat: &[],
                z_segment: &[],
                z_folded_centered_inf_norm: 1,
            },
            RingSwitchRelationPlan {
                n_d: 1,
                n_b: 0,
                n_a: 1,
                log_basis_open: 2,
                log_basis_outer: 2,
            },
        ),
    ];

    for (source, plan) in malformed {
        let streamed = streamed_backend.relation_rows(&setup, source, plan);
        let cached = cached_backend.relation_rows(&setup, source, plan);
        assert!(matches!(streamed, Err(AkitaError::InvalidInput(_))));
        assert!(matches!(cached, Err(AkitaError::InvalidInput(_))));
    }

    let valid_a = RingSwitchRelationView {
        e_hat: &digits,
        t_hat: &digits,
        z_segment: &centered,
        z_folded_centered_inf_norm: 1,
    };
    let valid_plan = RingSwitchRelationPlan {
        n_d: 1,
        n_b: 0,
        n_a: 1,
        log_basis_open: 2,
        log_basis_outer: 2,
    };
    assert_same(
        &streamed_backend.relation_rows(&setup, valid_a, valid_plan).unwrap(),
        &cached_backend.relation_rows(&setup, valid_a, valid_plan).unwrap(),
    );
}

#[test]
fn cached_and_streamed_routes_share_acceptance_across_crt_bounds() {
    type F32 = Prime32Offset99;
    let (cached_backend, streamed_backend) = backends();
    let setup = prepared::<F32>(64, WIDE);
    let z_segment = vec![[1i32; D]; 64];
    let plan = RingSwitchRelationPlan {
        n_d: 0,
        n_b: 0,
        n_a: 1,
        log_basis_open: 1,
        log_basis_outer: 1,
    };
    for centered_bound in [1, 5, u16::MAX as u32, u32::MAX] {
        let source = RingSwitchRelationView {
            e_hat: &[],
            t_hat: &[],
            z_segment: &z_segment,
            z_folded_centered_inf_norm: centered_bound,
        };
        let streamed = streamed_backend.relation_rows(&setup, source, plan);
        let cached = cached_backend.relation_rows(&setup, source, plan);
        assert_eq!(
            streamed.is_ok(),
            cached.is_ok(),
            "route acceptance differs at centered bound {centered_bound}"
        );
        assert_same(&streamed.unwrap(), &cached.unwrap());
    }
}

fn assert_streamed_matches_cached<E: Field + PartialEq + std::fmt::Debug>(
    n_b: usize,
    n_a: usize,
    t_hat: &[[i8; D]],
    z_segment: &[[i32; D]],
    bound: u32,
    log_basis: u32,
    params: FixedCapacity,
) {
    let extent = (n_b * t_hat.len()).max(n_a * z_segment.len());
    let view: Vec<CyclotomicRing<E, D>> = matrix(extent);
    let streamed = fused_split_eq_quotients_streamed_prover_bounds(
        &view, n_b, n_a, t_hat, z_segment, bound, log_basis, &params,
    )
    .expect("streamed rows");
    let mut cache = slot(&view);
    cache.base.as_mut().unwrap().params = params;
    assert!(centered_rows_within_bound(z_segment, z_segment.len(), u64::from(bound)));
    let cached = fused_split_eq_quotients_prover_bounds(
        &cache,
        &cache,
        n_b,
        n_a,
        t_hat,
        CenteredRhs::new(z_segment, bound),
        log_basis,
    )
    .expect("cached rows");
    assert_eq!(streamed.b_cyclic, cached.b_cyclic);
    assert_eq!(streamed.a_quotients, cached.a_quotients);

    let t: Vec<_> = t_hat.iter().map(digits).collect();
    let z: Vec<_> = z_segment.iter().map(centered).collect();
    for row in 0..n_b {
        let b = &view[row * t.len()..(row + 1) * t.len()];
        assert_eq!(streamed.b_cyclic[row], row_product(b, &t, E::one()));
    }
    for row in 0..n_a {
        let a = &view[row * z.len()..(row + 1) * z.len()];
        assert_eq!(streamed.a_quotients[row], quotient_product(a, &z));
    }
}

#[test]
fn streamed_relation_rows_match_cached_kernel() {
    let t_hat = vec![[-1i8; D], [3i8; D]];
    let z_segment = vec![[1i32; D], [-2i32; D], [3i32; D], [5i32; D]];
    assert_streamed_matches_cached::<F>(2, 1, &t_hat, &z_segment, 5, 3, WIDE);
}

#[test]
fn streamed_relation_rows_match_cached_q32_kernel() {
    let t_hat = vec![[-1i8; D], [3i8; D]];
    let z_segment = vec![[1i32; D], [-2i32; D], [3i32; D], [5i32; D]];
    assert_streamed_matches_cached::<Prime32Offset99>(2, 1, &t_hat, &z_segment, 5, 3, WIDE);
}

#[test]
fn cached_and_streamed_reject_the_same_short_matrix_shape() {
    assert!(fused_quotient_matrix_extent(usize::MAX, 2, 0, 0).is_err());

    let (cached_backend, streamed_backend) = backends();
    let setup = prepared::<F>(1, WIDE);
    let e_hat = vec![[1i8; D], [-1i8; D]];
    let source = RingSwitchRelationView {
        e_hat: &e_hat,
        t_hat: &[],
        z_segment: &[],
        z_folded_centered_inf_norm: 0,
    };
    let plan = RingSwitchRelationPlan {
        n_d: 1,
        n_b: 0,
        n_a: 0,
        log_basis_open: 2,
        log_basis_outer: 2,
    };
    assert!(streamed_backend.relation_rows(&setup, source, plan).is_err());
    assert!(cached_backend.relation_rows(&setup, source, plan).is_err());
}

#[test]
fn streamed_chunked_z_quotient_matches_cached_kernel() {
    // The capacity holds fewer terms than there are, so that sums are cut.
    let z_bound = 1u32 << 17;
    let params = FixedCapacity { limit: 5 << 17, tail_limit: 9 << 17 };
    let z_segment: Vec<[i32; D]> = (0..64).map(|i| [(i % 23) - 11; D]).collect();
    assert_streamed_matches_cached::<F>(0, 1, &[], &z_segment, z_bound, 1, params);
}

#[test]
fn streamed_chunked_t_rows_match_cached_kernel() {
    const T_LEN: usize = 512;
    let t_hat = vec![[1i8; D]; T_LEN];
    let z_segment = vec![[1i32; D], [-2i32; D], [3i32; D], [1i32; D]];
    let params = FixedCapacity { limit: 128 * 100, tail_limit: 128 * 200 };
    assert_streamed_matches_cached::<Prime128Offset275>(1, 1, &t_hat, &z_segment, 3, 8, params);
}

#[test]
fn bounds_that_no_sum_holds_are_refused() {
    let view: Vec<CyclotomicRing<F, D>> = matrix(1);
    let tight = FixedCapacity { limit: 4, tail_limit: 4 };
    let refused = fused_split_eq_quotients_streamed_prover_bounds(
        &view,
        1,
        0,
        &[[5i8; D]],
        &[],
        0,
        4,
        &tight,
    );
    assert!(matches!(refused, Err(AkitaError::InvalidSetup(_))));
    let lied = fused_split_eq_quotients_streamed_prover_bounds(
        &view,
        1,
        0,
        &[[5i8; D]],
        &[],
        0,
        3,
        &WIDE,
    );
    assert!(matches!(lied, Err(AkitaError::InvalidInput(_))));
    assert!(matches!(fused_quotient_digit_bound(0), Err(AkitaError::InvalidInput(_))));
    assert_eq!(fused_quotient_digit_bound(3).unwrap(), 4);
    assert_eq!(balanced_digit_abs_bound(8), 128);
}

#[test]
fn centered_rows_take_the_extra_modulus_beyond_the_limit() {
    assert_both_routes_give_the_rows(FixedCapacity { limit: 3, tail_limit: 1 << 30 });
}

#[test]
fn both_routes_accept_bounds_beyond_the_extra_modulus() {
    assert_both_routes_give_the_rows(FixedCapacity { limit: 3, tail_limit: 3 });
}

fn assert_both_routes_give_the_rows(params: FixedCapacity) {
    let (cached_backend, streamed_backend) = backends();
    let setup = prepared::<F>(4, params);
    let z_segment = vec![[4i32; D], [-3i32; D]];
    let source = RingSwitchRelationView {
        e_hat: &[],
        t_hat: &[],
        z_segment: &z_segment,
        z_folded_centered_inf_norm: 4,
    };
    let plan = RingSwitchRelationPlan {
        n_d: 0,
        n_b: 0,
        n_a: 2,
        log_basis_open: 1,
        log_basis_outer: 1,
    };
    let z: Vec<_> = z_segment.iter().map(centered).collect();
    let expected = vec![
        quotient_product(&setup.matrix[..2], &z),
        quotient_product(&setup.matrix[2..], &z),
    ];
    for backend in [cached_backend, streamed_backend] {
        let rows = backend.relation_rows(&setup, source, plan).unwrap();
        assert_eq!(rows.a_quotients, expected);
    }
}

#[test]
fn one_slot_serves_both_products() {
    let view: Vec<CyclotomicRing<F, D>> = matrix(3);
    let rows = fused_split_eq_quotients(&slot(&view), 1, 1, &[[2i8; D]], &[[-7i32; D]], 7).unwrap();
    assert_eq!(rows.b_cyclic, vec![row_product(&view[..1], &[[2i64; D]], F::one())]);
    assert_eq!(rows.a_quotients, vec![quotient_product(&view[..1], &[[-7i64; D]])]);
}

#[test]
fn digit_rows_from_prepared_prefixes_are_the_rows_of_the_matrix() {
    let view: Vec<CyclotomicRing<F, D>> = matrix(4);
    let e_hat = [[1i8; D], [-2i8; D]];
    let cached = digit_relation_rows(
        FusedMatrixSource::Cached { negacyclic: &view, cyclic: &view },
        2,
        &e_hat,
        2,
    )
    .unwrap();
    let direct = digit_relation_rows(FusedMatrixSource::Field(&view), 2, &e_hat, 2).unwrap();
    assert_eq!(cached.negacyclic, direct.negacyclic);
    assert_eq!(cached.cyclic, direct.cyclic);
    let e: Vec<_> = e_hat.iter().map(digits).collect();
    assert_eq!(direct.negacyclic[1], row_product(&view[2..], &e, F::one().neg()));
    assert!(digit_relation_rows(FusedMatrixSource::Field(&view), 2, &e_hat, 1).is_err());
    assert_eq!(
        validate_role_shape(RelationRole::B, 1, 0),
        Err(AkitaError::input("active ring-switch B role must have a nonzero source width"))
    );
    assert!(validate_role_shape(RelationRole::B, 0, 0).is_ok());
}

#[test]
fn cache_keys_join_to_the_longer_prefix() {
    let short = NttCacheKey::from_matrix_shape(D, 2, 3, NttTransformDomain::Cyclic).unwrap();
    let long = NttCacheKey::from_matrix_shape(D, 1, 9, NttTransformDomain::Cyclic).unwrap();
    assert_eq!(short.extent, 6);
    assert_eq!(short.join(long).unwrap(), long);
    assert!(NttCacheKey::from_matrix_shape(D, usize::MAX, 2, NttTransformDomain::Cyclic).is_err());
    let setup = prepared::<F>(8, WIDE);
    assert!(setup.shared_ntt(long).is_err());
    assert!(setup.shared_ntt(short).is_ok());
}

fn assert_compression_batch<E: Field + PartialEq + std::fmt::Debug, const N: usize>() {
    let column_count = 3;
    let list: Vec<CyclotomicRing<E, N>> = matrix(column_count);
    let digit_vectors: Vec<Vec<[i8; N]>> = vec![
        (0..column_count)
            .map(|column| std::array::from_fn(|k| -(((column + k) % 2) as i8)))
            .collect(),
        (0..column_count)
            .map(|column| std::array::from_fn(|k| -(((2 * column + k) % 2) as i8)))
            .collect(),
    ];
    let views: Vec<&[[i8; N]]> = digit_vectors.iter().map(Vec::as_slice).collect();
    let rows = mat_vec_mul_ntt_compression_i8(&slot(&list), column_count, &views)
        .expect("paired compression rows");
    for (row, vector) in rows.iter().zip(&digit_vectors) {
        let v: Vec<_> = vector.iter().map(digits).collect();
        assert_eq!(row.negacyclic, vec![row_product(&list, &v, E::one().neg())]);
        assert_eq!(row.cyclic, vec![row_product(&list, &v, E::one())]);
    }
}

#[test]
fn compression_batch_matches_schoolbook_across_the_rank_one_ladders() {
    assert_compression_batch::<Prime128OffsetA7F7, 8>();
    assert_compression_batch::<Prime128OffsetA7F7, 16>();
    assert_compression_batch::<Prime64Offset59, 16>();
    assert_compression_batch::<Prime64Offset59, 32>();
    assert_compression_batch::<Prime32Offset99, 32>();
    assert_compression_batch::<Prime32Offset99, 64>();
}

#[test]
fn compression_batch_rejects_mixed_shapes_and_non_binary_digits() {
    type E = Prime128OffsetA7F7;
    const N: usize = 8;
    let cache = slot(&[CyclotomicRing::<E, N>::one(); 4]);
    let short = [[0i8; N]; 3];
    let full = [[0i8; N]; 4];
    assert!(validate_compression_batch_shape::<N>(&[]).is_err());
    assert!(validate_compression_batch_shape::<N>(&[&short, &full]).is_err());
    assert!(mat_vec_mul_ntt_compression_i8::<E, FixedCapacity, N>(&cache, 4, &[]).is_err());
    assert!(mat_vec_mul_ntt_compression_i8(&cache, 3, &[&full[..]]).is_err());
    assert_eq!(
        mat_vec_mul_ntt_compression_i8(&cache, 3, &[&full[..]]).err(),
        Some(AkitaError::input("compression digit width 4 does not match requested width 3"))
    );
    assert!(mat_vec_mul_ntt_compression_i8(&cache, 4, &[&short[..], &full[..]]).is_err());

    let outside_binary = [[2i8; N]; 4];
    assert!(mat_vec_mul_ntt_compression_i8(&cache, 4, &[&outside_binary[..]]).is_err());

    let too_wide = [[0i8; N]; 5];
    assert!(mat_vec_mul_ntt_compression_i8(&cache, 5, &[&too_wide[..]]).is_err());
}

#[test]
fn the_backend_compresses_over_its_setup() {
    let setup = prepared::<F>(3, WIDE);
    let vector = [[-1i8; D]; 3];
    let rows = CpuBackend::default().compression_rows_products(&setup, &[&vector[..]]).unwrap();
    let v: Vec<_> = vector.iter().map(digits).collect();
    assert_eq!(rows[0].negacyclic, vec![row_product(&setup.matrix, &v, F::one().neg())]);
    let wide = [[0i8; D]; 4];
    assert!(matches!(
        CpuBackend::default().compression_rows_products(&setup, &[&wide[..]]),
        Err(AkitaError::InvalidSetup(_))
    ));
}

#[test]
fn ring_operations_have_their_schoolbook_values() {
    type R = CyclotomicRing<F, 4>;
    let f = |v: i64| F::from_i64(v);
    let a = R::from_coefficients([f(1), f(2), f(3), f(4)]);
    assert_eq!(a.negacyclic_shift(1), R::from_coefficients([f(-4), f(1), f(2), f(3)]));
    assert_eq!(a.negacyclic_shift(4), a.neg());
    assert_eq!(a.sigma(3), R::from_coefficients([f(1), f(4), f(-3), f(2)]));
    assert_eq!(a.sigma_m1(), R::from_coefficients([f(1), f(-4), f(-3), f(-2)]));
    assert_eq!(a.mul_by_monomial_sum(&[0, 1]), R::from_coefficients([f(-3), f(3), f(5), f(7)]));
    assert_eq!(a.scale(&f(2)), R::from_coefficients([f(2), f(4), f(6), f(8)]));
    let b = R::from_coefficients([f(0), f(1), f(0), f(-1)]);
    let expected = schoolbook(&a, &[0, 1, 0, -1], f(-1));
    let mut dst = R::zero();
    a.mul_accumulate_into(&b, &mut dst);
    assert_eq!(dst, expected);
    let mut sparse = R::zero();
    a.mul_accumulate_sparse_rhs_into(&b, &mut sparse);
    assert_eq!(sparse, expected);
    let mut sum = R::one();
    a.shift_accumulate_into(&mut sum, 1);
    a.shift_sub_into(&mut sum, 1);
    assert_eq!(sum, R::one());
    a.shift_scale_accumulate_into(&mut sum, 2, f(3));
    assert_eq!(sum, R::from_coefficients([f(-8), f(-12), f(3), f(6)]));
    let mut scaled = R::x();
    a.scale_accumulate_into(&mut scaled, f(2));
    assert_eq!(scaled, R::from_coefficients([f(2), f(5), f(6), f(8)]));
    let mut monomials = R::zero();
    a.mul_by_monomial_sum_into(&mut monomials, &[0, 1]);
    assert_eq!(monomials, a.mul_by_monomial_sum(&[0, 1]));
    assert_eq!(a.hamming_weight(), 4);
    assert_eq!(b.hamming_weight(), 2);
    assert!(R::zero().is_zero() && !b.is_zero());
    assert_eq!(R::from_slice(&[f(1), f(2), f(3), f(4)]), a);
    assert_eq!(b.centered_coefficients_i128(), [0, 1, 0, -1]);
}

#[test]
fn powers_of_x_shift_and_automorphisms_multiply_exponents() {
    type R = CyclotomicRing<F, 8>;
    let a: R = ring(3);
    let b: R = ring(5);
    for k in 0..32usize {
        let power = R::one().negacyclic_shift(k);
        let mut product = R::zero();
        a.mul_accumulate_into(&power, &mut product);
        assert_eq!(product, a.negacyclic_shift(k));
        for n in [1usize, 3, 5, 15] {
            assert_eq!(power.sigma(n), R::one().negacyclic_shift(k * n));
        }
    }
    let mut sum = a;
    sum.add_assign(&b);
    let mut images = a.sigma(5);
    images.add_assign(&b.sigma(5));
    assert_eq!(sum.sigma(5), images);
}

#[test]
fn cyclic_and_negacyclic_products_differ_by_twice_the_carry() {
    let a: CyclotomicRing<F, 8> = ring(1);
    let b: CyclotomicRing<F, 8> = ring(2);
    let mut cyclic = CyclotomicRing::zero();
    add_cyclic_product_into(&mut cyclic, &a, &b);
    let mut negacyclic = CyclotomicRing::zero();
    a.mul_accumulate_into(&b, &mut negacyclic);
    let right = b.centered_coefficients_i128().map(|v| v as i64);
    assert_eq!(cyclic, schoolbook(&a, &right, F::one()));
    let quotient = quotient_from_cyclic_and_negacyclic(&cyclic, &negacyclic, half());
    assert_eq!(quotient, quotient_product(&[a], &[right]));
}

#[test]
fn sampled_elements_have_the_weight_that_was_asked_for() {
    let mut sampler = SparseSampler::<F, 8>::new(3);
    let words = [9u64, 1, 17, 4, 15];
    let signs = [0u32, 7, 2];
    let mut used = 0;
    for word in words {
        if sampler.is_done() {
            break;
        }
        if sampler.is_free(word) {
            sampler.place(word, signs[used]);
            used += 1;
        }
    }
    assert!(sampler.is_done());
    let element = sampler.finish();
    assert_eq!(element.hamming_weight(), 3);
    assert_eq!(element.centered_coefficients_i128(), [0, 1, 0, 0, -1, 0, 0, 1]);
}

fn product<const N: usize>(
    a: &CyclotomicRing<F, N>,
    b: &CyclotomicRing<F, N>,
) -> CyclotomicRing<F, N> {
    let mut out = CyclotomicRing::zero();
    a.mul_accumulate_into(b, &mut out);
    out
}

fn sum<const N: usize>(
    a: &CyclotomicRing<F, N>,
    b: &CyclotomicRing<F, N>,
) -> CyclotomicRing<F, N> {
    let mut out = *a;
    out.add_assign(b);
    out
}

#[test]
fn shifts_compose_and_multiply_by_powers() {
    let a = ring::<F, 8>(5);
    assert_eq!(a.negacyclic_shift(3).negacyclic_shift(7), a.negacyclic_shift(10));
    assert_eq!(a.negacyclic_shift(8), a.neg());
    assert_eq!(a.negacyclic_shift(16), a);
    let mut power = CyclotomicRing::<F, 8>::one();
    for k in 0..20 {
        assert_eq!(a.negacyclic_shift(k), product(&a, &power));
        power = product(&power, &CyclotomicRing::x());
    }
}

#[test]
fn automorphisms_are_ring_maps() {
    let (a, b) = (ring::<F, 8>(2), ring::<F, 8>(11));
    let one = CyclotomicRing::<F, 8>::one();
    for j in [1, 3, 5, 7, 15] {
        assert_eq!(product(&a, &b).sigma(j), product(&a.sigma(j), &b.sigma(j)));
        assert_eq!(sum(&a, &b).sigma(j), sum(&a.sigma(j), &b.sigma(j)));
        assert_eq!(one.sigma(j), one);
        for k in [1, 3, 9] {
            assert_eq!(a.sigma(j).sigma(k), a.sigma((j * k) % 16));
        }
    }
    assert_eq!(a.sigma(15).sigma(15), a);
    assert_eq!(a.sigma_m1(), a.sigma(15));
    assert_eq!(CyclotomicRing::<F, 8>::x().sigma(3), one.negacyclic_shift(3));
}

#[test]
fn a_matrix_that_is_too_short_is_refused_with_its_length() {
    let list = matrix::<F, 8>(3);
    let rows: [[i32; 8]; 0] = [];
    let plan = FusedQuotientPlan {
        n_b: 1,
        n_a: 0,
        t_len: 5,
        z_len: 0,
        max_col: 5,
        t_digit_abs_bound: 1,
        z_rhs: CenteredRhs::new(&rows, 0),
        t_chunk_width: None,
        z_chunk_width: None,
        matrix_extent: 5,
    };
    assert_eq!(
        FusedMatrixSource::Field(&list).validate(plan),
        Err(AkitaError::setup("fused quotient cyclic matrix needs 5 elements, got 3"))
    );
}

#[test]
fn sums_of_monomials_multiply() {
    let a = ring::<F, 8>(4);
    let mut sum = CyclotomicRing::<F, 8>::zero();
    for k in [1, 6, 6, 13] {
        sum.add_assign(&CyclotomicRing::one().negacyclic_shift(k));
    }
    assert_eq!(a.mul_by_monomial_sum(&[1, 6, 6, 13]), product(&a, &sum));
}
