//! Equality polynomials, split tables and the factored sumcheck.

use akita::eq_poly::{eq_factor, EqPolynomial, SplitEqEvals, MAX_MATERIALIZED_EQ_TABLE_BYTES};
use akita::error::AkitaError;
use akita::field::Field;
use akita::prime_field::{Prime128Offset275, Prime32Offset99, PrimeField};
use akita::quadratic::Ext2;
use akita::split_eq::GruenSplitEq;
use akita::uni_poly::UniPoly;

type F = PrimeField<4294967197>;
type G = Prime128Offset275;

/// A stream of words to make points from.
struct Words(u64);

impl Words {
    fn next(&mut self) -> u64 {
        self.0 = self
            .0
            .wrapping_mul(6364136223846793005)
            .wrapping_add(1442695040888963407);
        self.0 ^ (self.0 >> 29)
    }

    fn point<E: Field>(&mut self, n: usize) -> Vec<E> {
        (0..n).map(|_| E::from_u64(self.next())).collect()
    }
}

fn assert_eq_factor_identity<E: Field + std::fmt::Debug + PartialEq>(values: &[E]) {
    for &x in values {
        for &y in values {
            let expected = x.mul(y).add(E::one().sub(x).mul(E::one().sub(y)));
            assert_eq!(eq_factor(x, y), expected, "x={x:?}, y={y:?}");
        }
    }
}

#[test]
fn equality_factor_matches_definition_over_base_and_extension_fields() {
    let base_values = [
        Prime32Offset99::zero(),
        Prime32Offset99::one(),
        Prime32Offset99::from_u64(2),
        Prime32Offset99::from_i64(-7),
    ];
    assert_eq_factor_identity(&base_values);

    let extension_values = [
        Ext2::new(base_values[0], base_values[0]),
        Ext2::new(base_values[1], base_values[0]),
        Ext2::new(base_values[2], base_values[3]),
        Ext2::new(base_values[3], base_values[2]),
    ];
    assert_eq_factor_identity(&extension_values);
}

#[test]
fn extension_values_multiply_by_the_square_of_the_generator() {
    let pair = |a: i64, b: i64| {
        Ext2::new(Prime32Offset99::from_i64(a), Prime32Offset99::from_i64(b))
    };
    assert_eq!(pair(3, 5).mul(pair(-2, 7)), pair(64, 11));
    assert_eq!(pair(3, 5).add(pair(-2, 7)), pair(1, 12));
    assert_eq!(pair(3, 5).sub(pair(-2, 7)), pair(5, -2));
    assert_eq!(pair(3, 5).neg(), pair(-3, -5));
    let inverse = pair(3, 5).inverse().unwrap();
    assert_eq!(pair(3, 5).mul(inverse), Ext2::one());
    assert!(pair(0, 0).inverse().is_none());
    assert!(pair(0, 0).is_zero() && !pair(0, 1).is_zero());
    assert_eq!(Ext2::from_i64(-4), pair(-4, 0));
    // Six squares to two modulo seventeen, so some values have no inverse.
    type Split = PrimeField<17>;
    let divisor = Ext2::new(Split::from_u64(6), Split::from_i64(-1));
    assert!(divisor.inverse().is_none());
}

#[test]
fn evals_matches_mle_pointwise() {
    let mut rng = Words(0xEE);
    for n in 1..8 {
        let r: Vec<F> = rng.point(n);
        let table = EqPolynomial::evals(&r).unwrap();
        assert_eq!(table.len(), 1 << n);
        for (idx, &val) in table.iter().enumerate() {
            let bits: Vec<F> = (0..n)
                .map(|k| {
                    if (idx >> k) & 1 == 1 {
                        F::one()
                    } else {
                        F::zero()
                    }
                })
                .collect();
            let expected = EqPolynomial::mle(&r, &bits).unwrap();
            assert_eq!(val, expected, "n={n} idx={idx}");
        }
    }
}

#[test]
fn evals_with_scaling_scales_uniformly() {
    let mut rng = Words(0xAB);
    let r: Vec<F> = rng.point(5);
    let scale = F::from_u64(7);
    let unscaled = EqPolynomial::evals(&r).unwrap();
    let scaled = EqPolynomial::evals_with_scaling(&r, Some(scale)).unwrap();
    for (u, s) in unscaled.iter().zip(scaled.iter()) {
        assert_eq!(*s, u.mul(scale));
    }
}

#[test]
fn prefix_sum_matches_materialized_prefixes() {
    let mut rng = Words(0xC0DF);
    for n in 0..9 {
        let r: Vec<F> = rng.point(n);
        let table = EqPolynomial::evals(&r).unwrap();
        let mut expected = F::zero();
        for len in 0..=table.len() {
            assert_eq!(EqPolynomial::prefix_sum(&r, len).unwrap(), expected);
            if let Some(value) = table.get(len) {
                expected = expected.add(*value);
            }
        }
        assert!(EqPolynomial::prefix_sum(&r, table.len() + 1).is_err());
    }
}

#[test]
fn split_eq_evals_factorizes_full_table() {
    let mut rng = Words(0x5917);
    for n in 0..9 {
        let r: Vec<F> = rng.point(n);
        let full = EqPolynomial::evals(&r).unwrap();
        let split = SplitEqEvals::new(&r).unwrap();
        assert_eq!(split.in_len() * split.out_len(), full.len(), "n={n}");
        let in_len = split.in_len();
        for x_out in 0..split.out_len() {
            for x_in in 0..in_len {
                let idx = x_out * in_len + x_in;
                assert_eq!(
                    split.e_out[x_out].mul(split.e_in[x_in]),
                    full[idx],
                    "n={n} x_out={x_out} x_in={x_in}"
                );
            }
        }
    }
}

#[test]
fn split_eq_evals_supports_sparse_lookup() {
    let mut rng = Words(0x5EED);
    let point: Vec<F> = rng.point(17);
    let split = SplitEqEvals::new(&point).unwrap();
    assert_eq!(split.len(), 1 << point.len());
    for index in [0, 1, 127, 1 << 16, (1 << 17) - 1] {
        let bits: Vec<F> = (0..point.len())
            .map(|bit| F::from_u64(((index >> bit) & 1) as u64))
            .collect();
        assert_eq!(
            split.eval_at(index).unwrap(),
            EqPolynomial::mle(&point, &bits).unwrap()
        );
    }
    assert!(split.eval_at(split.len()).is_err());
}

#[test]
fn evals_cached_last_matches_evals() {
    let mut rng = Words(0xCD);
    for n in 1..8 {
        let r: Vec<F> = rng.point(n);
        let table = EqPolynomial::evals(&r).unwrap();
        let cached = EqPolynomial::evals_cached(&r).unwrap();
        assert_eq!(cached.len(), n + 1);
        assert_eq!(cached[0], vec![F::one()]);
        assert_eq!(*cached.last().unwrap(), table);
    }
}

#[test]
fn evals_mapped_matches_evals_then_map_for_small_tables() {
    let mut rng = Words(0xA11C_E5A1);
    for n in 0..8 {
        let point: Vec<F> = rng.point(n);
        let map = |value: F| value.mul(value).add(F::from_u64(17));
        let expected = EqPolynomial::evals(&point)
            .unwrap()
            .into_iter()
            .map(map)
            .collect::<Vec<_>>();
        assert_eq!(EqPolynomial::evals_mapped(&point, &map).unwrap(), expected);
    }
}

#[test]
fn evals_rejects_tables_over_materialized_budget() {
    let max_entries = MAX_MATERIALIZED_EQ_TABLE_BYTES / std::mem::size_of::<F>().max(1);
    EqPolynomial::<F>::check_element_budget("test eq table", max_entries).unwrap();
    assert!(EqPolynomial::<F>::check_element_budget("test eq table", max_entries + 1).is_err());
}

#[test]
fn evals_cached_rejects_total_layer_budget_overflow() {
    let max_entries = MAX_MATERIALIZED_EQ_TABLE_BYTES / std::mem::size_of::<F>().max(1);
    let mut final_len = 1usize;
    let mut vars = 0usize;
    loop {
        let total_len = final_len
            .checked_mul(2)
            .and_then(|len| len.checked_sub(1))
            .unwrap();
        if total_len > max_entries {
            break;
        }
        final_len = final_len.checked_mul(2).unwrap();
        vars += 1;
    }
    let r = vec![F::one(); vars];
    assert!(EqPolynomial::<F>::evals_cached(&r).is_err());
}

#[test]
fn zero_selector_matches_mle_at_origin() {
    let mut rng = Words(0x00);
    for n in 1..8 {
        let r: Vec<F> = rng.point(n);
        let zeros = vec![F::zero(); n];
        let expected = EqPolynomial::mle(&r, &zeros).unwrap();
        let actual = EqPolynomial::zero_selector(&r);
        assert_eq!(actual, expected, "n={n}");
    }
}

#[test]
fn evals_parallel_matches_serial() {
    let mut rng = Words(0xFF);
    for n in 1..20 {
        let r: Vec<F> = rng.point(n);
        let serial = EqPolynomial::evals_serial(&r, None).unwrap();
        let parallel = EqPolynomial::evals_parallel(&r, None).unwrap();
        assert_eq!(serial, parallel, "n={n}");
    }
}

#[test]
fn mapped_parallel_paths_match_serial_table_order() {
    let mut rng = Words(0xA11C_E5AB);
    for n in [13, 14, 15, 16, 17] {
        let point: Vec<F> = rng.point(n);
        let map = |value: F| value.mul(value).add(F::from_u64(17));
        let expected = EqPolynomial::evals_serial(&point, None)
            .unwrap()
            .into_iter()
            .map(map)
            .collect::<Vec<_>>();
        let pool = rayon::ThreadPoolBuilder::new()
            .num_threads(2)
            .build()
            .unwrap();
        let actual = pool
            .install(|| EqPolynomial::evals_mapped(&point, &map))
            .unwrap();
        assert_eq!(actual, expected, "n={n}");
    }
}

#[test]
fn small_table_has_its_exact_entries() {
    let r = [F::from_u64(3), F::from_u64(5)];
    let table = EqPolynomial::evals(&r).unwrap();
    assert_eq!(
        table,
        vec![
            F::from_i64(8),
            F::from_i64(-12),
            F::from_i64(-10),
            F::from_i64(15),
        ]
    );
    assert_eq!(EqPolynomial::zero_selector(&r), F::from_u64(8));
    assert_eq!(EqPolynomial::evals_prefix(&r, 3).unwrap(), table[..3].to_vec());
    assert_eq!(EqPolynomial::split_lagrange_parent(F::from_u64(4), F::from_u64(3)), (
        F::from_i64(-8),
        F::from_u64(12),
    ));
    assert_eq!(
        EqPolynomial::mle(&r, &r[..1]),
        Err(AkitaError::InvalidSize { expected: 2, actual: 1 })
    );
}

/// Binds the first variable of a table.
fn fold_evals_in_place(evals: &mut Vec<G>, r: G) {
    let half = evals.len() / 2;
    for i in 0..half {
        let low = evals[2 * i];
        let high = evals[2 * i + 1];
        evals[i] = low.add(r.mul(high.sub(low)));
    }
    evals.truncate(half);
}

#[test]
fn gruen_eq_matches_full_eq_table() {
    let mut rng = Words(0xBB);
    for n in 1..10 {
        let tau: Vec<G> = rng.point(n);
        let mut full_eq = EqPolynomial::evals(&tau).unwrap();
        let mut split_eq = GruenSplitEq::new(&tau).unwrap();

        for _round in 0..n {
            let half = full_eq.len() / 2;
            let (e_first, e_second) = split_eq.remaining_eq_tables();
            let num_first = e_first.len();

            for j in 0..half {
                let j_low = j & (num_first - 1);
                let j_high = j >> num_first.trailing_zeros();
                let eq_rem = e_first[j_low].mul(e_second[j_high]);

                let tau_k = split_eq.current_tau();
                let scalar = split_eq.current_scalar();
                let eq_0 = scalar.mul(G::one().sub(tau_k)).mul(eq_rem);
                let eq_1 = scalar.mul(tau_k).mul(eq_rem);

                assert_eq!(eq_0, full_eq[2 * j], "n={n} round={_round} j={j} eq_0");
                assert_eq!(eq_1, full_eq[2 * j + 1], "n={n} round={_round} j={j} eq_1");
            }

            let r = G::from_u64(rng.next());
            fold_evals_in_place(&mut full_eq, r);
            split_eq.bind(r);
        }
    }
}

#[test]
fn gruen_mul_matches_direct_product() {
    let mut rng = Words(0xCC);
    let tau: Vec<G> = rng.point(5);
    let split_eq = GruenSplitEq::new(&tau).unwrap();

    let q = UniPoly::from_coeffs(vec![G::from_u64(3), G::from_u64(7), G::from_u64(2)]);
    let s = split_eq.gruen_mul(&q);

    let tau_k = split_eq.current_tau();
    let scalar = split_eq.current_scalar();
    for t in 0..10u64 {
        let x = G::from_u64(t);
        let one_minus = G::one().sub(tau_k).mul(G::one().sub(x));
        let l_x = scalar.mul(tau_k.mul(x).add(one_minus));
        let q_x = q.evaluate(x);
        assert_eq!(s.evaluate(x), l_x.mul(q_x), "t={t}");
    }
}

#[test]
fn recover_round_poly_from_coeffs_except_linear() {
    let mut rng = Words(0xCD);
    let mut tau: Vec<G> = rng.point(5);
    if tau[0].is_zero() {
        tau[0] = G::one();
    }
    let split_eq = GruenSplitEq::new(&tau).unwrap();

    let q = UniPoly::from_coeffs(vec![
        G::from_u64(3),
        G::from_u64(7),
        G::from_u64(11),
        G::from_u64(2),
    ]);
    let s = split_eq.gruen_mul(&q);
    let q_except_linear = vec![q.coeffs[0], q.coeffs[2], q.coeffs[3]];
    let previous_claim = s.evaluate(G::zero()).add(s.evaluate(G::one()));

    let recovered = split_eq
        .try_gruen_poly_from_coeffs_except_linear(&q_except_linear, previous_claim)
        .expect("tau_0 is nonzero, so q(1) is recoverable");

    assert_eq!(recovered, s);
}

#[test]
fn recover_quadratic_round_poly_from_claim() {
    let mut rng = Words(0xCE);
    let mut tau: Vec<G> = rng.point(4);
    if tau[0].is_zero() {
        tau[0] = G::one();
    }
    let split_eq = GruenSplitEq::new(&tau).unwrap();

    let q = UniPoly::from_coeffs(vec![G::from_u64(5), G::from_u64(9), G::from_u64(4)]);
    let s = split_eq.gruen_mul(&q);
    let previous_claim = s.evaluate(G::zero()).add(s.evaluate(G::one()));

    let recovered = split_eq
        .try_gruen_poly_deg_3(q.coeffs[0], q.coeffs[2], previous_claim)
        .expect("tau_0 is nonzero, so q(1) is recoverable");

    assert_eq!(recovered, s);
}

#[test]
fn a_vanishing_coordinate_leaves_the_linear_term_open() {
    let tau = [G::zero(), G::from_u64(2)];
    let split_eq = GruenSplitEq::new(&tau).unwrap();
    assert!(!split_eq.can_recover_linear_q_term_from_claim());
    assert!(split_eq
        .try_gruen_poly_deg_3(G::one(), G::one(), G::one())
        .is_none());
    let scaled = GruenSplitEq::with_initial_scalar(&tau, G::from_u64(9)).unwrap();
    assert_eq!(scaled.current_scalar(), G::from_u64(9));
    assert_eq!(scaled.linear_factor_evals(), (G::from_u64(9), G::zero()));

    let gone = GruenSplitEq::with_initial_scalar(&[G::from_u64(3)], G::zero()).unwrap();
    assert!(!gone.can_recover_linear_q_term_from_claim());
    assert!(gone.try_gruen_poly_deg_3(G::one(), G::one(), G::zero()).is_none());
    assert!(gone
        .try_gruen_poly_from_coeffs_except_linear(&[], G::zero())
        .is_none());
}

#[test]
fn cached_layers_are_the_tables_of_the_prefixes() {
    let r: Vec<F> = Words(77).point(5);
    let cached = EqPolynomial::evals_cached(&r).unwrap();
    assert_eq!(cached.len(), 6);
    for (j, layer) in cached.iter().enumerate() {
        assert_eq!(*layer, EqPolynomial::evals(&r[..j]).unwrap());
    }
    let suffixes = EqPolynomial::suffix_tables(&r).unwrap();
    for (j, layer) in suffixes.iter().enumerate() {
        assert_eq!(*layer, EqPolynomial::evals(&r[r.len() - j..]).unwrap());
    }
}

#[test]
fn factors_sum_to_the_scalar_and_a_round_meets_any_claim() {
    let tau: Vec<G> = Words(5).point(3);
    let split_eq = GruenSplitEq::with_initial_scalar(&tau, G::from_u64(11)).unwrap();
    let (l0, l1) = split_eq.linear_factor_evals();
    assert_eq!(l0.add(l1), split_eq.current_scalar());
    assert!(split_eq.can_recover_linear_q_term_from_claim());
    for claim in [G::zero(), G::one(), G::from_u64(123_456)] {
        let coeffs = [G::from_u64(4), G::from_u64(6)];
        let round = split_eq
            .try_gruen_poly_from_coeffs_except_linear(&coeffs, claim)
            .unwrap();
        assert_eq!(round.evaluate(G::zero()).add(round.evaluate(G::one())), claim);
        let cubic = split_eq
            .try_gruen_poly_deg_3(G::from_u64(4), G::from_u64(6), claim)
            .unwrap();
        assert_eq!(cubic.evaluate(G::zero()).add(cubic.evaluate(G::one())), claim);
        assert_eq!(cubic, round);
    }
}

#[test]
fn scaled_tables_sum_to_the_scale() {
    let r: Vec<G> = Words(21).point(4);
    let scale = G::from_u64(19);
    let table = EqPolynomial::evals_with_scaling(&r, Some(scale)).unwrap();
    let sum = table.iter().fold(G::zero(), |total, &entry| total.add(entry));
    assert_eq!(sum, scale);
}

#[test]
fn equality_is_one_on_the_diagonal_of_the_hypercube() {
    let point = |index: usize| -> Vec<F> {
        (0..3).map(|k| F::from_u64((index >> k & 1) as u64)).collect()
    };
    for a in 0..8 {
        for b in 0..8 {
            let expected = if a == b { F::one() } else { F::zero() };
            assert_eq!(EqPolynomial::mle(&point(a), &point(b)), Ok(expected));
        }
    }
}

#[test]
fn recovery_works_over_an_extension() {
    let value = |a: i64, b: i64| Ext2::new(Prime32Offset99::from_i64(a), Prime32Offset99::from_i64(b));
    let split_eq = GruenSplitEq::new(&[value(3, 1), value(0, 2)]).unwrap();
    assert!(split_eq.can_recover_linear_q_term_from_claim());
    let q = UniPoly::from_coeffs(vec![value(1, 2), value(3, 4), value(5, 6)]);
    let s = split_eq.gruen_mul(&q);
    let claim = s.evaluate(Ext2::zero()).add(s.evaluate(Ext2::one()));
    assert_eq!(split_eq.try_gruen_poly_deg_3(q.coeffs[0], q.coeffs[2], claim), Some(s));
}
