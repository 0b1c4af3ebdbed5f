use kzg_trace::compose::constraint_polynomials;
use kzg_trace::curve::{AffinePoint, CurveConfig};
use kzg_trace::error::KzgError;
use kzg_trace::field::Fe;
use kzg_trace::interpolate::{interpol, lagrange_interpolation_polynomial, vanishing_polynomial_of_size};
use kzg_trace::kzg::{commit, prove, verify, Proof, CRS};
use kzg_trace::poly::{
    add_polynomials, divide_polynomials, evaluate, multiply_polynomials, negate_polynomial,
    Polynomial,
};
use kzg_trace::trace::{build_trace, scalar_multiply, for_s1, for_s2, scalar_bits_of, IR, X1, X2, X3, Y2, Y3, Z3};
use rand::rngs::StdRng;
use rand::{RngCore, SeedableRng};

fn fe(l: [u64; 4]) -> Fe {
    Fe { l0: l[0], l1: l[1], l2: l[2], l3: l[3] }
}

fn small(n: u64) -> Fe {
    Fe::from_u64(n)
}

fn poly(v: &[u64]) -> Polynomial {
    Polynomial { coeffs: v.iter().map(|&n| small(n)).collect() }
}

/// A field element below 2^252, drawn from `rng`.
fn random_fe(rng: &mut StdRng) -> Fe {
    fe([rng.next_u64(), rng.next_u64(), rng.next_u64(), rng.next_u64() & 0x0fff_ffff_ffff_ffff])
}

/// Grumpkin, `y^2 = x^3 - 17` over the BN254 scalar field.
fn grumpkin() -> CurveConfig {
    let b = fe([0x43e1f593effffff0, 0x2833e84879b97091, 0xb85045b68181585d, 0x30644e72e131a029]);
    CurveConfig::new(&b)
}

/// `G = (1, sqrt(-16))`.
fn point_g() -> AffinePoint {
    AffinePoint {
        x: small(1),
        y: fe([0x833fc48d823f272c, 0x2d270d45f1181294, 0xcf135e7506a45d63, 0x2]),
    }
}

/// `2 G`.
fn point_2g() -> AffinePoint {
    AffinePoint {
        x: fe([0x6d8bc688cdbffffe, 0x19a74caa311e13d4, 0xddeb49cdaa36306d, 0x6ce1b0827aafa85]),
        y: fe([0x467be7e7a43f80ac, 0xc93faf6fa1a788bf, 0x909ede0ba2a6855f, 0x1c122f81a3a14964]),
    }
}

fn g_times(k: u64) -> AffinePoint {
    let (x, y) = match k {
        10 => (
            [0xcbbdd5206d020671, 0x4b4c54966e3c7c12, 0x4c51aa177f557549, 0x763b9280ea548fd],
            [0x6b4564ecd6ac02b5, 0x4a7f8913057e0dc8, 0x7f44d67370d29496, 0x16411ef8119daf36],
        ),
        22 => (
            [0x82d89889e0823e98, 0xe307e62ea7fcf767, 0xbd5566a9df9e94b4, 0xab905e2cd0a7212],
            [0x27e55033ed20be90, 0xa13d73bcefa461f6, 0x588dce51f0bfeca1, 0x2011ea1e7a8b9e69],
        ),
        12 => (
            [0x525be186ac746bd5, 0x245edadcdf26987, 0xcc7c4e4894fba28a, 0x46563cec84c3b7f],
            [0x602820d087735ba9, 0x6e81beba74608ec, 0x809c4cc926ffec5f, 0x260f0d842b5e759c],
        ),
        6 => (
            [0x3984454ca590471a, 0x38656fb0f6aa00ae, 0xb061e315eaadf48e, 0x1136be4fd725da12],
            [0x8cbba9ab91c15278, 0xc8bddfe0fbd218e, 0xe03c96c677893a68, 0x27e08c4b441fb4e4],
        ),
        18 => (
            [0x56bddf275c93a358, 0xc6fe7a61bf4cf3a3, 0xb349c33614643b41, 0x20c3819a2c0654b8],
            [0x600de59b06126d44, 0x3efd070edf27b52d, 0xf7cb26a066fa6c2e, 0x111e9197a6263621],
        ),
        _ => panic!("no such multiple"),
    };
    AffinePoint { x: fe(x), y: fe(y) }
}

/// `-2 G`.
fn point_minus_2g() -> AffinePoint {
    AffinePoint {
        x: point_2g().x,
        y: fe([0xfd660dac4bc07f55, 0x5ef438d8d811e7d1, 0x27b167aadedad2fd, 0x14521ef13d9056c5]),
    }
}

fn padded(p: &Polynomial, n: usize) -> Vec<Fe> {
    let mut v = p.coeffs.clone();
    while v.len() < n {
        v.push(Fe::zero());
    }
    v
}

fn trimmed(p: &Polynomial) -> Vec<Fe> {
    let mut v = p.coeffs.clone();
    while v.last().map_or(false, |c| c.is_zero()) {
        v.pop();
    }
    v
}

/// Commits to the constraint polynomials of `trace` and to their quotients
/// by `Z` whatever the remainders, as a dishonest prover would.
fn forced_proof(crs: &CRS, curve: &CurveConfig, trace: &IR) -> Proof {
    let cols = interpol(trace).unwrap();
    let cons = constraint_polynomials(curve, &crs.circuit[0], &crs.circuit[1], &cols, trace.witness[0].len());
    let mut cs = Vec::new();
    let mut qs = Vec::new();
    for c in &cons {
        let (q, _rem) = divide_polynomials(c, &crs.vanishing_polynomial);
        cs.push(commit(crs, c).unwrap());
        qs.push(commit(crs, &q).unwrap());
    }
    Proof { commitments_c: cs, commitments_q: qs }
}

#[test]
fn evaluate_gives_exact_value() {
    // 1 + 2 * 5 + 3 * 25
    assert_eq!(evaluate(&poly(&[1, 2, 3]), &small(5)), small(86));
}

#[test]
fn multiply_gives_convolution() {
    // (1 + 2X)(3 + X) = 3 + 7X + 2X^2
    let r = multiply_polynomials(&poly(&[1, 2]), &poly(&[3, 1]));
    assert_eq!(r.coeffs, poly(&[3, 7, 2]).coeffs);
    assert_eq!(multiply_polynomials(&poly(&[]), &poly(&[3, 1])).coeffs.len(), 0);
}

#[test]
fn add_pads_to_longer_operand() {
    let r = add_polynomials(&poly(&[1, 2]), &poly(&[3, 4, 5]));
    assert_eq!(r.coeffs, poly(&[4, 6, 5]).coeffs);
}

#[test]
fn negate_is_additive_inverse() {
    let a = poly(&[1, 0, 7]);
    let n = negate_polynomial(&a);
    let minus_one = fe([0x43e1f593f0000000, 0x2833e84879b97091, 0xb85045b68181585d, 0x30644e72e131a029]);
    assert_eq!(n.coeffs[0], minus_one);
    assert_eq!(n.coeffs[1], Fe::zero());
    assert_eq!(add_polynomials(&a, &n).coeffs, poly(&[0, 0, 0]).coeffs);
}

#[test]
fn interpolation_recovers_random_polynomial() {
    let mut rng = StdRng::seed_from_u64(7);
    for n in [1usize, 2, 5, 9] {
        let deg_plus_one = n.min(4);
        let p = Polynomial { coeffs: (0..deg_plus_one).map(|_| random_fe(&mut rng)).collect() };
        let values: Vec<Fe> = (1..=n as u64).map(|k| evaluate(&p, &small(k))).collect();
        let q = lagrange_interpolation_polynomial(&values).unwrap();
        assert_eq!(q.coeffs.len(), n);
        assert_eq!(q.coeffs, padded(&p, n));
    }
}

#[test]
fn interpolation_of_empty_vector_is_refused() {
    assert_eq!(lagrange_interpolation_polynomial(&Vec::new()).unwrap_err(), KzgError::EmptyDomain);
}

#[test]
fn divide_product_returns_factor_and_zero_remainder() {
    let mut rng = StdRng::seed_from_u64(11);
    let a = Polynomial { coeffs: (0..5).map(|_| random_fe(&mut rng)).collect() };
    let b = Polynomial { coeffs: (0..3).map(|_| random_fe(&mut rng)).collect() };
    let ab = multiply_polynomials(&a, &b);
    let (q, rem) = divide_polynomials(&ab, &b);
    assert!(rem.coeffs.is_empty());
    assert_eq!(trimmed(&q), a.coeffs);
}

#[test]
fn divide_leaves_exact_remainder() {
    // X^2 + 1 = (X - 1)(X + 1) + 2
    let (q, rem) = divide_polynomials(&poly(&[1, 0, 1]), &add_polynomials(&poly(&[0, 1]), &negate_polynomial(&poly(&[1]))));
    assert_eq!(trimmed(&q), poly(&[1, 1]).coeffs);
    assert_eq!(rem.coeffs, poly(&[2]).coeffs);
}

#[test]
fn vanishing_polynomial_roots_are_the_nodes() {
    let z = vanishing_polynomial_of_size(8);
    assert_eq!(z.coeffs.len(), 9);
    assert_eq!(z.coeffs[8], Fe::one());
    for k in 1..=8u64 {
        assert!(evaluate(&z, &small(k)).is_zero());
    }
    assert!(!evaluate(&z, &small(0)).is_zero());
    assert!(!evaluate(&z, &small(9)).is_zero());
    let mut rng = StdRng::seed_from_u64(3);
    for _ in 0..5 {
        assert!(!evaluate(&z, &random_fe(&mut rng)).is_zero());
    }
    // Z(0) = (-1)(-2)(-3) = -6 for three nodes
    let z3 = vanishing_polynomial_of_size(3);
    let minus_six = fe([0x43e1f593effffffb, 0x2833e84879b97091, 0xb85045b68181585d, 0x30644e72e131a029]);
    assert_eq!(z3.coeffs[0], minus_six);
}

#[test]
fn scalar_bits_are_big_endian_without_leading_zeros() {
    assert_eq!(scalar_bits_of(&small(5)), vec![true, false, true]);
    assert_eq!(scalar_bits_of(&small(0)), vec![false]);
    assert_eq!(scalar_bits_of(&fe([0, 1, 0, 0])).len(), 65);
}

#[test]
fn selector_columns_for_scalar_five() {
    let one = Fe::one();
    let zero = Fe::zero();
    assert_eq!(for_s1(&small(5)), vec![one, one, zero, one, one, one, one, zero]);
    assert_eq!(for_s2(&small(5)), vec![one, zero, one, zero, one, one, one, zero]);
}

#[test]
fn trace_has_expected_shape() {
    let ir = build_trace(&grumpkin(), &small(5), &point_2g(), &point_g(), &g_times(10)).unwrap();
    assert_eq!(ir.witness.len(), 10);
    for col in &ir.witness {
        assert_eq!(col.len(), 8);
    }
    assert_eq!(ir.witness[0], for_s1(&small(5)));
    // the accumulator starts at the identity (0 : 1 : 0)
    assert_eq!(ir.witness[X1][0], Fe::zero());
    // each row starts where the previous one ended
    for r in 0..7 {
        assert_eq!(ir.witness[X1][r + 1], ir.witness[X3][r]);
    }
}

#[test]
fn target_that_cancels_2g_meets_point_at_infinity() {
    // -2G + 2G is the point at infinity
    let e = build_trace(&grumpkin(), &small(5), &point_2g(), &point_g(), &point_minus_2g()).unwrap_err();
    assert_eq!(e, KzgError::PointAtInfinity);
}

#[test]
fn trace_of_point_off_the_curve_misses_target() {
    let off = AffinePoint { x: small(1), y: small(1) };
    let e = build_trace(&grumpkin(), &small(5), &off, &point_g(), &g_times(10)).unwrap_err();
    assert_eq!(e, KzgError::TargetMismatch);
}

#[test]
fn setup_refuses_selector_columns_of_different_lengths() {
    let scol = IR { witness: vec![vec![Fe::one(), Fe::zero()], vec![Fe::one()]] };
    assert_eq!(CRS::setup_with_trapdoor(&scol, &small(3)).err(), Some(KzgError::ShapeMismatch));
    let empty = IR { witness: vec![vec![], vec![]] };
    assert_eq!(CRS::setup_with_trapdoor(&empty, &small(3)).err(), Some(KzgError::EmptyDomain));
}

#[test]
fn commit_refuses_polynomial_beyond_degree_bound() {
    let scol = IR { witness: vec![vec![Fe::one()], vec![Fe::one()]] };
    let crs = CRS::setup_with_trapdoor(&scol, &small(3)).unwrap();
    assert_eq!(crs.d, 2);
    assert!(commit(&crs, &poly(&[4, 1])).is_ok());
    assert_eq!(commit(&crs, &poly(&[4, 1, 1])).unwrap_err(), KzgError::DegreeBoundTooSmall);
}

#[test]
fn commitment_depends_on_coefficients() {
    let scol = IR { witness: vec![vec![Fe::one(); 2], vec![Fe::one(); 2]] };
    let crs = CRS::setup_with_trapdoor(&scol, &small(3)).unwrap();
    let a = commit(&crs, &poly(&[1, 2])).unwrap();
    let b = commit(&crs, &poly(&[2, 1])).unwrap();
    // 1 + 2x and 2 + x differ at x = 3, and 1 + 2x equals 7 + 0x there
    assert_ne!(a, b);
    assert_eq!(a, commit(&crs, &poly(&[7])).unwrap());
}

#[test]
fn honest_proof_verifies() {
    let curve = grumpkin();
    let ir = build_trace(&curve, &small(11), &point_2g(), &point_g(), &g_times(22)).unwrap();
    assert_eq!(ir.witness[0].len(), 10);
    let mut rng = StdRng::seed_from_u64(1);
    let crs = CRS::setup(&ir, &mut rng).unwrap();
    assert_eq!(crs.d, 6 * 10 - 5);
    let pf = prove(&crs, &curve, &ir).unwrap();
    assert!(verify(&crs, &pf));
}

#[test]
fn altered_trace_entry_is_caught() {
    let curve = grumpkin();
    let mut ir = build_trace(&curve, &small(6), &point_2g(), &point_g(), &g_times(12)).unwrap();
    let crs = CRS::setup_with_trapdoor(&ir, &small(123456789)).unwrap();
    ir.witness[X3][3] = small(42);
    match prove(&crs, &curve, &ir) {
        Err(e) => assert_eq!(e, KzgError::WitnessInvalid),
        Ok(pf) => assert!(!verify(&crs, &pf)),
    }
    let forced = forced_proof(&crs, &curve, &ir);
    assert!(!verify(&crs, &forced));
}

#[test]
fn proof_of_undecodable_elements_is_rejected() {
    let curve = grumpkin();
    let ir = build_trace(&curve, &small(5), &point_2g(), &point_g(), &g_times(10)).unwrap();
    let crs = CRS::setup_with_trapdoor(&ir, &small(99)).unwrap();
    let mut pf = prove(&crs, &curve, &ir).unwrap();
    pf.commitments_q[0].enc = vec![0xff; 32];
    assert!(!verify(&crs, &pf));
}

#[test]
fn scalar_five_scenario() {
    let curve = grumpkin();
    let g = point_g();
    let p = point_2g();
    let ir = build_trace(&curve, &small(5), &p, &g, &g_times(10)).unwrap();
    assert_eq!(ir.witness[0].len(), 8);
    let crs = CRS::setup_with_trapdoor(&ir, &small(0x5eed)).unwrap();
    assert_eq!(crs.d, 43);
    let pf = prove(&crs, &curve, &ir).unwrap();
    assert!(verify(&crs, &pf));

    let mut tampered = ir;
    tampered.witness[X1][2] = add_polynomials(
        &Polynomial { coeffs: vec![tampered.witness[X1][2]] },
        &poly(&[1]),
    )
    .coeffs[0];
    assert_eq!(prove(&crs, &curve, &tampered).err(), Some(KzgError::WitnessInvalid));
    let forced = forced_proof(&crs, &curve, &tampered);
    assert!(!verify(&crs, &forced));
}

#[test]
fn prove_refuses_trace_of_other_shape() {
    let curve = grumpkin();
    let ir = build_trace(&curve, &small(5), &point_2g(), &point_g(), &g_times(10)).unwrap();
    let crs = CRS::setup_with_trapdoor(&ir, &small(17)).unwrap();
    let mut short = IR { witness: ir.witness.clone() };
    short.witness.pop();
    assert_eq!(prove(&crs, &curve, &short).err(), Some(KzgError::ShapeMismatch));
    let longer = build_trace(&curve, &small(9), &point_2g(), &point_g(), &g_times(18)).unwrap();
    assert_eq!(prove(&crs, &curve, &longer).err(), Some(KzgError::ShapeMismatch));
}

#[test]
fn proof_for_one_reference_string_fails_under_another() {
    let curve = grumpkin();
    let ir = build_trace(&curve, &small(5), &point_2g(), &point_g(), &g_times(10)).unwrap();
    let crs_a = CRS::setup_with_trapdoor(&ir, &small(1234)).unwrap();
    let crs_b = CRS::setup_with_trapdoor(&ir, &small(4321)).unwrap();
    let pf = prove(&crs_a, &curve, &ir).unwrap();
    assert!(verify(&crs_a, &pf));
    assert!(!verify(&crs_b, &pf));
}

#[test]
fn wrong_target_is_refused() {
    let curve = grumpkin();
    let e = build_trace(&curve, &small(5), &point_2g(), &point_g(), &g_times(12)).unwrap_err();
    assert_eq!(e, KzgError::TargetMismatch);
    let e = build_trace(&curve, &small(0), &point_2g(), &point_g(), &g_times(10)).unwrap_err();
    assert_eq!(e, KzgError::TargetMismatch);
}

#[test]
fn operand_columns_for_scalar_five() {
    let p = point_2g();
    let ir = build_trace(&grumpkin(), &small(5), &p, &point_g(), &g_times(10)).unwrap();
    let z = Fe::zero();
    assert_eq!(ir.witness[X2][..5].to_vec(), vec![p.x, z, z, z, p.x]);
    assert_eq!(ir.witness[Y2][..5].to_vec(), vec![p.y, z, z, z, p.y]);
}

#[test]
fn altered_operand_on_doubling_row_is_caught() {
    let curve = grumpkin();
    let mut ir = build_trace(&curve, &small(5), &point_2g(), &point_g(), &g_times(10)).unwrap();
    let crs = CRS::setup_with_trapdoor(&ir, &small(77)).unwrap();
    ir.witness[X2][1] = small(3);
    assert_eq!(prove(&crs, &curve, &ir).err(), Some(KzgError::WitnessInvalid));
}

#[test]
fn setup_refuses_any_column_of_another_length() {
    let scol = IR { witness: vec![vec![Fe::one(); 3], vec![Fe::one(); 3], vec![Fe::one(); 2]] };
    assert_eq!(CRS::setup_with_trapdoor(&scol, &small(3)).err(), Some(KzgError::ShapeMismatch));
}

#[test]
fn scalar_multiply_matches_known_multiple() {
    let t = scalar_multiply(&grumpkin(), &small(5), &point_2g()).unwrap();
    assert_eq!(t, g_times(10));
}

fn shifted(a: Fe, delta: i64) -> Fe {
    let d = Polynomial { coeffs: vec![small(delta.unsigned_abs())] };
    let d = if delta < 0 { negate_polynomial(&d) } else { d };
    add_polynomials(&Polynomial { coeffs: vec![a] }, &d).coeffs[0]
}

#[test]
fn trade_between_x_and_y_after_a_row_is_caught() {
    let curve = grumpkin();
    let mut ir = build_trace(&curve, &small(5), &point_2g(), &point_g(), &g_times(10)).unwrap();
    let crs = CRS::setup_with_trapdoor(&ir, &small(31)).unwrap();
    ir.witness[X3][3] = shifted(ir.witness[X3][3], 1);
    ir.witness[Y3][3] = shifted(ir.witness[Y3][3], -1);
    assert_eq!(prove(&crs, &curve, &ir).err(), Some(KzgError::WitnessInvalid));
    let forced = forced_proof(&crs, &curve, &ir);
    assert!(!verify(&crs, &forced));
}

#[test]
fn trade_between_y_and_z_after_a_row_is_caught() {
    let curve = grumpkin();
    let mut ir = build_trace(&curve, &small(5), &point_2g(), &point_g(), &g_times(10)).unwrap();
    let crs = CRS::setup_with_trapdoor(&ir, &small(41)).unwrap();
    ir.witness[Y3][2] = shifted(ir.witness[Y3][2], 5);
    ir.witness[Z3][2] = shifted(ir.witness[Z3][2], -5);
    assert_eq!(prove(&crs, &curve, &ir).err(), Some(KzgError::WitnessInvalid));
    let forced = forced_proof(&crs, &curve, &ir);
    assert!(!verify(&crs, &forced));
}

#[test]
fn altered_result_in_last_row_is_caught() {
    let curve = grumpkin();
    let mut ir = build_trace(&curve, &small(5), &point_2g(), &point_g(), &g_times(10)).unwrap();
    let crs = CRS::setup_with_trapdoor(&ir, &small(43)).unwrap();
    let last = ir.witness[0].len() - 1;
    for col in [X3, Y3, Z3] {
        let mut bad = IR { witness: ir.witness.clone() };
        bad.witness[col][last] = shifted(bad.witness[col][last], 1);
        assert_eq!(prove(&crs, &curve, &bad).err(), Some(KzgError::WitnessInvalid));
        let forced = forced_proof(&crs, &curve, &bad);
        assert!(!verify(&crs, &forced));
    }
    ir.witness[X2][last] = shifted(ir.witness[X2][last], 1);
    assert_eq!(prove(&crs, &curve, &ir).err(), Some(KzgError::WitnessInvalid));
}

#[test]
fn every_single_entry_change_is_caught() {
    let curve = grumpkin();
    let ir = build_trace(&curve, &small(3), &point_2g(), &point_g(), &g_times(6)).unwrap();
    let crs = CRS::setup_with_trapdoor(&ir, &small(47)).unwrap();
    let n = ir.witness[0].len();
    for col in 2..10 {
        for row in 0..n {
            let mut bad = IR { witness: ir.witness.clone() };
            bad.witness[col][row] = shifted(bad.witness[col][row], 1);
            let cols = interpol(&bad).unwrap();
            let cons = constraint_polynomials(&curve, &crs.circuit[0], &crs.circuit[1], &cols, n);
            let some_remainder = cons.iter().any(|c| {
                let (_q, rem) = divide_polynomials(c, &crs.vanishing_polynomial);
                !rem.coeffs.is_empty()
            });
            assert!(some_remainder, "column {} row {}", col, row);
        }
    }
}

#[test]
fn canonical_check_compares_with_modulus() {
    let r = fe([0x43e1f593f0000001, 0x2833e84879b97091, 0xb85045b68181585d, 0x30644e72e131a029]);
    let r_minus_one = fe([0x43e1f593f0000000, 0x2833e84879b97091, 0xb85045b68181585d, 0x30644e72e131a029]);
    let above = fe([0, 0, 0, 0x30644e72e131a02a]);
    assert!(!r.is_canonical());
    assert!(r_minus_one.is_canonical());
    assert!(!above.is_canonical());
    assert!(small(7).is_canonical());
}
