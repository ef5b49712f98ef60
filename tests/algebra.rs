use mpc_zexe::field::Scalar;
use mpc_zexe::kzg::{kzg_crs, Error, JZKZGCommitmentParams, KZG10};
use mpc_zexe::plonk::{fs_hash, random_oracle};
use mpc_zexe::poly::{
    compute_constant_poly, compute_vanishing_poly, divide_by_linear, divide_by_vanishing,
    domain_element, lagrange_poly, poly_add, poly_eval_mult_const, poly_sub, Poly,
};
use mpc_zexe::vector_commitment::CustomDigestConverter;

fn poly(cs: &[u64]) -> Poly {
    Poly { coeffs: cs.iter().map(|c| Scalar::from_u64(*c)).collect() }
}

fn minus_one() -> Scalar {
    Scalar::zero().sub(&Scalar::one())
}

#[test]
fn field_arithmetic_wraps_at_the_modulus() {
    let m1 = minus_one();
    assert_eq!(
        m1.limbs,
        [725501752471715840, 6461107452199829505, 6968279316240510977, 1345280370688173398]
    );
    assert_eq!(m1.add(&Scalar::one()), Scalar::zero());
    assert_eq!(m1.mul(&m1), Scalar::one());
    assert_eq!(Scalar::from_u64(6).mul(&Scalar::from_u64(7)), Scalar::from_u64(42));
    assert_eq!(Scalar::from_u64(2).pow(10), Scalar::from_u64(1024));
    assert_eq!(Scalar::from_u64(2).pow(64).limbs, [0, 1, 0, 0]);
    assert!(Scalar::from_u64(5).equals(&Scalar::from_u64(5)));
    assert!(!Scalar::from_u64(5).equals(&Scalar::from_u64(6)));
}

#[test]
fn vanishing_and_constant_polynomials() {
    let z = compute_vanishing_poly(4);
    assert_eq!(z.coeffs.len(), 5);
    assert_eq!(z.coeffs[0], minus_one());
    assert_eq!(z.coeffs[4], Scalar::one());
    assert_eq!(z.coeffs[2], Scalar::zero());
    for i in 0..4u64 {
        assert_eq!(z.evaluate(&domain_element(4, i)), Scalar::zero());
    }
    assert_eq!(z.evaluate(&Scalar::from_u64(2)), Scalar::from_u64(15));
    let c = compute_constant_poly(&Scalar::from_u64(9));
    assert_eq!(c.evaluate(&Scalar::from_u64(123)), Scalar::from_u64(9));
}

#[test]
fn polynomial_arithmetic_and_evaluation() {
    let f = poly(&[1, 2, 3]);
    let g = poly(&[5, 1]);
    assert_eq!(f.evaluate(&Scalar::from_u64(2)), Scalar::from_u64(17));
    assert_eq!(poly_add(&f, &g).coeffs, poly(&[6, 3, 3]).coeffs);
    assert_eq!(poly_sub(&f, &f).coeffs, poly(&[0, 0, 0]).coeffs);
    assert_eq!(poly_eval_mult_const(&f, &Scalar::from_u64(3)).coeffs, poly(&[3, 6, 9]).coeffs);
    assert_eq!(poly(&[4, 0, 5, 0, 0]).degree(), 2);
    assert_eq!(poly(&[0, 0]).degree(), 0);
}

#[test]
fn division_by_vanishing_polynomial() {
    // (X^2 + 3X + 2)(X^4 - 1) = X^6 + 3X^5 + 2X^4 - X^2 - 3X - 2
    let m1 = minus_one();
    let f = Poly {
        coeffs: vec![
            m1.mul(&Scalar::from_u64(2)),
            m1.mul(&Scalar::from_u64(3)),
            m1,
            Scalar::zero(),
            Scalar::from_u64(2),
            Scalar::from_u64(3),
            Scalar::one(),
        ],
    };
    let q = divide_by_vanishing(&f, 4).expect("exact division");
    assert_eq!(q.coeffs, poly(&[2, 3, 1]).coeffs);
    assert!(divide_by_vanishing(&poly(&[1, 0, 0, 0, 1]), 4).is_none());
    assert!(divide_by_vanishing(&poly(&[0, 0, 0]), 4).unwrap().coeffs.is_empty());
}

#[test]
fn division_by_linear_factor() {
    // X^2 + 3X + 2 = (X + 1)(X + 2): dividing by X - (-1) leaves X + 2
    let q = divide_by_linear(&poly(&[2, 3, 1]), &minus_one());
    assert_eq!(q.coeffs, poly(&[2, 1]).coeffs);
}

#[test]
fn lagrange_basis_is_an_indicator() {
    let l = lagrange_poly(8, 3);
    for j in 0..8u64 {
        let expected = if j == 3 { Scalar::one() } else { Scalar::zero() };
        assert_eq!(l.evaluate(&domain_element(8, j)), expected);
    }
    assert_eq!(domain_element(8, 8), Scalar::one());
    assert_ne!(domain_element(8, 4), Scalar::one());
}

#[test]
fn commitment_rejects_oversized_polynomial() {
    let crs = JZKZGCommitmentParams::trusted_setup(8);
    let params = kzg_crs(&crs);
    assert_eq!(params.powers_of_g.len(), 32);
    let big = Poly { coeffs: (0..40).map(|i| Scalar::from_u64(i + 1)).collect() };
    assert_eq!(
        KZG10::commit_g1(&params, &big),
        Err(Error::TooManyCoefficients { num_coefficients: 40, num_powers: 32 })
    );
    let tau = Scalar::from_u64(42);
    let g = params.powers_of_g[0].clone();
    let h = params.powers_of_h[0].clone();
    assert_eq!(KZG10::setup(0, &tau, &g, &h).err(), Some(Error::DegreeIsZero));
    let fresh = KZG10::setup(31, &tau, &g, &h).unwrap();
    assert_eq!(fresh.powers_of_g, params.powers_of_g);
    assert_eq!(fresh.powers_of_h, params.powers_of_h);
}

#[test]
fn transcript_hash_depends_on_input() {
    let a = fs_hash(&vec![vec![1u8, 2, 3]], 2);
    let b = fs_hash(&vec![vec![1u8, 2], vec![3u8]], 2);
    let c = fs_hash(&vec![vec![1u8, 2, 4]], 2);
    assert_eq!(a.len(), 2);
    assert_eq!(a, b);
    assert_ne!(a, c);
    assert_ne!(a[0], a[1]);
    let crs = JZKZGCommitmentParams::trusted_setup(8);
    let one = random_oracle(&crs.crs_coefficient_g1[..1].to_vec());
    let two = random_oracle(&crs.crs_coefficient_g1[..2].to_vec());
    assert_ne!(one, two);
}

#[test]
fn digest_converter_keeps_bytes() {
    assert_eq!(CustomDigestConverter::convert(vec![1u8, 2, 3]), vec![1u8, 2, 3]);
}
