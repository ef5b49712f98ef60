//! KZG polynomial commitments on BLS12-377.
//!
//! Group elements are carried as their uncompressed ark-serialize encoding; every group
//! operation decodes, computes with ark-ec, and encodes again. A malformed encoding is never
//! a valid point: operations on it give an empty encoding and pairing checks on it fail.
use vstd::prelude::*;
use crate::field::{Scalar, modulus, powm};
use crate::poly::{
    Poly, all_wf, degree_spec, divide_by_linear, eval_poly, indicator, interpolation_of,
    is_pow2, lagrange_poly, linear_quotient, max_domain_size, values_of,
};
use ark_bls12_377::{Bls12_377, Fr, G1Affine, G1Projective, G2Affine, G2Projective};
use ark_ec::pairing::Pairing;
use ark_ec::{AffineRepr, CurveGroup, VariableBaseMSM};
use ark_ff::{BigInt, PrimeField};
use ark_serialize::{CanonicalDeserialize, CanonicalSerialize};

verus! {

/// `a + b` in G1.
pub uninterp spec fn g1_sum_of(a: Seq<u8>, b: Seq<u8>) -> Seq<u8>;

/// `[s]p` in G1.
pub uninterp spec fn g1_scalar_mul_of(p: Seq<u8>, s: int) -> Seq<u8>;

/// `a + b` in G2.
pub uninterp spec fn g2_sum_of(a: Seq<u8>, b: Seq<u8>) -> Seq<u8>;

/// `[s]p` in G2.
pub uninterp spec fn g2_scalar_mul_of(p: Seq<u8>, s: int) -> Seq<u8>;

/// `Σ [scalars_i] bases_i` in G1.
pub uninterp spec fn g1_msm_of(bases: Seq<Seq<u8>>, scalars: Seq<int>) -> Seq<u8>;

/// `Σ [scalars_i] bases_i` in G2.
pub uninterp spec fn g2_msm_of(bases: Seq<Seq<u8>>, scalars: Seq<int>) -> Seq<u8>;

/// `e(a, b) == e(c, d)`, with `a, c` in G1 and `b, d` in G2.
pub uninterp spec fn pairings_equal_of(a: Seq<u8>, b: Seq<u8>, c: Seq<u8>, d: Seq<u8>) -> bool;

/// A G1 point in uncompressed encoding.
#[derive(Clone, Debug, PartialEq, Eq)]
pub struct G1Point {
    pub bytes: Vec<u8>,
}

/// A G2 point in uncompressed encoding.
#[derive(Clone, Debug, PartialEq, Eq)]
pub struct G2Point {
    pub bytes: Vec<u8>,
}

impl View for G1Point {
    type V = Seq<u8>;

    open spec fn view(&self) -> Seq<u8> {
        self.bytes@
    }
}

impl View for G2Point {
    type V = Seq<u8>;

    open spec fn view(&self) -> Seq<u8> {
        self.bytes@
    }
}

impl G1Point {
    pub fn copy(&self) -> (r: G1Point)
        ensures
            r@ == self@,
    {
        G1Point { bytes: self.bytes.clone() }
    }

    pub fn add(&self, other: &G1Point) -> (r: G1Point)
        ensures
            r@ == g1_sum_of(self@, other@),
    {
        g1_add(self, other)
    }
}

impl G2Point {
    pub fn copy(&self) -> (r: G2Point)
        ensures
            r@ == self@,
    {
        G2Point { bytes: self.bytes.clone() }
    }
}

pub open spec fn g1_views(v: Seq<G1Point>) -> Seq<Seq<u8>> {
    v.map_values(|p: G1Point| p@)
}

pub open spec fn g2_views(v: Seq<G2Point>) -> Seq<Seq<u8>> {
    v.map_values(|p: G2Point| p@)
}

/// Relies on ark-ec's `G1Affine::generator`, encoded with ark-serialize.
#[verifier::external_body]
fn g1_generator() -> (r: G1Point) {
    let mut bytes = Vec::new();
    G1Affine::generator().serialize_uncompressed(&mut bytes).unwrap();
    G1Point { bytes }
}

/// Relies on ark-ec's `G2Affine::generator`, encoded with ark-serialize.
#[verifier::external_body]
fn g2_generator() -> (r: G2Point) {
    let mut bytes = Vec::new();
    G2Affine::generator().serialize_uncompressed(&mut bytes).unwrap();
    G2Point { bytes }
}

/// Relies on ark-ec's `Add` for `G1Affine`: the group sum, a function of the two encodings.
#[verifier::external_body]
fn g1_add(a: &G1Point, b: &G1Point) -> (r: G1Point)
    ensures
        r@ == g1_sum_of(a@, b@),
{
    let (Ok(x), Ok(y)) = (
        G1Affine::deserialize_uncompressed(&a.bytes[..]),
        G1Affine::deserialize_uncompressed(&b.bytes[..]),
    ) else { return G1Point { bytes: Vec::new() } };
    let mut bytes = Vec::new();
    (x + y).into_affine().serialize_uncompressed(&mut bytes).unwrap();
    G1Point { bytes }
}

/// Relies on ark-ec's `Mul<Fr>` for `G1Affine`: the scalar multiple.
#[verifier::external_body]
pub(crate) fn g1_mul(p: &G1Point, s: &Scalar) -> (r: G1Point)
    requires
        s.wf(),
    ensures
        r@ == g1_scalar_mul_of(p@, s.value()),
{
    let Ok(x) = G1Affine::deserialize_uncompressed(&p.bytes[..]) else {
        return G1Point { bytes: Vec::new() }
    };
    let mut bytes = Vec::new();
    (x * Fr::from_bigint(BigInt(s.limbs)).unwrap()).into_affine().serialize_uncompressed(
        &mut bytes,
    ).unwrap();
    G1Point { bytes }
}

/// Relies on ark-ec's `Add` for `G2Affine`: the group sum.
#[verifier::external_body]
fn g2_add(a: &G2Point, b: &G2Point) -> (r: G2Point)
    ensures
        r@ == g2_sum_of(a@, b@),
{
    let (Ok(x), Ok(y)) = (
        G2Affine::deserialize_uncompressed(&a.bytes[..]),
        G2Affine::deserialize_uncompressed(&b.bytes[..]),
    ) else { return G2Point { bytes: Vec::new() } };
    let mut bytes = Vec::new();
    (x + y).into_affine().serialize_uncompressed(&mut bytes).unwrap();
    G2Point { bytes }
}

/// Relies on ark-ec's `Mul<Fr>` for `G2Affine`: the scalar multiple.
#[verifier::external_body]
fn g2_mul(p: &G2Point, s: &Scalar) -> (r: G2Point)
    requires
        s.wf(),
    ensures
        r@ == g2_scalar_mul_of(p@, s.value()),
{
    let Ok(x) = G2Affine::deserialize_uncompressed(&p.bytes[..]) else {
        return G2Point { bytes: Vec::new() }
    };
    let mut bytes = Vec::new();
    (x * Fr::from_bigint(BigInt(s.limbs)).unwrap()).into_affine().serialize_uncompressed(
        &mut bytes,
    ).unwrap();
    G2Point { bytes }
}

/// Relies on ark-ec's `VariableBaseMSM::msm` for G1: the multi-scalar multiplication of the
/// first `t` bases with the first `t` scalars.
#[verifier::external_body]
pub(crate) fn g1_msm(bases: &Vec<G1Point>, scalars: &Vec<Scalar>, t: usize) -> (r: G1Point)
    requires
        t <= bases.len(),
        t <= scalars.len(),
        all_wf(scalars@),
    ensures
        r@ == g1_msm_of(g1_views(bases@.take(t as int)), values_of(scalars@.take(t as int))),
{
    let b: Result<Vec<G1Affine>, _> =
        bases[..t].iter().map(|p| G1Affine::deserialize_uncompressed(&p.bytes[..])).collect();
    let Ok(b) = b else { return G1Point { bytes: Vec::new() } };
    let s: Vec<Fr> = scalars[..t].iter().map(|s| Fr::from_bigint(BigInt(s.limbs)).unwrap()).collect();
    let mut bytes = Vec::new();
    G1Projective::msm(&b, &s).unwrap().into_affine().serialize_uncompressed(&mut bytes).unwrap();
    G1Point { bytes }
}

/// Relies on ark-ec's `VariableBaseMSM::msm` for G2: the multi-scalar multiplication of the
/// first `t` bases with the first `t` scalars.
#[verifier::external_body]
fn g2_msm(bases: &Vec<G2Point>, scalars: &Vec<Scalar>, t: usize) -> (r: G2Point)
    requires
        t <= bases.len(),
        t <= scalars.len(),
        all_wf(scalars@),
    ensures
        r@ == g2_msm_of(g2_views(bases@.take(t as int)), values_of(scalars@.take(t as int))),
{
    let b: Result<Vec<G2Affine>, _> =
        bases[..t].iter().map(|p| G2Affine::deserialize_uncompressed(&p.bytes[..])).collect();
    let Ok(b) = b else { return G2Point { bytes: Vec::new() } };
    let s: Vec<Fr> = scalars[..t].iter().map(|s| Fr::from_bigint(BigInt(s.limbs)).unwrap()).collect();
    let mut bytes = Vec::new();
    G2Projective::msm(&b, &s).unwrap().into_affine().serialize_uncompressed(&mut bytes).unwrap();
    G2Point { bytes }
}

/// Relies on ark-ec's `Pairing::pairing` for BLS12-377: whether `e(a, b)` and `e(c, d)` are
/// equal; false when an encoding is not a valid point.
#[verifier::external_body]
fn pairings_equal(a: &G1Point, b: &G2Point, c: &G1Point, d: &G2Point) -> (r: bool)
    ensures
        r == pairings_equal_of(a@, b@, c@, d@),
{
    let (Ok(a), Ok(b), Ok(c), Ok(d)) = (
        G1Affine::deserialize_uncompressed(&a.bytes[..]),
        G2Affine::deserialize_uncompressed(&b.bytes[..]),
        G1Affine::deserialize_uncompressed(&c.bytes[..]),
        G2Affine::deserialize_uncompressed(&d.bytes[..]),
    ) else { return false };
    Bls12_377::pairing(a, b) == Bls12_377::pairing(c, d)
}

#[derive(Debug, PartialEq, Eq)]
pub enum Error {
    /// Setup was asked for degree zero.
    DegreeIsZero,
    /// The polynomial has more coefficients than the parameters have powers.
    TooManyCoefficients { num_coefficients: usize, num_powers: usize },
}

/// Public parameters in the coefficient basis: `powers_of_g[i] = [β^i]g`,
/// `powers_of_h[i] = [β^i]h`.
pub struct UniversalParams {
    pub powers_of_g: Vec<G1Point>,
    pub powers_of_h: Vec<G2Point>,
}

/// The commitment to `s` under `powers`: the multi-scalar multiplication of its
/// coefficients up to its degree, or `None` when the powers do not reach that degree.
pub open spec fn commitment_spec(powers: Seq<Seq<u8>>, s: Seq<int>) -> Option<Seq<u8>> {
    if degree_spec(s) + 1 > powers.len() {
        None
    } else {
        Some(commit_spec(powers, s))
    }
}

/// The multi-scalar multiplication of the coefficients of `s` up to its degree with the
/// first powers.
pub open spec fn commit_spec(powers: Seq<Seq<u8>>, s: Seq<int>) -> Seq<u8> {
    let t = if s.len() == 0 {
        0
    } else {
        degree_spec(s) + 1
    };
    g1_msm_of(powers.take(t as int), s.take(t as int))
}

/// Commitments to each of `polys`.
pub open spec fn commit_all(powers: Seq<Seq<u8>>, polys: Seq<Seq<int>>) -> Seq<Seq<u8>> {
    polys.map_values(|p: Seq<int>| commit_spec(powers, p))
}

/// Opening proofs of each of `polys` at `z`.
pub open spec fn open_all(powers: Seq<Seq<u8>>, polys: Seq<Seq<int>>, z: int) -> Seq<Seq<u8>> {
    polys.map_values(|p: Seq<int>| commit_spec(powers, linear_quotient(p, z)))
}

/// `r` is what committing to `s` under `powers` gives.
pub open spec fn commit_outcome(powers: Seq<Seq<u8>>, s: Seq<int>, r: Result<G1Point, Error>) -> bool {
    match r {
        Ok(c) => commitment_spec(powers, s) == Some(c@),
        Err(e) => commitment_spec(powers, s) is None && e == Error::TooManyCoefficients {
            num_coefficients: (degree_spec(s) + 1) as usize,
            num_powers: powers.len() as usize,
        },
    }
}

/// The pairing equation `e(comm - [value]g, h) == e(proof, [β]h - [point]h)`.
pub open spec fn check_spec(
    g: Seq<u8>,
    h: Seq<u8>,
    beta_h: Seq<u8>,
    comm: Seq<u8>,
    point: int,
    value: int,
    proof: Seq<u8>,
) -> bool {
    pairings_equal_of(
        g1_sum_of(comm, g1_scalar_mul_of(g, (0 - value) % modulus())),
        h,
        proof,
        g2_sum_of(beta_h, g2_scalar_mul_of(h, (0 - point) % modulus())),
    )
}

impl UniversalParams {
    pub open spec fn powers_from(self, g: Seq<u8>, h: Seq<u8>, beta: int, count: nat) -> bool {
        &&& self.powers_of_g.len() == count
        &&& self.powers_of_h.len() == count
        &&& forall|i: int|
            0 <= i < count ==> #[trigger] self.powers_of_g@[i]@ == g1_scalar_mul_of(
                g,
                powm(beta, i as nat),
            )
        &&& forall|i: int|
            0 <= i < count ==> #[trigger] self.powers_of_h@[i]@ == g2_scalar_mul_of(
                h,
                powm(beta, i as nat),
            )
    }

    pub open spec fn check_result(self, comm: Seq<u8>, point: int, value: int, proof: Seq<u8>) -> bool {
        check_spec(
            self.powers_of_g@[0]@,
            self.powers_of_h@[0]@,
            self.powers_of_h@[1]@,
            comm,
            point,
            value,
            proof,
        )
    }
}

fn check_degree_is_too_large(degree: usize, num_powers: usize) -> (r: Result<(), Error>)
    requires
        degree < usize::MAX,
    ensures
        r is Ok <==> degree + 1 <= num_powers,
        r matches Err(e) ==> e == (Error::TooManyCoefficients {
            num_coefficients: (degree + 1) as usize,
            num_powers,
        }),
{
    let num_coefficients = degree + 1;
    if num_coefficients > num_powers {
        Err(Error::TooManyCoefficients { num_coefficients, num_powers })
    } else {
        Ok(())
    }
}

/// The KZG10 polynomial commitment scheme.
pub struct KZG10;

impl KZG10 {
    /// Parameters for polynomials of degree up to `max_degree` from the secret `beta` and the
    /// generators `g` and `h`.
    pub fn setup(max_degree: usize, beta: &Scalar, g: &G1Point, h: &G2Point) -> (r: Result<
        UniversalParams,
        Error,
    >)
        requires
            beta.wf(),
            max_degree < usize::MAX,
        ensures
            r is Err <==> max_degree < 1,
            r matches Err(e) ==> e == Error::DegreeIsZero,
            r matches Ok(p) ==> p.powers_from(g@, h@, beta.value(), max_degree as nat + 1),
    {
        if max_degree < 1 {
            return Err(Error::DegreeIsZero);
        }
        let mut powers_of_g: Vec<G1Point> = Vec::new();
        let mut powers_of_h: Vec<G2Point> = Vec::new();
        let mut cur = Scalar::one();
        let mut i: usize = 0;
        while i <= max_degree
            invariant
                beta.wf(),
                max_degree < usize::MAX,
                i <= max_degree + 1,
                cur.wf(),
                cur.value() == powm(beta.value(), i as nat),
                powers_of_g.len() == i,
                powers_of_h.len() == i,
                forall|j: int|
                    0 <= j < i ==> #[trigger] powers_of_g@[j]@ == g1_scalar_mul_of(
                        g@,
                        powm(beta.value(), j as nat),
                    ),
                forall|j: int|
                    0 <= j < i ==> #[trigger] powers_of_h@[j]@ == g2_scalar_mul_of(
                        h@,
                        powm(beta.value(), j as nat),
                    ),
            decreases max_degree + 1 - i,
        {
            powers_of_g.push(g1_mul(g, &cur));
            powers_of_h.push(g2_mul(h, &cur));
            cur = cur.mul(beta);
            i = i + 1;
        }
        Ok(UniversalParams { powers_of_g, powers_of_h })
    }

    /// Commits to `polynomial` in G1.
    pub fn commit_g1(params: &UniversalParams, polynomial: &Poly) -> (r: Result<G1Point, Error>)
        requires
            polynomial.wf(),
        ensures
            commit_outcome(g1_views(params.powers_of_g@), polynomial@, r),
    {
        let d = polynomial.degree();
        match check_degree_is_too_large(d, params.powers_of_g.len()) {
            Err(e) => Err(e),
            Ok(()) => {
                let t = if polynomial.coeffs.len() == 0 { 0 } else { d + 1 };
                let c = g1_msm(&params.powers_of_g, &polynomial.coeffs, t);
                proof {
                    let n = t as int;
                    assert(g1_views(params.powers_of_g@.take(n)) =~= g1_views(
                        params.powers_of_g@,
                    ).take(n));
                    assert(values_of(polynomial.coeffs@.take(n)) =~= polynomial@.take(n));
                }
                Ok(c)
            },
        }
    }

    /// Commits to `polynomial` in G2.
    pub fn commit_g2(params: &UniversalParams, polynomial: &Poly) -> (r: Result<G2Point, Error>)
        requires
            polynomial.wf(),
        ensures
            ({
                let s = polynomial@;
                let d = degree_spec(s);
                let t = if s.len() == 0 {
                    0
                } else {
                    d + 1
                };
                &&& r is Ok <==> d + 1 <= params.powers_of_h.len()
                &&& r matches Ok(c) ==> c@ == g2_msm_of(
                    g2_views(params.powers_of_h@).take(t as int),
                    s.take(t as int),
                )
                &&& r matches Err(e) ==> e == (Error::TooManyCoefficients {
                    num_coefficients: (d + 1) as usize,
                    num_powers: params.powers_of_h.len(),
                })
            }),
    {
        let d = polynomial.degree();
        match check_degree_is_too_large(d, params.powers_of_h.len()) {
            Err(e) => Err(e),
            Ok(()) => {
                let t = if polynomial.coeffs.len() == 0 { 0 } else { d + 1 };
                let c = g2_msm(&params.powers_of_h, &polynomial.coeffs, t);
                proof {
                    let n = t as int;
                    assert(g2_views(params.powers_of_h@.take(n)) =~= g2_views(
                        params.powers_of_h@,
                    ).take(n));
                    assert(values_of(polynomial.coeffs@.take(n)) =~= polynomial@.take(n));
                }
                Ok(c)
            },
        }
    }

    /// The opening proof of `polynomial` at `point`: the commitment to the witness
    /// `(polynomial(X) - polynomial(point)) / (X - point)`.
    pub fn compute_opening_proof(params: &UniversalParams, polynomial: &Poly, point: &Scalar) -> (r:
        Result<G1Point, Error>)
        requires
            polynomial.wf(),
            point.wf(),
        ensures
            commit_outcome(
                g1_views(params.powers_of_g@),
                linear_quotient(polynomial@, point.value()),
                r,
            ),
    {
        let witness = divide_by_linear(polynomial, point);
        Self::commit_g1(params, &witness)
    }

    /// Whether `proof` shows that the polynomial committed in `comm` takes `value` at
    /// `point`.
    pub fn check(
        params: &UniversalParams,
        comm: &G1Point,
        point: &Scalar,
        value: &Scalar,
        proof: &G1Point,
    ) -> (r: bool)
        requires
            params.powers_of_g.len() >= 1,
            params.powers_of_h.len() >= 2,
            point.wf(),
            value.wf(),
        ensures
            r == params.check_result(comm@, point.value(), value.value(), proof@),
    {
        let zero = Scalar::zero();
        let g = &params.powers_of_g[0];
        let h = &params.powers_of_h[0];
        let beta_h = &params.powers_of_h[1];
        let lhs = g1_add(comm, &g1_mul(g, &zero.sub(value)));
        let rhs = g2_add(beta_h, &g2_mul(h, &zero.sub(point)));
        pairings_equal(&lhs, h, proof, &rhs)
    }
}

/// The structured reference string of a domain of size `n`: `4n` powers of the secret in
/// each group, and the `n` Lagrange basis polynomials evaluated at the secret, in G1.
pub struct JZKZGCommitmentParams {
    pub crs_coefficient_g1: Vec<G1Point>,
    pub crs_coefficient_g2: Vec<G2Point>,
    pub crs_lagrange: Vec<G1Point>,
}

/// The fixed, publicly known secret of the insecure stand-in setup.
pub const PUBLIC_SETUP_SECRET: u64 = 42;

impl JZKZGCommitmentParams {
    pub fn copy(&self) -> (r: JZKZGCommitmentParams)
        ensures
            g1_views(r.crs_coefficient_g1@) == g1_views(self.crs_coefficient_g1@),
            g2_views(r.crs_coefficient_g2@) == g2_views(self.crs_coefficient_g2@),
            g1_views(r.crs_lagrange@) == g1_views(self.crs_lagrange@),
            r.crs_coefficient_g1.len() == self.crs_coefficient_g1.len(),
            r.crs_coefficient_g2.len() == self.crs_coefficient_g2.len(),
            r.crs_lagrange.len() == self.crs_lagrange.len(),
    {
        JZKZGCommitmentParams {
            crs_coefficient_g1: copy_g1_points(&self.crs_coefficient_g1),
            crs_coefficient_g2: copy_g2_points(&self.crs_coefficient_g2),
            crs_lagrange: copy_g1_points(&self.crs_lagrange),
        }
    }

    /// All three vectors derive from the generators `g`, `h` and the secret `tau`.
    pub open spec fn generated_from(self, g: Seq<u8>, h: Seq<u8>, tau: int, n: nat) -> bool {
        &&& self.crs_coefficient_g1.len() == 4 * n
        &&& self.crs_coefficient_g2.len() == 4 * n
        &&& self.crs_lagrange.len() == n
        &&& forall|i: int|
            0 <= i < 4 * n ==> #[trigger] self.crs_coefficient_g1@[i]@ == g1_scalar_mul_of(
                g,
                powm(tau, i as nat),
            )
        &&& forall|i: int|
            0 <= i < 4 * n ==> #[trigger] self.crs_coefficient_g2@[i]@ == g2_scalar_mul_of(
                h,
                powm(tau, i as nat),
            )
        &&& forall|i: int|
            0 <= i < n ==> #[trigger] self.crs_lagrange@[i]@ == g1_scalar_mul_of(
                g,
                eval_poly(interpolation_of(indicator(n, i)), tau),
            )
    }

    /// The insecure stand-in setup: the secret is the public constant 42 and the generators are
    /// the curve's standard ones. Never secure; it stands in for a setup ceremony.
    pub fn trusted_setup(n: usize) -> (r: JZKZGCommitmentParams)
        requires
            is_pow2(n as nat),
            n as nat <= max_domain_size(),
            n <= usize::MAX / 4,
        ensures
            exists|g: Seq<u8>, h: Seq<u8>| r.generated_from(g, h, PUBLIC_SETUP_SECRET as int, n as nat),
    {
        let g = g1_generator();
        let h = g2_generator();
        let tau = Scalar::from_u64(PUBLIC_SETUP_SECRET);
        let mut crs_coefficient_g1: Vec<G1Point> = Vec::new();
        let mut crs_coefficient_g2: Vec<G2Point> = Vec::new();
        let mut cur = Scalar::one();
        let mut i: usize = 0;
        while i < 4 * n
            invariant
                n <= usize::MAX / 4,
                i <= 4 * n,
                tau.wf(),
                tau.value() == PUBLIC_SETUP_SECRET,
                cur.wf(),
                cur.value() == powm(tau.value(), i as nat),
                crs_coefficient_g1.len() == i,
                crs_coefficient_g2.len() == i,
                forall|j: int|
                    0 <= j < i ==> #[trigger] crs_coefficient_g1@[j]@ == g1_scalar_mul_of(
                        g@,
                        powm(tau.value(), j as nat),
                    ),
                forall|j: int|
                    0 <= j < i ==> #[trigger] crs_coefficient_g2@[j]@ == g2_scalar_mul_of(
                        h@,
                        powm(tau.value(), j as nat),
                    ),
            decreases 4 * n - i,
        {
            crs_coefficient_g1.push(g1_mul(&g, &cur));
            crs_coefficient_g2.push(g2_mul(&h, &cur));
            cur = cur.mul(&tau);
            i = i + 1;
        }
        let mut crs_lagrange: Vec<G1Point> = Vec::new();
        let mut k: usize = 0;
        while k < n
            invariant
                is_pow2(n as nat),
                n as nat <= max_domain_size(),
                k <= n,
                tau.wf(),
                tau.value() == PUBLIC_SETUP_SECRET,
                crs_lagrange.len() == k,
                forall|j: int|
                    0 <= j < k ==> #[trigger] crs_lagrange@[j]@ == g1_scalar_mul_of(
                        g@,
                        eval_poly(interpolation_of(indicator(n as nat, j)), tau.value()),
                    ),
            decreases n - k,
        {
            let l = lagrange_poly(n, k);
            let v = l.evaluate(&tau);
            crs_lagrange.push(g1_mul(&g, &v));
            k = k + 1;
        }
        let r = JZKZGCommitmentParams { crs_coefficient_g1, crs_coefficient_g2, crs_lagrange };
        assert(r.generated_from(g@, h@, PUBLIC_SETUP_SECRET as int, n as nat));
        r
    }
}

pub proof fn lemma_degree_fits(s: Seq<int>)
    ensures
        degree_spec(s) + 1 <= if s.len() == 0 {
            1
        } else {
            s.len()
        },
    decreases s.len(),
{
    if s.len() > 1 && s.last() == 0 {
        lemma_degree_fits(s.drop_last());
    }
}

/// Commits to a polynomial that the parameters have room for.
pub fn commit_within(params: &UniversalParams, polynomial: &Poly) -> (r: G1Point)
    requires
        polynomial.wf(),
        polynomial.coeffs.len() <= params.powers_of_g.len(),
        params.powers_of_g.len() >= 1,
    ensures
        r@ == commit_spec(g1_views(params.powers_of_g@), polynomial@),
{
    proof {
        lemma_degree_fits(polynomial@);
    }
    match KZG10::commit_g1(params, polynomial) {
        Ok(c) => c,
        Err(_) => {
            proof {
                assert(false);
            }
            G1Point { bytes: Vec::new() }
        },
    }
}

/// The opening proof at `point` of a polynomial that the parameters have room for.
pub fn open_within(params: &UniversalParams, polynomial: &Poly, point: &Scalar) -> (r: G1Point)
    requires
        polynomial.wf(),
        point.wf(),
        polynomial.coeffs.len() <= params.powers_of_g.len(),
        params.powers_of_g.len() >= 1,
    ensures
        r@ == commit_spec(g1_views(params.powers_of_g@), linear_quotient(polynomial@, point.value())),
{
    let witness = divide_by_linear(polynomial, point);
    assert(witness@.len() == witness.coeffs.len());
    commit_within(params, &witness)
}

pub(crate) fn copy_g1_points(v: &Vec<G1Point>) -> (r: Vec<G1Point>)
    ensures
        r.len() == v.len(),
        g1_views(r@) == g1_views(v@),
{
    let mut r: Vec<G1Point> = Vec::new();
    let mut i: usize = 0;
    while i < v.len()
        invariant
            i <= v.len(),
            r.len() == i,
            forall|j: int| 0 <= j < i ==> #[trigger] r@[j]@ == v@[j]@,
        decreases v.len() - i,
    {
        r.push(v[i].copy());
        i = i + 1;
    }
    assert(g1_views(r@) =~= g1_views(v@));
    r
}

fn copy_g2_points(v: &Vec<G2Point>) -> (r: Vec<G2Point>)
    ensures
        r.len() == v.len(),
        g2_views(r@) == g2_views(v@),
{
    let mut r: Vec<G2Point> = Vec::new();
    let mut i: usize = 0;
    while i < v.len()
        invariant
            i <= v.len(),
            r.len() == i,
            forall|j: int| 0 <= j < i ==> #[trigger] r@[j]@ == v@[j]@,
        decreases v.len() - i,
    {
        r.push(v[i].copy());
        i = i + 1;
    }
    assert(g2_views(r@) =~= g2_views(v@));
    r
}

/// The coefficient-basis part of the reference string, as KZG10 parameters.
pub fn kzg_crs(crs: &JZKZGCommitmentParams) -> (r: UniversalParams)
    ensures
        r.powers_of_g.len() == crs.crs_coefficient_g1.len(),
        r.powers_of_h.len() == crs.crs_coefficient_g2.len(),
        g1_views(r.powers_of_g@) == g1_views(crs.crs_coefficient_g1@),
        g2_views(r.powers_of_h@) == g2_views(crs.crs_coefficient_g2@),
{
    UniversalParams {
        powers_of_g: copy_g1_points(&crs.crs_coefficient_g1),
        powers_of_h: copy_g2_points(&crs.crs_coefficient_g2),
    }
}

} // verus!
