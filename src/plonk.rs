//! The PLONK-style batched polynomial identity: transcript, proof, and the single-prover
//! protocol.
use vstd::prelude::*;
use crate::field::{Scalar, fadd, fmul, powm};
use crate::poly::{
    Poly, all_wf, coin_poly, copy_poly, eval_poly, interpolation_of, is_pow2, linear_quotient,
    max_domain_size, scale_spec, sum_spec, values_of, poly_add, poly_eval_mult_const,
    compute_constant_poly,
};
use crate::kzg::{
    G1Point, JZKZGCommitmentParams, KZG10, UniversalParams, check_spec, commit_all, commit_spec,
    commit_within, g1_views, g2_views, kzg_crs, open_all, open_within,
};
use crate::poly::{
    compute_vanishing_poly, divide_by_vanishing, vanishing_divides, vanishing_quotient,
    vanishing_spec, coef, lemma_eval_ops, lemma_quotient_identity,
};
use vstd::arithmetic::div_mod::{lemma_mod_bound, lemma_small_mod};
use crate::field::modulus;
use crate::apps::{NUM_FIELDS, PlonkApp, lemma_evaluations_match};
use ark_bls12_377::Fr;
use ark_crypto_primitives::crh::sha256::Sha256;
use ark_ff::field_hashers::{DefaultFieldHasher, HashToField};
use ark_ff::PrimeField;

verus! {

/// The field elements that hashing `msg` under the domain tag `dst` yields.
pub uninterp spec fn hash_to_field_of(dst: Seq<u8>, msg: Seq<u8>, count: nat) -> Seq<int>;

/// Relies on ark-ff's `DefaultFieldHasher<Sha256>::hash_to_field` (`HashToField`): `count`
/// canonical field elements derived from `dst` and `msg`. Its expander asserts that
/// `48·count` bytes take at most 255 SHA-256 blocks.
#[verifier::external_body]
fn hash_to_field(dst: &Vec<u8>, msg: &Vec<u8>, count: usize) -> (r: Vec<Scalar>)
    requires
        count <= 170,
    ensures
        r.len() == count,
        all_wf(r@),
        values_of(r@) == hash_to_field_of(dst@, msg@, count as nat),
{
    let hasher = <DefaultFieldHasher<Sha256> as HashToField<Fr>>::new(dst);
    let v: Vec<Fr> = hasher.hash_to_field(msg, count);
    v.iter().map(|f| Scalar { limbs: f.into_bigint().0 }).collect()
}

/// The domain tag of the Fiat-Shamir transcript: the bytes of "jigzexe".
pub open spec fn transcript_tag() -> Seq<u8> {
    seq![106u8, 105u8, 103u8, 122u8, 101u8, 120u8, 101u8]
}

fn transcript_tag_bytes() -> (r: Vec<u8>)
    ensures
        r@ == transcript_tag(),
{
    let r = vec![106u8, 105u8, 103u8, 122u8, 101u8, 120u8, 101u8];
    assert(r@ =~= transcript_tag());
    r
}

/// The byte strings of `x`, one after the other.
pub open spec fn concat_spec(x: Seq<Seq<u8>>) -> Seq<u8>
    decreases x.len(),
{
    if x.len() == 0 {
        seq![]
    } else {
        concat_spec(x.drop_last()) + x.last()
    }
}

pub open spec fn bytes_views(x: Seq<Vec<u8>>) -> Seq<Seq<u8>> {
    x.map_values(|v: Vec<u8>| v@)
}

/// Fiat-Shamir: hashes the concatenation of `x` to `num_output` field elements.
pub fn fs_hash(x: &Vec<Vec<u8>>, num_output: usize) -> (r: Vec<Scalar>)
    requires
        num_output <= 170,
    ensures
        r.len() == num_output,
        all_wf(r@),
        values_of(r@) == hash_to_field_of(
            transcript_tag(),
            concat_spec(bytes_views(x@)),
            num_output as nat,
        ),
{
    let mut msg: Vec<u8> = Vec::new();
    let mut i: usize = 0;
    while i < x.len()
        invariant
            i <= x.len(),
            msg@ == concat_spec(bytes_views(x@.take(i as int))),
        decreases x.len() - i,
    {
        let part = &x[i];
        let ghost before = msg@;
        let mut j: usize = 0;
        while j < part.len()
            invariant
                j <= part.len(),
                msg@ == before + part@.take(j as int),
            decreases part.len() - j,
        {
            msg.push(part[j]);
            assert(part@.take(j + 1) =~= part@.take(j as int).push(part@[j as int]));
            j = j + 1;
        }
        assert(part@.take(j as int) =~= part@);
        assert(bytes_views(x@.take(i + 1)).drop_last() =~= bytes_views(x@.take(i as int)));
        i = i + 1;
    }
    assert(x@.take(i as int) =~= x@);
    hash_to_field(&transcript_tag_bytes(), &msg, num_output)
}

/// The challenge derived from a list of commitments.
pub open spec fn oracle_spec(commitments: Seq<Seq<u8>>) -> int {
    hash_to_field_of(transcript_tag(), concat_spec(commitments), 1)[0]
}

/// The Fiat-Shamir challenge for `commitments`, hashed in their uncompressed encoding.
pub fn random_oracle(commitments: &Vec<G1Point>) -> (r: Scalar)
    ensures
        r.wf(),
        r.value() == oracle_spec(g1_views(commitments@)),
{
    let mut serialized: Vec<Vec<u8>> = Vec::new();
    let mut i: usize = 0;
    while i < commitments.len()
        invariant
            i <= commitments.len(),
            serialized.len() == i,
            forall|j: int| 0 <= j < i ==> #[trigger] serialized@[j]@ == commitments@[j]@,
        decreases commitments.len() - i,
    {
        serialized.push(commitments[i].copy().bytes);
        i = i + 1;
    }
    assert(bytes_views(serialized@) =~= g1_views(commitments@));
    let h = fs_hash(&serialized, 1);
    h[0]
}

/// A proof that committed records satisfy an application's rules: commitments, the values
/// at the challenge point, and the opening proofs of those values.
pub struct PlonkProof {
    pub input_coins_com: Vec<G1Point>,
    pub output_coins_com: Vec<G1Point>,
    pub quotient_com: G1Point,
    pub additional_com: Vec<G1Point>,
    pub input_coins_opening: Vec<Scalar>,
    pub output_coins_opening: Vec<Scalar>,
    pub quotient_opening: Scalar,
    pub additional_opening: Vec<Scalar>,
    pub input_coins_opening_proof: Vec<G1Point>,
    pub output_coins_opening_proof: Vec<G1Point>,
    pub quotient_opening_proof: G1Point,
    pub additional_opening_proof: Vec<G1Point>,
}

impl PlonkProof {
    /// Every value in the proof is a canonical field element.
    pub open spec fn wf(&self) -> bool {
        &&& all_wf(self.input_coins_opening@)
        &&& all_wf(self.output_coins_opening@)
        &&& self.quotient_opening.wf()
        &&& all_wf(self.additional_opening@)
    }

    /// The proof that the protocol derives from the record polynomials `ins` and `outs`, the
    /// quotient polynomial and the additional polynomials, under the powers `powers`.
    pub open spec fn is_proof_of(
        self,
        powers: Seq<Seq<u8>>,
        ins: Seq<Seq<int>>,
        outs: Seq<Seq<int>>,
        quotient: Seq<int>,
        adds: Seq<Seq<int>>,
    ) -> bool {
        let in_com = commit_all(powers, ins);
        let out_com = commit_all(powers, outs);
        let q_com = commit_spec(powers, quotient);
        let r = oracle_spec(in_com + out_com + seq![q_com]);
        &&& self.wf()
        &&& g1_views(self.input_coins_com@) == in_com
        &&& g1_views(self.output_coins_com@) == out_com
        &&& self.quotient_com@ == q_com
        &&& g1_views(self.additional_com@) == commit_all(powers, adds)
        &&& values_of(self.input_coins_opening@) == eval_all(ins, r)
        &&& values_of(self.output_coins_opening@) == eval_all(outs, r)
        &&& self.quotient_opening.value() == eval_poly(quotient, r)
        &&& values_of(self.additional_opening@) == eval_all(adds, r)
        &&& g1_views(self.input_coins_opening_proof@) == open_all(powers, ins, r)
        &&& g1_views(self.output_coins_opening_proof@) == open_all(powers, outs, r)
        &&& self.quotient_opening_proof@ == commit_spec(powers, linear_quotient(quotient, r))
        &&& g1_views(self.additional_opening_proof@) == open_all(powers, adds, r)
    }
}

/// Whether every value in `v` is a canonical field element.
pub fn all_canonical(v: &Vec<Scalar>) -> (r: bool)
    ensures
        r == all_wf(v@),
{
    let mut i: usize = 0;
    while i < v.len()
        invariant
            i <= v.len(),
            forall|j: int| 0 <= j < i ==> #[trigger] v@[j].wf(),
        decreases v.len() - i,
    {
        if !v[i].is_canonical() {
            return false;
        }
        i = i + 1;
    }
    true
}

impl PlonkProof {
    /// Whether every value in the proof is a canonical field element.
    pub fn is_canonical(&self) -> (r: bool)
        ensures
            r == self.wf(),
    {
        all_canonical(&self.input_coins_opening) && all_canonical(&self.output_coins_opening)
            && self.quotient_opening.is_canonical() && all_canonical(&self.additional_opening)
    }
}

/// A record: its fields, which are the evaluations of its polynomial over the domain.
pub type Coin = Vec<Scalar>;

pub open spec fn polys_view(v: Seq<Poly>) -> Seq<Seq<int>> {
    v.map_values(|p: Poly| p@)
}

pub open spec fn polys_wf(v: Seq<Poly>) -> bool {
    forall|i: int| 0 <= i < v.len() ==> #[trigger] v[i].wf()
}

/// Every polynomial of `v` has at most `m` coefficients.
pub open spec fn polys_within(v: Seq<Poly>, m: nat) -> bool {
    forall|i: int| 0 <= i < v.len() ==> #[trigger] v[i].coeffs.len() <= m
}

/// Every record of `coins` has `n` canonical fields.
pub open spec fn coins_fit(coins: Seq<Coin>, n: nat) -> bool {
    forall|i: int| 0 <= i < coins.len() ==> #[trigger] coins[i].len() == n && all_wf(coins[i]@)
}

/// The record polynomials of `coins`.
pub open spec fn record_polys(coins: Seq<Coin>) -> Seq<Seq<int>> {
    coins.map_values(|c: Coin| interpolation_of(values_of(c@)))
}

/// The values of each of `polys` at `z`.
pub open spec fn eval_all(polys: Seq<Seq<int>>, z: int) -> Seq<int> {
    polys.map_values(|p: Seq<int>| eval_poly(p, z))
}

/// The random linear combination `Σ_i α^i · cs_i`.
pub open spec fn combination_spec(cs: Seq<Seq<int>>, alpha: int) -> Seq<int>
    decreases cs.len(),
{
    if cs.len() == 0 {
        seq![0]
    } else {
        sum_spec(
            combination_spec(cs.drop_last(), alpha),
            scale_spec(cs.last(), powm(alpha, (cs.len() - 1) as nat)),
        )
    }
}

pub proof fn lemma_combination_len(cs: Seq<Seq<int>>, alpha: int, m: nat)
    requires
        m >= 1,
        forall|i: int| 0 <= i < cs.len() ==> (#[trigger] cs[i]).len() <= m,
    ensures
        combination_spec(cs, alpha).len() <= m,
    decreases cs.len(),
{
    if cs.len() > 0 {
        lemma_combination_len(cs.drop_last(), alpha, m);
    }
}

/// Copies of `v`.
pub fn copy_polys(v: &Vec<Poly>) -> (r: Vec<Poly>)
    requires
        polys_wf(v@),
    ensures
        r.len() == v.len(),
        polys_wf(r@),
        polys_view(r@) == polys_view(v@),
        forall|i: int| 0 <= i < v.len() ==> #[trigger] r@[i].coeffs.len() == v@[i].coeffs.len(),
{
    let mut r: Vec<Poly> = Vec::new();
    let mut i: usize = 0;
    while i < v.len()
        invariant
            polys_wf(v@),
            i <= v.len(),
            r.len() == i,
            polys_wf(r@),
            forall|t: int| 0 <= t < i ==> #[trigger] r@[t]@ == v@[t]@,
            forall|t: int| 0 <= t < i ==> #[trigger] r@[t].coeffs.len() == v@[t].coeffs.len(),
        decreases v.len() - i,
    {
        r.push(copy_poly(&v[i]));
        i = i + 1;
    }
    assert(polys_view(r@) =~= polys_view(v@));
    r
}

/// The record polynomials of `coins` over the domain of size `n`.
pub fn coin_polys(n: usize, coins: &Vec<Coin>) -> (r: Vec<Poly>)
    requires
        is_pow2(n as nat),
        n as nat <= max_domain_size(),
        coins_fit(coins@, n as nat),
    ensures
        r.len() == coins.len(),
        polys_wf(r@),
        polys_within(r@, n as nat),
        polys_view(r@) == record_polys(coins@),
{
    let mut r: Vec<Poly> = Vec::new();
    let mut i: usize = 0;
    while i < coins.len()
        invariant
            is_pow2(n as nat),
            n as nat <= max_domain_size(),
            coins_fit(coins@, n as nat),
            i <= coins.len(),
            r.len() == i,
            polys_wf(r@),
            polys_within(r@, n as nat),
            forall|j: int| 0 <= j < i ==> #[trigger] r@[j]@ == record_polys(coins@)[j],
        decreases coins.len() - i,
    {
        let p = coin_poly(n, &coins[i]);
        assert(p.coeffs.len() == p@.len());
        r.push(p);
        i = i + 1;
    }
    assert(polys_view(r@) =~= record_polys(coins@));
    r
}

/// Commitments to each of `polys`.
pub fn commit_polys(params: &UniversalParams, polys: &Vec<Poly>) -> (r: Vec<G1Point>)
    requires
        polys_wf(polys@),
        polys_within(polys@, params.powers_of_g.len() as nat),
        params.powers_of_g.len() >= 1,
    ensures
        r.len() == polys.len(),
        g1_views(r@) == commit_all(g1_views(params.powers_of_g@), polys_view(polys@)),
{
    let mut r: Vec<G1Point> = Vec::new();
    let mut i: usize = 0;
    while i < polys.len()
        invariant
            polys_wf(polys@),
            polys_within(polys@, params.powers_of_g.len() as nat),
            params.powers_of_g.len() >= 1,
            i <= polys.len(),
            r.len() == i,
            forall|j: int|
                0 <= j < i ==> #[trigger] r@[j]@ == commit_spec(
                    g1_views(params.powers_of_g@),
                    polys@[j]@,
                ),
        decreases polys.len() - i,
    {
        r.push(commit_within(params, &polys[i]));
        i = i + 1;
    }
    assert(g1_views(r@) =~= commit_all(g1_views(params.powers_of_g@), polys_view(polys@)));
    r
}

/// The opening proofs of each of `polys` at `z`.
pub fn open_polys(params: &UniversalParams, polys: &Vec<Poly>, z: &Scalar) -> (r: Vec<G1Point>)
    requires
        polys_wf(polys@),
        polys_within(polys@, params.powers_of_g.len() as nat),
        params.powers_of_g.len() >= 1,
        z.wf(),
    ensures
        r.len() == polys.len(),
        g1_views(r@) == open_all(g1_views(params.powers_of_g@), polys_view(polys@), z.value()),
{
    let mut r: Vec<G1Point> = Vec::new();
    let mut i: usize = 0;
    while i < polys.len()
        invariant
            polys_wf(polys@),
            polys_within(polys@, params.powers_of_g.len() as nat),
            params.powers_of_g.len() >= 1,
            z.wf(),
            i <= polys.len(),
            r.len() == i,
            forall|j: int|
                0 <= j < i ==> #[trigger] r@[j]@ == commit_spec(
                    g1_views(params.powers_of_g@),
                    linear_quotient(polys@[j]@, z.value()),
                ),
        decreases polys.len() - i,
    {
        r.push(open_within(params, &polys[i], z));
        i = i + 1;
    }
    assert(g1_views(r@) =~= open_all(
        g1_views(params.powers_of_g@),
        polys_view(polys@),
        z.value(),
    ));
    r
}

/// The values of each of `polys` at `z`.
pub fn evaluate_polys(polys: &Vec<Poly>, z: &Scalar) -> (r: Vec<Scalar>)
    requires
        polys_wf(polys@),
        z.wf(),
    ensures
        r.len() == polys.len(),
        all_wf(r@),
        values_of(r@) == eval_all(polys_view(polys@), z.value()),
{
    let mut r: Vec<Scalar> = Vec::new();
    let mut i: usize = 0;
    while i < polys.len()
        invariant
            polys_wf(polys@),
            z.wf(),
            i <= polys.len(),
            r.len() == i,
            all_wf(r@),
            forall|j: int| 0 <= j < i ==> #[trigger] r@[j].value() == eval_poly(polys@[j]@, z.value()),
        decreases polys.len() - i,
    {
        r.push(polys[i].evaluate(z));
        i = i + 1;
    }
    assert(values_of(r@) =~= eval_all(polys_view(polys@), z.value()));
    r
}

/// The random linear combination `Σ_i α^i · polys_i`.
pub fn combine_constraints(polys: &Vec<Poly>, alpha: &Scalar) -> (r: Poly)
    requires
        polys_wf(polys@),
        alpha.wf(),
    ensures
        r.wf(),
        r@ == combination_spec(polys_view(polys@), alpha.value()),
{
    let mut lhs = compute_constant_poly(&Scalar::zero());
    let mut i: usize = 0;
    while i < polys.len()
        invariant
            polys_wf(polys@),
            alpha.wf(),
            i <= polys.len(),
            lhs.wf(),
            lhs@ == combination_spec(polys_view(polys@.take(i as int)), alpha.value()),
        decreases polys.len() - i,
    {
        let coeff = alpha.pow(i as u64);
        let term = poly_eval_mult_const(&polys[i], &coeff);
        lhs = poly_add(&lhs, &term);
        assert(polys_view(polys@.take(i + 1)).drop_last() =~= polys_view(polys@.take(i as int)));
        i = i + 1;
    }
    assert(polys@.take(i as int) =~= polys@);
    lhs
}

/// `Σ_i α^i · vals_i` in the field.
pub open spec fn lin_comb_values(vals: Seq<int>, alpha: int) -> int
    decreases vals.len(),
{
    if vals.len() == 0 {
        0
    } else {
        fadd(
            lin_comb_values(vals.drop_last(), alpha),
            fmul(powm(alpha, (vals.len() - 1) as nat), vals.last()),
        )
    }
}

/// The batched constraint polynomial of an application on record polynomials `ins` and
/// `outs`, under the challenge `alpha`.
pub open spec fn batched_constraint(
    app: PlonkApp,
    n: nat,
    ins: Seq<Seq<int>>,
    outs: Seq<Seq<int>>,
    alpha: int,
) -> Seq<int> {
    combination_spec(app.constraints_spec(n, ins, outs), alpha)
}

/// Every commitment, value and opening proof passes the pairing check at `r`.
pub open spec fn all_open(
    g: Seq<u8>,
    h: Seq<u8>,
    beta_h: Seq<u8>,
    coms: Seq<G1Point>,
    r: int,
    values: Seq<Scalar>,
    proofs: Seq<G1Point>,
) -> bool {
    &&& values.len() == coms.len()
    &&& proofs.len() == coms.len()
    &&& forall|i: int|
        0 <= i < coms.len() ==> #[trigger] check_spec(
            g,
            h,
            beta_h,
            coms[i]@,
            r,
            values[i].value(),
            proofs[i]@,
        )
}

impl PlonkProof {
    /// What the verifier accepts: the proof has the application's shape, every opening passes
    /// the pairing check at the challenge `r`, and `Σ α^i · c_i(r) = q(r) · (r^n - 1)`, with both
    /// challenges recomputed from the commitments.
    pub open spec fn accepted_by(
        self,
        powers_g: Seq<Seq<u8>>,
        powers_h: Seq<Seq<u8>>,
        n: nat,
        app: PlonkApp,
    ) -> bool {
        let in_com = g1_views(self.input_coins_com@);
        let out_com = g1_views(self.output_coins_com@);
        let alpha = oracle_spec(in_com + out_com);
        let r = oracle_spec(in_com + out_com + seq![self.quotient_com@]);
        let (g, h, bh) = (powers_g[0], powers_h[0], powers_h[1]);
        &&& self.input_coins_com.len() == app.num_inputs()
        &&& self.output_coins_com.len() == app.num_outputs()
        &&& self.additional_com.len() == app.num_additional()
        &&& all_open(
            g,
            h,
            bh,
            self.input_coins_com@,
            r,
            self.input_coins_opening@,
            self.input_coins_opening_proof@,
        )
        &&& all_open(
            g,
            h,
            bh,
            self.output_coins_com@,
            r,
            self.output_coins_opening@,
            self.output_coins_opening_proof@,
        )
        &&& all_open(
            g,
            h,
            bh,
            self.additional_com@,
            r,
            self.additional_opening@,
            self.additional_opening_proof@,
        )
        &&& check_spec(
            g,
            h,
            bh,
            self.quotient_com@,
            r,
            self.quotient_opening.value(),
            self.quotient_opening_proof@,
        )
        &&& lin_comb_values(
            app.evaluations_spec(
                n,
                r,
                values_of(self.input_coins_opening@),
                values_of(self.output_coins_opening@),
                values_of(self.additional_opening@),
            ),
            alpha,
        ) == fmul(self.quotient_opening.value(), eval_poly(vanishing_spec(n), r))
    }
}

/// The value at `x` of the random linear combination is the linear combination of values.
pub proof fn lemma_eval_combination(cs: Seq<Seq<int>>, alpha: int, x: int)
    ensures
        eval_poly(combination_spec(cs, alpha), x) == lin_comb_values(eval_all(cs, x), alpha),
    decreases cs.len(),
{
    lemma_eval_ops(x);
    if cs.len() == 0 {
        let z = seq![0int];
        assert(z.drop_last().len() == 0);
        assert(eval_poly(z.drop_last(), x) == 0);
        assert(z.last() * powm(x, 0) == 0);
        lemma_small_mod(0, modulus() as nat);
    } else {
        lemma_eval_combination(cs.drop_last(), alpha, x);
        assert(eval_all(cs, x).drop_last() =~= eval_all(cs.drop_last(), x));
        let (e, w) = (eval_poly(cs.last(), x), powm(alpha, (cs.len() - 1) as nat));
        assert(e * w == w * e) by (nonlinear_arith);
    }
}

/// Every coefficient of the random linear combination is canonical.
pub proof fn lemma_combination_canonical(cs: Seq<Seq<int>>, alpha: int)
    ensures
        forall|i: int|
            0 <= i < combination_spec(cs, alpha).len() ==> 0 <= #[trigger] combination_spec(cs, alpha)[i]
                < modulus(),
    decreases cs.len(),
{
    if cs.len() > 0 {
        let c = combination_spec(cs, alpha);
        let prev = combination_spec(cs.drop_last(), alpha);
        let t = scale_spec(cs.last(), powm(alpha, (cs.len() - 1) as nat));
        assert forall|i: int| 0 <= i < c.len() implies 0 <= #[trigger] c[i] < modulus() by {
            lemma_mod_bound(coef(prev, i) + coef(t, i), modulus());
        }
    }
}

/// An honest proof passes the verifier's batched identity: when `X^n - 1` divides the batched
/// constraint polynomial, the proof that `plonk_prove` builds from it satisfies
/// `Σ α^i · c_i(r) = q(r) · (r^n - 1)` with the verifier's own values `c_i(r)`.
pub proof fn lemma_honest_identity(
    p: PlonkProof,
    powers: Seq<Seq<u8>>,
    n: nat,
    app: PlonkApp,
    ins: Seq<Seq<int>>,
    outs: Seq<Seq<int>>,
)
    requires
        n >= 1,
        ins.len() == app.num_inputs(),
        outs.len() == app.num_outputs(),
        ({
            let alpha = oracle_spec(commit_all(powers, ins) + commit_all(powers, outs));
            let lc = batched_constraint(app, n, ins, outs, alpha);
            &&& vanishing_divides(lc, n)
            &&& p.is_proof_of(powers, ins, outs, vanishing_quotient(lc, n), app.additional_spec(n, ins))
        }),
    ensures
        ({
            let in_com = g1_views(p.input_coins_com@);
            let out_com = g1_views(p.output_coins_com@);
            let alpha = oracle_spec(in_com + out_com);
            let r = oracle_spec(in_com + out_com + seq![p.quotient_com@]);
            lin_comb_values(
                app.evaluations_spec(
                    n,
                    r,
                    values_of(p.input_coins_opening@),
                    values_of(p.output_coins_opening@),
                    values_of(p.additional_opening@),
                ),
                alpha,
            ) == fmul(p.quotient_opening.value(), eval_poly(vanishing_spec(n), r))
        }),
{
    let alpha = oracle_spec(commit_all(powers, ins) + commit_all(powers, outs));
    let cs = app.constraints_spec(n, ins, outs);
    let lc = combination_spec(cs, alpha);
    let q = vanishing_quotient(lc, n);
    let r = oracle_spec(commit_all(powers, ins) + commit_all(powers, outs) + seq![commit_spec(powers, q)]);
    lemma_evaluations_match(app, n, ins, outs, r);
    lemma_eval_combination(cs, alpha, r);
    lemma_combination_canonical(cs, alpha);
    lemma_quotient_identity(lc, n, r);
}

/// `a` followed by `b`.
pub fn concat_points(a: &Vec<G1Point>, b: &Vec<G1Point>) -> (r: Vec<G1Point>)
    ensures
        g1_views(r@) == g1_views(a@) + g1_views(b@),
{
    let mut r: Vec<G1Point> = Vec::new();
    let mut i: usize = 0;
    while i < a.len()
        invariant
            i <= a.len(),
            r.len() == i,
            forall|j: int| 0 <= j < i ==> #[trigger] r@[j]@ == a@[j]@,
        decreases a.len() - i,
    {
        r.push(a[i].copy());
        i = i + 1;
    }
    let mut k: usize = 0;
    while k < b.len()
        invariant
            k <= b.len(),
            r.len() == a.len() + k,
            forall|j: int| 0 <= j < a.len() ==> #[trigger] r@[j]@ == a@[j]@,
            forall|j: int| a.len() <= j < a.len() + k ==> #[trigger] r@[j]@ == b@[j - a.len()]@,
        decreases b.len() - k,
    {
        r.push(b[k].copy());
        k = k + 1;
    }
    assert(g1_views(r@) =~= g1_views(a@) + g1_views(b@));
    r
}

/// Whether every (commitment, value, proof) triple opens at `r`.
fn check_all(
    params: &UniversalParams,
    coms: &Vec<G1Point>,
    r: &Scalar,
    values: &Vec<Scalar>,
    proofs: &Vec<G1Point>,
) -> (ok: bool)
    requires
        params.powers_of_g.len() >= 1,
        params.powers_of_h.len() >= 2,
        r.wf(),
        all_wf(values@),
    ensures
        ok == all_open(
            params.powers_of_g@[0]@,
            params.powers_of_h@[0]@,
            params.powers_of_h@[1]@,
            coms@,
            r.value(),
            values@,
            proofs@,
        ),
{
    if values.len() != coms.len() || proofs.len() != coms.len() {
        return false;
    }
    let mut i: usize = 0;
    while i < coms.len()
        invariant
            params.powers_of_g.len() >= 1,
            params.powers_of_h.len() >= 2,
            r.wf(),
            all_wf(values@),
            values.len() == coms.len(),
            proofs.len() == coms.len(),
            i <= coms.len(),
            forall|j: int|
                0 <= j < i ==> #[trigger] check_spec(
                    params.powers_of_g@[0]@,
                    params.powers_of_h@[0]@,
                    params.powers_of_h@[1]@,
                    coms@[j]@,
                    r.value(),
                    values@[j].value(),
                    proofs@[j]@,
                ),
        decreases coms.len() - i,
    {
        assert(values@[i as int].wf());
        if !KZG10::check(params, &coms[i], r, &values[i], &proofs[i]) {
            return false;
        }
        i = i + 1;
    }
    true
}

/// Proves that the records satisfy the application's rules. `None` when the batched
/// constraint polynomial is not a multiple of `X^n - 1`, that is, when a rule is broken.
pub fn plonk_prove(
    crs: &JZKZGCommitmentParams,
    n: usize,
    app: PlonkApp,
    input_coins: &Vec<Coin>,
    output_coins: &Vec<Coin>,
) -> (r: Option<PlonkProof>)
    requires
        is_pow2(n as nat),
        NUM_FIELDS <= n,
        3 * n <= max_domain_size(),
        3 * n <= usize::MAX,
        crs.crs_coefficient_g1.len() >= 4 * n,
        input_coins.len() == app.num_inputs(),
        output_coins.len() == app.num_outputs(),
        coins_fit(input_coins@, n as nat),
        coins_fit(output_coins@, n as nat),
    ensures
        ({
            let powers = g1_views(crs.crs_coefficient_g1@);
            let ins = record_polys(input_coins@);
            let outs = record_polys(output_coins@);
            let alpha = oracle_spec(commit_all(powers, ins) + commit_all(powers, outs));
            let lc = batched_constraint(app, n as nat, ins, outs, alpha);
            &&& r is Some <==> vanishing_divides(lc, n as nat)
            &&& r matches Some(p) ==> p.is_proof_of(
                powers,
                ins,
                outs,
                vanishing_quotient(lc, n as nat),
                app.additional_spec(n as nat, ins),
            )
        }),
{
    let kzg = kzg_crs(crs);
    let ghost powers = g1_views(crs.crs_coefficient_g1@);
    let in_polys = coin_polys(n, input_coins);
    let out_polys = coin_polys(n, output_coins);
    assert(polys_within(in_polys@, kzg.powers_of_g.len() as nat)) by {
        assert forall|i: int| 0 <= i < in_polys@.len() implies #[trigger] in_polys@[i].coeffs.len()
            <= kzg.powers_of_g.len() by {}
    }
    assert(polys_within(out_polys@, kzg.powers_of_g.len() as nat)) by {
        assert forall|i: int| 0 <= i < out_polys@.len() implies #[trigger] out_polys@[i].coeffs.len()
            <= kzg.powers_of_g.len() by {}
    }
    let in_com = commit_polys(&kzg, &in_polys);
    let out_com = commit_polys(&kzg, &out_polys);
    let mut ro = concat_points(&in_com, &out_com);
    let alpha = random_oracle(&ro);
    let (cs, adds) = app.prover_fn(n, &in_polys, &out_polys);
    let lc = combine_constraints(&cs, &alpha);
    proof {
        let cv = polys_view(cs@);
        assert forall|i: int| 0 <= i < cv.len() implies (#[trigger] cv[i]).len() <= 3 * n by {
            assert(cs@[i].coeffs.len() <= 3 * n);
        }
        lemma_combination_len(cv, alpha.value(), 3 * n as nat);
    }
    let q = match divide_by_vanishing(&lc, n) {
        Some(q) => q,
        None => {
            return None;
        },
    };
    assert(q.coeffs.len() == q@.len());
    let q_com = commit_within(&kzg, &q);
    ro.push(q_com.copy());
    assert(g1_views(ro@) =~= g1_views(in_com@) + g1_views(out_com@) + seq![q_com@]);
    let r = random_oracle(&ro);
    assert(polys_within(adds@, kzg.powers_of_g.len() as nat)) by {
        assert forall|i: int| 0 <= i < adds@.len() implies #[trigger] adds@[i].coeffs.len()
            <= kzg.powers_of_g.len() by {}
    }
    let proof = PlonkProof {
        input_coins_opening: evaluate_polys(&in_polys, &r),
        output_coins_opening: evaluate_polys(&out_polys, &r),
        quotient_opening: q.evaluate(&r),
        additional_opening: evaluate_polys(&adds, &r),
        input_coins_opening_proof: open_polys(&kzg, &in_polys, &r),
        output_coins_opening_proof: open_polys(&kzg, &out_polys, &r),
        quotient_opening_proof: open_within(&kzg, &q, &r),
        additional_opening_proof: open_polys(&kzg, &adds, &r),
        additional_com: commit_polys(&kzg, &adds),
        input_coins_com: in_com,
        output_coins_com: out_com,
        quotient_com: q_com,
    };
    Some(proof)
}

/// Verifies `proof` for the application: recomputes both challenges from the commitments,
/// checks every opening, and checks the batched identity at the challenge point.
pub fn plonk_verify(crs: &JZKZGCommitmentParams, n: usize, app: PlonkApp, proof: &PlonkProof) -> (r:
    bool)
    requires
        is_pow2(n as nat),
        NUM_FIELDS <= n,
        n <= max_domain_size(),
        n < usize::MAX,
        crs.crs_coefficient_g1.len() >= 1,
        crs.crs_coefficient_g2.len() >= 2,
    ensures
        r == (proof.wf() && proof.accepted_by(
            g1_views(crs.crs_coefficient_g1@),
            g2_views(crs.crs_coefficient_g2@),
            n as nat,
            app,
        )),
{
    let ghost powers_g = g1_views(crs.crs_coefficient_g1@);
    let ghost powers_h = g2_views(crs.crs_coefficient_g2@);
    if !proof.is_canonical() {
        return false;
    }
    let mut ro = concat_points(&proof.input_coins_com, &proof.output_coins_com);
    let alpha = random_oracle(&ro);
    ro.push(proof.quotient_com.copy());
    assert(g1_views(ro@) =~= g1_views(proof.input_coins_com@) + g1_views(proof.output_coins_com@)
        + seq![proof.quotient_com@]);
    let r = random_oracle(&ro);
    let kzg = kzg_crs(crs);
    assert(kzg.powers_of_g@[0]@ == powers_g[0]);
    assert(kzg.powers_of_h@[0]@ == powers_h[0]);
    assert(kzg.powers_of_h@[1]@ == powers_h[1]);
    if proof.input_coins_com.len() != app.num_inputs_exec() || proof.output_coins_com.len()
        != app.num_outputs_exec() || proof.additional_com.len() != app.num_additional_exec() {
        return false;
    }
    if !check_all(
        &kzg,
        &proof.input_coins_com,
        &r,
        &proof.input_coins_opening,
        &proof.input_coins_opening_proof,
    ) {
        return false;
    }
    if !check_all(
        &kzg,
        &proof.output_coins_com,
        &r,
        &proof.output_coins_opening,
        &proof.output_coins_opening_proof,
    ) {
        return false;
    }
    if !check_all(
        &kzg,
        &proof.additional_com,
        &r,
        &proof.additional_opening,
        &proof.additional_opening_proof,
    ) {
        return false;
    }
    if !KZG10::check(
        &kzg,
        &proof.quotient_com,
        &r,
        &proof.quotient_opening,
        &proof.quotient_opening_proof,
    ) {
        return false;
    }
    let evals = app.verifier_fn(n, &r, proof);
    let mut lhs = Scalar::zero();
    let mut i: usize = 0;
    while i < evals.len()
        invariant
            alpha.wf(),
            all_wf(evals@),
            i <= evals.len(),
            lhs.wf(),
            lhs.value() == lin_comb_values(values_of(evals@.take(i as int)), alpha.value()),
        decreases evals.len() - i,
    {
        let term = alpha.pow(i as u64).mul(&evals[i]);
        lhs = lhs.add(&term);
        assert(values_of(evals@.take(i + 1)).drop_last() =~= values_of(evals@.take(i as int)));
        i = i + 1;
    }
    assert(evals@.take(i as int) =~= evals@);
    let z_poly = compute_vanishing_poly(n);
    let rhs = proof.quotient_opening.mul(&z_poly.evaluate(&r));
    lhs.equals(&rhs)
}

} // verus!
