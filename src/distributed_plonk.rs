//! The collaborative protocol: each party holds additive shares of every record and runs the
//! prover on its shares; commitments, values and opening proofs are summed across parties
//! between rounds.
use vstd::prelude::*;
use vstd::arithmetic::div_mod::{
    lemma_add_mod_noop_right, lemma_fundamental_div_mod_converse, lemma_mod_bound,
};
use crate::field::{Scalar, fadd, fsub, modulus, powm};
use crate::poly::{
    Poly, all_wf, copy_poly, eval_poly, is_pow2, linear_quotient, max_domain_size, values_of,
    vanishing_quotient, vanishing_quotient_poly,
};
use crate::plonk::{
    Coin, PlonkProof, batched_constraint, coin_polys, coins_fit, combine_constraints,
    commit_polys, concat_points, evaluate_polys, lemma_combination_len, open_polys, oracle_spec,
    polys_view, polys_within, polys_wf, random_oracle, record_polys, copy_polys, eval_all,
};
use crate::kzg::{commit_all, open_all};
use crate::kzg::{
    G1Point, JZKZGCommitmentParams, UniversalParams, commit_spec, commit_within, copy_g1_points,
    g1_sum_of, g1_views, kzg_crs, open_within,
};
use crate::apps::{NUM_FIELDS, PlonkApp};
use ark_bls12_377::Fr;
use ark_ff::{PrimeField, UniformRand};
use rand_chacha::rand_core::SeedableRng;
use rand_chacha::ChaCha8Rng;

verus! {

/// Relies on rand_chacha's `ChaCha8Rng::from_seed` and ark-ff's `UniformRand` for `Fr`:
/// `rows` rows of `width` field elements each, drawn in order from the generator seeded with
/// `seed`.
#[verifier::external_body]
fn random_rows(seed: [u8; 32], rows: usize, width: usize) -> (r: Vec<Coin>)
    ensures
        r.len() == rows,
        forall|i: int| 0 <= i < rows ==> (#[trigger] r@[i]).len() == width && all_wf(r@[i]@),
{
    let mut rng = ChaCha8Rng::from_seed(seed);
    let mut draw = || Scalar { limbs: Fr::rand(&mut rng).into_bigint().0 };
    (0..rows).map(|_| (0..width).map(|_| draw()).collect::<Coin>()).collect()
}

/// Field `i` summed over all `shares`.
pub open spec fn share_sum(shares: Seq<Coin>, i: int) -> int
    decreases shares.len(),
{
    if shares.len() == 0 {
        0
    } else {
        fadd(share_sum(shares.drop_last(), i), shares.last()@[i].value())
    }
}

pub open spec fn coin_values(c: Coin) -> Seq<int> {
    values_of(c@)
}

proof fn lemma_share_sum_same_views(a: Seq<Coin>, b: Seq<Coin>)
    requires
        a.len() == b.len(),
        forall|j: int| 0 <= j < a.len() ==> #[trigger] a[j]@ == b[j]@,
    ensures
        forall|i: int| #[trigger] share_sum(a, i) == share_sum(b, i),
    decreases a.len(),
{
    if a.len() > 0 {
        assert(a[a.len() - 1]@ == b[b.len() - 1]@);
        assert forall|j: int| 0 <= j < a.drop_last().len() implies #[trigger] a.drop_last()[j]@
            == b.drop_last()[j]@ by {
            assert(a[j]@ == b[j]@);
        }
        lemma_share_sum_same_views(a.drop_last(), b.drop_last());
        assert forall|i: int| #[trigger] share_sum(a, i) == share_sum(b, i) by {
            assert(share_sum(a.drop_last(), i) == share_sum(b.drop_last(), i));
            assert(a.last()@ == b.last()@);
        }
    }
}

fn copy_coin(c: &Coin) -> (r: Coin)
    ensures
        r@ == c@,
{
    let mut r: Coin = Vec::new();
    let mut i: usize = 0;
    while i < c.len()
        invariant
            i <= c.len(),
            r@ == c@.take(i as int),
        decreases c.len() - i,
    {
        r.push(c[i]);
        assert(c@.take(i + 1) =~= c@.take(i as int).push(c@[i as int]));
        i = i + 1;
    }
    assert(c@.take(i as int) =~= c@);
    r
}

/// Splits `record` into `random_shares.len() + 1` additive shares: the given random shares,
/// then the residual that makes every field sum to the record's.
pub fn share_record_with(record: &Coin, random_shares: &Vec<Coin>) -> (r: Vec<Coin>)
    requires
        all_wf(record@),
        random_shares.len() < usize::MAX,
        forall|j: int|
            0 <= j < random_shares.len() ==> (#[trigger] random_shares@[j]).len() == record.len()
                && all_wf(random_shares@[j]@),
    ensures
        r.len() == random_shares.len() + 1,
        forall|j: int| 0 <= j < random_shares.len() ==> #[trigger] r@[j]@ == random_shares@[j]@,
        forall|j: int| 0 <= j < r.len() ==> (#[trigger] r@[j]).len() == record.len() && all_wf(r@[j]@),
        forall|i: int| 0 <= i < record.len() ==> #[trigger] share_sum(r@, i) == record@[i].value(),
{
    let mut shares: Vec<Coin> = Vec::new();
    let mut j: usize = 0;
    while j < random_shares.len()
        invariant
            j <= random_shares.len(),
            shares.len() == j,
            forall|t: int| 0 <= t < j ==> #[trigger] shares@[t]@ == random_shares@[t]@,
        decreases random_shares.len() - j,
    {
        shares.push(copy_coin(&random_shares[j]));
        j = j + 1;
    }
    let mut last: Coin = Vec::new();
    let mut i: usize = 0;
    while i < record.len()
        invariant
            all_wf(record@),
            forall|t: int|
                0 <= t < random_shares.len() ==> (#[trigger] random_shares@[t]).len() == record.len()
                    && all_wf(random_shares@[t]@),
            i <= record.len(),
            last.len() == i,
            all_wf(last@),
            forall|t: int|
                0 <= t < i ==> #[trigger] last@[t].value() == fsub(
                    record@[t].value(),
                    share_sum(random_shares@, t),
                ),
        decreases record.len() - i,
    {
        let mut sum = Scalar::zero();
        let mut k: usize = 0;
        while k < random_shares.len()
            invariant
                i < record.len(),
                forall|t: int|
                    0 <= t < random_shares.len() ==> (#[trigger] random_shares@[t]).len()
                        == record.len() && all_wf(random_shares@[t]@),
                k <= random_shares.len(),
                sum.wf(),
                sum.value() == share_sum(random_shares@.take(k as int), i as int),
            decreases random_shares.len() - k,
        {
            assert(random_shares@[k as int]@[i as int].wf());
            sum = sum.add(&random_shares[k][i]);
            assert(random_shares@.take(k + 1).drop_last() =~= random_shares@.take(k as int));
            k = k + 1;
        }
        assert(random_shares@.take(k as int) =~= random_shares@);
        assert(record@[i as int].wf());
        last.push(record[i].sub(&sum));
        i = i + 1;
    }
    let ghost last_view = last@;
    shares.push(last);
    proof {
        assert(shares@.last()@ == last_view);
        lemma_share_sum_same_views(shares@.drop_last(), random_shares@);
        assert forall|i: int| 0 <= i < record.len() implies #[trigger] share_sum(shares@, i)
            == record@[i].value() by {
            let s = share_sum(random_shares@, i);
            let v = record@[i].value();
            assert(record@[i].wf());
            assert(last_view[i].value() == fsub(v, s));
            assert(share_sum(shares@, i) == fadd(share_sum(shares@.drop_last(), i), last_view[i].value()));
            lemma_add_mod_noop_right(s, v - s, modulus());
            lemma_fundamental_div_mod_converse(v, modulus(), 0, v);
        }
    }
    shares
}

/// Splits `record` into `num_shares` additive shares; all but the last are drawn from the
/// generator seeded with `seed`.
pub fn share_record(record: &Coin, num_shares: usize, seed: [u8; 32]) -> (r: Vec<Coin>)
    requires
        all_wf(record@),
        num_shares >= 1,
    ensures
        r.len() == num_shares,
        forall|j: int| 0 <= j < r.len() ==> (#[trigger] r@[j]).len() == record.len() && all_wf(r@[j]@),
        forall|i: int| 0 <= i < record.len() ==> #[trigger] share_sum(r@, i) == record@[i].value(),
{
    let random_shares = random_rows(seed, num_shares - 1, record.len());
    share_record_with(record, &random_shares)
}

/// The sum of a non-empty list of G1 points.
pub open spec fn g1_total(points: Seq<Seq<u8>>) -> Seq<u8>
    decreases points.len(),
{
    if points.len() == 0 {
        seq![]
    } else if points.len() == 1 {
        points[0]
    } else {
        g1_sum_of(g1_total(points.drop_last()), points.last())
    }
}

/// The sum of a list of field elements.
pub open spec fn field_total(vals: Seq<int>) -> int
    decreases vals.len(),
{
    if vals.len() == 0 {
        0
    } else {
        fadd(field_total(vals.drop_last()), vals.last())
    }
}

/// The sum of a non-empty list of points.
pub fn sum_points(v: &Vec<G1Point>) -> (r: G1Point)
    requires
        v.len() >= 1,
    ensures
        r@ == g1_total(g1_views(v@)),
{
    let mut acc = v[0].copy();
    let mut p: usize = 1;
    assert(g1_views(v@.take(1)) =~= seq![v@[0]@]);
    while p < v.len()
        invariant
            1 <= p <= v.len(),
            acc@ == g1_total(g1_views(v@.take(p as int))),
        decreases v.len() - p,
    {
        acc = acc.add(&v[p]);
        assert(g1_views(v@.take(p + 1)).drop_last() =~= g1_views(v@.take(p as int)));
        p = p + 1;
    }
    assert(v@.take(p as int) =~= v@);
    acc
}

/// The sum of a list of field elements.
pub fn sum_scalars(v: &Vec<Scalar>) -> (r: Scalar)
    requires
        all_wf(v@),
    ensures
        r.wf(),
        r.value() == field_total(values_of(v@)),
{
    let mut acc = Scalar::zero();
    let mut p: usize = 0;
    while p < v.len()
        invariant
            all_wf(v@),
            p <= v.len(),
            acc.wf(),
            acc.value() == field_total(values_of(v@.take(p as int))),
        decreases v.len() - p,
    {
        assert(v@[p as int].wf());
        acc = acc.add(&v[p]);
        assert(values_of(v@.take(p + 1)).drop_last() =~= values_of(v@.take(p as int)));
        p = p + 1;
    }
    assert(v@.take(p as int) =~= v@);
    acc
}

/// Entry `i` of each list.
pub open spec fn g1_column(vs: Seq<Seq<Seq<u8>>>, i: int) -> Seq<Seq<u8>> {
    Seq::new(vs.len(), |p: int| vs[p][i])
}

/// Entry `i` of each list.
pub open spec fn field_column(vs: Seq<Seq<int>>, i: int) -> Seq<int> {
    Seq::new(vs.len(), |p: int| vs[p][i])
}

/// Entry-wise sums of `count`-long lists of points, one list per party.
pub fn sum_point_columns(vs: &Vec<Vec<G1Point>>, count: usize) -> (r: Vec<G1Point>)
    requires
        vs.len() >= 1,
        forall|p: int| 0 <= p < vs.len() ==> (#[trigger] vs@[p]).len() == count,
    ensures
        r.len() == count,
        forall|i: int|
            0 <= i < count ==> #[trigger] r@[i]@ == g1_total(
                g1_column(vs@.map_values(|v: Vec<G1Point>| g1_views(v@)), i),
            ),
{
    let ghost views = vs@.map_values(|v: Vec<G1Point>| g1_views(v@));
    let mut r: Vec<G1Point> = Vec::new();
    let mut i: usize = 0;
    while i < count
        invariant
            vs.len() >= 1,
            forall|p: int| 0 <= p < vs.len() ==> (#[trigger] vs@[p]).len() == count,
            views == vs@.map_values(|v: Vec<G1Point>| g1_views(v@)),
            i <= count,
            r.len() == i,
            forall|t: int| 0 <= t < i ==> #[trigger] r@[t]@ == g1_total(g1_column(views, t)),
        decreases count - i,
    {
        let mut column: Vec<G1Point> = Vec::new();
        let mut p: usize = 0;
        while p < vs.len()
            invariant
                forall|q: int| 0 <= q < vs.len() ==> (#[trigger] vs@[q]).len() == count,
                i < count,
                p <= vs.len(),
                column.len() == p,
                forall|q: int| 0 <= q < p ==> #[trigger] column@[q]@ == vs@[q]@[i as int]@,
            decreases vs.len() - p,
        {
            assert(vs@[p as int].len() == count);
            column.push(vs[p][i].copy());
            p = p + 1;
        }
        assert(g1_views(column@) =~= g1_column(views, i as int));
        r.push(sum_points(&column));
        i = i + 1;
    }
    r
}

/// Entry-wise sums of `count`-long lists of field elements, one list per party.
pub fn sum_scalar_columns(vs: &Vec<Vec<Scalar>>, count: usize) -> (r: Vec<Scalar>)
    requires
        forall|p: int| 0 <= p < vs.len() ==> (#[trigger] vs@[p]).len() == count && all_wf(vs@[p]@),
    ensures
        r.len() == count,
        all_wf(r@),
        forall|i: int|
            0 <= i < count ==> #[trigger] r@[i].value() == field_total(
                field_column(vs@.map_values(|v: Vec<Scalar>| values_of(v@)), i),
            ),
{
    let ghost views = vs@.map_values(|v: Vec<Scalar>| values_of(v@));
    let mut r: Vec<Scalar> = Vec::new();
    let mut i: usize = 0;
    while i < count
        invariant
            forall|p: int| 0 <= p < vs.len() ==> (#[trigger] vs@[p]).len() == count && all_wf(vs@[p]@),
            views == vs@.map_values(|v: Vec<Scalar>| values_of(v@)),
            i <= count,
            r.len() == i,
            all_wf(r@),
            forall|t: int| 0 <= t < i ==> #[trigger] r@[t].value() == field_total(field_column(views, t)),
        decreases count - i,
    {
        let mut column: Vec<Scalar> = Vec::new();
        let mut p: usize = 0;
        while p < vs.len()
            invariant
                forall|q: int| 0 <= q < vs.len() ==> (#[trigger] vs@[q]).len() == count && all_wf(vs@[q]@),
                i < count,
                p <= vs.len(),
                column.len() == p,
                all_wf(column@),
                forall|q: int| 0 <= q < p ==> #[trigger] column@[q] == vs@[q]@[i as int],
            decreases vs.len() - p,
        {
            assert(vs@[p as int].len() == count && all_wf(vs@[p as int]@));
            assert(vs@[p as int]@[i as int].wf());
            column.push(vs[p][i]);
            p = p + 1;
        }
        assert(values_of(column@) =~= field_column(views, i as int));
        r.push(sum_scalars(&column));
        i = i + 1;
    }
    r
}

/// What a party broadcasts after round 0: commitments to its record shares.
pub struct PlonkProofRound0 {
    pub input_coins_com: Vec<G1Point>,
    pub output_coins_com: Vec<G1Point>,
}

/// What a party broadcasts after round 1: commitments to its quotient share and to its
/// shares of the additional polynomials.
pub struct PlonkProofRound1 {
    pub quotient_com: G1Point,
    pub additional_com: Vec<G1Point>,
}

/// What a party broadcasts after round 2: the values of its shares at the challenge point
/// and their opening proofs.
pub struct PlonkProofRound2 {
    pub input_coins_opening: Vec<Scalar>,
    pub output_coins_opening: Vec<Scalar>,
    pub quotient_opening: Scalar,
    pub additional_opening: Vec<Scalar>,
    pub input_coins_opening_proof: Vec<G1Point>,
    pub output_coins_opening_proof: Vec<G1Point>,
    pub quotient_opening_proof: G1Point,
    pub additional_opening_proof: Vec<G1Point>,
}

/// What a party keeps between rounds: its share polynomials and the aggregated commitments
/// seen so far.
pub struct PlonkProofState {
    pub input_coins_share_poly: Vec<Poly>,
    pub output_coins_share_poly: Vec<Poly>,
    pub quotient_share_poly: Poly,
    pub additional_share_poly: Vec<Poly>,
    pub aggregated_input_coins_com: Vec<G1Point>,
    pub aggregated_output_coins_com: Vec<G1Point>,
    pub aggregated_quotient_com: G1Point,
    pub aggregated_additional_com: Vec<G1Point>,
}

impl PlonkProofState {
    /// The share polynomials have the application's counts, canonical coefficients, and at
    /// most `n` coefficients each.
    pub open spec fn holds_shares(self, app: PlonkApp, n: nat) -> bool {
        &&& self.input_coins_share_poly.len() == app.num_inputs()
        &&& self.output_coins_share_poly.len() == app.num_outputs()
        &&& polys_wf(self.input_coins_share_poly@)
        &&& polys_wf(self.output_coins_share_poly@)
        &&& polys_within(self.input_coins_share_poly@, n)
        &&& polys_within(self.output_coins_share_poly@, n)
    }
}

/// Sums, entry by entry, the lists of points that the parties sent.
pub open spec fn aggregate(views: Seq<Seq<Seq<u8>>>, count: nat) -> Seq<Seq<u8>> {
    Seq::new(count, |i: int| g1_total(g1_column(views, i)))
}

/// Sums, entry by entry, the lists of field elements that the parties sent.
pub open spec fn aggregate_values(views: Seq<Seq<int>>, count: nat) -> Seq<int> {
    Seq::new(count, |i: int| field_total(field_column(views, i)))
}

/// The `input_coins_com` of each message.
fn gather_input_coms(msgs: &Vec<PlonkProofRound0>) -> (r: Vec<Vec<G1Point>>)
    ensures
        r.len() == msgs.len(),
        forall|p: int| 0 <= p < msgs.len() ==> (#[trigger] r@[p]).len() == msgs@[p].input_coins_com.len(),
        r@.map_values(|v: Vec<G1Point>| g1_views(v@)) == msgs@.map_values(|m: PlonkProofRound0| g1_views(m.input_coins_com@)),
{
    let mut r: Vec<Vec<G1Point>> = Vec::new();
    let mut p: usize = 0;
    while p < msgs.len()
        invariant
            p <= msgs.len(),
            r.len() == p,
            forall|q: int| 0 <= q < p ==> (#[trigger] r@[q]).len() == msgs@[q].input_coins_com.len(),
            forall|q: int| 0 <= q < p ==> g1_views((#[trigger] r@[q])@) == g1_views(msgs@[q].input_coins_com@),
        decreases msgs.len() - p,
    {
        r.push(copy_g1_points(&msgs[p].input_coins_com));
        p = p + 1;
    }
    assert(r@.map_values(|v: Vec<G1Point>| g1_views(v@)) =~= msgs@.map_values(|m: PlonkProofRound0| g1_views(m.input_coins_com@)));
    r
}

/// The `output_coins_com` of each message.
fn gather_output_coms(msgs: &Vec<PlonkProofRound0>) -> (r: Vec<Vec<G1Point>>)
    ensures
        r.len() == msgs.len(),
        forall|p: int| 0 <= p < msgs.len() ==> (#[trigger] r@[p]).len() == msgs@[p].output_coins_com.len(),
        r@.map_values(|v: Vec<G1Point>| g1_views(v@)) == msgs@.map_values(|m: PlonkProofRound0| g1_views(m.output_coins_com@)),
{
    let mut r: Vec<Vec<G1Point>> = Vec::new();
    let mut p: usize = 0;
    while p < msgs.len()
        invariant
            p <= msgs.len(),
            r.len() == p,
            forall|q: int| 0 <= q < p ==> (#[trigger] r@[q]).len() == msgs@[q].output_coins_com.len(),
            forall|q: int| 0 <= q < p ==> g1_views((#[trigger] r@[q])@) == g1_views(msgs@[q].output_coins_com@),
        decreases msgs.len() - p,
    {
        r.push(copy_g1_points(&msgs[p].output_coins_com));
        p = p + 1;
    }
    assert(r@.map_values(|v: Vec<G1Point>| g1_views(v@)) =~= msgs@.map_values(|m: PlonkProofRound0| g1_views(m.output_coins_com@)));
    r
}

/// The `quotient_com` of each message.
fn gather_quotient_coms(msgs: &Vec<PlonkProofRound1>) -> (r: Vec<G1Point>)
    ensures
        r.len() == msgs.len(),
        g1_views(r@) == msgs@.map_values(|m: PlonkProofRound1| m.quotient_com@),
{
    let mut r: Vec<G1Point> = Vec::new();
    let mut p: usize = 0;
    while p < msgs.len()
        invariant
            p <= msgs.len(),
            r.len() == p,
            forall|q: int| 0 <= q < p ==> (#[trigger] r@[q])@ == msgs@[q].quotient_com@,
        decreases msgs.len() - p,
    {
        r.push(msgs[p].quotient_com.copy());
        p = p + 1;
    }
    assert(g1_views(r@) =~= msgs@.map_values(|m: PlonkProofRound1| m.quotient_com@));
    r
}

/// The `additional_com` of each message.
fn gather_additional_coms(msgs: &Vec<PlonkProofRound1>) -> (r: Vec<Vec<G1Point>>)
    ensures
        r.len() == msgs.len(),
        forall|p: int| 0 <= p < msgs.len() ==> (#[trigger] r@[p]).len() == msgs@[p].additional_com.len(),
        r@.map_values(|v: Vec<G1Point>| g1_views(v@)) == msgs@.map_values(|m: PlonkProofRound1| g1_views(m.additional_com@)),
{
    let mut r: Vec<Vec<G1Point>> = Vec::new();
    let mut p: usize = 0;
    while p < msgs.len()
        invariant
            p <= msgs.len(),
            r.len() == p,
            forall|q: int| 0 <= q < p ==> (#[trigger] r@[q]).len() == msgs@[q].additional_com.len(),
            forall|q: int| 0 <= q < p ==> g1_views((#[trigger] r@[q])@) == g1_views(msgs@[q].additional_com@),
        decreases msgs.len() - p,
    {
        r.push(copy_g1_points(&msgs[p].additional_com));
        p = p + 1;
    }
    assert(r@.map_values(|v: Vec<G1Point>| g1_views(v@)) =~= msgs@.map_values(|m: PlonkProofRound1| g1_views(m.additional_com@)));
    r
}

/// The `input_coins_opening` of each message.
fn gather_input_openings(msgs: &Vec<PlonkProofRound2>) -> (r: Vec<Vec<Scalar>>)
    ensures
        r.len() == msgs.len(),
        forall|p: int| 0 <= p < msgs.len() ==> (#[trigger] r@[p])@ == msgs@[p].input_coins_opening@,
        r@.map_values(|v: Vec<Scalar>| values_of(v@)) == msgs@.map_values(|m: PlonkProofRound2| values_of(m.input_coins_opening@)),
{
    let mut r: Vec<Vec<Scalar>> = Vec::new();
    let mut p: usize = 0;
    while p < msgs.len()
        invariant
            p <= msgs.len(),
            r.len() == p,
            forall|q: int| 0 <= q < p ==> (#[trigger] r@[q])@ == msgs@[q].input_coins_opening@,
        decreases msgs.len() - p,
    {
        r.push(copy_coin(&msgs[p].input_coins_opening));
        p = p + 1;
    }
    assert(r@.map_values(|v: Vec<Scalar>| values_of(v@)) =~= msgs@.map_values(|m: PlonkProofRound2| values_of(m.input_coins_opening@)));
    r
}

/// The `output_coins_opening` of each message.
fn gather_output_openings(msgs: &Vec<PlonkProofRound2>) -> (r: Vec<Vec<Scalar>>)
    ensures
        r.len() == msgs.len(),
        forall|p: int| 0 <= p < msgs.len() ==> (#[trigger] r@[p])@ == msgs@[p].output_coins_opening@,
        r@.map_values(|v: Vec<Scalar>| values_of(v@)) == msgs@.map_values(|m: PlonkProofRound2| values_of(m.output_coins_opening@)),
{
    let mut r: Vec<Vec<Scalar>> = Vec::new();
    let mut p: usize = 0;
    while p < msgs.len()
        invariant
            p <= msgs.len(),
            r.len() == p,
            forall|q: int| 0 <= q < p ==> (#[trigger] r@[q])@ == msgs@[q].output_coins_opening@,
        decreases msgs.len() - p,
    {
        r.push(copy_coin(&msgs[p].output_coins_opening));
        p = p + 1;
    }
    assert(r@.map_values(|v: Vec<Scalar>| values_of(v@)) =~= msgs@.map_values(|m: PlonkProofRound2| values_of(m.output_coins_opening@)));
    r
}

/// The `quotient_opening` of each message.
fn gather_quotient_openings(msgs: &Vec<PlonkProofRound2>) -> (r: Vec<Scalar>)
    ensures
        r@ == msgs@.map_values(|m: PlonkProofRound2| m.quotient_opening),
{
    let mut r: Vec<Scalar> = Vec::new();
    let mut p: usize = 0;
    while p < msgs.len()
        invariant
            p <= msgs.len(),
            r@ == msgs@.take(p as int).map_values(|m: PlonkProofRound2| m.quotient_opening),
        decreases msgs.len() - p,
    {
        r.push(msgs[p].quotient_opening);
        assert(msgs@.take(p + 1).map_values(|m: PlonkProofRound2| m.quotient_opening) =~= msgs@.take(p as int).map_values(|m: PlonkProofRound2| m.quotient_opening).push(msgs@[p as int].quotient_opening));
        p = p + 1;
    }
    assert(msgs@.take(p as int) =~= msgs@);
    r
}

/// The `additional_opening` of each message.
fn gather_additional_openings(msgs: &Vec<PlonkProofRound2>) -> (r: Vec<Vec<Scalar>>)
    ensures
        r.len() == msgs.len(),
        forall|p: int| 0 <= p < msgs.len() ==> (#[trigger] r@[p])@ == msgs@[p].additional_opening@,
        r@.map_values(|v: Vec<Scalar>| values_of(v@)) == msgs@.map_values(|m: PlonkProofRound2| values_of(m.additional_opening@)),
{
    let mut r: Vec<Vec<Scalar>> = Vec::new();
    let mut p: usize = 0;
    while p < msgs.len()
        invariant
            p <= msgs.len(),
            r.len() == p,
            forall|q: int| 0 <= q < p ==> (#[trigger] r@[q])@ == msgs@[q].additional_opening@,
        decreases msgs.len() - p,
    {
        r.push(copy_coin(&msgs[p].additional_opening));
        p = p + 1;
    }
    assert(r@.map_values(|v: Vec<Scalar>| values_of(v@)) =~= msgs@.map_values(|m: PlonkProofRound2| values_of(m.additional_opening@)));
    r
}

/// The `input_coins_opening_proof` of each message.
fn gather_input_proofs(msgs: &Vec<PlonkProofRound2>) -> (r: Vec<Vec<G1Point>>)
    ensures
        r.len() == msgs.len(),
        forall|p: int| 0 <= p < msgs.len() ==> (#[trigger] r@[p]).len() == msgs@[p].input_coins_opening_proof.len(),
        r@.map_values(|v: Vec<G1Point>| g1_views(v@)) == msgs@.map_values(|m: PlonkProofRound2| g1_views(m.input_coins_opening_proof@)),
{
    let mut r: Vec<Vec<G1Point>> = Vec::new();
    let mut p: usize = 0;
    while p < msgs.len()
        invariant
            p <= msgs.len(),
            r.len() == p,
            forall|q: int| 0 <= q < p ==> (#[trigger] r@[q]).len() == msgs@[q].input_coins_opening_proof.len(),
            forall|q: int| 0 <= q < p ==> g1_views((#[trigger] r@[q])@) == g1_views(msgs@[q].input_coins_opening_proof@),
        decreases msgs.len() - p,
    {
        r.push(copy_g1_points(&msgs[p].input_coins_opening_proof));
        p = p + 1;
    }
    assert(r@.map_values(|v: Vec<G1Point>| g1_views(v@)) =~= msgs@.map_values(|m: PlonkProofRound2| g1_views(m.input_coins_opening_proof@)));
    r
}

/// The `output_coins_opening_proof` of each message.
fn gather_output_proofs(msgs: &Vec<PlonkProofRound2>) -> (r: Vec<Vec<G1Point>>)
    ensures
        r.len() == msgs.len(),
        forall|p: int| 0 <= p < msgs.len() ==> (#[trigger] r@[p]).len() == msgs@[p].output_coins_opening_proof.len(),
        r@.map_values(|v: Vec<G1Point>| g1_views(v@)) == msgs@.map_values(|m: PlonkProofRound2| g1_views(m.output_coins_opening_proof@)),
{
    let mut r: Vec<Vec<G1Point>> = Vec::new();
    let mut p: usize = 0;
    while p < msgs.len()
        invariant
            p <= msgs.len(),
            r.len() == p,
            forall|q: int| 0 <= q < p ==> (#[trigger] r@[q]).len() == msgs@[q].output_coins_opening_proof.len(),
            forall|q: int| 0 <= q < p ==> g1_views((#[trigger] r@[q])@) == g1_views(msgs@[q].output_coins_opening_proof@),
        decreases msgs.len() - p,
    {
        r.push(copy_g1_points(&msgs[p].output_coins_opening_proof));
        p = p + 1;
    }
    assert(r@.map_values(|v: Vec<G1Point>| g1_views(v@)) =~= msgs@.map_values(|m: PlonkProofRound2| g1_views(m.output_coins_opening_proof@)));
    r
}

/// The `quotient_opening_proof` of each message.
fn gather_quotient_proofs(msgs: &Vec<PlonkProofRound2>) -> (r: Vec<G1Point>)
    ensures
        r.len() == msgs.len(),
        g1_views(r@) == msgs@.map_values(|m: PlonkProofRound2| m.quotient_opening_proof@),
{
    let mut r: Vec<G1Point> = Vec::new();
    let mut p: usize = 0;
    while p < msgs.len()
        invariant
            p <= msgs.len(),
            r.len() == p,
            forall|q: int| 0 <= q < p ==> (#[trigger] r@[q])@ == msgs@[q].quotient_opening_proof@,
        decreases msgs.len() - p,
    {
        r.push(msgs[p].quotient_opening_proof.copy());
        p = p + 1;
    }
    assert(g1_views(r@) =~= msgs@.map_values(|m: PlonkProofRound2| m.quotient_opening_proof@));
    r
}

/// The `additional_opening_proof` of each message.
fn gather_additional_proofs(msgs: &Vec<PlonkProofRound2>) -> (r: Vec<Vec<G1Point>>)
    ensures
        r.len() == msgs.len(),
        forall|p: int| 0 <= p < msgs.len() ==> (#[trigger] r@[p]).len() == msgs@[p].additional_opening_proof.len(),
        r@.map_values(|v: Vec<G1Point>| g1_views(v@)) == msgs@.map_values(|m: PlonkProofRound2| g1_views(m.additional_opening_proof@)),
{
    let mut r: Vec<Vec<G1Point>> = Vec::new();
    let mut p: usize = 0;
    while p < msgs.len()
        invariant
            p <= msgs.len(),
            r.len() == p,
            forall|q: int| 0 <= q < p ==> (#[trigger] r@[q]).len() == msgs@[q].additional_opening_proof.len(),
            forall|q: int| 0 <= q < p ==> g1_views((#[trigger] r@[q])@) == g1_views(msgs@[q].additional_opening_proof@),
        decreases msgs.len() - p,
    {
        r.push(copy_g1_points(&msgs[p].additional_opening_proof));
        p = p + 1;
    }
    assert(r@.map_values(|v: Vec<G1Point>| g1_views(v@)) =~= msgs@.map_values(|m: PlonkProofRound2| g1_views(m.additional_opening_proof@)));
    r
}


/// Round 0 for one party: the polynomials of its record shares, and commitments to them.
pub fn plonk_prove_round0(
    params: &UniversalParams,
    n: usize,
    app: PlonkApp,
    input_coins: &Vec<Coin>,
    output_coins: &Vec<Coin>,
) -> (r: (PlonkProofRound0, PlonkProofState))
    requires
        is_pow2(n as nat),
        NUM_FIELDS <= n,
        n as nat <= max_domain_size(),
        params.powers_of_g.len() >= 4 * n,
        input_coins.len() == app.num_inputs(),
        output_coins.len() == app.num_outputs(),
        coins_fit(input_coins@, n as nat),
        coins_fit(output_coins@, n as nat),
    ensures
        r.1.holds_shares(app, n as nat),
        polys_view(r.1.input_coins_share_poly@) == record_polys(input_coins@),
        polys_view(r.1.output_coins_share_poly@) == record_polys(output_coins@),
        g1_views(r.0.input_coins_com@) == commit_all(
            g1_views(params.powers_of_g@),
            record_polys(input_coins@),
        ),
        g1_views(r.0.output_coins_com@) == commit_all(
            g1_views(params.powers_of_g@),
            record_polys(output_coins@),
        ),
        r.0.input_coins_com.len() == app.num_inputs(),
        r.0.output_coins_com.len() == app.num_outputs(),
{
    let in_polys = coin_polys(n, input_coins);
    let out_polys = coin_polys(n, output_coins);
    assert(polys_within(in_polys@, params.powers_of_g.len() as nat)) by {
        assert forall|i: int| 0 <= i < in_polys@.len() implies #[trigger] in_polys@[i].coeffs.len()
            <= params.powers_of_g.len() by {}
    }
    assert(polys_within(out_polys@, params.powers_of_g.len() as nat)) by {
        assert forall|i: int| 0 <= i < out_polys@.len() implies #[trigger] out_polys@[i].coeffs.len()
            <= params.powers_of_g.len() by {}
    }
    let input_coins_com = commit_polys(params, &in_polys);
    let output_coins_com = commit_polys(params, &out_polys);
    let state = PlonkProofState {
        input_coins_share_poly: in_polys,
        output_coins_share_poly: out_polys,
        quotient_share_poly: Poly { coeffs: Vec::new() },
        additional_share_poly: Vec::new(),
        aggregated_input_coins_com: Vec::new(),
        aggregated_output_coins_com: Vec::new(),
        aggregated_quotient_com: G1Point { bytes: Vec::new() },
        aggregated_additional_com: Vec::new(),
    };
    (PlonkProofRound0 { input_coins_com, output_coins_com }, state)
}

pub open spec fn round0_input_views(msgs: Seq<PlonkProofRound0>) -> Seq<Seq<Seq<u8>>> {
    msgs.map_values(|m: PlonkProofRound0| g1_views(m.input_coins_com@))
}

pub open spec fn round0_output_views(msgs: Seq<PlonkProofRound0>) -> Seq<Seq<Seq<u8>>> {
    msgs.map_values(|m: PlonkProofRound0| g1_views(m.output_coins_com@))
}

/// Round 1 for one party: sums every party's round-0 commitments, derives the challenge
/// `α` from the sums, runs the application on its own share polynomials, and commits to its
/// share of the quotient polynomial and to its shares of the additional polynomials.
pub fn plonk_prove_round1(
    params: &UniversalParams,
    n: usize,
    app: PlonkApp,
    round0_outputs: &Vec<PlonkProofRound0>,
    state: &PlonkProofState,
) -> (r: (PlonkProofRound1, PlonkProofState))
    requires
        is_pow2(n as nat),
        NUM_FIELDS <= n,
        3 * n <= max_domain_size(),
        3 * n <= usize::MAX,
        params.powers_of_g.len() >= 4 * n,
        round0_outputs.len() >= 1,
        forall|p: int|
            0 <= p < round0_outputs.len() ==> (#[trigger] round0_outputs@[p]).input_coins_com.len()
                == app.num_inputs() && round0_outputs@[p].output_coins_com.len()
                == app.num_outputs(),
        state.holds_shares(app, n as nat),
    ensures
        ({
            let agg_in = aggregate(round0_input_views(round0_outputs@), app.num_inputs());
            let agg_out = aggregate(round0_output_views(round0_outputs@), app.num_outputs());
            let alpha = oracle_spec(agg_in + agg_out);
            let q = vanishing_quotient(
                batched_constraint(
                    app,
                    n as nat,
                    polys_view(state.input_coins_share_poly@),
                    polys_view(state.output_coins_share_poly@),
                    alpha,
                ),
                n as nat,
            );
            let adds = app.additional_spec(n as nat, polys_view(state.input_coins_share_poly@));
            &&& r.1.holds_shares(app, n as nat)
            &&& polys_view(r.1.input_coins_share_poly@) == polys_view(state.input_coins_share_poly@)
            &&& polys_view(r.1.output_coins_share_poly@) == polys_view(
                state.output_coins_share_poly@,
            )
            &&& g1_views(r.1.aggregated_input_coins_com@) == agg_in
            &&& g1_views(r.1.aggregated_output_coins_com@) == agg_out
            &&& r.1.quotient_share_poly.wf()
            &&& r.1.quotient_share_poly@ == q
            &&& r.1.quotient_share_poly.coeffs.len() <= 2 * n
            &&& r.1.additional_share_poly.len() == app.num_additional()
            &&& polys_wf(r.1.additional_share_poly@)
            &&& polys_within(r.1.additional_share_poly@, n as nat)
            &&& polys_view(r.1.additional_share_poly@) == adds
            &&& r.0.quotient_com@ == commit_spec(g1_views(params.powers_of_g@), q)
            &&& r.0.additional_com.len() == app.num_additional()
            &&& g1_views(r.0.additional_com@) == commit_all(g1_views(params.powers_of_g@), adds)
        }),
{
    let in_coms = gather_input_coms(round0_outputs);
    let out_coms = gather_output_coms(round0_outputs);
    let num_inputs = app.num_inputs_exec();
    let agg_in = sum_point_columns(&in_coms, num_inputs);
    let agg_out = sum_point_columns(&out_coms, app.num_outputs_exec());
    assert(g1_views(agg_in@) =~= aggregate(round0_input_views(round0_outputs@), app.num_inputs()));
    assert(g1_views(agg_out@) =~= aggregate(round0_output_views(round0_outputs@), app.num_outputs()));
    let ro = concat_points(&agg_in, &agg_out);
    let alpha = random_oracle(&ro);
    let (cs, adds) = app.prover_fn(n, &state.input_coins_share_poly, &state.output_coins_share_poly);
    let lc = combine_constraints(&cs, &alpha);
    proof {
        let cv = polys_view(cs@);
        assert forall|i: int| 0 <= i < cv.len() implies (#[trigger] cv[i]).len() <= 3 * n by {
            assert(cs@[i].coeffs.len() <= 3 * n);
        }
        lemma_combination_len(cv, alpha.value(), 3 * n as nat);
    }
    let q = vanishing_quotient_poly(&lc, n);
    assert(q.coeffs.len() == q@.len());
    let quotient_com = commit_within(params, &q);
    assert(polys_within(adds@, params.powers_of_g.len() as nat)) by {
        assert forall|i: int| 0 <= i < adds@.len() implies #[trigger] adds@[i].coeffs.len()
            <= params.powers_of_g.len() by {}
    }
    let additional_com = commit_polys(params, &adds);
    let next = PlonkProofState {
        input_coins_share_poly: copy_polys(&state.input_coins_share_poly),
        output_coins_share_poly: copy_polys(&state.output_coins_share_poly),
        quotient_share_poly: q,
        additional_share_poly: adds,
        aggregated_input_coins_com: agg_in,
        aggregated_output_coins_com: agg_out,
        aggregated_quotient_com: G1Point { bytes: Vec::new() },
        aggregated_additional_com: Vec::new(),
    };
    (PlonkProofRound1 { quotient_com, additional_com }, next)
}

pub open spec fn round1_quotient_views(msgs: Seq<PlonkProofRound1>) -> Seq<Seq<u8>> {
    msgs.map_values(|m: PlonkProofRound1| m.quotient_com@)
}

pub open spec fn round1_additional_views(msgs: Seq<PlonkProofRound1>) -> Seq<Seq<Seq<u8>>> {
    msgs.map_values(|m: PlonkProofRound1| g1_views(m.additional_com@))
}

/// Round 2 for one party: sums every party's quotient commitments, derives the challenge
/// point `r`, and evaluates and opens each of its share polynomials there.
pub fn plonk_prove_round2(
    params: &UniversalParams,
    round1_outputs: &Vec<PlonkProofRound1>,
    state: &PlonkProofState,
) -> (r: (PlonkProofRound2, PlonkProofState))
    requires
        params.powers_of_g.len() >= 1,
        round1_outputs.len() >= 1,
        forall|p: int|
            0 <= p < round1_outputs.len() ==> (#[trigger] round1_outputs@[p]).additional_com.len()
                == state.additional_share_poly.len(),
        polys_wf(state.input_coins_share_poly@),
        polys_wf(state.output_coins_share_poly@),
        polys_wf(state.additional_share_poly@),
        state.quotient_share_poly.wf(),
        polys_within(state.input_coins_share_poly@, params.powers_of_g.len() as nat),
        polys_within(state.output_coins_share_poly@, params.powers_of_g.len() as nat),
        polys_within(state.additional_share_poly@, params.powers_of_g.len() as nat),
        state.quotient_share_poly.coeffs.len() <= params.powers_of_g.len(),
    ensures
        ({
            let powers = g1_views(params.powers_of_g@);
            let agg_q = g1_total(round1_quotient_views(round1_outputs@));
            let z = oracle_spec(
                g1_views(state.aggregated_input_coins_com@) + g1_views(
                    state.aggregated_output_coins_com@,
                ) + seq![agg_q],
            );
            let ins = polys_view(state.input_coins_share_poly@);
            let outs = polys_view(state.output_coins_share_poly@);
            let adds = polys_view(state.additional_share_poly@);
            let q = state.quotient_share_poly@;
            &&& r.1.aggregated_quotient_com@ == agg_q
            &&& g1_views(r.1.aggregated_additional_com@) == aggregate(
                round1_additional_views(round1_outputs@),
                state.additional_share_poly.len() as nat,
            )
            &&& g1_views(r.1.aggregated_input_coins_com@) == g1_views(
                state.aggregated_input_coins_com@,
            )
            &&& g1_views(r.1.aggregated_output_coins_com@) == g1_views(
                state.aggregated_output_coins_com@,
            )
            &&& r.1.input_coins_share_poly.len() == state.input_coins_share_poly.len()
            &&& r.1.output_coins_share_poly.len() == state.output_coins_share_poly.len()
            &&& r.1.additional_share_poly.len() == state.additional_share_poly.len()
            &&& all_wf(r.0.input_coins_opening@)
            &&& all_wf(r.0.output_coins_opening@)
            &&& all_wf(r.0.additional_opening@)
            &&& r.0.quotient_opening.wf()
            &&& values_of(r.0.input_coins_opening@) == eval_all(ins, z)
            &&& values_of(r.0.output_coins_opening@) == eval_all(outs, z)
            &&& values_of(r.0.additional_opening@) == eval_all(adds, z)
            &&& r.0.quotient_opening.value() == eval_poly(q, z)
            &&& g1_views(r.0.input_coins_opening_proof@) == open_all(powers, ins, z)
            &&& g1_views(r.0.output_coins_opening_proof@) == open_all(powers, outs, z)
            &&& g1_views(r.0.additional_opening_proof@) == open_all(powers, adds, z)
            &&& r.0.quotient_opening_proof@ == commit_spec(powers, linear_quotient(q, z))
        }),
{
    let q_coms = gather_quotient_coms(round1_outputs);
    let agg_q = sum_points(&q_coms);
    let add_coms = gather_additional_coms(round1_outputs);
    let agg_add = sum_point_columns(&add_coms, state.additional_share_poly.len());
    assert(g1_views(agg_add@) =~= aggregate(
        round1_additional_views(round1_outputs@),
        state.additional_share_poly.len() as nat,
    ));
    let mut ro = concat_points(&state.aggregated_input_coins_com, &state.aggregated_output_coins_com);
    ro.push(agg_q.copy());
    assert(g1_views(ro@) =~= g1_views(state.aggregated_input_coins_com@) + g1_views(
        state.aggregated_output_coins_com@,
    ) + seq![agg_q@]);
    let z = random_oracle(&ro);
    let msg = PlonkProofRound2 {
        input_coins_opening: evaluate_polys(&state.input_coins_share_poly, &z),
        output_coins_opening: evaluate_polys(&state.output_coins_share_poly, &z),
        quotient_opening: state.quotient_share_poly.evaluate(&z),
        additional_opening: evaluate_polys(&state.additional_share_poly, &z),
        input_coins_opening_proof: open_polys(params, &state.input_coins_share_poly, &z),
        output_coins_opening_proof: open_polys(params, &state.output_coins_share_poly, &z),
        quotient_opening_proof: open_within(params, &state.quotient_share_poly, &z),
        additional_opening_proof: open_polys(params, &state.additional_share_poly, &z),
    };
    let next = PlonkProofState {
        input_coins_share_poly: copy_polys(&state.input_coins_share_poly),
        output_coins_share_poly: copy_polys(&state.output_coins_share_poly),
        quotient_share_poly: copy_poly(&state.quotient_share_poly),
        additional_share_poly: copy_polys(&state.additional_share_poly),
        aggregated_input_coins_com: copy_g1_points(&state.aggregated_input_coins_com),
        aggregated_output_coins_com: copy_g1_points(&state.aggregated_output_coins_com),
        aggregated_quotient_com: agg_q,
        aggregated_additional_com: agg_add,
    };
    (msg, next)
}

pub open spec fn round2_values(msgs: Seq<PlonkProofRound2>, which: int) -> Seq<Seq<int>> {
    msgs.map_values(
        |m: PlonkProofRound2|
            values_of(
                if which == 0 {
                    m.input_coins_opening@
                } else if which == 1 {
                    m.output_coins_opening@
                } else {
                    m.additional_opening@
                },
            ),
    )
}

pub open spec fn round2_proofs(msgs: Seq<PlonkProofRound2>, which: int) -> Seq<Seq<Seq<u8>>> {
    msgs.map_values(
        |m: PlonkProofRound2|
            g1_views(
                if which == 0 {
                    m.input_coins_opening_proof@
                } else if which == 1 {
                    m.output_coins_opening_proof@
                } else {
                    m.additional_opening_proof@
                },
            ),
    )
}

/// The round-2 message of every party has `ni` input, `no` output and `na` additional
/// entries, with canonical values.
pub open spec fn round2_shaped(msgs: Seq<PlonkProofRound2>, ni: nat, no: nat, na: nat) -> bool {
    forall|p: int|
        0 <= p < msgs.len() ==> {
            let m = #[trigger] msgs[p];
            &&& m.input_coins_opening.len() == ni
            &&& m.output_coins_opening.len() == no
            &&& m.additional_opening.len() == na
            &&& m.input_coins_opening_proof.len() == ni
            &&& m.output_coins_opening_proof.len() == no
            &&& m.additional_opening_proof.len() == na
            &&& all_wf(m.input_coins_opening@)
            &&& all_wf(m.output_coins_opening@)
            &&& all_wf(m.additional_opening@)
            &&& m.quotient_opening.wf()
        }
}

/// Finish: sums every party's values and opening proofs, and assembles the proof with the
/// aggregated commitments.
pub fn plonk_prove_finish(round2_outputs: &Vec<PlonkProofRound2>, state: &PlonkProofState) -> (proof:
    PlonkProof)
    requires
        round2_outputs.len() >= 1,
        round2_shaped(
            round2_outputs@,
            state.aggregated_input_coins_com.len() as nat,
            state.aggregated_output_coins_com.len() as nat,
            state.aggregated_additional_com.len() as nat,
        ),
    ensures
        ({
            let msgs = round2_outputs@;
            let ni = state.aggregated_input_coins_com.len() as nat;
            let no = state.aggregated_output_coins_com.len() as nat;
            let na = state.aggregated_additional_com.len() as nat;
            &&& proof.wf()
            &&& g1_views(proof.input_coins_com@) == g1_views(state.aggregated_input_coins_com@)
            &&& g1_views(proof.output_coins_com@) == g1_views(state.aggregated_output_coins_com@)
            &&& proof.quotient_com@ == state.aggregated_quotient_com@
            &&& g1_views(proof.additional_com@) == g1_views(state.aggregated_additional_com@)
            &&& values_of(proof.input_coins_opening@) == aggregate_values(round2_values(msgs, 0), ni)
            &&& values_of(proof.output_coins_opening@) == aggregate_values(round2_values(msgs, 1), no)
            &&& values_of(proof.additional_opening@) == aggregate_values(round2_values(msgs, 2), na)
            &&& proof.quotient_opening.value() == field_total(
                msgs.map_values(|m: PlonkProofRound2| m.quotient_opening.value()),
            )
            &&& g1_views(proof.input_coins_opening_proof@) == aggregate(round2_proofs(msgs, 0), ni)
            &&& g1_views(proof.output_coins_opening_proof@) == aggregate(round2_proofs(msgs, 1), no)
            &&& g1_views(proof.additional_opening_proof@) == aggregate(round2_proofs(msgs, 2), na)
            &&& proof.quotient_opening_proof@ == g1_total(
                msgs.map_values(|m: PlonkProofRound2| m.quotient_opening_proof@),
            )
        }),
{
    let ghost msgs = round2_outputs@;
    let ni = state.aggregated_input_coins_com.len();
    let no = state.aggregated_output_coins_com.len();
    let na = state.aggregated_additional_com.len();
    let in_open = gather_input_openings(round2_outputs);
    let out_open = gather_output_openings(round2_outputs);
    let add_open = gather_additional_openings(round2_outputs);
    let q_open = gather_quotient_openings(round2_outputs);
    let in_proofs = gather_input_proofs(round2_outputs);
    let out_proofs = gather_output_proofs(round2_outputs);
    let add_proofs = gather_additional_proofs(round2_outputs);
    let q_proofs = gather_quotient_proofs(round2_outputs);
    assert(forall|p: int| 0 <= p < in_open.len() ==> (#[trigger] in_open@[p]).len() == ni && all_wf(in_open@[p]@));
    assert(forall|p: int| 0 <= p < out_open.len() ==> (#[trigger] out_open@[p]).len() == no && all_wf(out_open@[p]@));
    assert(forall|p: int| 0 <= p < add_open.len() ==> (#[trigger] add_open@[p]).len() == na && all_wf(add_open@[p]@));
    assert(all_wf(q_open@));
    let input_coins_opening = sum_scalar_columns(&in_open, ni);
    let output_coins_opening = sum_scalar_columns(&out_open, no);
    let additional_opening = sum_scalar_columns(&add_open, na);
    let quotient_opening = sum_scalars(&q_open);
    let input_coins_opening_proof = sum_point_columns(&in_proofs, ni);
    let output_coins_opening_proof = sum_point_columns(&out_proofs, no);
    let additional_opening_proof = sum_point_columns(&add_proofs, na);
    let quotient_opening_proof = sum_points(&q_proofs);
    assert(in_open@.map_values(|v: Vec<Scalar>| values_of(v@)) =~= round2_values(msgs, 0));
    assert(out_open@.map_values(|v: Vec<Scalar>| values_of(v@)) =~= round2_values(msgs, 1));
    assert(add_open@.map_values(|v: Vec<Scalar>| values_of(v@)) =~= round2_values(msgs, 2));
    assert(in_proofs@.map_values(|v: Vec<G1Point>| g1_views(v@)) =~= round2_proofs(msgs, 0));
    assert(out_proofs@.map_values(|v: Vec<G1Point>| g1_views(v@)) =~= round2_proofs(msgs, 1));
    assert(add_proofs@.map_values(|v: Vec<G1Point>| g1_views(v@)) =~= round2_proofs(msgs, 2));
    assert(values_of(input_coins_opening@) =~= aggregate_values(round2_values(msgs, 0), ni as nat));
    assert(values_of(output_coins_opening@) =~= aggregate_values(round2_values(msgs, 1), no as nat));
    assert(values_of(additional_opening@) =~= aggregate_values(round2_values(msgs, 2), na as nat));
    assert(g1_views(input_coins_opening_proof@) =~= aggregate(round2_proofs(msgs, 0), ni as nat));
    assert(g1_views(output_coins_opening_proof@) =~= aggregate(round2_proofs(msgs, 1), no as nat));
    assert(g1_views(additional_opening_proof@) =~= aggregate(round2_proofs(msgs, 2), na as nat));
    assert(values_of(q_open@) =~= msgs.map_values(|m: PlonkProofRound2| m.quotient_opening.value()));
    PlonkProof {
        input_coins_com: copy_g1_points(&state.aggregated_input_coins_com),
        output_coins_com: copy_g1_points(&state.aggregated_output_coins_com),
        quotient_com: state.aggregated_quotient_com.copy(),
        additional_com: copy_g1_points(&state.aggregated_additional_com),
        input_coins_opening,
        output_coins_opening,
        quotient_opening,
        additional_opening,
        input_coins_opening_proof,
        output_coins_opening_proof,
        quotient_opening_proof,
        additional_opening_proof,
    }
}


/// Party `p`'s share of the quotient polynomial under the challenge `alpha`.
pub open spec fn party_quotient(
    app: PlonkApp,
    n: nat,
    input_shares: Seq<Vec<Coin>>,
    output_shares: Seq<Vec<Coin>>,
    p: int,
    alpha: int,
) -> Seq<int> {
    vanishing_quotient(
        batched_constraint(
            app,
            n,
            record_polys(input_shares[p]@),
            record_polys(output_shares[p]@),
            alpha,
        ),
        n,
    )
}

/// For each record, the sum over parties of the commitments to their shares of it.
pub open spec fn summed_commitments(powers: Seq<Seq<u8>>, shares: Seq<Vec<Coin>>, count: nat) -> Seq<
    Seq<u8>,
> {
    Seq::new(
        count,
        |i: int|
            g1_total(Seq::new(shares.len(), |p: int| commit_spec(powers, record_polys(shares[p]@)[i]))),
    )
}

/// For each record, the sum over parties of the values of their share polynomials at `z`.
pub open spec fn summed_values(shares: Seq<Vec<Coin>>, count: nat, z: int) -> Seq<int> {
    Seq::new(
        count,
        |i: int| field_total(Seq::new(shares.len(), |p: int| eval_poly(record_polys(shares[p]@)[i], z))),
    )
}

/// For each record, the sum over parties of the opening proofs of their shares at `z`.
pub open spec fn summed_openings(powers: Seq<Seq<u8>>, shares: Seq<Vec<Coin>>, count: nat, z: int) -> Seq<
    Seq<u8>,
> {
    Seq::new(
        count,
        |i: int|
            g1_total(
                Seq::new(
                    shares.len(),
                    |p: int| commit_spec(powers, linear_quotient(record_polys(shares[p]@)[i], z)),
                ),
            ),
    )
}

/// Party `p`'s share of the additional polynomials.
pub open spec fn party_adds(app: PlonkApp, n: nat, input_shares: Seq<Vec<Coin>>, p: int) -> Seq<Seq<int>> {
    app.additional_spec(n, record_polys(input_shares[p]@))
}

/// For each additional polynomial, the sum over parties of the commitments to their shares.
pub open spec fn summed_add_commitments(
    powers: Seq<Seq<u8>>,
    app: PlonkApp,
    n: nat,
    input_shares: Seq<Vec<Coin>>,
) -> Seq<Seq<u8>> {
    Seq::new(
        app.num_additional(),
        |i: int|
            g1_total(
                Seq::new(
                    input_shares.len(),
                    |p: int| commit_spec(powers, party_adds(app, n, input_shares, p)[i]),
                ),
            ),
    )
}

/// For each additional polynomial, the sum over parties of the values of their shares at `z`.
pub open spec fn summed_add_values(app: PlonkApp, n: nat, input_shares: Seq<Vec<Coin>>, z: int) -> Seq<
    int,
> {
    Seq::new(
        app.num_additional(),
        |i: int|
            field_total(
                Seq::new(
                    input_shares.len(),
                    |p: int| eval_poly(party_adds(app, n, input_shares, p)[i], z),
                ),
            ),
    )
}

/// For each additional polynomial, the sum over parties of the opening proofs of their
/// shares at `z`.
pub open spec fn summed_add_openings(
    powers: Seq<Seq<u8>>,
    app: PlonkApp,
    n: nat,
    input_shares: Seq<Vec<Coin>>,
    z: int,
) -> Seq<Seq<u8>> {
    Seq::new(
        app.num_additional(),
        |i: int|
            g1_total(
                Seq::new(
                    input_shares.len(),
                    |p: int|
                        commit_spec(powers, linear_quotient(party_adds(app, n, input_shares, p)[i], z)),
                ),
            ),
    )
}

/// `proof` is what the collaborative protocol yields on the parties' shares: commitments,
/// values and opening proofs are the sums of the parties' own, and both challenges derive
/// from the summed commitments.
pub open spec fn is_collaborative_proof(
    proof: PlonkProof,
    powers: Seq<Seq<u8>>,
    n: nat,
    app: PlonkApp,
    input_shares: Seq<Vec<Coin>>,
    output_shares: Seq<Vec<Coin>>,
) -> bool {
    let parties = input_shares.len();
    let ni = app.num_inputs();
    let no = app.num_outputs();
    let agg_in = summed_commitments(powers, input_shares, ni);
    let agg_out = summed_commitments(powers, output_shares, no);
    let alpha = oracle_spec(agg_in + agg_out);
    let agg_q = g1_total(
        Seq::new(
            parties,
            |p: int| commit_spec(powers, party_quotient(app, n, input_shares, output_shares, p, alpha)),
        ),
    );
    let z = oracle_spec(agg_in + agg_out + seq![agg_q]);
    &&& proof.wf()
    &&& g1_views(proof.input_coins_com@) == agg_in
    &&& g1_views(proof.output_coins_com@) == agg_out
    &&& proof.quotient_com@ == agg_q
    &&& g1_views(proof.additional_com@) == summed_add_commitments(powers, app, n, input_shares)
    &&& values_of(proof.additional_opening@) == summed_add_values(app, n, input_shares, z)
    &&& g1_views(proof.additional_opening_proof@) == summed_add_openings(
        powers,
        app,
        n,
        input_shares,
        z,
    )
    &&& values_of(proof.input_coins_opening@) == summed_values(input_shares, ni, z)
    &&& values_of(proof.output_coins_opening@) == summed_values(output_shares, no, z)
    &&& proof.quotient_opening.value() == field_total(
        Seq::new(
            parties,
            |p: int| eval_poly(party_quotient(app, n, input_shares, output_shares, p, alpha), z),
        ),
    )
    &&& g1_views(proof.input_coins_opening_proof@) == summed_openings(powers, input_shares, ni, z)
    &&& g1_views(proof.output_coins_opening_proof@) == summed_openings(powers, output_shares, no, z)
    &&& proof.quotient_opening_proof@ == g1_total(
        Seq::new(
            parties,
            |p: int|
                commit_spec(
                    powers,
                    linear_quotient(party_quotient(app, n, input_shares, output_shares, p, alpha), z),
                ),
        ),
    )
}

/// Every party holds, for each record, a share with `n` canonical fields.
pub open spec fn shares_fit(shares: Seq<Vec<Coin>>, count: nat, n: nat) -> bool {
    forall|p: int|
        0 <= p < shares.len() ==> (#[trigger] shares[p]).len() == count && coins_fit(shares[p]@, n)
}

/// Party `p`'s round-0 message commits to its record shares.
pub open spec fn round0_ok(m: PlonkProofRound0, powers: Seq<Seq<u8>>, app: PlonkApp, ins: Vec<Coin>, outs: Vec<Coin>) -> bool {
    &&& m.input_coins_com.len() == app.num_inputs()
    &&& m.output_coins_com.len() == app.num_outputs()
    &&& g1_views(m.input_coins_com@) == commit_all(powers, record_polys(ins@))
    &&& g1_views(m.output_coins_com@) == commit_all(powers, record_polys(outs@))
}

/// The party's state holds the polynomials of its record shares.
pub open spec fn state_holds(st: PlonkProofState, app: PlonkApp, n: nat, ins: Vec<Coin>, outs: Vec<Coin>) -> bool {
    &&& st.holds_shares(app, n)
    &&& polys_view(st.input_coins_share_poly@) == record_polys(ins@)
    &&& polys_view(st.output_coins_share_poly@) == record_polys(outs@)
}

/// After round 1 the state also holds the summed record commitments and the party's
/// quotient share `q`.
pub open spec fn state1_ok(
    st: PlonkProofState,
    app: PlonkApp,
    n: nat,
    ins: Vec<Coin>,
    outs: Vec<Coin>,
    agg_in: Seq<Seq<u8>>,
    agg_out: Seq<Seq<u8>>,
    q: Seq<int>,
) -> bool {
    &&& state_holds(st, app, n, ins, outs)
    &&& g1_views(st.aggregated_input_coins_com@) == agg_in
    &&& g1_views(st.aggregated_output_coins_com@) == agg_out
    &&& st.quotient_share_poly.wf()
    &&& st.quotient_share_poly@ == q
    &&& st.quotient_share_poly.coeffs.len() <= 2 * n
    &&& st.additional_share_poly.len() == app.num_additional()
    &&& polys_wf(st.additional_share_poly@)
    &&& polys_within(st.additional_share_poly@, n)
    &&& polys_view(st.additional_share_poly@) == app.additional_spec(n, record_polys(ins@))
}

/// Party's round-1 message: commitments to its quotient share `q` and its additional
/// shares `adds`.
pub open spec fn round1_ok(
    m: PlonkProofRound1,
    powers: Seq<Seq<u8>>,
    app: PlonkApp,
    adds: Seq<Seq<int>>,
    q: Seq<int>,
) -> bool {
    &&& m.additional_com.len() == app.num_additional()
    &&& g1_views(m.additional_com@) == commit_all(powers, adds)
    &&& m.quotient_com@ == commit_spec(powers, q)
}

/// Party's round-2 message: values and opening proofs at `z` of its share polynomials, of
/// its additional shares `adds` and of its quotient share `q`.
pub open spec fn round2_ok(
    m: PlonkProofRound2,
    powers: Seq<Seq<u8>>,
    ins: Vec<Coin>,
    outs: Vec<Coin>,
    adds: Seq<Seq<int>>,
    q: Seq<int>,
    z: int,
) -> bool {
    &&& all_wf(m.input_coins_opening@)
    &&& all_wf(m.output_coins_opening@)
    &&& all_wf(m.additional_opening@)
    &&& m.quotient_opening.wf()
    &&& values_of(m.input_coins_opening@) == eval_all(record_polys(ins@), z)
    &&& values_of(m.output_coins_opening@) == eval_all(record_polys(outs@), z)
    &&& values_of(m.additional_opening@) == eval_all(adds, z)
    &&& m.quotient_opening.value() == eval_poly(q, z)
    &&& g1_views(m.input_coins_opening_proof@) == open_all(powers, record_polys(ins@), z)
    &&& g1_views(m.output_coins_opening_proof@) == open_all(powers, record_polys(outs@), z)
    &&& g1_views(m.additional_opening_proof@) == open_all(powers, adds, z)
    &&& m.quotient_opening_proof@ == commit_spec(powers, linear_quotient(q, z))
}

fn run_round0(
    params: &UniversalParams,
    n: usize,
    app: PlonkApp,
    input_shares: &Vec<Vec<Coin>>,
    output_shares: &Vec<Vec<Coin>>,
) -> (r: (Vec<PlonkProofRound0>, Vec<PlonkProofState>))
    requires
        is_pow2(n as nat),
        NUM_FIELDS <= n,
        3 * n <= max_domain_size(),
        3 * n <= usize::MAX,
        params.powers_of_g.len() >= 4 * n,
        output_shares.len() == input_shares.len(),
        shares_fit(input_shares@, app.num_inputs(), n as nat),
        shares_fit(output_shares@, app.num_outputs(), n as nat),
    ensures
        r.0.len() == input_shares.len(),
        r.1.len() == input_shares.len(),
        forall|q: int|
            0 <= q < input_shares.len() ==> round0_ok(
                #[trigger] r.0@[q],
                g1_views(params.powers_of_g@),
                app,
                input_shares@[q],
                output_shares@[q],
            ),
        forall|q: int|
            0 <= q < input_shares.len() ==> state_holds(
                #[trigger] r.1@[q],
                app,
                n as nat,
                input_shares@[q],
                output_shares@[q],
            ),
{
    let mut msgs: Vec<PlonkProofRound0> = Vec::new();
    let mut states: Vec<PlonkProofState> = Vec::new();
    let mut p: usize = 0;
    while p < input_shares.len()
        invariant
            is_pow2(n as nat),
            NUM_FIELDS <= n,
            3 * n <= max_domain_size(),
            3 * n <= usize::MAX,
            params.powers_of_g.len() >= 4 * n,
            output_shares.len() == input_shares.len(),
            shares_fit(input_shares@, app.num_inputs(), n as nat),
            shares_fit(output_shares@, app.num_outputs(), n as nat),
            p <= input_shares.len(),
            msgs.len() == p,
            states.len() == p,
            forall|q: int|
                0 <= q < p ==> round0_ok(
                    #[trigger] msgs@[q],
                    g1_views(params.powers_of_g@),
                    app,
                    input_shares@[q],
                    output_shares@[q],
                ),
            forall|q: int|
                0 <= q < p ==> state_holds(
                    #[trigger] states@[q],
                    app,
                    n as nat,
                    input_shares@[q],
                    output_shares@[q],
                ),
        decreases input_shares.len() - p,
    {
        assert(input_shares@[p as int].len() == app.num_inputs());
        assert(output_shares@[p as int].len() == app.num_outputs());
        let (m, st) = plonk_prove_round0(params, n, app, &input_shares[p], &output_shares[p]);
        msgs.push(m);
        states.push(st);
        p = p + 1;
    }
    (msgs, states)
}

proof fn lemma_round0_sums(
    msgs: Seq<PlonkProofRound0>,
    powers: Seq<Seq<u8>>,
    app: PlonkApp,
    ins: Seq<Vec<Coin>>,
    outs: Seq<Vec<Coin>>,
)
    requires
        msgs.len() == ins.len(),
        outs.len() == ins.len(),
        forall|q: int| 0 <= q < ins.len() ==> round0_ok(#[trigger] msgs[q], powers, app, ins[q], outs[q]),
    ensures
        aggregate(round0_input_views(msgs), app.num_inputs()) == summed_commitments(
            powers,
            ins,
            app.num_inputs(),
        ),
        aggregate(round0_output_views(msgs), app.num_outputs()) == summed_commitments(
            powers,
            outs,
            app.num_outputs(),
        ),
{
    let ni = app.num_inputs();
    let no = app.num_outputs();
    assert forall|i: int| 0 <= i < ni implies g1_column(round0_input_views(msgs), i) =~= Seq::new(
        ins.len(),
        |q: int| commit_spec(powers, record_polys(ins[q]@)[i]),
    ) by {
        assert forall|q: int| 0 <= q < ins.len() implies #[trigger] round0_input_views(msgs)[q][i]
            == commit_spec(powers, record_polys(ins[q]@)[i]) by {
            assert(round0_ok(msgs[q], powers, app, ins[q], outs[q]));
            assert(g1_views(msgs[q].input_coins_com@).len() == ni);
            assert(record_polys(ins[q]@).len() == ins[q]@.len());
        }
    }
    assert forall|i: int| 0 <= i < no implies g1_column(round0_output_views(msgs), i) =~= Seq::new(
        outs.len(),
        |q: int| commit_spec(powers, record_polys(outs[q]@)[i]),
    ) by {
        assert forall|q: int| 0 <= q < outs.len() implies #[trigger] round0_output_views(msgs)[q][i]
            == commit_spec(powers, record_polys(outs[q]@)[i]) by {
            assert(round0_ok(msgs[q], powers, app, ins[q], outs[q]));
            assert(g1_views(msgs[q].output_coins_com@).len() == no);
            assert(record_polys(outs[q]@).len() == outs[q]@.len());
        }
    }
    assert(aggregate(round0_input_views(msgs), ni) =~= summed_commitments(powers, ins, ni));
    assert(aggregate(round0_output_views(msgs), no) =~= summed_commitments(powers, outs, no));
}

fn run_round1(
    params: &UniversalParams,
    n: usize,
    app: PlonkApp,
    input_shares: &Vec<Vec<Coin>>,
    output_shares: &Vec<Vec<Coin>>,
    msgs0: &Vec<PlonkProofRound0>,
    states0: &Vec<PlonkProofState>,
) -> (r: (Vec<PlonkProofRound1>, Vec<PlonkProofState>))
    requires
        is_pow2(n as nat),
        NUM_FIELDS <= n,
        3 * n <= max_domain_size(),
        3 * n <= usize::MAX,
        params.powers_of_g.len() >= 4 * n,
        input_shares.len() >= 1,
        output_shares.len() == input_shares.len(),
        msgs0.len() == input_shares.len(),
        states0.len() == input_shares.len(),
        forall|q: int|
            0 <= q < input_shares.len() ==> round0_ok(
                #[trigger] msgs0@[q],
                g1_views(params.powers_of_g@),
                app,
                input_shares@[q],
                output_shares@[q],
            ),
        forall|q: int|
            0 <= q < input_shares.len() ==> state_holds(
                #[trigger] states0@[q],
                app,
                n as nat,
                input_shares@[q],
                output_shares@[q],
            ),
    ensures
        ({
            let powers = g1_views(params.powers_of_g@);
            let (ins, outs) = (input_shares@, output_shares@);
            let agg_in = summed_commitments(powers, ins, app.num_inputs());
            let agg_out = summed_commitments(powers, outs, app.num_outputs());
            let alpha = oracle_spec(agg_in + agg_out);
            &&& r.0.len() == ins.len()
            &&& r.1.len() == ins.len()
            &&& forall|q: int|
                0 <= q < ins.len() ==> round1_ok(
                    #[trigger] r.0@[q],
                    powers,
                    app,
                    party_adds(app, n as nat, ins, q),
                    party_quotient(app, n as nat, ins, outs, q, alpha),
                )
            &&& forall|q: int|
                0 <= q < ins.len() ==> state1_ok(
                    #[trigger] r.1@[q],
                    app,
                    n as nat,
                    ins[q],
                    outs[q],
                    agg_in,
                    agg_out,
                    party_quotient(app, n as nat, ins, outs, q, alpha),
                )
        }),
{
    let ghost powers = g1_views(params.powers_of_g@);
    let ghost (ins, outs) = (input_shares@, output_shares@);
    let ghost agg_in = summed_commitments(powers, ins, app.num_inputs());
    let ghost agg_out = summed_commitments(powers, outs, app.num_outputs());
    let ghost alpha = oracle_spec(agg_in + agg_out);
    proof {
        lemma_round0_sums(msgs0@, powers, app, ins, outs);
    }
    let mut msgs: Vec<PlonkProofRound1> = Vec::new();
    let mut states: Vec<PlonkProofState> = Vec::new();
    let mut p: usize = 0;
    while p < input_shares.len()
        invariant
            is_pow2(n as nat),
            NUM_FIELDS <= n,
            3 * n <= max_domain_size(),
            3 * n <= usize::MAX,
            params.powers_of_g.len() >= 4 * n,
            powers == g1_views(params.powers_of_g@),
            ins == input_shares@,
            outs == output_shares@,
            input_shares.len() >= 1,
            msgs0.len() == input_shares.len(),
            states0.len() == input_shares.len(),
            forall|q: int|
                0 <= q < input_shares.len() ==> round0_ok(#[trigger] msgs0@[q], powers, app, ins[q], outs[q]),
            forall|q: int|
                0 <= q < input_shares.len() ==> state_holds(#[trigger] states0@[q], app, n as nat, ins[q], outs[q]),
            aggregate(round0_input_views(msgs0@), app.num_inputs()) == agg_in,
            aggregate(round0_output_views(msgs0@), app.num_outputs()) == agg_out,
            alpha == oracle_spec(agg_in + agg_out),
            p <= input_shares.len(),
            msgs.len() == p,
            states.len() == p,
            forall|q: int|
                0 <= q < p ==> round1_ok(
                    #[trigger] msgs@[q],
                    powers,
                    app,
                    party_adds(app, n as nat, ins, q),
                    party_quotient(app, n as nat, ins, outs, q, alpha),
                ),
            forall|q: int|
                0 <= q < p ==> state1_ok(
                    #[trigger] states@[q],
                    app,
                    n as nat,
                    ins[q],
                    outs[q],
                    agg_in,
                    agg_out,
                    party_quotient(app, n as nat, ins, outs, q, alpha),
                ),
        decreases input_shares.len() - p,
    {
        assert(forall|q: int| 0 <= q < msgs0.len() ==> #[trigger] round0_ok(msgs0@[q], powers, app, ins[q], outs[q]));
        assert(state_holds(states0@[p as int], app, n as nat, ins[p as int], outs[p as int]));
        let (m, st) = plonk_prove_round1(params, n, app, msgs0, &states0[p]);
        msgs.push(m);
        states.push(st);
        p = p + 1;
    }
    (msgs, states)
}

proof fn lemma_round1_sums(
    msgs: Seq<PlonkProofRound1>,
    powers: Seq<Seq<u8>>,
    app: PlonkApp,
    n: nat,
    ins: Seq<Vec<Coin>>,
    outs: Seq<Vec<Coin>>,
    alpha: int,
)
    requires
        msgs.len() == ins.len(),
        forall|q: int|
            0 <= q < ins.len() ==> round1_ok(
                #[trigger] msgs[q],
                powers,
                app,
                party_adds(app, n, ins, q),
                party_quotient(app, n, ins, outs, q, alpha),
            ),
    ensures
        aggregate(round1_additional_views(msgs), app.num_additional()) == summed_add_commitments(
            powers,
            app,
            n,
            ins,
        ),
{
    let na = app.num_additional();
    assert forall|i: int| 0 <= i < na implies g1_column(round1_additional_views(msgs), i) =~= Seq::new(
        ins.len(),
        |q: int| commit_spec(powers, party_adds(app, n, ins, q)[i]),
    ) by {
        assert forall|q: int| 0 <= q < ins.len() implies #[trigger] round1_additional_views(msgs)[q][i]
            == commit_spec(powers, party_adds(app, n, ins, q)[i]) by {
            assert(round1_ok(
                msgs[q],
                powers,
                app,
                party_adds(app, n, ins, q),
                party_quotient(app, n, ins, outs, q, alpha),
            ));
            assert(g1_views(msgs[q].additional_com@).len() == na);
        }
    }
    assert(aggregate(round1_additional_views(msgs), na) =~= summed_add_commitments(powers, app, n, ins));
}

fn run_round2(
    params: &UniversalParams,
    n: usize,
    app: PlonkApp,
    input_shares: &Vec<Vec<Coin>>,
    output_shares: &Vec<Vec<Coin>>,
    msgs1: &Vec<PlonkProofRound1>,
    states1: &Vec<PlonkProofState>,
) -> (r: (Vec<PlonkProofRound2>, PlonkProofState))
    requires
        NUM_FIELDS <= n,
        params.powers_of_g.len() >= 4 * n,
        input_shares.len() >= 1,
        output_shares.len() == input_shares.len(),
        msgs1.len() == input_shares.len(),
        states1.len() == input_shares.len(),
        ({
            let powers = g1_views(params.powers_of_g@);
            let (ins, outs) = (input_shares@, output_shares@);
            let agg_in = summed_commitments(powers, ins, app.num_inputs());
            let agg_out = summed_commitments(powers, outs, app.num_outputs());
            let alpha = oracle_spec(agg_in + agg_out);
            &&& forall|q: int|
                0 <= q < ins.len() ==> round1_ok(
                    #[trigger] msgs1@[q],
                    powers,
                    app,
                    party_adds(app, n as nat, ins, q),
                    party_quotient(app, n as nat, ins, outs, q, alpha),
                )
            &&& forall|q: int|
                0 <= q < ins.len() ==> state1_ok(
                    #[trigger] states1@[q],
                    app,
                    n as nat,
                    ins[q],
                    outs[q],
                    agg_in,
                    agg_out,
                    party_quotient(app, n as nat, ins, outs, q, alpha),
                )
        }),
    ensures
        ({
            let powers = g1_views(params.powers_of_g@);
            let (ins, outs) = (input_shares@, output_shares@);
            let agg_in = summed_commitments(powers, ins, app.num_inputs());
            let agg_out = summed_commitments(powers, outs, app.num_outputs());
            let alpha = oracle_spec(agg_in + agg_out);
            let agg_q = g1_total(
                Seq::new(
                    ins.len(),
                    |q: int| commit_spec(powers, party_quotient(app, n as nat, ins, outs, q, alpha)),
                ),
            );
            let z = oracle_spec(agg_in + agg_out + seq![agg_q]);
            &&& r.0.len() == ins.len()
            &&& forall|q: int|
                0 <= q < ins.len() ==> round2_ok(
                    #[trigger] r.0@[q],
                    powers,
                    ins[q],
                    outs[q],
                    party_adds(app, n as nat, ins, q),
                    party_quotient(app, n as nat, ins, outs, q, alpha),
                    z,
                )
            &&& g1_views(r.1.aggregated_input_coins_com@) == agg_in
            &&& g1_views(r.1.aggregated_output_coins_com@) == agg_out
            &&& r.1.aggregated_quotient_com@ == agg_q
            &&& g1_views(r.1.aggregated_additional_com@) == summed_add_commitments(
                powers,
                app,
                n as nat,
                ins,
            )
        }),
{
    let ghost powers = g1_views(params.powers_of_g@);
    let ghost (ins, outs) = (input_shares@, output_shares@);
    let ghost agg_in = summed_commitments(powers, ins, app.num_inputs());
    let ghost agg_out = summed_commitments(powers, outs, app.num_outputs());
    let ghost alpha = oracle_spec(agg_in + agg_out);
    let ghost qs = Seq::new(
        ins.len(),
        |q: int| commit_spec(powers, party_quotient(app, n as nat, ins, outs, q, alpha)),
    );
    let ghost agg_q = g1_total(qs);
    let ghost z = oracle_spec(agg_in + agg_out + seq![agg_q]);
    assert(round1_quotient_views(msgs1@) =~= qs);
    let ghost agg_add = summed_add_commitments(powers, app, n as nat, ins);
    proof {
        lemma_round1_sums(msgs1@, powers, app, n as nat, ins, outs, alpha);
    }
    let mut msgs: Vec<PlonkProofRound2> = Vec::new();
    let mut first: Option<PlonkProofState> = None;
    let mut p: usize = 0;
    while p < input_shares.len()
        invariant
            NUM_FIELDS <= n,
            params.powers_of_g.len() >= 4 * n,
            powers == g1_views(params.powers_of_g@),
            ins == input_shares@,
            outs == output_shares@,
            output_shares.len() == input_shares.len(),
            msgs1.len() == input_shares.len(),
            states1.len() == input_shares.len(),
            round1_quotient_views(msgs1@) == qs,
            agg_q == g1_total(qs),
            agg_add == summed_add_commitments(powers, app, n as nat, ins),
            aggregate(round1_additional_views(msgs1@), app.num_additional()) == agg_add,
            z == oracle_spec(agg_in + agg_out + seq![agg_q]),
            forall|q: int|
                0 <= q < ins.len() ==> round1_ok(
                    #[trigger] msgs1@[q],
                    powers,
                    app,
                    party_adds(app, n as nat, ins, q),
                    party_quotient(app, n as nat, ins, outs, q, alpha),
                ),
            forall|q: int|
                0 <= q < ins.len() ==> state1_ok(
                    #[trigger] states1@[q],
                    app,
                    n as nat,
                    ins[q],
                    outs[q],
                    agg_in,
                    agg_out,
                    party_quotient(app, n as nat, ins, outs, q, alpha),
                ),
            p <= input_shares.len(),
            msgs.len() == p,
            forall|q: int|
                0 <= q < p ==> round2_ok(
                    #[trigger] msgs@[q],
                    powers,
                    ins[q],
                    outs[q],
                    party_adds(app, n as nat, ins, q),
                    party_quotient(app, n as nat, ins, outs, q, alpha),
                    z,
                ),
            p > 0 ==> first is Some,
            first matches Some(st) ==> {
                &&& g1_views(st.aggregated_input_coins_com@) == agg_in
                &&& g1_views(st.aggregated_output_coins_com@) == agg_out
                &&& st.aggregated_quotient_com@ == agg_q
                &&& g1_views(st.aggregated_additional_com@) == agg_add
            },
        decreases input_shares.len() - p,
    {
        let ghost st1 = states1@[p as int];
        assert(state1_ok(
            st1,
            app,
            n as nat,
            ins[p as int],
            outs[p as int],
            agg_in,
            agg_out,
            party_quotient(app, n as nat, ins, outs, p as int, alpha),
        ));
        assert(polys_within(st1.input_coins_share_poly@, params.powers_of_g.len() as nat)) by {
            assert forall|i: int| 0 <= i < st1.input_coins_share_poly@.len() implies
                #[trigger] st1.input_coins_share_poly@[i].coeffs.len() <= params.powers_of_g.len() by {}
        }
        assert(polys_within(st1.output_coins_share_poly@, params.powers_of_g.len() as nat)) by {
            assert forall|i: int| 0 <= i < st1.output_coins_share_poly@.len() implies
                #[trigger] st1.output_coins_share_poly@[i].coeffs.len() <= params.powers_of_g.len() by {}
        }
        let (m, st) = plonk_prove_round2(params, msgs1, &states1[p]);
        assert(round2_ok(
            m,
            powers,
            ins[p as int],
            outs[p as int],
            party_adds(app, n as nat, ins, p as int),
            party_quotient(app, n as nat, ins, outs, p as int, alpha),
            z,
        ));
        msgs.push(m);
        if p == 0 {
            first = Some(st);
        }
        p = p + 1;
    }
    match first {
        Some(st) => (msgs, st),
        None => {
            proof {
                assert(false);
            }
            (msgs, empty_state())
        },
    }
}

fn empty_state() -> (r: PlonkProofState) {
    PlonkProofState {
        input_coins_share_poly: Vec::new(),
        output_coins_share_poly: Vec::new(),
        quotient_share_poly: Poly { coeffs: Vec::new() },
        additional_share_poly: Vec::new(),
        aggregated_input_coins_com: Vec::new(),
        aggregated_output_coins_com: Vec::new(),
        aggregated_quotient_com: G1Point { bytes: Vec::new() },
        aggregated_additional_com: Vec::new(),
    }
}

/// Runs the collaborative protocol: every party goes through rounds 0, 1 and 2 on its own
/// shares (`input_shares[p]`, `output_shares[p]`), and the round-2 messages are summed.
pub fn plonk_prove_with_shares(
    crs: &JZKZGCommitmentParams,
    n: usize,
    app: PlonkApp,
    input_shares: &Vec<Vec<Coin>>,
    output_shares: &Vec<Vec<Coin>>,
) -> (proof: PlonkProof)
    requires
        is_pow2(n as nat),
        NUM_FIELDS <= n,
        3 * n <= max_domain_size(),
        3 * n <= usize::MAX,
        crs.crs_coefficient_g1.len() >= 4 * n,
        input_shares.len() >= 1,
        output_shares.len() == input_shares.len(),
        shares_fit(input_shares@, app.num_inputs(), n as nat),
        shares_fit(output_shares@, app.num_outputs(), n as nat),
    ensures
        is_collaborative_proof(
            proof,
            g1_views(crs.crs_coefficient_g1@),
            n as nat,
            app,
            input_shares@,
            output_shares@,
        ),
{
    let params = kzg_crs(crs);
    let ghost powers = g1_views(crs.crs_coefficient_g1@);
    let ghost (ins, outs) = (input_shares@, output_shares@);
    let (msgs0, states0) = run_round0(&params, n, app, input_shares, output_shares);
    let (msgs1, states1) = run_round1(&params, n, app, input_shares, output_shares, &msgs0, &states0);
    let (msgs2, last) = run_round2(&params, n, app, input_shares, output_shares, &msgs1, &states1);
    let ghost agg_in = summed_commitments(powers, ins, app.num_inputs());
    let ghost agg_out = summed_commitments(powers, outs, app.num_outputs());
    let ghost alpha = oracle_spec(agg_in + agg_out);
    let ghost agg_q = g1_total(
        Seq::new(ins.len(), |q: int| commit_spec(powers, party_quotient(app, n as nat, ins, outs, q, alpha))),
    );
    let ghost z = oracle_spec(agg_in + agg_out + seq![agg_q]);
    proof {
        lemma_round2_sums(msgs2@, powers, app, n as nat, ins, outs, alpha, z);
        lemma_round2_add_sums(msgs2@, powers, app, n as nat, ins, outs, alpha, z);
        assert(g1_views(last.aggregated_input_coins_com@).len() == app.num_inputs());
        assert(g1_views(last.aggregated_output_coins_com@).len() == app.num_outputs());
        assert(g1_views(last.aggregated_additional_com@).len() == app.num_additional());
    }
    plonk_prove_finish(&msgs2, &last)
}

proof fn lemma_adds_len(app: PlonkApp, n: nat, ins: Seq<Seq<int>>)
    ensures
        app.additional_spec(n, ins).len() == app.num_additional(),
{
    match app {
        PlonkApp::Trade | PlonkApp::Swap => {},
        _ => {},
    }
}

/// The summed additional values and opening proofs of the round-2 messages.
proof fn lemma_round2_add_sums(
    msgs: Seq<PlonkProofRound2>,
    powers: Seq<Seq<u8>>,
    app: PlonkApp,
    n: nat,
    ins: Seq<Vec<Coin>>,
    outs: Seq<Vec<Coin>>,
    alpha: int,
    z: int,
)
    requires
        msgs.len() == ins.len(),
        forall|q: int|
            0 <= q < ins.len() ==> round2_ok(
                #[trigger] msgs[q],
                powers,
                ins[q],
                outs[q],
                party_adds(app, n, ins, q),
                party_quotient(app, n, ins, outs, q, alpha),
                z,
            ),
    ensures
        aggregate_values(round2_values(msgs, 2), app.num_additional()) == summed_add_values(
            app,
            n,
            ins,
            z,
        ),
        aggregate(round2_proofs(msgs, 2), app.num_additional()) == summed_add_openings(
            powers,
            app,
            n,
            ins,
            z,
        ),
{
    let na = app.num_additional();
    assert forall|i: int| 0 <= i < na implies field_column(round2_values(msgs, 2), i) =~= Seq::new(
        ins.len(),
        |q: int| eval_poly(party_adds(app, n, ins, q)[i], z),
    ) by {
        assert forall|q: int| 0 <= q < ins.len() implies #[trigger] round2_values(msgs, 2)[q][i]
            == eval_poly(party_adds(app, n, ins, q)[i], z) by {
            assert(round2_ok(
                msgs[q],
                powers,
                ins[q],
                outs[q],
                party_adds(app, n, ins, q),
                party_quotient(app, n, ins, outs, q, alpha),
                z,
            ));
            lemma_adds_len(app, n, record_polys(ins[q]@));
        }
    }
    assert forall|i: int| 0 <= i < na implies g1_column(round2_proofs(msgs, 2), i) =~= Seq::new(
        ins.len(),
        |q: int| commit_spec(powers, linear_quotient(party_adds(app, n, ins, q)[i], z)),
    ) by {
        assert forall|q: int| 0 <= q < ins.len() implies #[trigger] round2_proofs(msgs, 2)[q][i]
            == commit_spec(powers, linear_quotient(party_adds(app, n, ins, q)[i], z)) by {
            assert(round2_ok(
                msgs[q],
                powers,
                ins[q],
                outs[q],
                party_adds(app, n, ins, q),
                party_quotient(app, n, ins, outs, q, alpha),
                z,
            ));
            lemma_adds_len(app, n, record_polys(ins[q]@));
        }
    }
    assert(aggregate_values(round2_values(msgs, 2), na) =~= summed_add_values(app, n, ins, z));
    assert(aggregate(round2_proofs(msgs, 2), na) =~= summed_add_openings(powers, app, n, ins, z));
}

proof fn lemma_round2_sums(
    msgs: Seq<PlonkProofRound2>,
    powers: Seq<Seq<u8>>,
    app: PlonkApp,
    n: nat,
    ins: Seq<Vec<Coin>>,
    outs: Seq<Vec<Coin>>,
    alpha: int,
    z: int,
)
    requires
        msgs.len() == ins.len(),
        outs.len() == ins.len(),
        ins.len() >= 1,
        shares_fit(ins, app.num_inputs(), n),
        shares_fit(outs, app.num_outputs(), n),
        forall|q: int|
            0 <= q < ins.len() ==> round2_ok(
                #[trigger] msgs[q],
                powers,
                ins[q],
                outs[q],
                party_adds(app, n as nat, ins, q),
                party_quotient(app, n, ins, outs, q, alpha),
                z,
            ),
    ensures
        round2_shaped(msgs, app.num_inputs(), app.num_outputs(), app.num_additional()),
        aggregate_values(round2_values(msgs, 0), app.num_inputs()) == summed_values(ins, app.num_inputs(), z),
        aggregate_values(round2_values(msgs, 1), app.num_outputs()) == summed_values(outs, app.num_outputs(), z),
        aggregate(round2_proofs(msgs, 0), app.num_inputs()) == summed_openings(powers, ins, app.num_inputs(), z),
        aggregate(round2_proofs(msgs, 1), app.num_outputs()) == summed_openings(powers, outs, app.num_outputs(), z),
        msgs.map_values(|m: PlonkProofRound2| m.quotient_opening.value()) == Seq::new(
            ins.len(),
            |q: int| eval_poly(party_quotient(app, n, ins, outs, q, alpha), z),
        ),
        msgs.map_values(|m: PlonkProofRound2| m.quotient_opening_proof@) == Seq::new(
            ins.len(),
            |q: int| commit_spec(powers, linear_quotient(party_quotient(app, n, ins, outs, q, alpha), z)),
        ),
{
    let ni = app.num_inputs();
    let no = app.num_outputs();
    assert forall|q: int| 0 <= q < msgs.len() implies {
        let m = #[trigger] msgs[q];
        &&& m.input_coins_opening.len() == ni
        &&& m.output_coins_opening.len() == no
        &&& m.input_coins_opening_proof.len() == ni
        &&& m.output_coins_opening_proof.len() == no
        &&& m.additional_opening.len() == app.num_additional()
        &&& m.additional_opening_proof.len() == app.num_additional()
    } by {
        assert(round2_ok(
                msgs[q],
                powers,
                ins[q],
                outs[q],
                party_adds(app, n, ins, q),
                party_quotient(app, n, ins, outs, q, alpha),
                z,
            ));
        assert(ins[q].len() == ni && outs[q].len() == no);
        assert(values_of(msgs[q].input_coins_opening@).len() == ni);
        assert(values_of(msgs[q].output_coins_opening@).len() == no);
        assert(g1_views(msgs[q].input_coins_opening_proof@).len() == ni);
        assert(g1_views(msgs[q].output_coins_opening_proof@).len() == no);
        lemma_adds_len(app, n, record_polys(ins[q]@));
        assert(values_of(msgs[q].additional_opening@).len() == app.num_additional());
        assert(g1_views(msgs[q].additional_opening_proof@).len() == app.num_additional());
    }
    assert forall|i: int| 0 <= i < ni implies field_column(round2_values(msgs, 0), i) =~= Seq::new(
        ins.len(),
        |q: int| eval_poly(record_polys(ins[q]@)[i], z),
    ) by {
        assert forall|q: int| 0 <= q < ins.len() implies #[trigger] round2_values(msgs, 0)[q][i]
            == eval_poly(record_polys(ins[q]@)[i], z) by {
            assert(round2_ok(
                msgs[q],
                powers,
                ins[q],
                outs[q],
                party_adds(app, n, ins, q),
                party_quotient(app, n, ins, outs, q, alpha),
                z,
            ));
        }
    }
    assert forall|i: int| 0 <= i < no implies field_column(round2_values(msgs, 1), i) =~= Seq::new(
        outs.len(),
        |q: int| eval_poly(record_polys(outs[q]@)[i], z),
    ) by {
        assert forall|q: int| 0 <= q < outs.len() implies #[trigger] round2_values(msgs, 1)[q][i]
            == eval_poly(record_polys(outs[q]@)[i], z) by {
            assert(round2_ok(
                msgs[q],
                powers,
                ins[q],
                outs[q],
                party_adds(app, n, ins, q),
                party_quotient(app, n, ins, outs, q, alpha),
                z,
            ));
        }
    }
    assert forall|i: int| 0 <= i < ni implies g1_column(round2_proofs(msgs, 0), i) =~= Seq::new(
        ins.len(),
        |q: int| commit_spec(powers, linear_quotient(record_polys(ins[q]@)[i], z)),
    ) by {
        assert forall|q: int| 0 <= q < ins.len() implies #[trigger] round2_proofs(msgs, 0)[q][i]
            == commit_spec(powers, linear_quotient(record_polys(ins[q]@)[i], z)) by {
            assert(round2_ok(
                msgs[q],
                powers,
                ins[q],
                outs[q],
                party_adds(app, n, ins, q),
                party_quotient(app, n, ins, outs, q, alpha),
                z,
            ));
        }
    }
    assert forall|i: int| 0 <= i < no implies g1_column(round2_proofs(msgs, 1), i) =~= Seq::new(
        outs.len(),
        |q: int| commit_spec(powers, linear_quotient(record_polys(outs[q]@)[i], z)),
    ) by {
        assert forall|q: int| 0 <= q < outs.len() implies #[trigger] round2_proofs(msgs, 1)[q][i]
            == commit_spec(powers, linear_quotient(record_polys(outs[q]@)[i], z)) by {
            assert(round2_ok(
                msgs[q],
                powers,
                ins[q],
                outs[q],
                party_adds(app, n, ins, q),
                party_quotient(app, n, ins, outs, q, alpha),
                z,
            ));
        }
    }
    assert(aggregate_values(round2_values(msgs, 0), ni) =~= summed_values(ins, ni, z));
    assert(aggregate_values(round2_values(msgs, 1), no) =~= summed_values(outs, no, z));
    assert(aggregate(round2_proofs(msgs, 0), ni) =~= summed_openings(powers, ins, ni, z));
    assert(aggregate(round2_proofs(msgs, 1), no) =~= summed_openings(powers, outs, no, z));
    assert(msgs.map_values(|m: PlonkProofRound2| m.quotient_opening.value()) =~= Seq::new(
        ins.len(),
        |q: int| eval_poly(party_quotient(app, n, ins, outs, q, alpha), z),
    )) by {
        assert forall|q: int| 0 <= q < ins.len() implies #[trigger] msgs[q].quotient_opening.value()
            == eval_poly(party_quotient(app, n, ins, outs, q, alpha), z) by {
            assert(round2_ok(
                msgs[q],
                powers,
                ins[q],
                outs[q],
                party_adds(app, n, ins, q),
                party_quotient(app, n, ins, outs, q, alpha),
                z,
            ));
        }
    }
    assert(msgs.map_values(|m: PlonkProofRound2| m.quotient_opening_proof@) =~= Seq::new(
        ins.len(),
        |q: int| commit_spec(powers, linear_quotient(party_quotient(app, n, ins, outs, q, alpha), z)),
    )) by {
        assert forall|q: int| 0 <= q < ins.len() implies #[trigger] msgs[q].quotient_opening_proof@
            == commit_spec(powers, linear_quotient(party_quotient(app, n, ins, outs, q, alpha), z)) by {
            assert(round2_ok(
                msgs[q],
                powers,
                ins[q],
                outs[q],
                party_adds(app, n, ins, q),
                party_quotient(app, n, ins, outs, q, alpha),
                z,
            ));
        }
    }
}

/// Party-major `shares` split `records` among `parties` parties: party `p` holds
/// `shares[p][i]`, with `n` canonical fields, and for each record and field the parties'
/// shares sum to the record's field.
pub open spec fn splits(shares: Seq<Vec<Coin>>, records: Seq<Coin>, parties: nat, n: nat) -> bool {
    &&& shares.len() == parties
    &&& shares_fit(shares, records.len(), n)
    &&& forall|i: int, f: int|
        0 <= i < records.len() && 0 <= f < n ==> #[trigger] share_sum(party_column(shares, i), f)
            == records[i]@[f].value()
}

/// Every party's share of record `i`.
pub open spec fn party_column(shares: Seq<Vec<Coin>>, i: int) -> Seq<Coin> {
    Seq::new(shares.len(), |p: int| shares[p]@[i])
}

/// Splits each of `records` among `parties` parties, record `k` taking the random shares
/// `rows[offset + k·(parties-1) ..]`; the result is party-major.
fn split_records(records: &Vec<Coin>, parties: usize, n: usize, rows: &Vec<Coin>, offset: usize) -> (r:
    Vec<Vec<Coin>>)
    requires
        parties >= 1,
        coins_fit(records@, n as nat),
        forall|i: int| 0 <= i < rows.len() ==> (#[trigger] rows@[i]).len() == n && all_wf(rows@[i]@),
        offset + records.len() * (parties - 1) <= rows.len(),
    ensures
        splits(r@, records@, parties as nat, n as nat),
{
    let mut by_record: Vec<Vec<Coin>> = Vec::new();
    let mut cur: usize = offset;
    let mut k: usize = 0;
    while k < records.len()
        invariant
            parties >= 1,
            coins_fit(records@, n as nat),
            forall|i: int| 0 <= i < rows.len() ==> (#[trigger] rows@[i]).len() == n && all_wf(rows@[i]@),
            offset + records.len() * (parties - 1) <= rows.len(),
            k <= records.len(),
            cur == offset + k * (parties - 1),
            by_record.len() == k,
            forall|t: int|
                0 <= t < k ==> (#[trigger] by_record@[t]).len() == parties && (forall|p: int|
                    0 <= p < parties ==> (#[trigger] by_record@[t]@[p]).len() == n && all_wf(
                        by_record@[t]@[p]@,
                    )) && (forall|f: int|
                    0 <= f < n ==> #[trigger] share_sum(by_record@[t]@, f) == records@[t]@[f].value()),
        decreases records.len() - k,
    {
        let mut random_shares: Vec<Coin> = Vec::new();
        let mut j: usize = 0;
        while j < parties - 1
            invariant
                parties >= 1,
                k < records.len(),
                forall|i: int| 0 <= i < rows.len() ==> (#[trigger] rows@[i]).len() == n && all_wf(rows@[i]@),
                offset + records.len() * (parties - 1) <= rows.len(),
                cur == offset + k * (parties - 1) + j,
                j <= parties - 1,
                random_shares.len() == j,
                forall|t: int|
                    0 <= t < j ==> (#[trigger] random_shares@[t]).len() == n && all_wf(
                        random_shares@[t]@,
                    ),
            decreases parties - 1 - j,
        {
            proof {
                assert(k * (parties - 1) + j < records.len() * (parties - 1)) by (nonlinear_arith)
                    requires
                        k < records.len(),
                        j < parties - 1,
                ;
            }
            random_shares.push(copy_coin(&rows[cur]));
            cur = cur + 1;
            j = j + 1;
        }
        proof {
            assert(k * (parties - 1) + (parties - 1) == (k + 1) * (parties - 1)) by (nonlinear_arith);
        }
        assert(records@[k as int].len() == n && all_wf(records@[k as int]@));
        let shares = share_record_with(&records[k], &random_shares);
        by_record.push(shares);
        k = k + 1;
    }
    let mut r: Vec<Vec<Coin>> = Vec::new();
    let mut p: usize = 0;
    while p < parties
        invariant
            k == records.len(),
            by_record.len() == records.len(),
            forall|t: int|
                0 <= t < k ==> (#[trigger] by_record@[t]).len() == parties && (forall|q: int|
                    0 <= q < parties ==> (#[trigger] by_record@[t]@[q]).len() == n && all_wf(
                        by_record@[t]@[q]@,
                    )),
            p <= parties,
            r.len() == p,
            forall|q: int|
                0 <= q < p ==> (#[trigger] r@[q]).len() == records.len() && (forall|i: int|
                    0 <= i < records.len() ==> (#[trigger] r@[q]@[i])@ == by_record@[i]@[q]@),
        decreases parties - p,
    {
        let mut row: Vec<Coin> = Vec::new();
        let mut i: usize = 0;
        while i < records.len()
            invariant
                p < parties,
                by_record.len() == records.len(),
                forall|t: int|
                    0 <= t < records.len() ==> (#[trigger] by_record@[t]).len() == parties,
                i <= records.len(),
                row.len() == i,
                forall|t: int| 0 <= t < i ==> (#[trigger] row@[t])@ == by_record@[t]@[p as int]@,
            decreases records.len() - i,
        {
            assert(by_record@[i as int].len() == parties);
            row.push(copy_coin(&by_record[i][p]));
            i = i + 1;
        }
        r.push(row);
        p = p + 1;
    }
    proof {
        assert forall|q: int| 0 <= q < r.len() implies (#[trigger] r@[q]).len() == records.len()
            && coins_fit(r@[q]@, n as nat) by {
            assert forall|i: int| 0 <= i < r@[q]@.len() implies (#[trigger] r@[q]@[i]).len() == n
                && all_wf(r@[q]@[i]@) by {
                assert(r@[q]@[i]@ == by_record@[i]@[q]@);
                assert(by_record@[i]@[q].len() == n && all_wf(by_record@[i]@[q]@));
            }
        }
        assert forall|i: int, f: int| 0 <= i < records.len() && 0 <= f < n implies #[trigger] share_sum(
            party_column(r@, i),
            f,
        ) == records@[i]@[f].value() by {
            let col = party_column(r@, i);
            assert forall|q: int| 0 <= q < col.len() implies #[trigger] col[q]@ == by_record@[i]@[q]@ by {
                assert(r@[q]@[i]@ == by_record@[i]@[q]@);
            }
            lemma_share_sum_same_views(col, by_record@[i]@);
        }
    }
    r
}

/// Splits every record into `num_parties` additive shares, drawing the random shares from
/// the generator seeded with `seed`, and runs the collaborative protocol on them.
pub fn plonk_prove(
    crs: &JZKZGCommitmentParams,
    n: usize,
    app: PlonkApp,
    input_coins: &Vec<Coin>,
    output_coins: &Vec<Coin>,
    num_parties: usize,
    seed: [u8; 32],
) -> (proof: PlonkProof)
    requires
        is_pow2(n as nat),
        NUM_FIELDS <= n,
        3 * n <= max_domain_size(),
        3 * n <= usize::MAX,
        crs.crs_coefficient_g1.len() >= 4 * n,
        input_coins.len() == app.num_inputs(),
        output_coins.len() == app.num_outputs(),
        coins_fit(input_coins@, n as nat),
        coins_fit(output_coins@, n as nat),
        num_parties >= 1,
        (input_coins.len() + output_coins.len()) * (num_parties - 1) <= usize::MAX,
    ensures
        exists|ins: Seq<Vec<Coin>>, outs: Seq<Vec<Coin>>|
            splits(ins, input_coins@, num_parties as nat, n as nat) && splits(
                outs,
                output_coins@,
                num_parties as nat,
                n as nat,
            ) && is_collaborative_proof(
                proof,
                g1_views(crs.crs_coefficient_g1@),
                n as nat,
                app,
                ins,
                outs,
            ),
{
    let ni = input_coins.len();
    let no = output_coins.len();
    proof {
        assert((ni + no) * (num_parties - 1) == ni * (num_parties - 1) + no * (num_parties - 1))
            by (nonlinear_arith);
    }
    let rows = random_rows(seed, (ni + no) * (num_parties - 1), n);
    let input_shares = split_records(input_coins, num_parties, n, &rows, 0);
    let output_shares = split_records(output_coins, num_parties, n, &rows, ni * (num_parties - 1));
    let proof = plonk_prove_with_shares(crs, n, app, &input_shares, &output_shares);
    assert(splits(input_shares@, input_coins@, num_parties as nat, n as nat));
    proof
}

proof fn lemma_eval_poly_range(s: Seq<int>, x: int)
    ensures
        0 <= eval_poly(s, x) < modulus(),
{
    if s.len() > 0 {
        lemma_mod_bound(
            eval_poly(s.drop_last(), x) + (s.last() * powm(x, (s.len() - 1) as nat)) % modulus(),
            modulus(),
        );
    }
}

proof fn lemma_single_total(v: int)
    requires
        0 <= v < modulus(),
    ensures
        field_total(seq![v]) == v,
{
    assert(seq![v].drop_last() =~= Seq::<int>::empty());
    assert(field_total(seq![v].drop_last()) == 0);
    assert(seq![v].last() == v);
    lemma_fundamental_div_mod_converse(v, modulus(), 0, v);
    assert(field_total(seq![v]) == fadd(0, v));
}

/// With a single party the collaborative protocol is the single-prover protocol: a proof it
/// yields on one party's records is the single-prover proof of those records.
pub proof fn lemma_single_party_is_single_prover(
    pf: PlonkProof,
    powers: Seq<Seq<u8>>,
    n: nat,
    app: PlonkApp,
    ins: Vec<Coin>,
    outs: Vec<Coin>,
)
    requires
        ins.len() == app.num_inputs(),
        outs.len() == app.num_outputs(),
        is_collaborative_proof(pf, powers, n, app, seq![ins], seq![outs]),
    ensures
        ({
            let in_polys = record_polys(ins@);
            let out_polys = record_polys(outs@);
            let alpha = oracle_spec(commit_all(powers, in_polys) + commit_all(powers, out_polys));
            pf.is_proof_of(
                powers,
                in_polys,
                out_polys,
                vanishing_quotient(batched_constraint(app, n, in_polys, out_polys, alpha), n),
                app.additional_spec(n, in_polys),
            )
        }),
{
    let (si, so) = (seq![ins], seq![outs]);
    let in_polys = record_polys(ins@);
    let out_polys = record_polys(outs@);
    let ni = app.num_inputs();
    let no = app.num_outputs();
    assert(summed_commitments(powers, si, ni) =~= commit_all(powers, in_polys)) by {
        assert forall|i: int| 0 <= i < ni implies #[trigger] summed_commitments(powers, si, ni)[i]
            == commit_all(powers, in_polys)[i] by {
            assert(Seq::new(1, |p: int| commit_spec(powers, record_polys(si[p]@)[i])) =~= seq![
                commit_spec(powers, in_polys[i]),
            ]);
        }
    }
    assert(summed_commitments(powers, so, no) =~= commit_all(powers, out_polys)) by {
        assert forall|i: int| 0 <= i < no implies #[trigger] summed_commitments(powers, so, no)[i]
            == commit_all(powers, out_polys)[i] by {
            assert(Seq::new(1, |p: int| commit_spec(powers, record_polys(so[p]@)[i])) =~= seq![
                commit_spec(powers, out_polys[i]),
            ]);
        }
    }
    let alpha = oracle_spec(commit_all(powers, in_polys) + commit_all(powers, out_polys));
    let q = party_quotient(app, n, si, so, 0, alpha);
    assert(q == vanishing_quotient(batched_constraint(app, n, in_polys, out_polys, alpha), n));
    assert(Seq::new(1, |p: int| commit_spec(powers, party_quotient(app, n, si, so, p, alpha)))
        =~= seq![commit_spec(powers, q)]);
    let z = oracle_spec(
        commit_all(powers, in_polys) + commit_all(powers, out_polys) + seq![commit_spec(powers, q)],
    );
    assert(summed_values(si, ni, z) =~= eval_all(in_polys, z)) by {
        assert forall|i: int| 0 <= i < ni implies #[trigger] summed_values(si, ni, z)[i] == eval_all(
            in_polys,
            z,
        )[i] by {
            assert(Seq::new(1, |p: int| eval_poly(record_polys(si[p]@)[i], z)) =~= seq![
                eval_poly(in_polys[i], z),
            ]);
            lemma_eval_poly_range(in_polys[i], z);
            lemma_single_total(eval_poly(in_polys[i], z));
        }
    }
    assert(summed_values(so, no, z) =~= eval_all(out_polys, z)) by {
        assert forall|i: int| 0 <= i < no implies #[trigger] summed_values(so, no, z)[i] == eval_all(
            out_polys,
            z,
        )[i] by {
            assert(Seq::new(1, |p: int| eval_poly(record_polys(so[p]@)[i], z)) =~= seq![
                eval_poly(out_polys[i], z),
            ]);
            lemma_eval_poly_range(out_polys[i], z);
            lemma_single_total(eval_poly(out_polys[i], z));
        }
    }
    assert(summed_openings(powers, si, ni, z) =~= open_all(powers, in_polys, z)) by {
        assert forall|i: int| 0 <= i < ni implies #[trigger] summed_openings(powers, si, ni, z)[i]
            == open_all(powers, in_polys, z)[i] by {
            assert(Seq::new(
                1,
                |p: int| commit_spec(powers, linear_quotient(record_polys(si[p]@)[i], z)),
            ) =~= seq![commit_spec(powers, linear_quotient(in_polys[i], z))]);
        }
    }
    assert(summed_openings(powers, so, no, z) =~= open_all(powers, out_polys, z)) by {
        assert forall|i: int| 0 <= i < no implies #[trigger] summed_openings(powers, so, no, z)[i]
            == open_all(powers, out_polys, z)[i] by {
            assert(Seq::new(
                1,
                |p: int| commit_spec(powers, linear_quotient(record_polys(so[p]@)[i], z)),
            ) =~= seq![commit_spec(powers, linear_quotient(out_polys[i], z))]);
        }
    }
    assert(Seq::new(1, |p: int| eval_poly(party_quotient(app, n, si, so, p, alpha), z)) =~= seq![
        eval_poly(q, z),
    ]);
    lemma_eval_poly_range(q, z);
    lemma_single_total(eval_poly(q, z));
    assert(Seq::new(
        1,
        |p: int| commit_spec(powers, linear_quotient(party_quotient(app, n, si, so, p, alpha), z)),
    ) =~= seq![commit_spec(powers, linear_quotient(q, z))]);
    let adds = app.additional_spec(n, in_polys);
    let na = app.num_additional();
    lemma_adds_len(app, n, in_polys);
    assert(party_adds(app, n, si, 0) == adds);
    assert(summed_add_commitments(powers, app, n, si) =~= commit_all(powers, adds)) by {
        assert forall|i: int| 0 <= i < na implies #[trigger] summed_add_commitments(powers, app, n, si)[i]
            == commit_all(powers, adds)[i] by {
            assert(Seq::new(1, |p: int| commit_spec(powers, party_adds(app, n, si, p)[i])) =~= seq![
                commit_spec(powers, adds[i]),
            ]);
        }
    }
    assert(summed_add_values(app, n, si, z) =~= eval_all(adds, z)) by {
        assert forall|i: int| 0 <= i < na implies #[trigger] summed_add_values(app, n, si, z)[i]
            == eval_all(adds, z)[i] by {
            assert(Seq::new(1, |p: int| eval_poly(party_adds(app, n, si, p)[i], z)) =~= seq![
                eval_poly(adds[i], z),
            ]);
            lemma_eval_poly_range(adds[i], z);
            lemma_single_total(eval_poly(adds[i], z));
        }
    }
    assert(summed_add_openings(powers, app, n, si, z) =~= open_all(powers, adds, z)) by {
        assert forall|i: int| 0 <= i < na implies #[trigger] summed_add_openings(
            powers,
            app,
            n,
            si,
            z,
        )[i] == open_all(powers, adds, z)[i] by {
            assert(Seq::new(
                1,
                |p: int| commit_spec(powers, linear_quotient(party_adds(app, n, si, p)[i], z)),
            ) =~= seq![commit_spec(powers, linear_quotient(adds[i], z))]);
        }
    }
}

} // verus!
