//! Record layout and the applications whose rules the protocol proves.
use vstd::prelude::*;
use crate::field::{Scalar, fadd, fmul, fsub, powm};
use crate::poly::{
    Poly, difference_spec, eval_poly, indicator, interpolation_of, is_pow2, lagrange_poly,
    lemma_product_len, max_domain_size, poly_add, poly_eval_mult_const, poly_product, poly_sub,
    product_spec, scale_spec, sum_spec, values_of, all_wf, poly_domain_shift, root_of_unity_of,
    shift_spec, lemma_eval_ops,
};
use crate::plonk::{PlonkProof, eval_all, polys_view, polys_wf, polys_within};

verus! {

/// Number of fields of a record.
pub const NUM_FIELDS: usize = 8;

pub const ENTROPY: usize = 0;

pub const OWNER: usize = 1;

pub const ASSET_ID: usize = 2;

pub const AMOUNT: usize = 3;

pub const APP_ID: usize = 4;

pub const APP_INPUT_0: usize = 5;

pub const APP_INPUT_1: usize = 6;

pub const RHO: usize = 7;

/// The application tag stored in a record's `APP_ID` field.
#[allow(non_camel_case_types)]
#[derive(Clone, Copy, Debug, PartialEq, Eq)]
pub enum AppId {
    PAYMENT,
    LOTTERY,
    SWAP,
    TRADE,
}

impl AppId {
    pub open spec fn code(self) -> u64 {
        match self {
            AppId::PAYMENT => 0,
            AppId::LOTTERY => 1,
            AppId::SWAP => 2,
            AppId::TRADE => 3,
        }
    }

    pub fn as_u64(&self) -> (r: u64)
        ensures
            r == self.code(),
    {
        match self {
            AppId::PAYMENT => 0,
            AppId::LOTTERY => 1,
            AppId::SWAP => 2,
            AppId::TRADE => 3,
        }
    }
}

/// The Lagrange basis polynomial of index `i` over the domain of size `n`.
pub open spec fn lagrange_spec(n: nat, i: int) -> Seq<int> {
    interpolation_of(indicator(n, i))
}

/// An application: the rules that its records must satisfy, as constraint polynomials that
/// vanish on the domain exactly when the rules hold.
#[derive(Clone, Copy, Debug, PartialEq, Eq)]
pub enum PlonkApp {
    /// One input and one output record: equal amounts, equal asset ids, and the input's
    /// application tag is the payment tag.
    Payment,
    /// Two inputs and one output record: the input amounts add up to the output amount, and
    /// all three agree on asset id and application tag.
    ConservationOfValue,
    /// Two inputs and one output record: the input amounts add up to the output amount, all
    /// three agree on asset id, and both inputs carry the lottery tag.
    Lottery,
    /// Two inputs and four outputs: each input pays its counterparty at the rate stored in its
    /// `APP_INPUT_0` field and keeps the change; asset ids match along each leg and both inputs
    /// carry the trade tag. The rates are read through the inputs shifted by
    /// `APP_INPUT_0 - AMOUNT` positions, which are the additional polynomials.
    Trade,
    /// Two inputs and two outputs: each input is exchanged at the rate stored in its
    /// `APP_INPUT_0` field, asset ids cross over, and both inputs carry the swap tag. The rates
    /// are read through the shifted inputs, as for `Trade`.
    Swap,
}

impl PlonkApp {
    pub open spec fn num_inputs(self) -> nat {
        match self {
            PlonkApp::Payment => 1,
            _ => 2,
        }
    }

    pub open spec fn num_outputs(self) -> nat {
        match self {
            PlonkApp::Trade => 4,
            PlonkApp::Swap => 2,
            _ => 1,
        }
    }

    pub open spec fn num_additional(self) -> nat {
        match self {
            PlonkApp::Trade | PlonkApp::Swap => 2,
            _ => 0,
        }
    }

    pub fn num_inputs_exec(&self) -> (r: usize)
        ensures
            r == self.num_inputs(),
    {
        match self {
            PlonkApp::Payment => 1,
            _ => 2,
        }
    }

    pub fn num_outputs_exec(&self) -> (r: usize)
        ensures
            r == self.num_outputs(),
    {
        match self {
            PlonkApp::Trade => 4,
            PlonkApp::Swap => 2,
            _ => 1,
        }
    }

    pub fn num_additional_exec(&self) -> (r: usize)
        ensures
            r == self.num_additional(),
    {
        match self {
            PlonkApp::Trade | PlonkApp::Swap => 2,
            _ => 0,
        }
    }

    /// The rate lookups: each input shifted by `APP_INPUT_0 - AMOUNT` positions.
    pub open spec fn additional_spec(self, n: nat, ins: Seq<Seq<int>>) -> Seq<Seq<int>> {
        let w = powm(root_of_unity_of(n), (APP_INPUT_0 - AMOUNT) as nat);
        match self {
            PlonkApp::Trade | PlonkApp::Swap => seq![shift_spec(ins[0], w), shift_spec(ins[1], w)],
            _ => seq![],
        }
    }

    pub open spec fn constraints_spec(self, n: nat, ins: Seq<Seq<int>>, outs: Seq<Seq<int>>) -> Seq<Seq<int>> {
        let amount = lagrange_spec(n, AMOUNT as int);
        let asset = lagrange_spec(n, ASSET_ID as int);
        let tag = lagrange_spec(n, APP_ID as int);
        match self {
            PlonkApp::Payment => seq![
                product_spec(amount, difference_spec(ins[0], outs[0])),
                product_spec(asset, difference_spec(ins[0], outs[0])),
                product_spec(
                    tag,
                    difference_spec(ins[0], scale_spec(tag, AppId::PAYMENT.code() as int)),
                ),
            ],
            PlonkApp::ConservationOfValue => seq![
                product_spec(amount, difference_spec(sum_spec(ins[0], ins[1]), outs[0])),
                product_spec(asset, difference_spec(ins[0], outs[0])),
                product_spec(asset, difference_spec(ins[1], outs[0])),
                product_spec(tag, difference_spec(ins[0], outs[0])),
                product_spec(tag, difference_spec(ins[1], outs[0])),
            ],
            PlonkApp::Lottery => {
                let lottery = scale_spec(tag, AppId::LOTTERY.code() as int);
                seq![
                    product_spec(amount, difference_spec(sum_spec(ins[0], ins[1]), outs[0])),
                    product_spec(asset, difference_spec(ins[0], outs[0])),
                    product_spec(asset, difference_spec(ins[1], outs[0])),
                    product_spec(tag, difference_spec(ins[0], lottery)),
                    product_spec(tag, difference_spec(ins[1], lottery)),
                ]
            },
            PlonkApp::Trade => {
                let trade = scale_spec(tag, AppId::TRADE.code() as int);
                let adds = self.additional_spec(n, ins);
                seq![
                    product_spec(
                        amount,
                        difference_spec(
                            outs[0],
                            product_spec(difference_spec(ins[0], outs[2]), adds[0]),
                        ),
                    ),
                    product_spec(
                        amount,
                        difference_spec(difference_spec(ins[1], outs[3]), product_spec(outs[1], adds[1])),
                    ),
                    product_spec(asset, difference_spec(ins[0], outs[1])),
                    product_spec(asset, difference_spec(ins[0], outs[2])),
                    product_spec(asset, difference_spec(ins[1], outs[0])),
                    product_spec(asset, difference_spec(ins[1], outs[3])),
                    product_spec(tag, difference_spec(ins[0], trade)),
                    product_spec(tag, difference_spec(ins[1], trade)),
                ]
            },
            PlonkApp::Swap => {
                let swap = scale_spec(tag, AppId::SWAP.code() as int);
                let adds = self.additional_spec(n, ins);
                seq![
                    product_spec(amount, difference_spec(outs[0], product_spec(ins[0], adds[0]))),
                    product_spec(amount, difference_spec(ins[1], product_spec(outs[1], adds[1]))),
                    product_spec(asset, difference_spec(ins[0], outs[1])),
                    product_spec(asset, difference_spec(ins[1], outs[0])),
                    product_spec(tag, difference_spec(ins[0], swap)),
                    product_spec(tag, difference_spec(ins[1], swap)),
                ]
            },
        }
    }

    /// The values of the constraint polynomials at `r`, computed from the values of the record
    /// polynomials there.
    pub open spec fn evaluations_spec(
        self,
        n: nat,
        r: int,
        ins: Seq<int>,
        outs: Seq<int>,
        adds: Seq<int>,
    ) -> Seq<int> {
        let amount = eval_poly(lagrange_spec(n, AMOUNT as int), r);
        let asset = eval_poly(lagrange_spec(n, ASSET_ID as int), r);
        let tag = eval_poly(lagrange_spec(n, APP_ID as int), r);
        match self {
            PlonkApp::Payment => seq![
                fmul(amount, fsub(ins[0], outs[0])),
                fmul(asset, fsub(ins[0], outs[0])),
                fmul(tag, fsub(ins[0], fmul(tag, AppId::PAYMENT.code() as int))),
            ],
            PlonkApp::ConservationOfValue => seq![
                fmul(amount, fsub(fadd(ins[0], ins[1]), outs[0])),
                fmul(asset, fsub(ins[0], outs[0])),
                fmul(asset, fsub(ins[1], outs[0])),
                fmul(tag, fsub(ins[0], outs[0])),
                fmul(tag, fsub(ins[1], outs[0])),
            ],
            PlonkApp::Lottery => {
                let lottery = fmul(tag, AppId::LOTTERY.code() as int);
                seq![
                    fmul(amount, fsub(fadd(ins[0], ins[1]), outs[0])),
                    fmul(asset, fsub(ins[0], outs[0])),
                    fmul(asset, fsub(ins[1], outs[0])),
                    fmul(tag, fsub(ins[0], lottery)),
                    fmul(tag, fsub(ins[1], lottery)),
                ]
            },
            PlonkApp::Trade => {
                let trade = fmul(tag, AppId::TRADE.code() as int);
                seq![
                    fmul(amount, fsub(outs[0], fmul(fsub(ins[0], outs[2]), adds[0]))),
                    fmul(amount, fsub(fsub(ins[1], outs[3]), fmul(outs[1], adds[1]))),
                    fmul(asset, fsub(ins[0], outs[1])),
                    fmul(asset, fsub(ins[0], outs[2])),
                    fmul(asset, fsub(ins[1], outs[0])),
                    fmul(asset, fsub(ins[1], outs[3])),
                    fmul(tag, fsub(ins[0], trade)),
                    fmul(tag, fsub(ins[1], trade)),
                ]
            },
            PlonkApp::Swap => {
                let swap = fmul(tag, AppId::SWAP.code() as int);
                seq![
                    fmul(amount, fsub(outs[0], fmul(ins[0], adds[0]))),
                    fmul(amount, fsub(ins[1], fmul(outs[1], adds[1]))),
                    fmul(asset, fsub(ins[0], outs[1])),
                    fmul(asset, fsub(ins[1], outs[0])),
                    fmul(tag, fsub(ins[0], swap)),
                    fmul(tag, fsub(ins[1], swap)),
                ]
            },
        }
    }

    /// The constraint polynomials of the records, and the additional polynomials.
    pub fn prover_fn(&self, n: usize, ins: &Vec<Poly>, outs: &Vec<Poly>) -> (r: (Vec<Poly>, Vec<Poly>))
        requires
            is_pow2(n as nat),
            NUM_FIELDS <= n,
            3 * n <= max_domain_size(),
            3 * n <= usize::MAX,
            ins.len() == self.num_inputs(),
            outs.len() == self.num_outputs(),
            polys_wf(ins@),
            polys_wf(outs@),
            polys_within(ins@, n as nat),
            polys_within(outs@, n as nat),
        ensures
            polys_wf(r.0@),
            polys_within(r.0@, 3 * n as nat),
            polys_view(r.0@) == self.constraints_spec(n as nat, polys_view(ins@), polys_view(outs@)),
            r.1.len() == self.num_additional(),
            polys_wf(r.1@),
            polys_within(r.1@, n as nat),
            polys_view(r.1@) == self.additional_spec(n as nat, polys_view(ins@)),
    {
        match self {
            PlonkApp::Payment => prove_payment(n, ins, outs),
            PlonkApp::ConservationOfValue => prove_conservation(n, ins, outs),
            PlonkApp::Lottery => prove_lottery(n, ins, outs),
            PlonkApp::Trade => prove_trade(n, ins, outs),
            PlonkApp::Swap => prove_swap(n, ins, outs),
        }
    }

    /// The values of the constraint polynomials at `r`, from the openings in `proof`.
    pub fn verifier_fn(&self, n: usize, r: &Scalar, proof: &PlonkProof) -> (e: Vec<Scalar>)
        requires
            is_pow2(n as nat),
            NUM_FIELDS <= n,
            n <= max_domain_size(),
            r.wf(),
            proof.wf(),
            proof.input_coins_opening.len() == self.num_inputs(),
            proof.output_coins_opening.len() == self.num_outputs(),
            proof.additional_opening.len() == self.num_additional(),
        ensures
            all_wf(e@),
            values_of(e@) == self.evaluations_spec(
                n as nat,
                r.value(),
                values_of(proof.input_coins_opening@),
                values_of(proof.output_coins_opening@),
                values_of(proof.additional_opening@),
            ),
    {
        match self {
            PlonkApp::Payment => evaluate_payment(n, r, proof),
            PlonkApp::ConservationOfValue => evaluate_conservation(n, r, proof),
            PlonkApp::Lottery => evaluate_lottery(n, r, proof),
            PlonkApp::Trade => evaluate_trade(n, r, proof),
            PlonkApp::Swap => evaluate_swap(n, r, proof),
        }
    }
}

/// Prover and verifier agree: on the values at `r` of the record polynomials and of the
/// additional polynomials, the verifier's values are the values at `r` of the constraint
/// polynomials that the prover batches.
#[verifier::rlimit(100)]
pub proof fn lemma_evaluations_match(
    app: PlonkApp,
    n: nat,
    ins: Seq<Seq<int>>,
    outs: Seq<Seq<int>>,
    r: int,
)
    requires
        ins.len() == app.num_inputs(),
        outs.len() == app.num_outputs(),
    ensures
        app.evaluations_spec(
            n,
            r,
            eval_all(ins, r),
            eval_all(outs, r),
            eval_all(app.additional_spec(n, ins), r),
        ) == eval_all(app.constraints_spec(n, ins, outs), r),
{
    lemma_eval_ops(r);
    let lhs = app.evaluations_spec(
        n,
        r,
        eval_all(ins, r),
        eval_all(outs, r),
        eval_all(app.additional_spec(n, ins), r),
    );
    let rhs = eval_all(app.constraints_spec(n, ins, outs), r);
    match app {
        PlonkApp::Payment => assert(lhs =~= rhs),
        PlonkApp::ConservationOfValue => assert(lhs =~= rhs),
        PlonkApp::Lottery => assert(lhs =~= rhs),
        PlonkApp::Trade => assert(lhs =~= rhs),
        PlonkApp::Swap => assert(lhs =~= rhs),
    }
}

fn prove_payment(n: usize, ins: &Vec<Poly>, outs: &Vec<Poly>) -> (r: (Vec<Poly>, Vec<Poly>))
    requires
        is_pow2(n as nat),
        NUM_FIELDS <= n,
        3 * n <= max_domain_size(),
        3 * n <= usize::MAX,
        ins.len() == PlonkApp::Payment.num_inputs(),
        outs.len() == PlonkApp::Payment.num_outputs(),
        polys_wf(ins@),
        polys_wf(outs@),
        polys_within(ins@, n as nat),
        polys_within(outs@, n as nat),
    ensures
        polys_wf(r.0@),
        polys_within(r.0@, 3 * n as nat),
        polys_view(r.0@) == PlonkApp::Payment.constraints_spec(n as nat, polys_view(ins@), polys_view(outs@)),
        r.1.len() == PlonkApp::Payment.num_additional(),
        polys_wf(r.1@),
        polys_within(r.1@, n as nat),
        polys_view(r.1@) == PlonkApp::Payment.additional_spec(n as nat, polys_view(ins@)),
{
    let amount = lagrange_poly(n, AMOUNT);
    let asset = lagrange_poly(n, ASSET_ID);
    let tag = lagrange_poly(n, APP_ID);
    let mut cs: Vec<Poly> = Vec::new();
    let mut adds: Vec<Poly> = Vec::new();
    assert(ins@[0].coeffs.len() <= n && outs@[0].coeffs.len() <= n);
        let d = poly_sub(&ins[0], &outs[0]);
        let c = poly_eval_mult_const(&tag, &Scalar::from_u64(AppId::PAYMENT.as_u64()));
        let e = poly_sub(&ins[0], &c);
        cs.push(product_within(&amount, &d, n, 3 * n));
        cs.push(product_within(&asset, &d, n, 3 * n));
        cs.push(product_within(&tag, &e, n, 3 * n));

    let ghost cv = PlonkApp::Payment.constraints_spec(n as nat, polys_view(ins@), polys_view(outs@));
    assert(polys_view(cs@) =~= cv);
    assert(polys_view(adds@) =~= PlonkApp::Payment.additional_spec(n as nat, polys_view(ins@)));
    (cs, adds)
}

fn evaluate_payment(n: usize, r: &Scalar, proof: &PlonkProof) -> (e: Vec<Scalar>)
    requires
        is_pow2(n as nat),
        NUM_FIELDS <= n,
        n <= max_domain_size(),
        r.wf(),
        proof.wf(),
        proof.input_coins_opening.len() == PlonkApp::Payment.num_inputs(),
        proof.output_coins_opening.len() == PlonkApp::Payment.num_outputs(),
        proof.additional_opening.len() == PlonkApp::Payment.num_additional(),
    ensures
        all_wf(e@),
        values_of(e@) == PlonkApp::Payment.evaluations_spec(
            n as nat,
            r.value(),
            values_of(proof.input_coins_opening@),
            values_of(proof.output_coins_opening@),
            values_of(proof.additional_opening@),
        ),
{
    let amount = lagrange_poly(n, AMOUNT).evaluate(r);
    let asset = lagrange_poly(n, ASSET_ID).evaluate(r);
    let tag = lagrange_poly(n, APP_ID).evaluate(r);
    let ins = &proof.input_coins_opening;
    let outs = &proof.output_coins_opening;
    let mut e: Vec<Scalar> = Vec::new();
        let d = ins[0].sub(&outs[0]);
        let c = tag.mul(&Scalar::from_u64(AppId::PAYMENT.as_u64()));
        e.push(amount.mul(&d));
        e.push(asset.mul(&d));
        e.push(tag.mul(&ins[0].sub(&c)));

    let ghost ev = PlonkApp::Payment.evaluations_spec(
        n as nat,
        r.value(),
        values_of(proof.input_coins_opening@),
        values_of(proof.output_coins_opening@),
        values_of(proof.additional_opening@),
    );
    assert(values_of(e@) =~= ev);
    e
}

fn prove_conservation(n: usize, ins: &Vec<Poly>, outs: &Vec<Poly>) -> (r: (Vec<Poly>, Vec<Poly>))
    requires
        is_pow2(n as nat),
        NUM_FIELDS <= n,
        3 * n <= max_domain_size(),
        3 * n <= usize::MAX,
        ins.len() == PlonkApp::ConservationOfValue.num_inputs(),
        outs.len() == PlonkApp::ConservationOfValue.num_outputs(),
        polys_wf(ins@),
        polys_wf(outs@),
        polys_within(ins@, n as nat),
        polys_within(outs@, n as nat),
    ensures
        polys_wf(r.0@),
        polys_within(r.0@, 3 * n as nat),
        polys_view(r.0@) == PlonkApp::ConservationOfValue.constraints_spec(n as nat, polys_view(ins@), polys_view(outs@)),
        r.1.len() == PlonkApp::ConservationOfValue.num_additional(),
        polys_wf(r.1@),
        polys_within(r.1@, n as nat),
        polys_view(r.1@) == PlonkApp::ConservationOfValue.additional_spec(n as nat, polys_view(ins@)),
{
    let amount = lagrange_poly(n, AMOUNT);
    let asset = lagrange_poly(n, ASSET_ID);
    let tag = lagrange_poly(n, APP_ID);
    let mut cs: Vec<Poly> = Vec::new();
    let mut adds: Vec<Poly> = Vec::new();
    assert(ins@[0].coeffs.len() <= n && outs@[0].coeffs.len() <= n);
        assert(ins@[1].coeffs.len() <= n);
        let s = poly_add(&ins[0], &ins[1]);
        let total = poly_sub(&s, &outs[0]);
        let d0 = poly_sub(&ins[0], &outs[0]);
        let d1 = poly_sub(&ins[1], &outs[0]);
        cs.push(product_within(&amount, &total, n, 3 * n));
        cs.push(product_within(&asset, &d0, n, 3 * n));
        cs.push(product_within(&asset, &d1, n, 3 * n));
        cs.push(product_within(&tag, &d0, n, 3 * n));
        cs.push(product_within(&tag, &d1, n, 3 * n));

    let ghost cv = PlonkApp::ConservationOfValue.constraints_spec(n as nat, polys_view(ins@), polys_view(outs@));
    assert(polys_view(cs@) =~= cv);
    assert(polys_view(adds@) =~= PlonkApp::ConservationOfValue.additional_spec(n as nat, polys_view(ins@)));
    (cs, adds)
}

fn evaluate_conservation(n: usize, r: &Scalar, proof: &PlonkProof) -> (e: Vec<Scalar>)
    requires
        is_pow2(n as nat),
        NUM_FIELDS <= n,
        n <= max_domain_size(),
        r.wf(),
        proof.wf(),
        proof.input_coins_opening.len() == PlonkApp::ConservationOfValue.num_inputs(),
        proof.output_coins_opening.len() == PlonkApp::ConservationOfValue.num_outputs(),
        proof.additional_opening.len() == PlonkApp::ConservationOfValue.num_additional(),
    ensures
        all_wf(e@),
        values_of(e@) == PlonkApp::ConservationOfValue.evaluations_spec(
            n as nat,
            r.value(),
            values_of(proof.input_coins_opening@),
            values_of(proof.output_coins_opening@),
            values_of(proof.additional_opening@),
        ),
{
    let amount = lagrange_poly(n, AMOUNT).evaluate(r);
    let asset = lagrange_poly(n, ASSET_ID).evaluate(r);
    let tag = lagrange_poly(n, APP_ID).evaluate(r);
    let ins = &proof.input_coins_opening;
    let outs = &proof.output_coins_opening;
    let mut e: Vec<Scalar> = Vec::new();
        let total = ins[0].add(&ins[1]).sub(&outs[0]);
        let d0 = ins[0].sub(&outs[0]);
        let d1 = ins[1].sub(&outs[0]);
        e.push(amount.mul(&total));
        e.push(asset.mul(&d0));
        e.push(asset.mul(&d1));
        e.push(tag.mul(&d0));
        e.push(tag.mul(&d1));

    let ghost ev = PlonkApp::ConservationOfValue.evaluations_spec(
        n as nat,
        r.value(),
        values_of(proof.input_coins_opening@),
        values_of(proof.output_coins_opening@),
        values_of(proof.additional_opening@),
    );
    assert(values_of(e@) =~= ev);
    e
}

fn prove_lottery(n: usize, ins: &Vec<Poly>, outs: &Vec<Poly>) -> (r: (Vec<Poly>, Vec<Poly>))
    requires
        is_pow2(n as nat),
        NUM_FIELDS <= n,
        3 * n <= max_domain_size(),
        3 * n <= usize::MAX,
        ins.len() == PlonkApp::Lottery.num_inputs(),
        outs.len() == PlonkApp::Lottery.num_outputs(),
        polys_wf(ins@),
        polys_wf(outs@),
        polys_within(ins@, n as nat),
        polys_within(outs@, n as nat),
    ensures
        polys_wf(r.0@),
        polys_within(r.0@, 3 * n as nat),
        polys_view(r.0@) == PlonkApp::Lottery.constraints_spec(n as nat, polys_view(ins@), polys_view(outs@)),
        r.1.len() == PlonkApp::Lottery.num_additional(),
        polys_wf(r.1@),
        polys_within(r.1@, n as nat),
        polys_view(r.1@) == PlonkApp::Lottery.additional_spec(n as nat, polys_view(ins@)),
{
    let amount = lagrange_poly(n, AMOUNT);
    let asset = lagrange_poly(n, ASSET_ID);
    let tag = lagrange_poly(n, APP_ID);
    let mut cs: Vec<Poly> = Vec::new();
    let mut adds: Vec<Poly> = Vec::new();
    assert(ins@[0].coeffs.len() <= n && outs@[0].coeffs.len() <= n);
        assert(ins@[1].coeffs.len() <= n);
        let lottery = poly_eval_mult_const(&tag, &Scalar::from_u64(AppId::LOTTERY.as_u64()));
        let s = poly_add(&ins[0], &ins[1]);
        let total = poly_sub(&s, &outs[0]);
        let d0 = poly_sub(&ins[0], &outs[0]);
        let d1 = poly_sub(&ins[1], &outs[0]);
        let e0 = poly_sub(&ins[0], &lottery);
        let e1 = poly_sub(&ins[1], &lottery);
        cs.push(product_within(&amount, &total, n, 3 * n));
        cs.push(product_within(&asset, &d0, n, 3 * n));
        cs.push(product_within(&asset, &d1, n, 3 * n));
        cs.push(product_within(&tag, &e0, n, 3 * n));
        cs.push(product_within(&tag, &e1, n, 3 * n));

    let ghost cv = PlonkApp::Lottery.constraints_spec(n as nat, polys_view(ins@), polys_view(outs@));
    assert(polys_view(cs@) =~= cv);
    assert(polys_view(adds@) =~= PlonkApp::Lottery.additional_spec(n as nat, polys_view(ins@)));
    (cs, adds)
}

fn evaluate_lottery(n: usize, r: &Scalar, proof: &PlonkProof) -> (e: Vec<Scalar>)
    requires
        is_pow2(n as nat),
        NUM_FIELDS <= n,
        n <= max_domain_size(),
        r.wf(),
        proof.wf(),
        proof.input_coins_opening.len() == PlonkApp::Lottery.num_inputs(),
        proof.output_coins_opening.len() == PlonkApp::Lottery.num_outputs(),
        proof.additional_opening.len() == PlonkApp::Lottery.num_additional(),
    ensures
        all_wf(e@),
        values_of(e@) == PlonkApp::Lottery.evaluations_spec(
            n as nat,
            r.value(),
            values_of(proof.input_coins_opening@),
            values_of(proof.output_coins_opening@),
            values_of(proof.additional_opening@),
        ),
{
    let amount = lagrange_poly(n, AMOUNT).evaluate(r);
    let asset = lagrange_poly(n, ASSET_ID).evaluate(r);
    let tag = lagrange_poly(n, APP_ID).evaluate(r);
    let ins = &proof.input_coins_opening;
    let outs = &proof.output_coins_opening;
    let mut e: Vec<Scalar> = Vec::new();
        let lottery = tag.mul(&Scalar::from_u64(AppId::LOTTERY.as_u64()));
        let total = ins[0].add(&ins[1]).sub(&outs[0]);
        e.push(amount.mul(&total));
        e.push(asset.mul(&ins[0].sub(&outs[0])));
        e.push(asset.mul(&ins[1].sub(&outs[0])));
        e.push(tag.mul(&ins[0].sub(&lottery)));
        e.push(tag.mul(&ins[1].sub(&lottery)));

    let ghost ev = PlonkApp::Lottery.evaluations_spec(
        n as nat,
        r.value(),
        values_of(proof.input_coins_opening@),
        values_of(proof.output_coins_opening@),
        values_of(proof.additional_opening@),
    );
    assert(values_of(e@) =~= ev);
    e
}

#[verifier::rlimit(60)]
fn prove_trade(n: usize, ins: &Vec<Poly>, outs: &Vec<Poly>) -> (r: (Vec<Poly>, Vec<Poly>))
    requires
        is_pow2(n as nat),
        NUM_FIELDS <= n,
        3 * n <= max_domain_size(),
        3 * n <= usize::MAX,
        ins.len() == PlonkApp::Trade.num_inputs(),
        outs.len() == PlonkApp::Trade.num_outputs(),
        polys_wf(ins@),
        polys_wf(outs@),
        polys_within(ins@, n as nat),
        polys_within(outs@, n as nat),
    ensures
        polys_wf(r.0@),
        polys_within(r.0@, 3 * n as nat),
        polys_view(r.0@) == PlonkApp::Trade.constraints_spec(n as nat, polys_view(ins@), polys_view(outs@)),
        r.1.len() == PlonkApp::Trade.num_additional(),
        polys_wf(r.1@),
        polys_within(r.1@, n as nat),
        polys_view(r.1@) == PlonkApp::Trade.additional_spec(n as nat, polys_view(ins@)),
{
    let amount = lagrange_poly(n, AMOUNT);
    let asset = lagrange_poly(n, ASSET_ID);
    let tag = lagrange_poly(n, APP_ID);
    let mut cs: Vec<Poly> = Vec::new();
    let mut adds: Vec<Poly> = Vec::new();
    assert(ins@[0].coeffs.len() <= n && outs@[0].coeffs.len() <= n);
        assert(ins@[1].coeffs.len() <= n);
        assert(outs@[1].coeffs.len() <= n && outs@[2].coeffs.len() <= n && outs@[3].coeffs.len()
            <= n);
        let shift = (APP_INPUT_0 - AMOUNT) as u64;
        let s0 = poly_domain_shift(&ins[0], n, shift);
        let s1 = poly_domain_shift(&ins[1], n, shift);
        let trade = poly_eval_mult_const(&tag, &Scalar::from_u64(AppId::TRADE.as_u64()));
        let paid = product_within(&poly_sub(&ins[0], &outs[2]), &s0, n, 2 * n);
        let owed = product_within(&outs[1], &s1, n, 2 * n);
        let leg0 = poly_sub(&outs[0], &paid);
        let leg1 = poly_sub(&poly_sub(&ins[1], &outs[3]), &owed);
        cs.push(product_within(&amount, &leg0, 2 * n, 3 * n));
        cs.push(product_within(&amount, &leg1, 2 * n, 3 * n));
        cs.push(product_within(&asset, &poly_sub(&ins[0], &outs[1]), n, 3 * n));
        cs.push(product_within(&asset, &poly_sub(&ins[0], &outs[2]), n, 3 * n));
        cs.push(product_within(&asset, &poly_sub(&ins[1], &outs[0]), n, 3 * n));
        cs.push(product_within(&asset, &poly_sub(&ins[1], &outs[3]), n, 3 * n));
        cs.push(product_within(&tag, &poly_sub(&ins[0], &trade), n, 3 * n));
        cs.push(product_within(&tag, &poly_sub(&ins[1], &trade), n, 3 * n));
        adds.push(s0);
        adds.push(s1);

    let ghost cv = PlonkApp::Trade.constraints_spec(n as nat, polys_view(ins@), polys_view(outs@));
    assert(polys_view(cs@) =~= cv);
    assert(polys_view(adds@) =~= PlonkApp::Trade.additional_spec(n as nat, polys_view(ins@)));
    (cs, adds)
}

fn evaluate_trade(n: usize, r: &Scalar, proof: &PlonkProof) -> (e: Vec<Scalar>)
    requires
        is_pow2(n as nat),
        NUM_FIELDS <= n,
        n <= max_domain_size(),
        r.wf(),
        proof.wf(),
        proof.input_coins_opening.len() == PlonkApp::Trade.num_inputs(),
        proof.output_coins_opening.len() == PlonkApp::Trade.num_outputs(),
        proof.additional_opening.len() == PlonkApp::Trade.num_additional(),
    ensures
        all_wf(e@),
        values_of(e@) == PlonkApp::Trade.evaluations_spec(
            n as nat,
            r.value(),
            values_of(proof.input_coins_opening@),
            values_of(proof.output_coins_opening@),
            values_of(proof.additional_opening@),
        ),
{
    let amount = lagrange_poly(n, AMOUNT).evaluate(r);
    let asset = lagrange_poly(n, ASSET_ID).evaluate(r);
    let tag = lagrange_poly(n, APP_ID).evaluate(r);
    let ins = &proof.input_coins_opening;
    let outs = &proof.output_coins_opening;
    let mut e: Vec<Scalar> = Vec::new();
        let adds = &proof.additional_opening;
        let trade = tag.mul(&Scalar::from_u64(AppId::TRADE.as_u64()));
        let leg0 = outs[0].sub(&ins[0].sub(&outs[2]).mul(&adds[0]));
        let leg1 = ins[1].sub(&outs[3]).sub(&outs[1].mul(&adds[1]));
        e.push(amount.mul(&leg0));
        e.push(amount.mul(&leg1));
        e.push(asset.mul(&ins[0].sub(&outs[1])));
        e.push(asset.mul(&ins[0].sub(&outs[2])));
        e.push(asset.mul(&ins[1].sub(&outs[0])));
        e.push(asset.mul(&ins[1].sub(&outs[3])));
        e.push(tag.mul(&ins[0].sub(&trade)));
        e.push(tag.mul(&ins[1].sub(&trade)));

    let ghost ev = PlonkApp::Trade.evaluations_spec(
        n as nat,
        r.value(),
        values_of(proof.input_coins_opening@),
        values_of(proof.output_coins_opening@),
        values_of(proof.additional_opening@),
    );
    assert(values_of(e@) =~= ev);
    e
}

#[verifier::rlimit(60)]
fn prove_swap(n: usize, ins: &Vec<Poly>, outs: &Vec<Poly>) -> (r: (Vec<Poly>, Vec<Poly>))
    requires
        is_pow2(n as nat),
        NUM_FIELDS <= n,
        3 * n <= max_domain_size(),
        3 * n <= usize::MAX,
        ins.len() == PlonkApp::Swap.num_inputs(),
        outs.len() == PlonkApp::Swap.num_outputs(),
        polys_wf(ins@),
        polys_wf(outs@),
        polys_within(ins@, n as nat),
        polys_within(outs@, n as nat),
    ensures
        polys_wf(r.0@),
        polys_within(r.0@, 3 * n as nat),
        polys_view(r.0@) == PlonkApp::Swap.constraints_spec(n as nat, polys_view(ins@), polys_view(outs@)),
        r.1.len() == PlonkApp::Swap.num_additional(),
        polys_wf(r.1@),
        polys_within(r.1@, n as nat),
        polys_view(r.1@) == PlonkApp::Swap.additional_spec(n as nat, polys_view(ins@)),
{
    let amount = lagrange_poly(n, AMOUNT);
    let asset = lagrange_poly(n, ASSET_ID);
    let tag = lagrange_poly(n, APP_ID);
    let mut cs: Vec<Poly> = Vec::new();
    let mut adds: Vec<Poly> = Vec::new();
    assert(ins@[0].coeffs.len() <= n && outs@[0].coeffs.len() <= n);
    assert(ins@[1].coeffs.len() <= n && outs@[1].coeffs.len() <= n);
    let shift = (APP_INPUT_0 - AMOUNT) as u64;
    let s0 = poly_domain_shift(&ins[0], n, shift);
    let s1 = poly_domain_shift(&ins[1], n, shift);
    let swap = poly_eval_mult_const(&tag, &Scalar::from_u64(AppId::SWAP.as_u64()));
    let paid = product_within(&ins[0], &s0, n, 2 * n);
    let owed = product_within(&outs[1], &s1, n, 2 * n);
    let leg0 = poly_sub(&outs[0], &paid);
    let leg1 = poly_sub(&ins[1], &owed);
    cs.push(product_within(&amount, &leg0, 2 * n, 3 * n));
    cs.push(product_within(&amount, &leg1, 2 * n, 3 * n));
    cs.push(product_within(&asset, &poly_sub(&ins[0], &outs[1]), n, 3 * n));
    cs.push(product_within(&asset, &poly_sub(&ins[1], &outs[0]), n, 3 * n));
    cs.push(product_within(&tag, &poly_sub(&ins[0], &swap), n, 3 * n));
    cs.push(product_within(&tag, &poly_sub(&ins[1], &swap), n, 3 * n));
    adds.push(s0);
    adds.push(s1);
    let ghost cv = PlonkApp::Swap.constraints_spec(n as nat, polys_view(ins@), polys_view(outs@));
    assert(polys_view(cs@) =~= cv);
    assert(polys_view(adds@) =~= PlonkApp::Swap.additional_spec(n as nat, polys_view(ins@)));
    (cs, adds)
}

fn evaluate_swap(n: usize, r: &Scalar, proof: &PlonkProof) -> (e: Vec<Scalar>)
    requires
        is_pow2(n as nat),
        NUM_FIELDS <= n,
        n <= max_domain_size(),
        r.wf(),
        proof.wf(),
        proof.input_coins_opening.len() == PlonkApp::Swap.num_inputs(),
        proof.output_coins_opening.len() == PlonkApp::Swap.num_outputs(),
        proof.additional_opening.len() == PlonkApp::Swap.num_additional(),
    ensures
        all_wf(e@),
        values_of(e@) == PlonkApp::Swap.evaluations_spec(
            n as nat,
            r.value(),
            values_of(proof.input_coins_opening@),
            values_of(proof.output_coins_opening@),
            values_of(proof.additional_opening@),
        ),
{
    let amount = lagrange_poly(n, AMOUNT).evaluate(r);
    let asset = lagrange_poly(n, ASSET_ID).evaluate(r);
    let tag = lagrange_poly(n, APP_ID).evaluate(r);
    let ins = &proof.input_coins_opening;
    let outs = &proof.output_coins_opening;
    let mut e: Vec<Scalar> = Vec::new();
    let adds = &proof.additional_opening;
    let swap = tag.mul(&Scalar::from_u64(AppId::SWAP.as_u64()));
    e.push(amount.mul(&outs[0].sub(&ins[0].mul(&adds[0]))));
    e.push(amount.mul(&ins[1].sub(&outs[1].mul(&adds[1]))));
    e.push(asset.mul(&ins[0].sub(&outs[1])));
    e.push(asset.mul(&ins[1].sub(&outs[0])));
    e.push(tag.mul(&ins[0].sub(&swap)));
    e.push(tag.mul(&ins[1].sub(&swap)));
    let ghost ev = PlonkApp::Swap.evaluations_spec(
        n as nat,
        r.value(),
        values_of(proof.input_coins_opening@),
        values_of(proof.output_coins_opening@),
        values_of(proof.additional_opening@),
    );
    assert(values_of(e@) =~= ev);
    e
}

/// `a · b`, for `b` of at most `m` coefficients and `a` of at most `bound - m`.
fn product_within(a: &Poly, b: &Poly, m: usize, bound: usize) -> (r: Poly)
    requires
        a.wf(),
        b.wf(),
        b.coeffs.len() <= m,
        a.coeffs.len() + m <= bound,
        bound <= max_domain_size(),
    ensures
        r.wf(),
        r.coeffs.len() <= bound,
        r@ == product_spec(a@, b@),
{
    let r = poly_product(a, b);
    proof {
        lemma_product_len(a@, b@);
    }
    assert(r@.len() == r.coeffs.len());
    r
}

} // verus!
