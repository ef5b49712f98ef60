use mpc_zexe::apps::{AppId, PlonkApp, AMOUNT, APP_ID, NUM_FIELDS};
use mpc_zexe::distributed_plonk::{plonk_prove as collaborative_prove, share_record};
use mpc_zexe::field::Scalar;
use mpc_zexe::kzg::JZKZGCommitmentParams;
use mpc_zexe::plonk::{plonk_prove, plonk_verify, Coin};

const N: usize = 8;

fn record(entropy: u64, asset_id: u64, amount: u64, app_id: u64) -> Coin {
    vec![
        Scalar::from_u64(entropy),
        Scalar::from_u64(7),
        Scalar::from_u64(asset_id),
        Scalar::from_u64(amount),
        Scalar::from_u64(app_id),
        Scalar::from_u64(0),
        Scalar::from_u64(0),
        Scalar::from_u64(11),
    ]
}

#[test]
fn collaborative_proof_verifies_for_two_parties() {
    let crs = JZKZGCommitmentParams::trusted_setup(N);
    let inputs = vec![record(3, 1, 15, 0), record(4, 1, 22, 0)];
    let outputs = vec![record(5, 1, 37, 0)];
    let proof = collaborative_prove(&crs, N, PlonkApp::ConservationOfValue, &inputs, &outputs, 2, [9u8; 32]);
    assert!(plonk_verify(&crs, N, PlonkApp::ConservationOfValue, &proof));
}

#[test]
fn collaborative_proof_verifies_for_three_parties() {
    let crs = JZKZGCommitmentParams::trusted_setup(N);
    let inputs = vec![record(3, 1, 15, 0), record(4, 1, 22, 0)];
    let outputs = vec![record(5, 1, 37, 0)];
    let proof = collaborative_prove(&crs, N, PlonkApp::ConservationOfValue, &inputs, &outputs, 3, [0u8; 32]);
    assert!(plonk_verify(&crs, N, PlonkApp::ConservationOfValue, &proof));
}

#[test]
fn collaborative_proof_fails_when_single_prover_rejects() {
    let crs = JZKZGCommitmentParams::trusted_setup(N);
    let inputs = vec![record(3, 1, 15, 0), record(4, 2, 22, 0)];
    let outputs = vec![record(5, 1, 37, 0)];
    assert!(plonk_prove(&crs, N, PlonkApp::ConservationOfValue, &inputs, &outputs).is_none());
    let proof = collaborative_prove(&crs, N, PlonkApp::ConservationOfValue, &inputs, &outputs, 3, [1u8; 32]);
    assert!(!plonk_verify(&crs, N, PlonkApp::ConservationOfValue, &proof));
}

#[test]
fn collaborative_commitments_match_single_prover() {
    let crs = JZKZGCommitmentParams::trusted_setup(N);
    let inputs = vec![record(3, 1, 15, 0), record(4, 1, 22, 0)];
    let outputs = vec![record(5, 1, 37, 0)];
    let single = plonk_prove(&crs, N, PlonkApp::ConservationOfValue, &inputs, &outputs).unwrap();
    let joint = collaborative_prove(&crs, N, PlonkApp::ConservationOfValue, &inputs, &outputs, 2, [5u8; 32]);
    assert_eq!(single.input_coins_com, joint.input_coins_com);
    assert_eq!(single.output_coins_com, joint.output_coins_com);
    assert_eq!(single.input_coins_opening, joint.input_coins_opening);
    assert_eq!(single.quotient_opening, joint.quotient_opening);
}

#[test]
fn payment_proof_round_trip() {
    let crs = JZKZGCommitmentParams::trusted_setup(N);
    let tag = AppId::PAYMENT.as_u64();
    let inputs = vec![record(3, 1, 10, tag)];
    let outputs = vec![record(8, 1, 10, 0)];
    let proof = plonk_prove(&crs, N, PlonkApp::Payment, &inputs, &outputs).unwrap();
    assert!(plonk_verify(&crs, N, PlonkApp::Payment, &proof));
    let joint = collaborative_prove(&crs, N, PlonkApp::Payment, &inputs, &outputs, 2, [2u8; 32]);
    assert!(plonk_verify(&crs, N, PlonkApp::Payment, &joint));
}

#[test]
fn payment_with_other_tag_is_rejected() {
    let crs = JZKZGCommitmentParams::trusted_setup(N);
    let inputs = vec![record(3, 1, 10, AppId::SWAP.as_u64())];
    let outputs = vec![record(8, 1, 10, 0)];
    assert!(plonk_prove(&crs, N, PlonkApp::Payment, &inputs, &outputs).is_none());
    assert_eq!(APP_ID, 4);
}

#[test]
fn tampered_proof_is_rejected() {
    let crs = JZKZGCommitmentParams::trusted_setup(N);
    let inputs = vec![record(3, 1, 15, 0), record(4, 1, 22, 0)];
    let outputs = vec![record(5, 1, 37, 0)];
    let mut proof = plonk_prove(&crs, N, PlonkApp::ConservationOfValue, &inputs, &outputs).unwrap();
    proof.output_coins_opening[0] = proof.output_coins_opening[0].add(&Scalar::one());
    assert!(!plonk_verify(&crs, N, PlonkApp::ConservationOfValue, &proof));
    let mut proof = plonk_prove(&crs, N, PlonkApp::ConservationOfValue, &inputs, &outputs).unwrap();
    proof.quotient_opening = proof.quotient_opening.add(&Scalar::one());
    assert!(!plonk_verify(&crs, N, PlonkApp::ConservationOfValue, &proof));
    let mut proof = plonk_prove(&crs, N, PlonkApp::ConservationOfValue, &inputs, &outputs).unwrap();
    proof.input_coins_com.swap(0, 1);
    assert!(!plonk_verify(&crs, N, PlonkApp::ConservationOfValue, &proof));
}

#[test]
fn shares_sum_to_record_for_many_parties() {
    let coin = record(3, 1, 15, 0);
    for parties in 1..6 {
        let shares = share_record(&coin, parties, [parties as u8; 32]);
        assert_eq!(shares.len(), parties);
        for i in 0..NUM_FIELDS {
            let mut sum = Scalar::zero();
            for share in &shares {
                sum = sum.add(&share[i]);
            }
            assert_eq!(sum, coin[i]);
        }
    }
    let two = share_record(&coin, 2, [1u8; 32]);
    assert_eq!(two[0][AMOUNT].add(&two[1][AMOUNT]), Scalar::from_u64(15));
}

#[test]
fn non_canonical_opening_is_rejected() {
    let crs = JZKZGCommitmentParams::trusted_setup(N);
    let inputs = vec![record(3, 1, 15, 0), record(4, 1, 22, 0)];
    let outputs = vec![record(5, 1, 37, 0)];
    let mut proof = plonk_prove(&crs, N, PlonkApp::ConservationOfValue, &inputs, &outputs).unwrap();
    assert!(proof.is_canonical());
    proof.quotient_opening = Scalar { limbs: [u64::MAX; 4] };
    assert!(!proof.is_canonical());
    assert!(!plonk_verify(&crs, N, PlonkApp::ConservationOfValue, &proof));
    assert!(!Scalar { limbs: [725501752471715841, 6461107452199829505, 6968279316240510977, 1345280370688173398] }.is_canonical());
    assert!(Scalar { limbs: [725501752471715840, 6461107452199829505, 6968279316240510977, 1345280370688173398] }.is_canonical());
}
