use mpc_zexe::apps::{AppId, PlonkApp};
use mpc_zexe::distributed_plonk::plonk_prove as collaborative_prove;
use mpc_zexe::kzg::JZKZGCommitmentParams;
use mpc_zexe::plonk::{plonk_prove, plonk_verify, Coin};
use mpc_zexe::record_commitment::JZRecord;
use rand_chacha::rand_core::{RngCore, SeedableRng};

fn lottery_coins() -> (JZKZGCommitmentParams, Vec<Coin>) {
    let mut rng = rand_chacha::ChaCha8Rng::from_seed([0u8; 32]);
    let crs = JZKZGCommitmentParams::trusted_setup(8);
    let mut entropy = [0u8; 24];
    rng.fill_bytes(&mut entropy);
    let mut blind = [0u8; 24];
    rng.fill_bytes(&mut blind);
    // some values s.t. [2] = [0] + [1]
    let coin_amounts = [15u8, 22u8, 37u8];
    let mut plonk_coins = Vec::new();
    for i in 0..3 {
        let fields: Vec<Vec<u8>> = vec![
            entropy.to_vec(),
            vec![0u8],
            vec![1u8],
            vec![coin_amounts[i]],
            vec![AppId::LOTTERY.as_u64() as u8],
            vec![0u8],
            vec![0u8],
            vec![0u8],
        ];
        plonk_coins.push(JZRecord::new(&crs, &fields, &blind.to_vec()).fields());
    }
    (crs, plonk_coins)
}

#[test]
fn collaborative_proof_lottery_test_plonk_lottery() {
    let (crs, coins) = lottery_coins();
    let inputs = vec![coins[0].clone(), coins[1].clone()];
    let outputs = vec![coins[2].clone()];
    let proof = plonk_prove(&crs, 8, PlonkApp::Lottery, &inputs, &outputs).unwrap();
    assert!(plonk_verify(&crs, 8, PlonkApp::Lottery, &proof));
}

#[test]
fn proofs_are_bound_to_their_application() {
    let (crs, coins) = lottery_coins();
    let inputs = vec![coins[0].clone(), coins[1].clone()];
    let outputs = vec![coins[2].clone()];
    // all three records carry the same tag, so the conservation rules hold as well
    let proof = plonk_prove(&crs, 8, PlonkApp::ConservationOfValue, &inputs, &outputs).unwrap();
    assert!(plonk_verify(&crs, 8, PlonkApp::ConservationOfValue, &proof));
    // a proof for one application does not verify as another
    assert!(!plonk_verify(&crs, 8, PlonkApp::Payment, &proof));
    let lottery_proof = plonk_prove(&crs, 8, PlonkApp::Lottery, &inputs, &outputs).unwrap();
    let mut wrong_tag = inputs.clone();
    wrong_tag[1][4] = mpc_zexe::field::Scalar::from_u64(AppId::SWAP.as_u64());
    assert!(plonk_prove(&crs, 8, PlonkApp::Lottery, &wrong_tag, &outputs).is_none());
    assert!(plonk_verify(&crs, 8, PlonkApp::Lottery, &lottery_proof));
}

#[test]
fn lottery_collaborative_proof_fails_on_constant_tag_term() {
    // every party subtracts the public tag term from its share, so the summed constraint
    // counts the tag once per party and the identity only holds for a single party
    let (crs, coins) = lottery_coins();
    let inputs = vec![coins[0].clone(), coins[1].clone()];
    let outputs = vec![coins[2].clone()];
    let single = collaborative_prove(&crs, 8, PlonkApp::Lottery, &inputs, &outputs, 1, [3u8; 32]);
    assert!(plonk_verify(&crs, 8, PlonkApp::Lottery, &single));
    let joint = collaborative_prove(&crs, 8, PlonkApp::Lottery, &inputs, &outputs, 2, [3u8; 32]);
    assert!(!plonk_verify(&crs, 8, PlonkApp::Lottery, &joint));
}

fn perform_trade(
    coin_rand: [u8; 6],
    coin_owners: [u8; 6],
    coin_asset_ids: [u8; 6],
    coin_amounts: [u8; 6],
    coin_rates: [u8; 6],
) -> bool {
    let mut rng = rand_chacha::ChaCha8Rng::from_seed([0u8; 32]);
    let crs = JZKZGCommitmentParams::trusted_setup(8);
    let mut entropy = [0u8; 24];
    rng.fill_bytes(&mut entropy);
    let mut blind = [0u8; 24];
    rng.fill_bytes(&mut blind);
    let mut plonk_coins = Vec::new();
    for i in 0..6 {
        let fields: Vec<Vec<u8>> = vec![
            vec![coin_rand[i]],
            vec![coin_owners[i]],
            vec![coin_asset_ids[i]],
            vec![coin_amounts[i]],
            vec![AppId::TRADE.as_u64() as u8],
            vec![coin_rates[i]],
            vec![0u8],
            vec![0u8],
        ];
        plonk_coins.push(JZRecord::new(&crs, &fields, &blind.to_vec()).fields());
    }
    let inputs = vec![plonk_coins[0].clone(), plonk_coins[1].clone()];
    let outputs = plonk_coins[2..6].to_vec();
    match plonk_prove(&crs, 8, PlonkApp::Trade, &inputs, &outputs) {
        Some(proof) => {
            assert_eq!(proof.additional_com.len(), 2);
            plonk_verify(&crs, 8, PlonkApp::Trade, &proof)
        }
        None => false,
    }
}

#[test]
fn test_plonk_trade_bob_leftover_change() {
    // coin sequence: Alice's input, Bob's input, Alice's output, Bob's output,
    // Alice's change, Bob's change
    let coin_rand = [1u8, 2u8, 3u8, 4u8, 5u8, 6u8];
    // Alice is 20, Bob is 30
    let coin_owners = [20u8, 30u8, 30u8, 20u8, 20u8, 30u8];
    // asset id 2 is BTC, asset id 3 is ETH
    let coin_asset_ids = [2u8, 3u8, 3u8, 2u8, 2u8, 3u8];
    // Alice has 2 BTC, Bob has 30 ETH
    let coin_amounts = [2u8, 30u8, 20u8, 2u8, 0u8, 10u8];
    let coin_rates = [10u8, 10u8, 0u8, 0u8, 0u8, 0u8];
    assert!(perform_trade(coin_rand, coin_owners, coin_asset_ids, coin_amounts, coin_rates));
}

#[test]
fn test_plonk_trade_alice_leftover_change() {
    let coin_rand = [1u8, 2u8, 3u8, 4u8, 5u8, 6u8];
    let coin_owners = [20u8, 30u8, 30u8, 20u8, 20u8, 30u8];
    let coin_asset_ids = [2u8, 3u8, 3u8, 2u8, 2u8, 3u8];
    // Alice has 3 BTC, Bob has 20 ETH
    let coin_amounts = [3u8, 20u8, 20u8, 2u8, 1u8, 0u8];
    let coin_rates = [10u8, 10u8, 0u8, 0u8, 0u8, 0u8];
    assert!(perform_trade(coin_rand, coin_owners, coin_asset_ids, coin_amounts, coin_rates));
}

#[test]
fn trade_at_wrong_rate_is_rejected() {
    let coin_rand = [1u8, 2u8, 3u8, 4u8, 5u8, 6u8];
    let coin_owners = [20u8, 30u8, 30u8, 20u8, 20u8, 30u8];
    let coin_asset_ids = [2u8, 3u8, 3u8, 2u8, 2u8, 3u8];
    let coin_amounts = [2u8, 30u8, 20u8, 2u8, 0u8, 10u8];
    let coin_rates = [9u8, 10u8, 0u8, 0u8, 0u8, 0u8];
    assert!(!perform_trade(coin_rand, coin_owners, coin_asset_ids, coin_amounts, coin_rates));
}

fn alice_key() -> ([u8; 32], [u8; 31]) {
    let privkey = [20u8; 32];
    let pubkey = [
        218, 61, 173, 102, 17, 186, 176, 174, 54, 64, 4, 87, 114, 16, 209, 133, 153, 47, 114, 88,
        54, 48, 138, 7, 136, 114, 216, 152, 205, 164, 171,
    ];
    (privkey, pubkey)
}

fn bob_key() -> ([u8; 32], [u8; 31]) {
    let privkey = [25u8; 32];
    let pubkey = [
        217, 214, 252, 243, 200, 147, 117, 28, 142, 219, 58, 120, 65, 180, 251, 74, 234, 28, 72,
        194, 161, 148, 52, 219, 10, 34, 21, 17, 33, 38, 77,
    ];
    (privkey, pubkey)
}

#[test]
fn collaborative_proof_payment_test_plonk_lottery() {
    let mut rng = rand_chacha::ChaCha8Rng::from_seed([0u8; 32]);
    let crs = JZKZGCommitmentParams::trusted_setup(8);
    let mut entropy = [0u8; 24];
    rng.fill_bytes(&mut entropy);
    let mut blind = [0u8; 24];
    rng.fill_bytes(&mut blind);
    let mut coins = Vec::new();
    for i in 0..2 {
        let pubk = if i == 0 { alice_key().1 } else { bob_key().1 };
        let fields: Vec<Vec<u8>> = vec![
            entropy.to_vec(),
            pubk.to_vec(),
            vec![1u8],
            vec![10u8],
            vec![AppId::PAYMENT.as_u64() as u8],
            vec![0u8],
            vec![0u8],
            vec![0u8; 32],
        ];
        let coin = JZRecord::new(&crs, &fields, &blind.to_vec());
        coins.push(coin.fields());
    }
    let proof = plonk_prove(&crs, 8, PlonkApp::Payment, &vec![coins[0].clone()], &vec![coins[1].clone()])
        .unwrap();
    assert!(plonk_verify(&crs, 8, PlonkApp::Payment, &proof));
    assert_eq!(alice_key().0, [20u8; 32]);
    assert_eq!(bob_key().0, [25u8; 32]);
}

fn swap_coins(coin_amounts: [u8; 4]) -> (JZKZGCommitmentParams, Vec<Coin>) {
    let mut rng = rand_chacha::ChaCha8Rng::from_seed([0u8; 32]);
    let crs = JZKZGCommitmentParams::trusted_setup(8);
    let mut entropy = [0u8; 24];
    rng.fill_bytes(&mut entropy);
    let mut blind = [0u8; 24];
    rng.fill_bytes(&mut blind);
    let coin_rand = [1u8, 2u8, 3u8, 4u8];
    let coin_owners = [20u8, 30u8, 30u8, 20u8];
    let coin_asset_ids = [2u8, 3u8, 3u8, 2u8];
    let coin_rates = [10u8, 10u8, 10u8, 10u8];
    let mut coins = Vec::new();
    for i in 0..4 {
        let fields: Vec<Vec<u8>> = vec![
            vec![coin_rand[i]],
            vec![coin_owners[i]],
            vec![coin_asset_ids[i]],
            vec![coin_amounts[i]],
            vec![AppId::SWAP.as_u64() as u8],
            vec![coin_rates[i]],
            vec![0u8],
            vec![0u8],
        ];
        coins.push(JZRecord::new(&crs, &fields, &blind.to_vec()).fields());
    }
    (crs, coins)
}

#[test]
fn test_plonk_swap() {
    let (crs, coins) = swap_coins([2u8, 20u8, 20u8, 2u8]);
    let inputs = vec![coins[0].clone(), coins[1].clone()];
    let outputs = vec![coins[2].clone(), coins[3].clone()];
    let proof = plonk_prove(&crs, 8, PlonkApp::Swap, &inputs, &outputs).unwrap();
    assert!(plonk_verify(&crs, 8, PlonkApp::Swap, &proof));
}

#[test]
fn swap_with_wrong_amount_is_rejected() {
    let (crs, coins) = swap_coins([2u8, 20u8, 21u8, 2u8]);
    let inputs = vec![coins[0].clone(), coins[1].clone()];
    let outputs = vec![coins[2].clone(), coins[3].clone()];
    assert!(plonk_prove(&crs, 8, PlonkApp::Swap, &inputs, &outputs).is_none());
}

#[test]
fn collaborative_swap_carries_additional_polynomials() {
    let (crs, coins) = swap_coins([2u8, 20u8, 20u8, 2u8]);
    let inputs = vec![coins[0].clone(), coins[1].clone()];
    let outputs = vec![coins[2].clone(), coins[3].clone()];
    let single = plonk_prove(&crs, 8, PlonkApp::Swap, &inputs, &outputs).unwrap();
    let one = collaborative_prove(&crs, 8, PlonkApp::Swap, &inputs, &outputs, 1, [4u8; 32]);
    assert_eq!(one.additional_com.len(), 2);
    assert_eq!(one.additional_com, single.additional_com);
    assert!(plonk_verify(&crs, 8, PlonkApp::Swap, &one));
    // shared additional polynomials still sum to the single-prover ones
    let two = collaborative_prove(&crs, 8, PlonkApp::Swap, &inputs, &outputs, 2, [4u8; 32]);
    assert_eq!(two.additional_com, single.additional_com);
    assert_eq!(two.additional_opening.len(), 2);
}
