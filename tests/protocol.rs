use mpc_zexe::apps::{PlonkApp, AMOUNT, ASSET_ID, NUM_FIELDS};
use mpc_zexe::distributed_plonk::share_record;
use mpc_zexe::field::Scalar;
use mpc_zexe::kzg::{kzg_crs, JZKZGCommitmentParams, KZG10};
use mpc_zexe::plonk::{plonk_prove, plonk_verify, Coin};
use mpc_zexe::poly::{coin_poly, domain_element, poly_domain_shift};
use mpc_zexe::record_commitment::{bytes_to_bits, JZRecord};
use rand_chacha::rand_core::{RngCore, SeedableRng};

const N: usize = 8;

fn scalar_from_le_bytes(bytes: &[u8]) -> Scalar {
    let mut limbs = [0u64; 4];
    for (i, b) in bytes.iter().enumerate() {
        limbs[i / 8] |= (*b as u64) << (8 * (i % 8));
    }
    Scalar { limbs }
}

fn record(entropy: &Scalar, asset_id: u64, amount: u64, app_id: u64) -> Coin {
    vec![
        *entropy,
        Scalar::from_u64(0),
        Scalar::from_u64(asset_id),
        Scalar::from_u64(amount),
        Scalar::from_u64(app_id),
        Scalar::from_u64(0),
        Scalar::from_u64(0),
        Scalar::from_u64(0),
    ]
}

fn entropy() -> Scalar {
    let mut rng = rand_chacha::ChaCha8Rng::from_seed([0u8; 32]);
    let mut bytes = [0u8; 24];
    rng.fill_bytes(&mut bytes);
    scalar_from_le_bytes(&bytes)
}

#[test]
fn test_plonk_conservation_of_value() {
    let mut rng = rand_chacha::ChaCha8Rng::from_seed([0u8; 32]);
    let crs = JZKZGCommitmentParams::trusted_setup(N);
    let mut entropy = [0u8; 24];
    rng.fill_bytes(&mut entropy);
    let mut blind = [0u8; 24];
    rng.fill_bytes(&mut blind);
    // some values s.t. [2] = [0] + [1]
    let coin_amounts = [15u8, 22u8, 37u8];
    let mut plonk_coins = Vec::new();
    for i in 0..3 {
        let fields: Vec<Vec<u8>> = vec![
            entropy.to_vec(),
            vec![0u8],
            vec![1u8],
            vec![coin_amounts[i]],
            vec![0u8],
            vec![0u8],
            vec![0u8],
            vec![0u8],
        ];
        let coin = JZRecord::new(&crs, &fields, &blind.to_vec());
        plonk_coins.push(coin.fields());
    }
    let inputs = vec![plonk_coins[0].clone(), plonk_coins[1].clone()];
    let outputs = vec![plonk_coins[2].clone()];
    let proof = plonk_prove(&crs, N, PlonkApp::ConservationOfValue, &inputs, &outputs)
        .expect("the records satisfy the rules");
    assert!(plonk_verify(&crs, N, PlonkApp::ConservationOfValue, &proof));
}

#[test]
fn record_commitment_is_commitment_to_record_polynomial() {
    let crs = JZKZGCommitmentParams::trusted_setup(N);
    let fields: Vec<Vec<u8>> = vec![
        vec![1u8, 2, 3],
        vec![0u8],
        vec![1u8],
        vec![15u8],
        vec![0u8],
        vec![0u8, 1],
        vec![0u8],
        vec![255u8, 255, 255],
    ];
    let coin = JZRecord::new(&crs, &fields, &vec![9u8]);
    let values = coin.fields();
    assert_eq!(values[0], Scalar::from_u64(0x030201));
    assert_eq!(values[5], Scalar::from_u64(256));
    assert_eq!(values[7], Scalar::from_u64(0xffffff));
    let params = kzg_crs(&crs);
    let f = coin_poly(N, &values);
    assert_eq!(coin.commitment(), KZG10::commit_g1(&params, &f).unwrap());
    let blinded = coin.blinded_fields();
    assert_eq!(blinded[0], Scalar::from_u64(0x030201 + 9));
    let g = coin_poly(N, &blinded);
    assert_eq!(coin.blinded_commitment(), KZG10::commit_g1(&params, &g).unwrap());
}

#[test]
fn bits_are_little_endian_per_byte() {
    let bits = bytes_to_bits(&vec![0b0000_0101u8, 0x80]);
    assert_eq!(bits.len(), 16);
    assert_eq!(&bits[..8], &[true, false, true, false, false, false, false, false]);
    assert!(bits[15]);
    assert!(!bits[8]);
}

#[test]
fn conservation_of_value_rejects_wrong_amount() {
    let crs = JZKZGCommitmentParams::trusted_setup(N);
    let e = entropy();
    let inputs = vec![record(&e, 1, 15, 0), record(&e, 1, 22, 0)];
    let outputs = vec![record(&e, 1, 36, 0)];
    assert!(plonk_prove(&crs, N, PlonkApp::ConservationOfValue, &inputs, &outputs).is_none());
}

#[test]
fn distributed_plonk_test_secret_sharing() {
    let coin = record(&Scalar::from_u64(0), 1, 15, 0);
    let num_shares = 3;
    let shares = share_record(&coin, num_shares, [0u8; 32]);
    assert_eq!(shares.len(), num_shares);
    for i in 0..NUM_FIELDS {
        let mut sum = Scalar::zero();
        for j in 0..num_shares {
            sum = sum.add(&shares[j][i]);
        }
        assert_eq!(coin[i], sum);
    }
    assert_ne!(shares[0][AMOUNT], coin[AMOUNT]);
}

#[test]
fn kzg_round_trip() {
    let crs = JZKZGCommitmentParams::trusted_setup(N);
    let params = kzg_crs(&crs);
    let f = coin_poly(N, &record(&entropy(), 1, 15, 0));
    let z = Scalar::from_u64(123456789);
    let com = KZG10::commit_g1(&params, &f).unwrap();
    let proof = KZG10::compute_opening_proof(&params, &f, &z).unwrap();
    let value = f.evaluate(&z);
    assert!(KZG10::check(&params, &com, &z, &value, &proof));
}

#[test]
fn kzg_tampering_is_rejected() {
    let crs = JZKZGCommitmentParams::trusted_setup(N);
    let params = kzg_crs(&crs);
    let f = coin_poly(N, &record(&entropy(), 1, 15, 0));
    let g = coin_poly(N, &record(&entropy(), 2, 15, 0));
    let z = Scalar::from_u64(987654321);
    let com = KZG10::commit_g1(&params, &f).unwrap();
    let other_com = KZG10::commit_g1(&params, &g).unwrap();
    let proof = KZG10::compute_opening_proof(&params, &f, &z).unwrap();
    let other_proof = KZG10::compute_opening_proof(&params, &g, &z).unwrap();
    let value = f.evaluate(&z);
    let wrong_value = value.add(&Scalar::one());
    let wrong_point = z.add(&Scalar::one());
    assert!(!KZG10::check(&params, &other_com, &z, &value, &proof));
    assert!(!KZG10::check(&params, &com, &wrong_point, &value, &proof));
    assert!(!KZG10::check(&params, &com, &z, &wrong_value, &proof));
    assert!(!KZG10::check(&params, &com, &z, &value, &other_proof));
}

#[test]
fn domain_shift_reads_ahead() {
    let coin = record(&Scalar::from_u64(5), 1, 15, 9);
    let f = coin_poly(N, &coin);
    let k = 2u64;
    let shifted = poly_domain_shift(&f, N, k);
    for i in 0..N {
        let x = domain_element(N, i as u64);
        assert_eq!(shifted.evaluate(&x), coin[(i + k as usize) % N]);
    }
    assert_eq!(shifted.evaluate(&domain_element(N, 0)), coin[ASSET_ID]);
}
