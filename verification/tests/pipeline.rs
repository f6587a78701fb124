
use noir_wallet::errors::WalletError;
use noir_wallet::generate;
use noir_wallet::generate_with_strength;
use noir_wallet::mnemonic::{entropy_to_indices, indices_to_phrase, validate};

const TEST_MNEMONIC: &str = "abandon abandon abandon abandon abandon abandon abandon abandon abandon abandon abandon about";

#[test]
fn generate_round_trip_all_strengths() {
    for strength in [128usize, 160, 192, 224, 256] {
        let phrase = generate_with_strength(strength).expect("randomness available");
        let words: Vec<&str> = phrase.split(' ').collect();
        assert_eq!(words.len(), (strength + strength / 32) / 11);
        let bytes: Vec<u8> = phrase.as_bytes().to_vec();
        let entropy = validate(&bytes).expect("a generated phrase validates");
        assert_eq!(entropy.len(), strength / 8);
    }
}

#[test]
fn generated_phrase_derives_addresses() {
    let phrase = generate().expect("randomness available");
    let r = noir_wallet::derive(phrase, "m/44'/0'/0'/0/0".to_string(), "cosmos".to_string());
    assert!(r.success);
    let (kp, btc, eth, cosmos, evmos) = r.result.unwrap();
    assert_eq!(kp.private.len(), 32);
    assert_eq!(kp.public.len(), 33);
    assert!(!btc.is_empty());
    assert_eq!(eth.len(), 42);
    assert!(cosmos.starts_with("cosmos1"));
    assert!(evmos.starts_with("cosmos1"));
}

#[test]
fn generate_default_is_twelve_words() {
    let phrase = generate().expect("randomness available");
    assert_eq!(phrase.split(' ').count(), 12);
}

#[test]
fn to_seed_matches_reference_vector() {
    let phrase: Vec<u8> = TEST_MNEMONIC.as_bytes().to_vec();
    let pass: Vec<u8> = Vec::new();
    let seed = noir_wallet::mnemonic::to_seed(&phrase, &pass);
    let expected = hex::decode(
        "5eb00bbddcf069084889a8ab9155568165f5c453ccb85e70811aaed6f6da5fc1\
         9a5ac40b389cd370d086206dec8aa6c43daea6690f20ad3d8d48b2d2ce9e38e4",
    )
    .unwrap();
    assert_eq!(seed, expected);
}

#[test]
fn btc_golden_vector() {
    let r = noir_wallet::derive(
        TEST_MNEMONIC.to_string(),
        "m/44'/0'/0'/0/0".to_string(),
        "cosmos".to_string(),
    );
    assert!(r.success);
    let (_kp, btc, _eth, _cosmos, _evmos) = r.result.unwrap();
    assert_eq!(btc, "1LqBGSKuX5yYUonjxT5qGfpUsXKYYWeabA");
}

#[test]
fn eth_golden_vector() {
    let r = noir_wallet::derive(
        TEST_MNEMONIC.to_string(),
        "m/44'/60'/0'/0/0".to_string(),
        "cosmos".to_string(),
    );
    assert!(r.success);
    let (_kp, _btc, eth, _cosmos, _evmos) = r.result.unwrap();
    assert_eq!(eth, "0x9858EfFD232B4033E47d90003D41EC34EcaEda94");
}

#[test]
fn derive_is_deterministic() {
    let a = noir_wallet::derive(
        TEST_MNEMONIC.to_string(),
        "44.118.0.0.0".to_string(),
        "cosmos".to_string(),
    );
    let b = noir_wallet::derive(
        TEST_MNEMONIC.to_string(),
        "44.118.0.0.0".to_string(),
        "cosmos".to_string(),
    );
    assert!(a.success && b.success);
    let ra = a.result.unwrap();
    let rb = b.result.unwrap();
    assert_eq!(ra.0.private, rb.0.private);
    assert_eq!(ra.0.public, rb.0.public);
    assert_eq!(ra.1, rb.1);
    assert_eq!(ra.2, rb.2);
    assert_eq!(ra.3, rb.3);
    assert_eq!(ra.4, rb.4);
}

#[test]
fn distinct_paths_give_distinct_keys() {
    let a = noir_wallet::derive(TEST_MNEMONIC.to_string(), "m/0".to_string(), "cosmos".to_string());
    let b = noir_wallet::derive(TEST_MNEMONIC.to_string(), "m/1".to_string(), "cosmos".to_string());
    let ra = a.result.unwrap();
    let rb = b.result.unwrap();
    assert_ne!(ra.0.private, rb.0.private);
    assert_ne!(ra.0.public, rb.0.public);
    assert_ne!(ra.1, rb.1);
    assert_ne!(ra.2, rb.2);
}

#[test]
fn hardened_and_plain_children_differ() {
    let a = noir_wallet::derive(TEST_MNEMONIC.to_string(), "m/0'".to_string(), "cosmos".to_string());
    let b = noir_wallet::derive(TEST_MNEMONIC.to_string(), "m/0".to_string(), "cosmos".to_string());
    let ra = a.result.unwrap();
    let rb = b.result.unwrap();
    assert_ne!(ra.0.private, rb.0.private);
    assert_ne!(ra.0.public, rb.0.public);
}

#[test]
fn invalid_mnemonic_is_rejected() {
    let r = noir_wallet::derive(
        "not a real mnemonic".to_string(),
        "m/0".to_string(),
        "cosmos".to_string(),
    );
    assert!(!r.success);
    assert!(r.result.is_none());
    assert_eq!(r.message, "invalid mnemonic");
}

#[test]
fn invalid_path_is_rejected() {
    let r = noir_wallet::derive(TEST_MNEMONIC.to_string(), "m/xyz".to_string(), "cosmos".to_string());
    assert!(!r.success);
    assert_eq!(r.message, "invalid derivation path");
    let r2 = noir_wallet::derive(
        TEST_MNEMONIC.to_string(),
        "m/2147483648".to_string(),
        "cosmos".to_string(),
    );
    assert!(!r2.success);
    assert_eq!(r2.message, "invalid derivation path");
}

#[test]
fn invalid_hrp_is_rejected() {
    let r = noir_wallet::derive(TEST_MNEMONIC.to_string(), "m/0".to_string(), "".to_string());
    assert!(!r.success);
    assert_eq!(r.message, "invalid bech32 prefix");
    let r2 = noir_wallet::derive(TEST_MNEMONIC.to_string(), "m/0".to_string(), "COSMOS".to_string());
    assert!(!r2.success);
    assert_eq!(r2.message, "invalid bech32 prefix");
}

#[test]
fn flipped_entropy_bits_fail_checksum() {
    // 32 bytes of entropy: 24 words carrying 256 entropy bits and an
    // 8-bit checksum. Flipping any single encoded entropy bit must fail
    // validation except for rare checksum collisions.
    let entropy: Vec<u8> = (0u8..32).collect();
    let idx = entropy_to_indices(&entropy);
    let phrase = indices_to_phrase(&idx);
    assert!(validate(&phrase).is_some());
    let mut failures = 0usize;
    for bit in 0..256usize {
        let mut bad = idx.clone();
        bad[bit / 11] ^= 1 << (10 - bit % 11);
        let bad_phrase = indices_to_phrase(&bad);
        if validate(&bad_phrase).is_none() {
            failures += 1;
        }
    }
    // an 8-bit checksum lets a flip slip through with chance 1/256
    assert!(failures >= 252, "only {} of 256 flips were rejected", failures);
}

#[test]
fn from_mnemonic_gives_the_master_keypair() {
    let kp = noir_wallet::KeyPair::from_mnemonic(TEST_MNEMONIC).expect("valid phrase");
    assert_eq!(kp.private.len(), 32);
    assert_eq!(kp.public.len(), 33);
    assert!(kp.public[0] == 2 || kp.public[0] == 3);
    // an empty path derives the master node itself
    let r = noir_wallet::derive(TEST_MNEMONIC.to_string(), "m".to_string(), "cosmos".to_string());
    let (terminal, _btc, _eth, _cosmos, _evmos) = r.result.unwrap();
    assert_eq!(terminal.private, kp.private);
    assert_eq!(terminal.public, kp.public);
    assert!(matches!(
        noir_wallet::KeyPair::from_mnemonic("not a real mnemonic"),
        Err(WalletError::InvalidMnemonic)
    ));
}

#[test]
fn derive_path_reports_the_failing_step() {
    let phrase: Vec<u8> = TEST_MNEMONIC.as_bytes().to_vec();
    let pass: Vec<u8> = Vec::new();
    let seed = noir_wallet::mnemonic::to_seed(&phrase, &pass);
    let master = noir_wallet::hd::master_from_seed(&seed).expect("seed accepted");
    // the second step carries an index outside the 31-bit range
    let steps = vec![
        noir_wallet::path::PathStep { index: 0, hardened: false },
        noir_wallet::path::PathStep { index: 0x80000000, hardened: false },
    ];
    match noir_wallet::hd::derive_path(&master, &steps) {
        Err(WalletError::DerivationFailure(step)) => assert_eq!(step, 2),
        _ => panic!("expected a derivation failure at the second step"),
    }
}

#[test]
fn bad_strength_is_rejected() {
    assert_eq!(generate_with_strength(100), Err(WalletError::InvalidMnemonic));
    assert_eq!(generate_with_strength(0), Err(WalletError::InvalidMnemonic));
}

#[test]
fn invalid_public_key_length_is_rejected() {
    let short: Vec<u8> = vec![4u8; 10];
    assert_eq!(
        noir_wallet::eth::eth_address(&short),
        Err(WalletError::InvalidPublicKey)
    );
    let hrp: Vec<u8> = b"evmos".to_vec();
    assert_eq!(
        noir_wallet::addresses::evmos_address(&short, &hrp),
        Err(WalletError::InvalidPublicKey)
    );
}
