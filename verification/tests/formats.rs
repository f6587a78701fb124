
use sha2::Digest;

const TEST_MNEMONIC: &str = "abandon abandon abandon abandon abandon abandon abandon abandon abandon abandon abandon about";

fn derived() -> (noir_wallet::KeyPair, String, String, String, String) {
    let r = noir_wallet::derive(
        TEST_MNEMONIC.to_string(),
        "m/44'/118'/0'/0/0".to_string(),
        "cosmos".to_string(),
    );
    assert!(r.success);
    r.result.unwrap()
}

#[test]
fn btc_address_is_base58_with_valid_checksum() {
    let (_kp, btc, _eth, _cosmos, _evmos) = derived();
    const ALPHABET: &str = "123456789ABCDEFGHJKLMNPQRSTUVWXYZabcdefghijkmnopqrstuvwxyz";
    for c in btc.chars() {
        assert!(ALPHABET.contains(c), "address holds only base58 characters");
    }
    let payload = bs58::decode(&btc).into_vec().expect("decodes as base58");
    assert_eq!(payload.len(), 25);
    assert_eq!(payload[0], 0, "legacy version byte");
    let body = &payload[..21];
    let check = &payload[21..];
    let h = sha2::Sha256::digest(sha2::Sha256::digest(body));
    assert_eq!(check, &h[..4], "embedded checksum matches double SHA-256");
}

#[test]
fn eth_address_has_checksummed_hex_format() {
    let (_kp, _btc, eth, _cosmos, _evmos) = derived();
    assert_eq!(eth.len(), 42);
    assert!(eth.starts_with("0x"));
    let body = &eth[2..];
    assert!(body.chars().all(|c| c.is_ascii_hexdigit()));
    // recompute the mixed-case checksum from the lowercase rendering
    let lower = body.to_lowercase();
    let h = sha3::Keccak256::digest(lower.as_bytes());
    for (i, c) in body.chars().enumerate() {
        if c.is_ascii_alphabetic() {
            let nibble = if i % 2 == 0 { h[i / 2] >> 4 } else { h[i / 2] & 15 };
            assert_eq!(c.is_ascii_uppercase(), nibble >= 8, "case bit {} matches hash", i);
        }
    }
}

#[test]
fn bech32_addresses_carry_hrp_and_verify() {
    let (_kp, _btc, _eth, cosmos, evmos) = derived();
    assert!(cosmos.starts_with("cosmos1"));
    assert!(evmos.starts_with("cosmos1"));
    let (hrp_c, data_c) = bech32::decode(&cosmos).expect("cosmos address passes bech32 checks");
    let (hrp_d, data_d) = bech32::decode(&evmos).expect("evmos address passes bech32 checks");
    assert_eq!(hrp_c.as_str(), "cosmos");
    assert_eq!(hrp_d.as_str(), "cosmos");
    assert_eq!(data_c.len(), 20);
    assert_eq!(data_d.len(), 20);
}

#[test]
fn cross_chain_payload_relation() {
    let (kp, _btc, eth, cosmos, evmos) = derived();
    let (_h1, hash160_payload) = bech32::decode(&cosmos).unwrap();
    let (_h2, keccak_payload) = bech32::decode(&evmos).unwrap();
    // the keccak-style bech32 payload equals the bytes the hex address renders
    let eth_bytes = hex::decode(&eth[2..].to_lowercase()).unwrap();
    assert_eq!(keccak_payload, eth_bytes);
    assert_ne!(keccak_payload, hash160_payload);
    // and the hash160 payload really is the hash160 of the compressed key
    let h160 = ripemd::Ripemd160::digest(sha2::Sha256::digest(&kp.public));
    assert_eq!(hash160_payload, h160.to_vec());
}

#[test]
fn same_hrp_feeds_both_bech32_chains() {
    let r = noir_wallet::derive(
        TEST_MNEMONIC.to_string(),
        "m/0".to_string(),
        "osmo".to_string(),
    );
    let (_kp, _btc, _eth, cosmos, evmos) = r.result.unwrap();
    assert!(cosmos.starts_with("osmo1"));
    assert!(evmos.starts_with("osmo1"));
}
