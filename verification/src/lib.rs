use vstd::prelude::*;

pub mod addresses;
pub mod bech;
pub mod bits;
pub mod curve;
pub mod errors;
pub mod eth;
pub mod hashes;
pub mod hd;
pub mod mnemonic;
pub mod path;
pub mod text;
pub mod words;

verus! {

use crate::addresses::{
    btc_address, btc_address_of, cosmos_address, cosmos_address_of, evmos_address,
    evmos_address_of, hash160_of,
};
use crate::bech::{bech32_of, five_groups, valid_hrp};
use crate::curve::{
    fill_random, pk_compressed_of, pk_uncompressed_of, pubkey_compressed, pubkey_uncompressed,
};
use crate::errors::{error_message, WalletError};
use crate::eth::{eth_address, eth_address_of, eth_checksummed, eth_payload};
use crate::hd::{
    child_data, derive_path, master_cc_spec, master_from_seed, master_key_spec, master_ok,
    path_spec,
};
use crate::mnemonic::{
    entropy_to_indices, indices_to_phrase, seed_of, to_seed, validate, validate_spec,
};
use crate::path::{parse_path, parse_path_spec};
use crate::text::{all_ascii, ascii_bytes, ascii_to_string, bytes_chars, str_ascii_bytes};
use vstd::utf8::is_ascii_chars;

/// Outcome reported to the caller of the wallet operations: success and
/// error are mutually exclusive, and an error carries no result payload.
pub struct Response<T> {
    pub success: bool,
    pub result: Option<T>,
    pub message: String,
}

impl<T> Response<T> {
    pub fn ok(result: T) -> (r: Response<T>)
        ensures
            r.success,
            r.result == Some(result),
            r.message@.len() == 0,
    {
        Response { success: true, result: Some(result), message: String::new() }
    }

    pub fn err(message: String) -> (r: Response<T>)
        ensures
            !r.success,
            r.result is None,
            r.message == message,
    {
        Response { success: false, result: None, message }
    }
}

/// The terminal keypair of a derivation: the private scalar and the
/// compressed public key. The caller receives both; see the design note on
/// the trust boundary in the crate documentation.
pub struct KeyPair {
    pub private: Vec<u8>,
    pub public: Vec<u8>,
}

impl KeyPair {
    /// The master keypair of a phrase, before any path step: validation,
    /// then seed stretching with an empty passphrase, then the master node.
    /// Fails exactly on a phrase that does not validate or whose master
    /// scalar is out of range.
    pub fn from_mnemonic(mnemonic: &str) -> (r: Result<KeyPair, WalletError>)
        ensures
            ({
                let mb = ascii_bytes(mnemonic@);
                match r {
                    Ok(kp) => {
                        &&& is_ascii_chars(mnemonic@)
                        &&& validate_spec(mb) is Some
                        &&& master_ok(seed_of(mb, Seq::empty()))
                        &&& kp.private@ == master_key_spec(seed_of(mb, Seq::empty()))
                        &&& kp.public@ == pk_compressed_of(kp.private@)
                    },
                    Err(e) => {
                        ||| (e == WalletError::InvalidMnemonic && (!is_ascii_chars(mnemonic@)
                            || validate_spec(mb) is None))
                        ||| (e == WalletError::DerivationFailure(0) && !master_ok(
                            seed_of(mb, Seq::empty()),
                        ))
                    },
                }
            }),
    {
        let mb = match str_ascii_bytes(mnemonic) {
            Some(v) => v,
            None => {
                return Err(WalletError::InvalidMnemonic);
            },
        };
        match validate(&mb) {
            Some(_) => (),
            None => {
                return Err(WalletError::InvalidMnemonic);
            },
        }
        let pass: Vec<u8> = Vec::new();
        let seed = to_seed(&mb, &pass);
        let master = match master_from_seed(&seed) {
            Some(m) => m,
            None => {
                return Err(WalletError::DerivationFailure(0));
            },
        };
        let public = pubkey_compressed(&master.key);
        Ok(KeyPair { private: master.key, public })
    }
}

/// The terminal private key reached from a mnemonic's seed along a parsed
/// path (meaningful when the whole pipeline succeeds).
pub open spec fn terminal_key(m: Seq<u8>, p: Seq<u8>) -> Seq<u8> {
    let seed = seed_of(m, Seq::empty());
    path_spec(
        master_key_spec(seed),
        master_cc_spec(seed),
        parse_path_spec(p).unwrap(),
    ).unwrap().0
}

/// The message of the failure, if any, that derivation reports for the
/// given mnemonic, path and prefix text, in strict pipeline order: the
/// mnemonic is checked first, then the path, then the key derivation, and
/// the prefix only when a key was reached.
pub open spec fn derive_message(m: Seq<char>, p: Seq<char>, h: Seq<char>) -> Option<Seq<char>> {
    let seed = seed_of(ascii_bytes(m), Seq::empty());
    if !is_ascii_chars(m) || validate_spec(ascii_bytes(m)) is None {
        Some(error_message(WalletError::InvalidMnemonic))
    } else if !is_ascii_chars(p) || parse_path_spec(ascii_bytes(p)) is None {
        Some(error_message(WalletError::InvalidPath))
    } else if !master_ok(seed) {
        Some(error_message(WalletError::DerivationFailure(0)))
    } else if path_spec(
        master_key_spec(seed),
        master_cc_spec(seed),
        parse_path_spec(ascii_bytes(p)).unwrap(),
    ) is None {
        Some(error_message(WalletError::DerivationFailure(0)))
    } else if !is_ascii_chars(h) || !valid_hrp(ascii_bytes(h)) {
        Some(error_message(WalletError::InvalidHrp))
    } else {
        None
    }
}

/// Derives the terminal keypair of a mnemonic along a path and renders it
/// in the four address formats; the two bech32 formats share the given
/// prefix. All-or-nothing: the first failing stage aborts the pipeline, and
/// every output is a function of the three inputs alone.
#[verifier::rlimit(100)]
pub fn derive(mnemonic: String, path: String, hrp: String) -> (r: Response<
    (KeyPair, String, String, String, String),
>)
    ensures
        r.success <==> derive_message(mnemonic@, path@, hrp@) is None,
        r.success <==> r.result is Some,
        !r.success ==> r.result is None && r.message@ == derive_message(
            mnemonic@,
            path@,
            hrp@,
        ).unwrap(),
        r.result matches Some(t) ==> {
            let key = terminal_key(ascii_bytes(mnemonic@), ascii_bytes(path@));
            let hb = ascii_bytes(hrp@);
            &&& t.0.private@ == key
            &&& t.0.public@ == pk_compressed_of(key)
            &&& t.1@ == bytes_chars(btc_address_of(pk_compressed_of(key)))
            &&& t.2@ == bytes_chars(eth_address_of(pk_uncompressed_of(key)))
            &&& t.3@ == bytes_chars(cosmos_address_of(pk_compressed_of(key), hb))
            &&& t.4@ == bytes_chars(evmos_address_of(pk_uncompressed_of(key), hb))
            &&& r.message@.len() == 0
        },
{
    let mb = match str_ascii_bytes(mnemonic.as_str()) {
        Some(v) => v,
        None => {
            return Response::err(WalletError::InvalidMnemonic.message());
        },
    };
    match validate(&mb) {
        Some(_) => (),
        None => {
            return Response::err(WalletError::InvalidMnemonic.message());
        },
    }
    let pb = match str_ascii_bytes(path.as_str()) {
        Some(v) => v,
        None => {
            return Response::err(WalletError::InvalidPath.message());
        },
    };
    let steps = match parse_path(&pb) {
        Some(v) => v,
        None => {
            return Response::err(WalletError::InvalidPath.message());
        },
    };
    let pass: Vec<u8> = Vec::new();
    let seed = to_seed(&mb, &pass);
    let master = match master_from_seed(&seed) {
        Some(m) => m,
        None => {
            return Response::err(WalletError::DerivationFailure(0).message());
        },
    };
    let term = match derive_path(&master, &steps) {
        Ok(t) => t,
        Err(e) => {
            return Response::err(e.message());
        },
    };
    let hb = match str_ascii_bytes(hrp.as_str()) {
        Some(v) => v,
        None => {
            return Response::err(WalletError::InvalidHrp.message());
        },
    };
    let pkc = pubkey_compressed(&term.key);
    let pku = pubkey_uncompressed(&term.key);
    let btc = btc_address(&pkc);
    let eth = match eth_address(&pku) {
        Ok(a) => a,
        Err(_) => {
            return Response::err(WalletError::InvalidPublicKey.message());
        },
    };
    let cosmos = match cosmos_address(&pkc, &hb) {
        Ok(a) => a,
        Err(e) => {
            return Response::err(e.message());
        },
    };
    let evmos = match evmos_address(&pku, &hb) {
        Ok(a) => a,
        Err(e) => {
            return Response::err(e.message());
        },
    };
    proof {
        assert forall|i: int| 0 <= i < btc@.len() implies #[trigger] btc@[i] < 128 by {
            assert(49 <= btc@[i] <= 122);
        }
        assert forall|i: int| 0 <= i < eth@.len() implies #[trigger] eth@[i] < 128 by {
            if i >= 2 {
                assert(crate::eth::is_hex_ext(eth@[i]));
            }
        }
        assert forall|i: int| 0 <= i < cosmos@.len() implies #[trigger] cosmos@[i] < 128 by {
            assert(33 <= cosmos@[i] <= 126);
        }
        assert forall|i: int| 0 <= i < evmos@.len() implies #[trigger] evmos@[i] < 128 by {
            assert(33 <= evmos@[i] <= 126);
        }
        assert(all_ascii(btc@) && all_ascii(eth@) && all_ascii(cosmos@) && all_ascii(evmos@));
    }
    let btc_s = ascii_to_string(btc);
    let eth_s = ascii_to_string(eth);
    let cosmos_s = ascii_to_string(cosmos);
    let evmos_s = ascii_to_string(evmos);
    let kp = KeyPair { private: term.key, public: pkc };
    Response::ok((kp, btc_s, eth_s, cosmos_s, evmos_s))
}

/// Generates a checksummed recovery phrase from fresh entropy of the given
/// bit strength (128 to 256, a multiple of 32). On a supported strength the
/// only failure is an unavailable randomness source, reported loudly as its
/// own kind; every returned phrase validates back to entropy of exactly the
/// requested size.
pub fn generate_with_strength(strength_bits: usize) -> (r: Result<String, WalletError>)
    ensures
        r matches Ok(s) ==> is_ascii_chars(s@) && validate_spec(ascii_bytes(s@)) is Some
            && validate_spec(ascii_bytes(s@)).unwrap().len() == strength_bits / 8,
        !(strength_bits == 128 || strength_bits == 160 || strength_bits == 192 || strength_bits
            == 224 || strength_bits == 256) ==> r == Err::<String, WalletError>(
            WalletError::InvalidMnemonic,
        ),
        (strength_bits == 128 || strength_bits == 160 || strength_bits == 192 || strength_bits
            == 224 || strength_bits == 256) ==> (r is Ok || r == Err::<String, WalletError>(
            WalletError::EntropyUnavailable,
        )),
{
    if !(strength_bits == 128 || strength_bits == 160 || strength_bits == 192 || strength_bits
        == 224 || strength_bits == 256) {
        return Err(WalletError::InvalidMnemonic);
    }
    let n = strength_bits / 8;
    let entropy = match fill_random(n) {
        Some(e) => e,
        None => {
            return Err(WalletError::EntropyUnavailable);
        },
    };
    let idx = entropy_to_indices(&entropy);
    let phrase = indices_to_phrase(&idx);
    proof {
        crate::mnemonic::lemma_phrase_validates(entropy@);
        assert(phrase@ == crate::mnemonic::phrase_of_entropy(entropy@));
        assert(validate_spec(phrase@) == Some(entropy@));
        assert(all_ascii(phrase@));
    }
    let s = ascii_to_string(phrase);
    proof {
        assert(is_ascii_chars(s@)) by {
            assert(forall|i: int|
                0 <= i < s@.len() ==> #[trigger] s@[i] == phrase@[i] as char && phrase@[i] < 128);
        }
    }
    Ok(s)
}

/// Generates a twelve-word phrase, the conventional default strength: it
/// fails only when the randomness source does.
pub fn generate() -> (r: Result<String, WalletError>)
    ensures
        r matches Ok(s) ==> is_ascii_chars(s@) && validate_spec(ascii_bytes(s@)) is Some,
        r matches Err(e) ==> e == WalletError::EntropyUnavailable,
{
    generate_with_strength(128)
}

/// Law: hardened and non-hardened derivation of the same index from the
/// same parent feed different messages to the child HMAC, since a SEC1
/// compressed public key begins with 2 or 3 and the hardened message
/// begins with a zero byte.
pub proof fn lemma_hardened_differs(k: Seq<u8>, index: u32)
    requires
        k.len() == 32,
        pk_compressed_of(k).len() == 33,
        pk_compressed_of(k)[0] == 2 || pk_compressed_of(k)[0] == 3,
    ensures
        child_data(k, index, true) != child_data(k, index, false),
{
    assert(child_data(k, index, true)[0] == 0);
    assert(child_data(k, index, false)[0] == pk_compressed_of(k)[0]);
}

/// Law: the two bech32 chains share an envelope but not a payload. The
/// Keccak-style chain carries exactly the 20 bytes the checksummed hex
/// address renders, while the other bech32 chain carries the key's hash160.
pub proof fn lemma_cross_chain_payload(pk: Seq<u8>, hrp: Seq<u8>)
    ensures
        evmos_address_of(pk, hrp) == bech32_of(hrp, five_groups(eth_payload(pk))),
        cosmos_address_of(pk, hrp) == bech32_of(hrp, five_groups(hash160_of(pk))),
        eth_address_of(pk) == eth_checksummed(eth_payload(pk)),
{
}

} // verus!
