use vstd::prelude::*;

verus! {

use crate::bech::{bech32_encode, bech32_of, check_hrp, five_groups, to_five_groups, valid_hrp};
use crate::bits::bytes_range;
use crate::curve::be_nat;
use crate::errors::WalletError;
use crate::eth::eth_payload;
use crate::hashes::{keccak256, ripemd160, ripemd160_of, sha256, sha256_of};

/// The base58 character set, "123456789ABCDEFGHJKLMNPQRSTUVWXYZabcdefghijkmnopqrstuvwxyz".
pub open spec fn charset58() -> Seq<u8> {
    seq![
        49u8, 50u8, 51u8, 52u8, 53u8, 54u8, 55u8, 56u8, 57u8, 65u8, 66u8, 67u8, 68u8, 69u8, 70u8,
        71u8, 72u8, 74u8, 75u8, 76u8, 77u8, 78u8, 80u8, 81u8, 82u8, 83u8, 84u8, 85u8, 86u8, 87u8,
        88u8, 89u8, 90u8, 97u8, 98u8, 99u8, 100u8, 101u8, 102u8, 103u8, 104u8, 105u8, 106u8,
        107u8, 109u8, 110u8, 111u8, 112u8, 113u8, 114u8, 115u8, 116u8, 117u8, 118u8, 119u8,
        120u8, 121u8, 122u8,
    ]
}

/// The base-58 digits of a value, most significant first (none for zero).
pub open spec fn b58_digits(n: nat) -> Seq<u8>
    decreases n,
{
    if n == 0 {
        Seq::empty()
    } else {
        b58_digits(n / 58).push(charset58()[(n % 58) as int])
    }
}

/// How many leading zero bytes a string has.
pub open spec fn count_zeros(s: Seq<u8>) -> int
    decreases s.len(),
{
    if s.len() == 0 || s[0] != 0 {
        0
    } else {
        1 + count_zeros(s.skip(1))
    }
}

/// The base58 rendering of a byte string: a '1' for each leading zero byte,
/// then the value's base-58 digits.
pub open spec fn base58_of(s: Seq<u8>) -> Seq<u8> {
    Seq::new(count_zeros(s) as nat, |i: int| 49u8) + b58_digits(be_nat(s))
}

/// hash160: RIPEMD-160 of SHA-256.
pub open spec fn hash160_of(s: Seq<u8>) -> Seq<u8> {
    ripemd160_of(sha256_of(s))
}

/// The 25 bytes under a legacy address: version 0, the key's hash160, and
/// the first four bytes of the double SHA-256 of the first 21.
pub open spec fn btc_payload(pk: Seq<u8>) -> Seq<u8> {
    let ver = seq![0u8] + hash160_of(pk);
    ver + sha256_of(sha256_of(ver)).take(4)
}

pub open spec fn btc_address_of(pk: Seq<u8>) -> Seq<u8> {
    base58_of(btc_payload(pk))
}

pub open spec fn cosmos_address_of(pk: Seq<u8>, hrp: Seq<u8>) -> Seq<u8> {
    bech32_of(hrp, five_groups(hash160_of(pk)))
}

pub open spec fn evmos_address_of(pk: Seq<u8>, hrp: Seq<u8>) -> Seq<u8> {
    bech32_of(hrp, five_groups(eth_payload(pk)))
}

pub proof fn lemma_charset58_bound(j: int)
    requires
        0 <= j < 58,
    ensures
        49 <= charset58()[j] <= 122,
{
}

pub proof fn lemma_b58_digits_bound(n: nat)
    ensures
        forall|t: int| 0 <= t < b58_digits(n).len() ==> 49 <= #[trigger] b58_digits(n)[t] <= 122,
    decreases n,
{
    if n > 0 {
        lemma_b58_digits_bound(n / 58);
        lemma_charset58_bound((n % 58) as int);
        let rec = b58_digits(n / 58);
        assert forall|t: int| #![trigger b58_digits(n)[t]] 0 <= t < b58_digits(n).len() implies 49
            <= b58_digits(n)[t] <= 122 by {
            if t < rec.len() {
                assert(b58_digits(n)[t] == rec[t]);
            } else {
                assert(b58_digits(n)[t] == charset58()[(n % 58) as int]);
            }
        }
    }
}

/// Every character of a base58 rendering is a '1' or an alphabet character.
pub proof fn lemma_base58_ascii(s: Seq<u8>)
    ensures
        forall|t: int| 0 <= t < base58_of(s).len() ==> 49 <= #[trigger] base58_of(s)[t] <= 122,
{
    lemma_b58_digits_bound(be_nat(s));
    let ones = Seq::new(count_zeros(s) as nat, |i: int| 49u8);
    assert forall|t: int| #![trigger base58_of(s)[t]] 0 <= t < base58_of(s).len() implies 49
        <= base58_of(s)[t] <= 122 by {
        if t < ones.len() {
            assert(base58_of(s)[t] == 49);
        } else {
            assert(base58_of(s)[t] == b58_digits(be_nat(s))[t - ones.len()]);
        }
    }
}

/// Relies on bs58::encode with its default Bitcoin alphabet: a '1' for each
/// leading zero byte, then the value written in base 58, most significant
/// digit first.
#[verifier::external_body]
fn b58_encode(input: &Vec<u8>) -> (r: Vec<u8>)
    ensures
        r@ == base58_of(input@),
{
    bs58::encode(input.as_slice()).into_vec()
}

/// The legacy address of public key bytes: base58 over the versioned,
/// checksummed hash160. Total on all inputs.
pub fn btc_address(pk: &Vec<u8>) -> (r: Vec<u8>)
    ensures
        r@ == btc_address_of(pk@),
        forall|t: int| 0 <= t < r@.len() ==> 49 <= #[trigger] r@[t] <= 122,
{
    proof {
        lemma_base58_ascii(btc_payload(pk@));
    }
    let h1 = sha256(pk);
    let mut h2 = ripemd160(&h1);
    let mut ver: Vec<u8> = Vec::new();
    ver.push(0);
    ver.append(&mut h2);
    proof {
        assert(ver@ =~= seq![0u8] + hash160_of(pk@));
    }
    let c1 = sha256(&ver);
    let c2 = sha256(&c1);
    let mut chk = bytes_range(&c2, 0, 4);
    let mut full = ver;
    full.append(&mut chk);
    proof {
        assert(c2@.subrange(0, 4) =~= sha256_of(sha256_of(seq![0u8] + hash160_of(pk@))).take(4));
        assert(full@ =~= btc_payload(pk@));
    }
    b58_encode(&full)
}

/// The bech32 address whose 20-byte payload is the key's hash160. Fails
/// exactly when the prefix is not one bech32 admits.
pub fn cosmos_address(pk: &Vec<u8>, hrp: &Vec<u8>) -> (r: Result<Vec<u8>, WalletError>)
    ensures
        match r {
            Ok(a) => valid_hrp(hrp@) && a@ == cosmos_address_of(pk@, hrp@) && (forall|t: int|
                0 <= t < a@.len() ==> 33 <= #[trigger] a@[t] <= 126),
            Err(e) => !valid_hrp(hrp@) && e == WalletError::InvalidHrp,
        },
{
    if !check_hrp(hrp) {
        return Err(WalletError::InvalidHrp);
    }
    let h1 = sha256(pk);
    let h2 = ripemd160(&h1);
    let groups = to_five_groups(&h2);
    Ok(bech32_encode(hrp, &groups))
}

/// The bech32 address whose 20-byte payload is the last 20 bytes of the
/// Keccak-256 of the key's coordinates, the same bytes the checksummed hex
/// address renders. Fails exactly on a key that is not 65 bytes, then on a
/// prefix bech32 does not admit.
pub fn evmos_address(pk: &Vec<u8>, hrp: &Vec<u8>) -> (r: Result<Vec<u8>, WalletError>)
    ensures
        match r {
            Ok(a) => pk@.len() == 65 && valid_hrp(hrp@) && a@ == evmos_address_of(pk@, hrp@) && (
            forall|t: int| 0 <= t < a@.len() ==> 33 <= #[trigger] a@[t] <= 126),
            Err(e) => {
                ||| (pk@.len() != 65 && e == WalletError::InvalidPublicKey)
                ||| (pk@.len() == 65 && !valid_hrp(hrp@) && e == WalletError::InvalidHrp)
            },
        },
{
    if pk.len() != 65 {
        return Err(WalletError::InvalidPublicKey);
    }
    if !check_hrp(hrp) {
        return Err(WalletError::InvalidHrp);
    }
    let xy = bytes_range(pk, 1, 65);
    proof {
        assert(xy@ =~= pk@.skip(1));
    }
    let k = keccak256(&xy);
    let payload = bytes_range(&k, 12, 32);
    proof {
        assert(payload@ =~= eth_payload(pk@));
    }
    let groups = to_five_groups(&payload);
    Ok(bech32_encode(hrp, &groups))
}

} // verus!
