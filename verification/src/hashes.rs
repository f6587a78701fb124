use vstd::prelude::*;

verus! {

use hmac::Mac;
use sha2::Digest;

/// The SHA-256 digest of a message; it depends on the message alone.
pub uninterp spec fn sha256_of(m: Seq<u8>) -> Seq<u8>;

/// The RIPEMD-160 digest of a message; it depends on the message alone.
pub uninterp spec fn ripemd160_of(m: Seq<u8>) -> Seq<u8>;

/// The Keccak-256 digest of a message; it depends on the message alone.
pub uninterp spec fn keccak256_of(m: Seq<u8>) -> Seq<u8>;

/// The HMAC-SHA512 tag for a key and a message; it depends on them alone.
pub uninterp spec fn hmac_sha512_of(key: Seq<u8>, msg: Seq<u8>) -> Seq<u8>;

/// The PBKDF2-HMAC-SHA512 64-byte output for a password, a salt and an
/// iteration count; it depends on them alone.
pub uninterp spec fn pbkdf2_sha512_of(password: Seq<u8>, salt: Seq<u8>, rounds: u32) -> Seq<u8>;

/// Relies on sha2::Sha256: a 32-byte digest of the message alone.
#[verifier::external_body]
pub fn sha256(m: &Vec<u8>) -> (r: Vec<u8>)
    ensures
        r@ == sha256_of(m@),
        r@.len() == 32,
{
    sha2::Sha256::digest(m.as_slice()).to_vec()
}

/// Relies on ripemd::Ripemd160: a 20-byte digest of the message alone.
#[verifier::external_body]
pub fn ripemd160(m: &Vec<u8>) -> (r: Vec<u8>)
    ensures
        r@ == ripemd160_of(m@),
        r@.len() == 20,
{
    ripemd::Ripemd160::digest(m.as_slice()).to_vec()
}

/// Relies on sha3::Keccak256: a 32-byte digest of the message alone.
#[verifier::external_body]
pub fn keccak256(m: &Vec<u8>) -> (r: Vec<u8>)
    ensures
        r@ == keccak256_of(m@),
        r@.len() == 32,
{
    sha3::Keccak256::digest(m.as_slice()).to_vec()
}

/// Relies on hmac::Hmac over sha2::Sha512: a 64-byte tag of the key and the
/// message alone; HMAC accepts a key of any length.
#[verifier::external_body]
pub fn hmac_sha512(key: &Vec<u8>, msg: &Vec<u8>) -> (r: Vec<u8>)
    ensures
        r@ == hmac_sha512_of(key@, msg@),
        r@.len() == 64,
{
    let mut mac = <hmac::Hmac<sha2::Sha512> as hmac::Mac>::new_from_slice(key.as_slice()).expect(
        "HMAC accepts keys of any length",
    );
    mac.update(msg.as_slice());
    mac.finalize().into_bytes().to_vec()
}

/// Relies on pbkdf2::pbkdf2_hmac over sha2::Sha512: fills 64 bytes that
/// depend on the password, the salt and the iteration count alone.
#[verifier::external_body]
pub fn pbkdf2_sha512(password: &Vec<u8>, salt: &Vec<u8>, rounds: u32) -> (r: Vec<u8>)
    requires
        rounds >= 1,
    ensures
        r@ == pbkdf2_sha512_of(password@, salt@, rounds),
        r@.len() == 64,
{
    let mut out = [0u8; 64];
    pbkdf2::pbkdf2_hmac::<sha2::Sha512>(password.as_slice(), salt.as_slice(), rounds, &mut out);
    out.to_vec()
}

} // verus!
