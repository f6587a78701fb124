use vstd::prelude::*;

verus! {

use k256::elliptic_curve::PrimeField;
use k256::elliptic_curve::sec1::ToEncodedPoint;

/// The value of a big-endian byte string.
pub open spec fn be_nat(s: Seq<u8>) -> nat
    decreases s.len(),
{
    if s.len() == 0 {
        0
    } else {
        be_nat(s.drop_last()) * 256 + s.last() as nat
    }
}

/// The order of the secp256k1 group.
pub open spec fn curve_order() -> nat {
    0xFFFFFFFFFFFFFFFFFFFFFFFFFFFFFFFEBAAEDCE6AF48A03BBFD25E8CD0364141nat
}

/// A 32-byte string encodes a valid secp256k1 private scalar.
pub open spec fn scalar_valid(s: Seq<u8>) -> bool {
    s.len() == 32 && 0 < be_nat(s) < curve_order()
}

/// The 33-byte SEC1 compressed public key of a private scalar; it depends on
/// the scalar alone.
pub uninterp spec fn pk_compressed_of(k: Seq<u8>) -> Seq<u8>;

/// The 65-byte SEC1 uncompressed public key of a private scalar; it depends
/// on the scalar alone.
pub uninterp spec fn pk_uncompressed_of(k: Seq<u8>) -> Seq<u8>;

/// The len-byte big-endian encoding of n % 2^(8*len).
pub open spec fn nat_bytes(n: nat, len: nat) -> Seq<u8>
    decreases len,
{
    if len == 0 {
        Seq::empty()
    } else {
        nat_bytes(n / 256, (len - 1) as nat).push((n % 256) as u8)
    }
}

pub proof fn lemma_nat_bytes_val(n: nat, len: nat)
    requires
        n < crate::bits::p2(8 * len),
    ensures
        nat_bytes(n, len).len() == len,
        be_nat(nat_bytes(n, len)) == n,
    decreases len,
{
    if len == 0 {
    } else {
        assert(crate::bits::p2(8 * len) == 256 * crate::bits::p2((8 * (len - 1)) as nat)) by {
            lemma_p2_adds8((8 * (len - 1)) as nat);
            assert(8 * len == 8 * (len - 1) + 8);
        }
        assert(n / 256 < crate::bits::p2((8 * (len - 1)) as nat)) by {
            vstd::arithmetic::div_mod::lemma_fundamental_div_mod(n as int, 256);
        }
        lemma_nat_bytes_val(n / 256, (len - 1) as nat);
        let s = nat_bytes(n, len);
        assert(s.drop_last() =~= nat_bytes(n / 256, (len - 1) as nat));
        assert(s.last() == (n % 256) as u8);
        vstd::arithmetic::div_mod::lemma_fundamental_div_mod(n as int, 256);
    }
}

proof fn lemma_p2_adds8(k: nat)
    ensures
        crate::bits::p2(k + 8) == 256 * crate::bits::p2(k),
    decreases k,
{
    if k == 0 {
        reveal_with_fuel(crate::bits::p2, 9);
    } else {
        lemma_p2_adds8((k - 1) as nat);
    }
}

/// Equal values in equally long big-endian strings mean equal strings.
pub proof fn lemma_be_nat_inj(a: Seq<u8>, b: Seq<u8>)
    requires
        a.len() == b.len(),
        be_nat(a) == be_nat(b),
    ensures
        a == b,
    decreases a.len(),
{
    if a.len() > 0 {
        let va = be_nat(a.drop_last()) * 256 + a.last() as nat;
        let vb = be_nat(b.drop_last()) * 256 + b.last() as nat;
        assert(va == vb);
        assert(a.last() == b.last() && be_nat(a.drop_last()) == be_nat(b.drop_last())) by {
            vstd::arithmetic::div_mod::lemma_fundamental_div_mod_converse(
                va as int,
                256,
                be_nat(a.drop_last()) as int,
                a.last() as int,
            );
            vstd::arithmetic::div_mod::lemma_fundamental_div_mod_converse(
                vb as int,
                256,
                be_nat(b.drop_last()) as int,
                b.last() as int,
            );
        }
        lemma_be_nat_inj(a.drop_last(), b.drop_last());
        assert(a =~= a.drop_last().push(a.last()));
        assert(b =~= b.drop_last().push(b.last()));
        assert(a == b);
    } else {
        assert(a =~= b);
    }
}

pub proof fn lemma_be_nat_bound(s: Seq<u8>)
    ensures
        be_nat(s) < crate::bits::p2(8 * s.len()),
    decreases s.len(),
{
    if s.len() == 0 {
        reveal_with_fuel(crate::bits::p2, 2);
    } else {
        lemma_be_nat_bound(s.drop_last());
        lemma_p2_adds8((8 * (s.len() - 1)) as nat);
        assert(8 * s.len() == 8 * (s.len() - 1) + 8);
    }
}

pub proof fn lemma_be_nat_zero(s: Seq<u8>)
    ensures
        (be_nat(s) == 0) <==> (forall|i: int| 0 <= i < s.len() ==> s[i] == 0),
    decreases s.len(),
{
    if s.len() > 0 {
        lemma_be_nat_zero(s.drop_last());
        if be_nat(s) == 0 {
            assert(forall|i: int|
                0 <= i < s.len() - 1 ==> s[i] == s.drop_last()[i] && s.drop_last()[i] == 0);
        } else {
            if forall|i: int| 0 <= i < s.len() ==> s[i] == 0 {
                assert(forall|i: int| 0 <= i < s.drop_last().len() ==> s.drop_last()[i] == 0);
            }
        }
    }
}

/// Whether all bytes are zero, i.e. the big-endian value is zero.
pub fn is_zero_be(b: &Vec<u8>) -> (r: bool)
    ensures
        r == (be_nat(b@) == 0),
{
    let mut i: usize = 0;
    let n = b.len();
    let mut all0: bool = true;
    while i < n
        invariant
            i <= n,
            n == b@.len(),
            all0 == (forall|k: int| 0 <= k < i ==> b@[k] == 0),
        decreases n - i,
    {
        if b[i] != 0 {
            all0 = false;
        }
        i = i + 1;
    }
    proof {
        lemma_be_nat_zero(b@);
    }
    all0
}

/// Relies on k256::Scalar::from_repr: it accepts exactly the canonical
/// big-endian encodings of values below the group order.
#[verifier::external_body]
pub fn scalar_in_order(b: &Vec<u8>) -> (r: bool)
    requires
        b@.len() == 32,
    ensures
        r == (be_nat(b@) < curve_order()),
{
    let mut arr = [0u8; 32];
    arr.copy_from_slice(b.as_slice());
    let ct = k256::Scalar::from_repr(arr.into());
    bool::from(ct.is_some())
}

/// Relies on k256::Scalar::add: the sum modulo the group order, re-encoded
/// as 32 big-endian bytes by Scalar::to_bytes.
#[verifier::external_body]
pub fn scalar_add_mod(a: &Vec<u8>, b: &Vec<u8>) -> (r: Vec<u8>)
    requires
        a@.len() == 32,
        b@.len() == 32,
        be_nat(a@) < curve_order(),
        be_nat(b@) < curve_order(),
    ensures
        r@.len() == 32,
        be_nat(r@) == (be_nat(a@) + be_nat(b@)) % curve_order(),
{
    let mut aa = [0u8; 32];
    aa.copy_from_slice(a.as_slice());
    let mut bb = [0u8; 32];
    bb.copy_from_slice(b.as_slice());
    let sa = k256::Scalar::from_repr(aa.into()).unwrap();
    let sb = k256::Scalar::from_repr(bb.into()).unwrap();
    let sum = sa.add(&sb);
    sum.to_bytes().to_vec()
}

/// Relies on k256::SecretKey::public_key and PublicKey::to_encoded_point:
/// the SEC1 compressed encoding (tag 2 or 3, then the 32-byte x coordinate)
/// of the public point of the scalar.
#[verifier::external_body]
pub fn pubkey_compressed(k: &Vec<u8>) -> (r: Vec<u8>)
    requires
        scalar_valid(k@),
    ensures
        r@ == pk_compressed_of(k@),
        r@.len() == 33,
        r@[0] == 2 || r@[0] == 3,
{
    let sk = k256::SecretKey::from_slice(k.as_slice()).expect("scalar is nonzero and in range");
    sk.public_key().to_encoded_point(true).as_bytes().to_vec()
}

/// Relies on k256::SecretKey::public_key and PublicKey::to_encoded_point:
/// the SEC1 uncompressed encoding (tag 4, then the x and y coordinates) of
/// the public point of the scalar.
#[verifier::external_body]
pub fn pubkey_uncompressed(k: &Vec<u8>) -> (r: Vec<u8>)
    requires
        scalar_valid(k@),
    ensures
        r@ == pk_uncompressed_of(k@),
        r@.len() == 65,
        r@[0] == 4,
{
    let sk = k256::SecretKey::from_slice(k.as_slice()).expect("scalar is nonzero and in range");
    sk.public_key().to_encoded_point(false).as_bytes().to_vec()
}

/// Relies on getrandom::getrandom: fills the buffer from the operating
/// system's secure randomness source, or reports failure.
#[verifier::external_body]
pub fn fill_random(n: usize) -> (r: Option<Vec<u8>>)
    ensures
        r is Some ==> r.unwrap()@.len() == n,
{
    let mut buf = vec![0u8; n];
    match getrandom::getrandom(&mut buf) {
        Ok(()) => Some(buf),
        Err(_) => None,
    }
}

} // verus!
