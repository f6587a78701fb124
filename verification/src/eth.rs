use vstd::prelude::*;

verus! {

use crate::bits::bytes_range;
use crate::errors::WalletError;
use crate::hashes::{keccak256, keccak256_of};

/// The lowercase hex digit for a value below 16.
pub open spec fn hex_char(d: u8) -> u8 {
    if d < 10 {
        (48 + d) as u8
    } else {
        (87 + d) as u8
    }
}

/// Nibble i of a byte string, high nibble of each byte first.
pub open spec fn nib(s: Seq<u8>, i: int) -> u8 {
    if i % 2 == 0 {
        s[i / 2] / 16
    } else {
        s[i / 2] % 16
    }
}

/// The lowercase hex rendering of a byte string.
pub open spec fn lower_hex(s: Seq<u8>) -> Seq<u8> {
    Seq::new(2 * s.len(), |i: int| hex_char(nib(s, i)))
}

/// The 20-byte account payload of an uncompressed public key: the last 20
/// bytes of the Keccak-256 of its x and y coordinates.
pub open spec fn eth_payload(pk: Seq<u8>) -> Seq<u8> {
    keccak256_of(pk.skip(1)).skip(12)
}

/// One checksummed character: a hex letter is uppercased exactly when the
/// matching nibble of the Keccak-256 of the lowercase rendering is 8 or more.
pub open spec fn eth_cased(c: u8, h: u8) -> u8 {
    if 97 <= c && h >= 8 {
        (c - 32) as u8
    } else {
        c
    }
}

/// The checksummed address text of a 20-byte payload: "0x" then 40 cased
/// hex digits.
pub open spec fn eth_checksummed(payload: Seq<u8>) -> Seq<u8> {
    seq![48u8, 120u8] + Seq::new(
        40,
        |i: int| eth_cased(lower_hex(payload)[i], nib(keccak256_of(lower_hex(payload)), i)),
    )
}

pub open spec fn eth_address_of(pk: Seq<u8>) -> Seq<u8> {
    eth_checksummed(eth_payload(pk))
}

/// A character an address may hold after the "0x": a digit or a hex letter
/// of either case.
pub open spec fn is_hex_ext(c: u8) -> bool {
    (48 <= c <= 57) || (97 <= c <= 102) || (65 <= c <= 70)
}

/// The lowercase hex rendering of a byte string.
pub fn lower_hex_bytes(s: &Vec<u8>) -> (r: Vec<u8>)
    ensures
        r@ == lower_hex(s@),
{
    let mut r: Vec<u8> = Vec::new();
    let n = s.len();
    let mut i: usize = 0;
    while i < n
        invariant
            i <= n,
            n == s@.len(),
            r@.len() == 2 * i,
            forall|t: int| 0 <= t < 2 * i ==> r@[t] == lower_hex(s@)[t],
        decreases n - i,
    {
        let b = s[i];
        let hi = b / 16;
        let lo = b % 16;
        r.push(
            if hi < 10 {
                48 + hi
            } else {
                87 + hi
            },
        );
        r.push(
            if lo < 10 {
                48 + lo
            } else {
                87 + lo
            },
        );
        proof {
            assert((2 * i as int) % 2 == 0 && (2 * i as int) / 2 == i as int);
            assert((2 * i as int + 1) % 2 == 1 && (2 * i as int + 1) / 2 == i as int);
        }
        i = i + 1;
    }
    proof {
        assert(r@ =~= lower_hex(s@));
    }
    r
}

/// Encodes an uncompressed public key as checksummed address text. Fails
/// exactly when the key is not 65 bytes long.
pub fn eth_address(pk: &Vec<u8>) -> (r: Result<Vec<u8>, WalletError>)
    ensures
        match r {
            Ok(a) => {
                &&& pk@.len() == 65
                &&& a@ == eth_address_of(pk@)
                &&& a@.len() == 42
                &&& a@[0] == 48 && a@[1] == 120
                &&& forall|t: int| 2 <= t < 42 ==> is_hex_ext(#[trigger] a@[t])
            },
            Err(e) => pk@.len() != 65 && e == WalletError::InvalidPublicKey,
        },
{
    if pk.len() != 65 {
        return Err(WalletError::InvalidPublicKey);
    }
    let xy = bytes_range(pk, 1, 65);
    proof {
        assert(xy@ =~= pk@.skip(1));
    }
    let k = keccak256(&xy);
    let payload = bytes_range(&k, 12, 32);
    proof {
        assert(payload@ =~= eth_payload(pk@));
    }
    let lh = lower_hex_bytes(&payload);
    let h = keccak256(&lh);
    let mut out: Vec<u8> = Vec::new();
    out.push(48);
    out.push(120);
    let mut i: usize = 0;
    while i < 40
        invariant
            i <= 40,
            lh@ == lower_hex(payload@),
            lh@.len() == 40,
            h@ == keccak256_of(lower_hex(payload@)),
            h@.len() == 32,
            out@.len() == 2 + i,
            out@[0] == 48 && out@[1] == 120,
            forall|t: int|
                2 <= t < 2 + i ==> #[trigger] out@[t] == eth_cased(
                    lower_hex(payload@)[t - 2],
                    nib(keccak256_of(lower_hex(payload@)), t - 2),
                ),
        decreases 40 - i,
    {
        let c = lh[i];
        let hn: u8 = if i % 2 == 0 {
            h[i / 2] / 16
        } else {
            h[i / 2] % 16
        };
        proof {
            assert(hn == nib(h@, i as int));
            assert(c == hex_char(nib(payload@, i as int)));
        }
        out.push(
            if 97 <= c && hn >= 8 {
                c - 32
            } else {
                c
            },
        );
        i = i + 1;
    }
    proof {
        assert(out@ =~= eth_checksummed(payload@));
        assert forall|t: int| 2 <= t < 42 implies is_hex_ext(out@[t]) by {
            assert(out@[t] == eth_cased(
                lower_hex(payload@)[t - 2],
                nib(keccak256_of(lower_hex(payload@)), t - 2),
            ));
            assert(nib(payload@, t - 2) < 16);
        }
    }
    Ok(out)
}

} // verus!
