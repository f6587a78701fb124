use vstd::prelude::*;

verus! {

use crate::bits::{bits_of_bytes, bits_range_val, bits_val, bytes_to_bits, lemma_bits_of_bytes_len, p2};

/// The bech32 data-character set, "qpzry9x8gf2tvdw0s3jn54khce6mua7l".
pub open spec fn charset32() -> Seq<u8> {
    seq![
        113u8, 112u8, 122u8, 114u8, 121u8, 57u8, 120u8, 56u8, 103u8, 102u8, 50u8, 116u8, 118u8,
        100u8, 119u8, 48u8, 115u8, 51u8, 106u8, 110u8, 53u8, 52u8, 107u8, 104u8, 99u8, 101u8,
        54u8, 109u8, 117u8, 97u8, 55u8, 108u8,
    ]
}

/// One step of the BCH checksum: shift in five bits and fold the generator
/// terms selected by the bits shifted out.
pub open spec fn pm_step(chk: u32, v: u8) -> u32 {
    let b = chk >> 25;
    let c0 = ((chk & 0x1ffffff) << 5) ^ (v as u32);
    let c1 = if b & 1 == 1 {
        c0 ^ 0x3b6a57b2u32
    } else {
        c0
    };
    let c2 = if (b >> 1) & 1 == 1 {
        c1 ^ 0x26508e6du32
    } else {
        c1
    };
    let c3 = if (b >> 2) & 1 == 1 {
        c2 ^ 0x1ea119fau32
    } else {
        c2
    };
    let c4 = if (b >> 3) & 1 == 1 {
        c3 ^ 0x3d4233ddu32
    } else {
        c3
    };
    if (b >> 4) & 1 == 1 {
        c4 ^ 0x2a1462b3u32
    } else {
        c4
    }
}

pub open spec fn polymod(vals: Seq<u8>) -> u32
    decreases vals.len(),
{
    if vals.len() == 0 {
        1u32
    } else {
        pm_step(polymod(vals.drop_last()), vals.last())
    }
}

/// The checksum domain of a prefix: the high bits of its characters, a
/// zero, then their low bits.
pub open spec fn hrp_expand(hrp: Seq<u8>) -> Seq<u8> {
    Seq::new(hrp.len(), |i: int| hrp[i] / 32) + seq![0u8] + Seq::new(
        hrp.len(),
        |i: int| (hrp[i] % 32) as u8,
    )
}

/// A prefix bech32 admits: nonempty, at most 83 characters, each in the
/// US-ASCII range [33, 126] and none an uppercase letter, so the whole
/// address stays lowercase.
pub open spec fn valid_hrp(h: Seq<u8>) -> bool {
    1 <= h.len() <= 83 && (forall|i: int|
        0 <= i < h.len() ==> 33 <= #[trigger] h[i] <= 126 && !(65 <= h[i] <= 90))
}

/// The six five-bit checksum values of a prefix and a data part.
pub open spec fn b32_checksum(hrp: Seq<u8>, data: Seq<u8>) -> Seq<u8> {
    let pm = polymod(hrp_expand(hrp) + data + seq![0u8, 0u8, 0u8, 0u8, 0u8, 0u8]) ^ 1u32;
    Seq::new(6, |i: int| ((pm >> ((5 * (5 - i)) as u32)) & 31) as u8)
}

/// The 5-bit regrouping of a byte string (whole groups only).
pub open spec fn five_groups(s: Seq<u8>) -> Seq<u8> {
    Seq::new(
        s.len() * 8 / 5,
        |j: int| bits_val(bits_of_bytes(s).subrange(5 * j, 5 * j + 5)) as u8,
    )
}

/// A full bech32 string: the prefix, the separator '1', then the data and
/// checksum values as characters.
pub open spec fn bech32_of(hrp: Seq<u8>, data: Seq<u8>) -> Seq<u8> {
    hrp + seq![49u8] + (data + b32_checksum(hrp, data)).map(
        |i: int, d: u8| charset32()[d as int],
    )
}

pub proof fn lemma_charset32_bound(j: int)
    requires
        0 <= j < 32,
    ensures
        48 <= charset32()[j] <= 122,
{
}

proof fn lemma_mask5(pm: u32, x: u32)
    ensures
        ((pm >> x) & 31u32) < 32,
{
    assert(((pm >> x) & 31u32) < 32) by (bit_vector);
}

/// The data-character table.
fn b32_table() -> (r: Vec<u8>)
    ensures
        r@ == charset32(),
{
    let mut r: Vec<u8> = Vec::new();
    r.push(113);
    r.push(112);
    r.push(122);
    r.push(114);
    r.push(121);
    r.push(57);
    r.push(120);
    r.push(56);
    r.push(103);
    r.push(102);
    r.push(50);
    r.push(116);
    r.push(118);
    r.push(100);
    r.push(119);
    r.push(48);
    r.push(115);
    r.push(51);
    r.push(106);
    r.push(110);
    r.push(53);
    r.push(52);
    r.push(107);
    r.push(104);
    r.push(99);
    r.push(101);
    r.push(54);
    r.push(109);
    r.push(117);
    r.push(97);
    r.push(55);
    r.push(108);
    proof {
        assert(r@ =~= charset32());
    }
    r
}

fn polymod_ex(vals: &Vec<u8>) -> (r: u32)
    ensures
        r == polymod(vals@),
{
    let mut chk: u32 = 1;
    let mut i: usize = 0;
    let n = vals.len();
    proof {
        assert(vals@.take(0) =~= Seq::<u8>::empty());
    }
    while i < n
        invariant
            i <= n,
            n == vals@.len(),
            chk == polymod(vals@.take(i as int)),
        decreases n - i,
    {
        let v = vals[i];
        proof {
            assert(vals@.take(i + 1).drop_last() =~= vals@.take(i as int));
            assert(vals@.take(i + 1).last() == vals@[i as int]);
        }
        let b = chk >> 25;
        chk = ((chk & 0x1ffffff) << 5) ^ (v as u32);
        if b & 1 == 1 {
            chk = chk ^ 0x3b6a57b2;
        }
        if (b >> 1) & 1 == 1 {
            chk = chk ^ 0x26508e6d;
        }
        if (b >> 2) & 1 == 1 {
            chk = chk ^ 0x1ea119fa;
        }
        if (b >> 3) & 1 == 1 {
            chk = chk ^ 0x3d4233dd;
        }
        if (b >> 4) & 1 == 1 {
            chk = chk ^ 0x2a1462b3;
        }
        i = i + 1;
    }
    proof {
        assert(vals@.take(n as int) =~= vals@);
    }
    chk
}

/// Whether a prefix is one bech32 admits.
pub fn check_hrp(h: &Vec<u8>) -> (r: bool)
    ensures
        r == valid_hrp(h@),
{
    let n = h.len();
    if n < 1 || n > 83 {
        return false;
    }
    let mut i: usize = 0;
    while i < n
        invariant
            i <= n,
            n == h@.len(),
            forall|t: int| 0 <= t < i ==> 33 <= #[trigger] h@[t] <= 126 && !(65 <= h@[t] <= 90),
        decreases n - i,
    {
        let c = h[i];
        if c < 33 || c > 126 || (65 <= c && c <= 90) {
            return false;
        }
        i = i + 1;
    }
    true
}

/// The 5-bit regrouping of a 20-byte payload: 32 whole groups.
pub fn to_five_groups(payload: &Vec<u8>) -> (r: Vec<u8>)
    requires
        payload@.len() == 20,
    ensures
        r@ == five_groups(payload@),
        r@.len() == 32,
        forall|t: int| 0 <= t < r@.len() ==> #[trigger] r@[t] < 32,
{
    let bits = bytes_to_bits(payload);
    proof {
        lemma_bits_of_bytes_len(payload@);
        assert(p2(5) == 32) by {
            reveal_with_fuel(p2, 6);
        }
    }
    let mut r: Vec<u8> = Vec::new();
    let mut j: usize = 0;
    while j < 32
        invariant
            j <= 32,
            bits@ == bits_of_bytes(payload@),
            bits@.len() == 160,
            payload@.len() == 20,
            r@.len() == j,
            forall|t: int| 0 <= t < j ==> #[trigger] r@[t] == five_groups(payload@)[t],
            forall|t: int| 0 <= t < j ==> #[trigger] r@[t] < 32,
        decreases 32 - j,
    {
        let v = bits_range_val(&bits, 5 * j, 5);
        proof {
            assert(p2(5) == 32) by {
                reveal_with_fuel(p2, 6);
            }
        }
        r.push(v as u8);
        j = j + 1;
    }
    proof {
        assert(r@ =~= five_groups(payload@));
    }
    r
}

/// Encodes a data part under a prefix: the prefix, '1', then the data and
/// its checksum as characters.
pub fn bech32_encode(hrp: &Vec<u8>, data: &Vec<u8>) -> (r: Vec<u8>)
    requires
        valid_hrp(hrp@),
        forall|t: int| 0 <= t < data@.len() ==> #[trigger] data@[t] < 32,
        data@.len() <= 64,
    ensures
        r@ == bech32_of(hrp@, data@),
        r@.len() == hrp@.len() + 1 + data@.len() + 6,
        r@.subrange(0, hrp@.len() as int) == hrp@,
        r@[hrp@.len() as int] == 49,
        forall|t: int| 0 <= t < r@.len() ==> 33 <= #[trigger] r@[t] <= 126,
{
    let hn = hrp.len();
    let dn = data.len();
    // the checksum domain
    let mut dom: Vec<u8> = Vec::new();
    let mut i: usize = 0;
    while i < hn
        invariant
            i <= hn,
            hn == hrp@.len(),
            dom@.len() == i,
            forall|t: int| 0 <= t < i ==> #[trigger] dom@[t] == hrp@[t] / 32,
        decreases hn - i,
    {
        dom.push(hrp[i] / 32);
        i = i + 1;
    }
    dom.push(0);
    let mut i2: usize = 0;
    while i2 < hn
        invariant
            i2 <= hn,
            hn == hrp@.len(),
            dom@.len() == hn + 1 + i2,
            forall|t: int| 0 <= t < hn ==> #[trigger] dom@[t] == hrp@[t] / 32,
            dom@[hn as int] == 0,
            forall|t: int| 0 <= t < i2 ==> #[trigger] dom@[hn + 1 + t] == (hrp@[t] % 32) as u8,
        decreases hn - i2,
    {
        dom.push(hrp[i2] % 32);
        i2 = i2 + 1;
    }
    proof {
        let he = hrp_expand(hrp@);
        assert(he.len() == 2 * hn + 1);
        assert forall|t: int| 0 <= t < he.len() implies he[t] == dom@[t] by {
            if t < hn {
                assert(he[t] == hrp@[t] / 32);
                assert(dom@[t] == hrp@[t] / 32);
            } else if t == hn {
                assert(he[t] == 0);
                assert(dom@[t] == 0);
            } else {
                assert(he[t] == (hrp@[t - hn - 1] % 32) as u8);
                assert(dom@[hn + 1 + (t - hn - 1)] == (hrp@[t - hn - 1] % 32) as u8);
            }
        }
        assert(dom@ =~= he);
    }
    let mut i3: usize = 0;
    while i3 < dn
        invariant
            i3 <= dn,
            dn == data@.len(),
            hn == hrp@.len(),
            dom@.len() == 2 * hn + 1 + i3,
            forall|t: int| 0 <= t < 2 * hn + 1 ==> #[trigger] dom@[t] == hrp_expand(hrp@)[t],
            forall|t: int| 0 <= t < i3 ==> #[trigger] dom@[2 * hn + 1 + t] == data@[t],
        decreases dn - i3,
    {
        dom.push(data[i3]);
        i3 = i3 + 1;
    }
    let mut z: usize = 0;
    while z < 6
        invariant
            z <= 6,
            dn == data@.len(),
            hn == hrp@.len(),
            dom@.len() == 2 * hn + 1 + dn + z,
            forall|t: int| 0 <= t < 2 * hn + 1 ==> #[trigger] dom@[t] == hrp_expand(hrp@)[t],
            forall|t: int| 0 <= t < dn ==> #[trigger] dom@[2 * hn + 1 + t] == data@[t],
            forall|t: int| 0 <= t < z ==> #[trigger] dom@[2 * hn + 1 + dn + t] == 0,
        decreases 6 - z,
    {
        dom.push(0);
        z = z + 1;
    }
    proof {
        let target = hrp_expand(hrp@) + data@ + seq![0u8, 0u8, 0u8, 0u8, 0u8, 0u8];
        assert(target.len() == 2 * hn + 1 + dn + 6);
        assert forall|t: int| 0 <= t < target.len() implies target[t] == dom@[t] by {
            if t < 2 * hn + 1 {
                assert(target[t] == hrp_expand(hrp@)[t]);
            } else if t < 2 * hn + 1 + dn {
                assert(target[t] == data@[t - (2 * hn + 1)]);
                assert(dom@[2 * hn + 1 + (t - (2 * hn + 1))] == data@[t - (2 * hn + 1)]);
            } else {
                assert(target[t] == 0);
                assert(dom@[2 * hn + 1 + dn + (t - (2 * hn + 1 + dn))] == 0);
            }
        }
        assert(dom@ =~= target);
    }
    let pm = polymod_ex(&dom) ^ 1;
    let ghost cs = b32_checksum(hrp@, data@);
    let mut full: Vec<u8> = Vec::new();
    let mut i4: usize = 0;
    while i4 < dn
        invariant
            i4 <= dn,
            dn == data@.len(),
            full@.len() == i4,
            forall|t: int| 0 <= t < i4 ==> #[trigger] full@[t] == data@[t],
        decreases dn - i4,
    {
        full.push(data[i4]);
        i4 = i4 + 1;
    }
    full.push(((pm >> 25) & 31) as u8);
    full.push(((pm >> 20) & 31) as u8);
    full.push(((pm >> 15) & 31) as u8);
    full.push(((pm >> 10) & 31) as u8);
    full.push(((pm >> 5) & 31) as u8);
    full.push((pm & 31) as u8);
    proof {
        assert(cs.len() == 6);
        assert forall|t: int| 0 <= t < dn + 6 implies full@[t] == (data@ + cs)[t] by {
            if t < dn {
                assert((data@ + cs)[t] == data@[t]);
            } else {
                let j = t - dn;
                assert((data@ + cs)[t] == cs[j]);
                assert(cs[j] == ((pm >> ((5 * (5 - j)) as u32)) & 31) as u8);
                if j == 0 {
                    assert((5 * (5 - j)) as u32 == 25u32);
                } else if j == 1 {
                    assert((5 * (5 - j)) as u32 == 20u32);
                } else if j == 2 {
                    assert((5 * (5 - j)) as u32 == 15u32);
                } else if j == 3 {
                    assert((5 * (5 - j)) as u32 == 10u32);
                } else if j == 4 {
                    assert((5 * (5 - j)) as u32 == 5u32);
                } else {
                    assert((5 * (5 - j)) as u32 == 0u32);
                    assert((pm >> 0u32) == pm) by (bit_vector);
                }
            }
        }
        assert(full@ =~= data@ + cs);
        assert forall|t: int| 0 <= t < full@.len() implies #[trigger] full@[t] < 32 by {
            if t >= dn {
                assert(full@[t] == cs[t - dn]);
                lemma_mask5(pm, (5 * (5 - (t - dn))) as u32);
            }
        }
    }
    let table = b32_table();
    let mut out: Vec<u8> = Vec::new();
    let mut i5: usize = 0;
    while i5 < hn
        invariant
            i5 <= hn,
            hn == hrp@.len(),
            out@.len() == i5,
            forall|t: int| 0 <= t < i5 ==> #[trigger] out@[t] == hrp@[t],
        decreases hn - i5,
    {
        out.push(hrp[i5]);
        i5 = i5 + 1;
    }
    out.push(49);
    let fn_len = full.len();
    let mut i6: usize = 0;
    while i6 < fn_len
        invariant
            i6 <= fn_len,
            fn_len == full@.len(),
            hn == hrp@.len(),
            table@ == charset32(),
            forall|t: int| 0 <= t < full@.len() ==> #[trigger] full@[t] < 32,
            out@.len() == hn + 1 + i6,
            forall|t: int| 0 <= t < hn ==> #[trigger] out@[t] == hrp@[t],
            out@[hn as int] == 49,
            forall|t: int|
                0 <= t < i6 ==> #[trigger] out@[hn + 1 + t] == charset32()[full@[t] as int],
        decreases fn_len - i6,
    {
        let d = full[i6];
        out.push(table[d as usize]);
        i6 = i6 + 1;
    }
    proof {
        let bo = bech32_of(hrp@, data@);
        let mapped = (data@ + cs).map(|i: int, d: u8| charset32()[d as int]);
        assert(bo.len() == hn + 1 + (dn + 6));
        assert forall|u: int| 0 <= u < out@.len() implies out@[u] == bo[u] by {
            if u < hn {
                assert(bo[u] == hrp@[u]);
            } else if u == hn {
                assert(bo[u] == 49);
            } else {
                let t = u - hn - 1;
                assert(out@[hn + 1 + (u - hn - 1)] == charset32()[full@[u - hn - 1] as int]);
                assert(bo[u] == mapped[t]);
                assert(mapped[t] == charset32()[(data@ + cs)[t] as int]);
                assert((data@ + cs)[t] == full@[t]);
            }
        }
        assert(out@ =~= bo);
        assert(out@.subrange(0, hrp@.len() as int) =~= hrp@);
        assert forall|u: int| #![trigger out@[u]] 0 <= u < out@.len() implies 33 <= out@[u]
            <= 126 by {
            if u < hn {
                assert(33 <= hrp@[u] <= 126);
            } else if u > hn {
                assert(out@[hn + 1 + (u - hn - 1)] == charset32()[full@[u - hn - 1] as int]);
                assert(full@[u - hn - 1] < 32);
                lemma_charset32_bound(full@[u - hn - 1] as int);
            }
        }
    }
    out
}

} // verus!
