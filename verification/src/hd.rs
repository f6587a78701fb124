use vstd::prelude::*;

verus! {

use crate::bits::bytes_range;
use crate::curve::{
    be_nat, curve_order, is_zero_be, lemma_be_nat_bound, lemma_be_nat_inj, lemma_nat_bytes_val,
    nat_bytes, pk_compressed_of, pubkey_compressed, scalar_add_mod, scalar_in_order, scalar_valid,
};
use crate::errors::WalletError;
use crate::hashes::{hmac_sha512, hmac_sha512_of, ripemd160, ripemd160_of, sha256, sha256_of};
use crate::path::PathStep;

/// An HD tree node: a private scalar, a chain code, a depth counter and the
/// fingerprint of the parent public key (zero at the root). The depth
/// saturates at 255.
pub struct ExtendedKey {
    pub key: Vec<u8>,
    pub chain_code: Vec<u8>,
    pub depth: u8,
    pub parent_fingerprint: Vec<u8>,
}

impl ExtendedKey {
    pub open spec fn wf(&self) -> bool {
        scalar_valid(self.key@) && self.chain_code@.len() == 32 && self.parent_fingerprint@.len()
            == 4
    }
}

/// The fixed HMAC key that turns a seed into the master node.
pub open spec fn bitcoin_seed_key() -> Seq<u8> {
    seq![66u8, 105u8, 116u8, 99u8, 111u8, 105u8, 110u8, 32u8, 115u8, 101u8, 101u8, 100u8]
}

pub open spec fn master_key_spec(seed: Seq<u8>) -> Seq<u8> {
    hmac_sha512_of(bitcoin_seed_key(), seed).take(32)
}

pub open spec fn master_cc_spec(seed: Seq<u8>) -> Seq<u8> {
    hmac_sha512_of(bitcoin_seed_key(), seed).skip(32)
}

/// A seed is accepted exactly when its master scalar is nonzero and below
/// the group order.
pub open spec fn master_ok(seed: Seq<u8>) -> bool {
    scalar_valid(master_key_spec(seed))
}

/// The first four bytes of the hash160 of a node's compressed public key.
pub open spec fn fingerprint_of(k: Seq<u8>) -> Seq<u8> {
    ripemd160_of(sha256_of(pk_compressed_of(k))).take(4)
}

/// The HMAC input deriving a child: for a hardened child a zero byte, the
/// parent scalar and the index with its top bit set; otherwise the parent's
/// compressed public key and the plain index, both big-endian.
pub open spec fn child_data(k: Seq<u8>, index: u32, hardened: bool) -> Seq<u8> {
    if hardened {
        seq![0u8] + k + nat_bytes(index as nat + 0x80000000, 4)
    } else {
        pk_compressed_of(k) + nat_bytes(index as nat, 4)
    }
}

pub open spec fn child_i(k: Seq<u8>, cc: Seq<u8>, index: u32, hardened: bool) -> Seq<u8> {
    hmac_sha512_of(cc, child_data(k, index, hardened))
}

/// The child scalar value: the HMAC's left half plus the parent scalar,
/// modulo the group order.
pub open spec fn child_val(k: Seq<u8>, cc: Seq<u8>, index: u32, hardened: bool) -> nat {
    (be_nat(child_i(k, cc, index, hardened).take(32)) + be_nat(k)) % curve_order()
}

/// A child exists exactly when the HMAC's left half is below the group
/// order and the child scalar is nonzero.
pub open spec fn child_ok(k: Seq<u8>, cc: Seq<u8>, index: u32, hardened: bool) -> bool {
    be_nat(child_i(k, cc, index, hardened).take(32)) < curve_order() && child_val(
        k,
        cc,
        index,
        hardened,
    ) != 0
}

pub open spec fn child_key_spec(k: Seq<u8>, cc: Seq<u8>, index: u32, hardened: bool) -> Seq<u8> {
    nat_bytes(child_val(k, cc, index, hardened), 32)
}

pub open spec fn child_cc_spec(k: Seq<u8>, cc: Seq<u8>, index: u32, hardened: bool) -> Seq<u8> {
    child_i(k, cc, index, hardened).skip(32)
}

/// The key and chain code reached by walking the path steps in order, and
/// None as soon as one step has no child.
pub open spec fn path_spec(k: Seq<u8>, cc: Seq<u8>, steps: Seq<PathStep>) -> Option<
    (Seq<u8>, Seq<u8>),
>
    decreases steps.len(),
{
    if steps.len() == 0 {
        Some((k, cc))
    } else {
        let st = steps[0];
        if st.index < 0x80000000 && child_ok(k, cc, st.index, st.hardened) {
            path_spec(
                child_key_spec(k, cc, st.index, st.hardened),
                child_cc_spec(k, cc, st.index, st.hardened),
                steps.skip(1),
            )
        } else {
            None
        }
    }
}

/// The four big-endian bytes of a 32-bit integer.
pub fn be32_bytes(x: u32) -> (r: Vec<u8>)
    ensures
        r@ == nat_bytes(x as nat, 4),
{
    let mut r: Vec<u8> = Vec::new();
    r.push(((x / 16777216) % 256) as u8);
    r.push(((x / 65536) % 256) as u8);
    r.push(((x / 256) % 256) as u8);
    r.push((x % 256) as u8);
    proof {
        vstd::arithmetic::div_mod::lemma_div_denominator(x as int, 256, 256);
        vstd::arithmetic::div_mod::lemma_div_denominator(x as int, 65536, 256);
        assert(x as nat / 256 / 256 == x as nat / 65536);
        assert(x as nat / 65536 / 256 == x as nat / 16777216);
        assert(x as nat / 16777216 / 256 == 0) by {
            assert(x as nat / 16777216 < 256);
        }
        reveal_with_fuel(nat_bytes, 6);
        assert(r@ =~= nat_bytes(x as nat, 4));
    }
    r
}

/// A copy of a byte vector.
pub fn copy_bytes(v: &Vec<u8>) -> (r: Vec<u8>)
    ensures
        r@ == v@,
{
    let r = bytes_range(v, 0, v.len());
    proof {
        assert(v@.subrange(0, v@.len() as int) =~= v@);
    }
    r
}

/// The master node of a seed: HMAC-SHA512 under the fixed key, left half
/// the master scalar (rejected when zero or not below the group order),
/// right half the chain code.
pub fn master_from_seed(seed: &Vec<u8>) -> (r: Option<ExtendedKey>)
    ensures
        r is Some <==> master_ok(seed@),
        r is Some ==> {
            let ek = r.unwrap();
            &&& ek.wf()
            &&& ek.key@ == master_key_spec(seed@)
            &&& ek.chain_code@ == master_cc_spec(seed@)
            &&& ek.depth == 0
            &&& ek.parent_fingerprint@ == seq![0u8, 0u8, 0u8, 0u8]
        },
{
    let mut bk: Vec<u8> = Vec::new();
    bk.push(66);
    bk.push(105);
    bk.push(116);
    bk.push(99);
    bk.push(111);
    bk.push(105);
    bk.push(110);
    bk.push(32);
    bk.push(115);
    bk.push(101);
    bk.push(101);
    bk.push(100);
    proof {
        assert(bk@ =~= bitcoin_seed_key());
    }
    let i_full = hmac_sha512(&bk, seed);
    let il = bytes_range(&i_full, 0, 32);
    let ir = bytes_range(&i_full, 32, 64);
    proof {
        assert(il@ =~= master_key_spec(seed@));
        assert(ir@ =~= master_cc_spec(seed@));
    }
    if !scalar_in_order(&il) || is_zero_be(&il) {
        return None;
    }
    let mut fp: Vec<u8> = Vec::new();
    fp.push(0);
    fp.push(0);
    fp.push(0);
    fp.push(0);
    proof {
        assert(fp@ =~= seq![0u8, 0u8, 0u8, 0u8]);
    }
    Some(ExtendedKey { key: il, chain_code: ir, depth: 0, parent_fingerprint: fp })
}

/// One child-derivation step, hardened or not. None exactly when the HMAC's
/// left half is out of range or the child scalar would be zero.
pub fn derive_child(parent: &ExtendedKey, index: u32, hardened: bool) -> (r: Option<ExtendedKey>)
    requires
        parent.wf(),
        index < 0x80000000,
    ensures
        r is Some <==> child_ok(parent.key@, parent.chain_code@, index, hardened),
        r is Some ==> {
            let c = r.unwrap();
            &&& c.wf()
            &&& c.key@ == child_key_spec(parent.key@, parent.chain_code@, index, hardened)
            &&& c.chain_code@ == child_cc_spec(parent.key@, parent.chain_code@, index, hardened)
            &&& c.depth == (if parent.depth == 255 {
                255u8
            } else {
                (parent.depth + 1) as u8
            })
            &&& c.parent_fingerprint@ == fingerprint_of(parent.key@)
        },
{
    let ghost pk0 = parent.key@;
    let ghost cc0 = parent.chain_code@;
    let mut data: Vec<u8> = Vec::new();
    if hardened {
        data.push(0);
        let mut kc = copy_bytes(&parent.key);
        data.append(&mut kc);
        let mut ib = be32_bytes(index + 0x80000000);
        data.append(&mut ib);
        proof {
            assert(data@ =~= child_data(pk0, index, true));
        }
    } else {
        let mut pkc = pubkey_compressed(&parent.key);
        data.append(&mut pkc);
        let mut ib = be32_bytes(index);
        data.append(&mut ib);
        proof {
            assert(data@ =~= child_data(pk0, index, false));
        }
    }
    let i_full = hmac_sha512(&parent.chain_code, &data);
    let il = bytes_range(&i_full, 0, 32);
    let ir = bytes_range(&i_full, 32, 64);
    proof {
        assert(il@ =~= child_i(pk0, cc0, index, hardened).take(32));
        assert(ir@ =~= child_cc_spec(pk0, cc0, index, hardened));
    }
    if !scalar_in_order(&il) {
        return None;
    }
    let ck = scalar_add_mod(&il, &parent.key);
    if is_zero_be(&ck) {
        return None;
    }
    proof {
        lemma_be_nat_bound(ck@);
        lemma_nat_bytes_val(child_val(pk0, cc0, index, hardened), 32);
        lemma_be_nat_inj(ck@, child_key_spec(pk0, cc0, index, hardened));
    }
    let pkc = pubkey_compressed(&parent.key);
    let h1 = sha256(&pkc);
    let h2 = ripemd160(&h1);
    let fp = bytes_range(&h2, 0, 4);
    proof {
        assert(fp@ =~= fingerprint_of(pk0));
    }
    let depth: u8 = if parent.depth == 255 {
        255
    } else {
        parent.depth + 1
    };
    Some(ExtendedKey { key: ck, chain_code: ir, depth, parent_fingerprint: fp })
}

/// Appending one step walks one more child from wherever the path led.
proof fn lemma_path_spec_snoc(k: Seq<u8>, cc: Seq<u8>, ss: Seq<PathStep>, st: PathStep)
    ensures
        path_spec(k, cc, ss.push(st)) == (match path_spec(k, cc, ss) {
            Some(kc) => {
                if st.index < 0x80000000 && child_ok(kc.0, kc.1, st.index, st.hardened) {
                    Some(
                        (
                            child_key_spec(kc.0, kc.1, st.index, st.hardened),
                            child_cc_spec(kc.0, kc.1, st.index, st.hardened),
                        ),
                    )
                } else {
                    None::<(Seq<u8>, Seq<u8>)>
                }
            },
            None => None::<(Seq<u8>, Seq<u8>)>,
        }),
    decreases ss.len(),
{
    reveal_with_fuel(path_spec, 3);
    if ss.len() == 0 {
        assert(ss =~= Seq::<PathStep>::empty());
        assert(ss.push(st)[0] == st);
        assert(ss.push(st).skip(1) =~= Seq::<PathStep>::empty());
    } else {
        let s0 = ss[0];
        assert(ss.push(st)[0] == s0);
        assert(ss.push(st).skip(1) =~= ss.skip(1).push(st));
        if s0.index < 0x80000000 && child_ok(k, cc, s0.index, s0.hardened) {
            lemma_path_spec_snoc(
                child_key_spec(k, cc, s0.index, s0.hardened),
                child_cc_spec(k, cc, s0.index, s0.hardened),
                ss.skip(1),
                st,
            );
        }
    }
}

/// Walks a parsed path from the master node. The first failing step aborts
/// the walk, and the error carries that step's 1-based position: the
/// prefix before it still derives, the prefix through it does not (stated
/// for paths whose length the 32-bit report can carry).
pub fn derive_path(master: &ExtendedKey, steps: &Vec<PathStep>) -> (r: Result<
    ExtendedKey,
    WalletError,
>)
    requires
        master.wf(),
    ensures
        match r {
            Ok(ek) => {
                &&& ek.wf()
                &&& path_spec(master.key@, master.chain_code@, steps@) == Some(
                    (ek.key@, ek.chain_code@),
                )
            },
            Err(e) => {
                &&& path_spec(master.key@, master.chain_code@, steps@) is None
                &&& e matches WalletError::DerivationFailure(_)
                &&& (e matches WalletError::DerivationFailure(j) ==> (steps@.len() <= 0xFFFFFFFF
                    ==> {
                    &&& 1 <= j <= steps@.len()
                    &&& path_spec(
                        master.key@,
                        master.chain_code@,
                        steps@.take(j as int - 1),
                    ) is Some
                    &&& path_spec(master.key@, master.chain_code@, steps@.take(j as int)) is None
                }))
            },
        },
{
    let ghost mk = master.key@;
    let ghost mc = master.chain_code@;
    let mut cur = ExtendedKey {
        key: copy_bytes(&master.key),
        chain_code: copy_bytes(&master.chain_code),
        depth: master.depth,
        parent_fingerprint: copy_bytes(&master.parent_fingerprint),
    };
    let n = steps.len();
    let mut i: usize = 0;
    proof {
        assert(steps@.skip(0) =~= steps@);
        assert(steps@.take(0) =~= Seq::<PathStep>::empty());
    }
    while i < n
        invariant
            i <= n,
            n == steps@.len(),
            mk == master.key@,
            mc == master.chain_code@,
            cur.wf(),
            path_spec(mk, mc, steps@) == path_spec(cur.key@, cur.chain_code@, steps@.skip(i as int)),
            path_spec(mk, mc, steps@.take(i as int)) == Some((cur.key@, cur.chain_code@)),
        decreases n - i,
    {
        let st = steps[i];
        proof {
            assert(steps@.skip(i as int)[0] == steps@[i as int]);
            assert(steps@.skip(i as int).skip(1) =~= steps@.skip(i + 1));
            lemma_path_spec_snoc(mk, mc, steps@.take(i as int), st);
            assert(steps@.take(i as int).push(st) =~= steps@.take(i + 1));
        }
        let step_no: u32 = if i < 0xFFFFFFFFusize {
            (i + 1) as u32
        } else {
            0
        };
        if st.index >= 0x80000000 {
            return Err(WalletError::DerivationFailure(step_no));
        }
        match derive_child(&cur, st.index, st.hardened) {
            Some(c) => {
                cur = c;
            },
            None => {
                return Err(WalletError::DerivationFailure(step_no));
            },
        }
        i = i + 1;
    }
    proof {
        assert(steps@.skip(n as int) =~= Seq::<PathStep>::empty());
    }
    Ok(cur)
}

} // verus!
