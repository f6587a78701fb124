use vstd::prelude::*;

verus! {

/// 2^k, defined recursively so proofs can unfold it.
pub open spec fn p2(k: nat) -> nat
    decreases k,
{
    if k == 0 {
        1
    } else {
        2 * p2((k - 1) as nat)
    }
}

/// The k-bit big-endian expansion of n % 2^k (first element is the most
/// significant bit).
pub open spec fn bits_exp(n: nat, k: nat) -> Seq<bool>
    decreases k,
{
    if k == 0 {
        Seq::empty()
    } else {
        bits_exp(n / 2, (k - 1) as nat).push(n % 2 == 1)
    }
}

/// The value of a big-endian bit string.
pub open spec fn bits_val(s: Seq<bool>) -> nat
    decreases s.len(),
{
    if s.len() == 0 {
        0
    } else {
        bits_val(s.drop_last()) * 2 + (if s.last() {
            1nat
        } else {
            0nat
        })
    }
}

/// All bits of a byte string, each byte most-significant-bit first.
pub open spec fn bits_of_bytes(s: Seq<u8>) -> Seq<bool>
    decreases s.len(),
{
    if s.len() == 0 {
        Seq::empty()
    } else {
        bits_of_bytes(s.drop_last()) + bits_exp(s.last() as nat, 8)
    }
}

/// The bytes whose bits make up a bit string (one byte per eight bits).
pub open spec fn bytes_of_bits(b: Seq<bool>) -> Seq<u8> {
    Seq::new(b.len() / 8, |j: int| bits_val(b.subrange(8 * j, 8 * j + 8)) as u8)
}

pub proof fn lemma_p2_mono(a: nat, b: nat)
    requires
        a <= b,
    ensures
        p2(a) <= p2(b),
    decreases b,
{
    if a < b {
        lemma_p2_mono(a, (b - 1) as nat);
    }
}

pub proof fn lemma_bits_val_bound(s: Seq<bool>)
    ensures
        bits_val(s) < p2(s.len()),
    decreases s.len(),
{
    if s.len() > 0 {
        lemma_bits_val_bound(s.drop_last());
    }
}

/// Expanding a bit string's value at its own width gives the string back.
pub proof fn lemma_bits_exp_val(s: Seq<bool>)
    ensures
        bits_exp(bits_val(s), s.len()) == s,
    decreases s.len(),
{
    if s.len() == 0 {
        assert(bits_exp(bits_val(s), s.len()) =~= s);
    } else {
        lemma_bits_exp_val(s.drop_last());
        let n = bits_val(s);
        assert(n / 2 == bits_val(s.drop_last())) by {
            if s.last() {
                assert(n == bits_val(s.drop_last()) * 2 + 1);
            } else {
                assert(n == bits_val(s.drop_last()) * 2);
            }
        }
        assert(n % 2 == 1 <==> s.last());
        assert(bits_exp(n, s.len()) =~= s);
    }
}

pub proof fn lemma_bits_exp_index(n: nat, k: nat)
    ensures
        bits_exp(n, k).len() == k,
        forall|i: int| 0 <= i < k ==> bits_exp(n, k)[i] == ((n / p2((k - 1 - i) as nat)) % 2 == 1),
    decreases k,
{
    if k > 0 {
        lemma_bits_exp_index(n / 2, (k - 1) as nat);
        assert forall|i: int| 0 <= i < k implies bits_exp(n, k)[i] == ((n / p2((k - 1 - i) as nat))
            % 2 == 1) by {
            if i < k - 1 {
                assert(bits_exp(n, k)[i] == bits_exp(n / 2, (k - 1) as nat)[i]);
                assert(n / 2 / p2((k - 2 - i) as nat) == n / p2((k - 1 - i) as nat)) by {
                    lemma_p2_mono(0, (k - 2 - i) as nat);
                    vstd::arithmetic::div_mod::lemma_div_denominator(
                        n as int,
                        2,
                        p2((k - 2 - i) as nat) as int,
                    );
                    assert(2 * p2((k - 2 - i) as nat) == p2((k - 1 - i) as nat));
                }
            } else {
                assert(p2(0) == 1);
                vstd::arithmetic::div_mod::lemma_div_basics(n as int);
            }
        }
    }
}

/// The value of a width-k expansion of n is n itself when n fits.
pub proof fn lemma_val_bits_exp(n: nat, k: nat)
    requires
        n < p2(k),
    ensures
        bits_val(bits_exp(n, k)) == n,
    decreases k,
{
    if k == 0 {
    } else {
        assert(n / 2 < p2((k - 1) as nat)) by {
            vstd::arithmetic::div_mod::lemma_fundamental_div_mod(n as int, 2);
        }
        lemma_val_bits_exp(n / 2, (k - 1) as nat);
        let s = bits_exp(n, k);
        assert(s.drop_last() =~= bits_exp(n / 2, (k - 1) as nat));
        assert(s.last() == (n % 2 == 1));
        vstd::arithmetic::div_mod::lemma_fundamental_div_mod(n as int, 2);
    }
}

/// The eight bits at positions [8j, 8j+8) are exactly byte j's bits.
pub proof fn lemma_bits_of_bytes_chunk(s: Seq<u8>, j: int)
    requires
        0 <= j < s.len(),
    ensures
        bits_of_bytes(s).subrange(8 * j, 8 * j + 8) == bits_exp(s[j] as nat, 8),
    decreases s.len(),
{
    lemma_bits_of_bytes_len(s);
    lemma_bits_of_bytes_len(s.drop_last());
    lemma_bits_exp_index(s.last() as nat, 8);
    let a = bits_of_bytes(s.drop_last());
    let b = bits_exp(s.last() as nat, 8);
    if j == s.len() - 1 {
        assert forall|t: int|
            #![trigger bits_of_bytes(s).subrange(8 * j, 8 * j + 8)[t]]
            0 <= t < 8 implies bits_of_bytes(s).subrange(8 * j, 8 * j + 8)[t] == b[t] by {
            assert(bits_of_bytes(s)[8 * j + t] == (a + b)[a.len() + t]);
        }
        assert(bits_of_bytes(s).subrange(8 * j, 8 * j + 8) =~= b);
    } else {
        lemma_bits_of_bytes_chunk(s.drop_last(), j);
        assert forall|t: int|
            #![trigger bits_of_bytes(s).subrange(8 * j, 8 * j + 8)[t]]
            0 <= t < 8 implies bits_of_bytes(s).subrange(8 * j, 8 * j + 8)[t] == a.subrange(
            8 * j,
            8 * j + 8,
        )[t] by {
            assert(bits_of_bytes(s)[8 * j + t] == (a + b)[8 * j + t]);
        }
        assert(bits_of_bytes(s).subrange(8 * j, 8 * j + 8) =~= a.subrange(8 * j, 8 * j + 8));
        assert(s.drop_last()[j] == s[j]);
    }
}

/// Reassembling the bits of a byte string gives the byte string back.
pub proof fn lemma_bytes_of_bits_of_bytes(s: Seq<u8>)
    ensures
        bytes_of_bits(bits_of_bytes(s)) == s,
{
    lemma_bits_of_bytes_len(s);
    let b = bits_of_bytes(s);
    assert(b.len() / 8 == s.len());
    assert forall|j: int| 0 <= j < s.len() implies bytes_of_bits(b)[j] == s[j] by {
        lemma_bits_of_bytes_chunk(s, j);
        assert(p2(8) == 256) by {
            reveal_with_fuel(p2, 9);
        }
        lemma_val_bits_exp(s[j] as nat, 8);
    }
    assert(bytes_of_bits(b) =~= s);
}

pub proof fn lemma_bits_of_bytes_len(s: Seq<u8>)
    ensures
        bits_of_bytes(s).len() == s.len() * 8,
    decreases s.len(),
{
    if s.len() > 0 {
        lemma_bits_of_bytes_len(s.drop_last());
        lemma_bits_exp_index(s.last() as nat, 8);
    }
}

/// Appending one byte appends its eight bits.
pub proof fn lemma_bits_of_bytes_push(s: Seq<u8>, b: u8)
    ensures
        bits_of_bytes(s.push(b)) == bits_of_bytes(s) + bits_exp(b as nat, 8),
{
    assert(s.push(b).drop_last() =~= s);
    assert(s.push(b).last() == b);
}

/// Appends the eight bits of one byte, most significant first.
#[verifier::rlimit(60)]
fn push_byte_bits(r: &mut Vec<bool>, b: u8)
    ensures
        final(r)@ == old(r)@ + bits_exp(b as nat, 8),
{
    let ghost prev = r@;
    proof {
        lemma_bits_exp_index(b as nat, 8);
        assert(p2(7) == 128 && p2(6) == 64 && p2(5) == 32 && p2(4) == 16 && p2(3) == 8 && p2(2)
            == 4 && p2(1) == 2 && p2(0) == 1) by {
            reveal_with_fuel(p2, 9);
        }
        assert(b as nat / 1 == b as nat) by {
            vstd::arithmetic::div_mod::lemma_div_basics(b as int);
        }
    }
    r.push(b / 128 % 2 == 1);
    r.push(b / 64 % 2 == 1);
    r.push(b / 32 % 2 == 1);
    r.push(b / 16 % 2 == 1);
    r.push(b / 8 % 2 == 1);
    r.push(b / 4 % 2 == 1);
    r.push(b / 2 % 2 == 1);
    r.push(b % 2 == 1);
    proof {
        assert(r@ =~= prev + bits_exp(b as nat, 8));
    }
}

/// Appends the eleven bits of a mnemonic word index, most significant first.
#[verifier::rlimit(100)]
pub fn push_bits_11(r: &mut Vec<bool>, v: u16)
    requires
        v < 2048,
    ensures
        final(r)@ == old(r)@ + bits_exp(v as nat, 11),
{
    let ghost prev = r@;
    proof {
        lemma_bits_exp_index(v as nat, 11);
        assert(p2(10) == 1024 && p2(9) == 512 && p2(8) == 256 && p2(7) == 128 && p2(6) == 64 && p2(
            5,
        ) == 32 && p2(4) == 16 && p2(3) == 8 && p2(2) == 4 && p2(1) == 2 && p2(0) == 1) by {
            reveal_with_fuel(p2, 12);
        }
        assert(v as nat / 1 == v as nat) by {
            vstd::arithmetic::div_mod::lemma_div_basics(v as int);
        }
    }
    r.push(v / 1024 % 2 == 1);
    r.push(v / 512 % 2 == 1);
    r.push(v / 256 % 2 == 1);
    r.push(v / 128 % 2 == 1);
    r.push(v / 64 % 2 == 1);
    r.push(v / 32 % 2 == 1);
    r.push(v / 16 % 2 == 1);
    r.push(v / 8 % 2 == 1);
    r.push(v / 4 % 2 == 1);
    r.push(v / 2 % 2 == 1);
    r.push(v % 2 == 1);
    proof {
        assert(r@ =~= prev + bits_exp(v as nat, 11));
    }
}

/// All the bits of a byte string, each byte most-significant-bit first.
pub fn bytes_to_bits(v: &Vec<u8>) -> (r: Vec<bool>)
    ensures
        r@ == bits_of_bytes(v@),
{
    let mut r: Vec<bool> = Vec::new();
    let n = v.len();
    let mut i: usize = 0;
    proof {
        assert(v@.take(0) =~= Seq::<u8>::empty());
    }
    while i < n
        invariant
            i <= n,
            n == v@.len(),
            r@ == bits_of_bytes(v@.take(i as int)),
        decreases n - i,
    {
        let b = v[i];
        proof {
            lemma_bits_of_bytes_push(v@.take(i as int), b);
            assert(v@.take(i as int).push(b) =~= v@.take(i + 1));
        }
        push_byte_bits(&mut r, b);
        i = i + 1;
    }
    proof {
        assert(v@.take(n as int) =~= v@);
    }
    r
}

/// The value of the n-bit group starting at `start`, big-endian.
pub fn bits_range_val(bits: &Vec<bool>, start: usize, n: usize) -> (r: u16)
    requires
        start + n <= bits@.len(),
        n <= 11,
    ensures
        r as nat == bits_val(bits@.subrange(start as int, start as int + n as int)),
        r < p2(n as nat),
{
    let len: usize = bits.len();
    let mut r: u16 = 0;
    let mut k: usize = 0;
    proof {
        assert(bits@.subrange(start as int, start as int) =~= Seq::<bool>::empty());
    }
    while k < n
        invariant
            k <= n,
            n <= 11,
            len == bits@.len(),
            start + n <= len,
            r as nat == bits_val(bits@.subrange(start as int, start as int + k as int)),
            r < p2(k as nat),
        decreases n - k,
    {
        let ghost pre = bits@.subrange(start as int, start as int + k as int);
        let b = bits[start + k];
        proof {
            lemma_p2_mono(k as nat, 10);
            assert(p2(10) == 1024) by {
                reveal_with_fuel(p2, 11);
            }
            assert(bits@.subrange(start as int, start as int + k as int + 1) =~= pre.push(b));
            assert(pre.push(b).drop_last() =~= pre);
            assert(bits_val(pre.push(b)) == bits_val(pre) * 2 + (if b {
                1nat
            } else {
                0nat
            }));
        }
        r = r * 2 + (if b {
            1
        } else {
            0
        });
        k = k + 1;
    }
    r
}

/// Reassembles bytes from a bit string whose length is a multiple of eight.
pub fn bits_to_bytes(bits: &Vec<bool>) -> (r: Vec<u8>)
    requires
        bits@.len() % 8 == 0,
    ensures
        r@.len() * 8 == bits@.len(),
        bits_of_bytes(r@) == bits@,
        r@ == bytes_of_bits(bits@),
{
    let mut r: Vec<u8> = Vec::new();
    let total: usize = bits.len();
    let n: usize = total / 8;
    let mut j: usize = 0;
    proof {
        assert(bits@.subrange(0, 0) =~= Seq::<bool>::empty());
        vstd::arithmetic::div_mod::lemma_fundamental_div_mod(total as int, 8);
    }
    while j < n
        invariant
            j <= n,
            total == bits@.len(),
            8 * n == total,
            r@.len() == j,
            bits_of_bytes(r@) == bits@.subrange(0, 8 * j as int),
            forall|t: int| 0 <= t < j ==> r@[t] == bytes_of_bits(bits@)[t],
        decreases n - j,
    {
        let ghost chunk = bits@.subrange(8 * j as int, 8 * j as int + 8);
        let v = bits_range_val(bits, 8 * j, 8);
        proof {
            assert(p2(8) == 256) by {
                reveal_with_fuel(p2, 9);
            }
            lemma_bits_exp_val(chunk);
        }
        let b = v as u8;
        proof {
            lemma_bits_of_bytes_push(r@, b);
            assert(bits_of_bytes(r@.push(b)) =~= bits@.subrange(0, 8 * (j + 1) as int));
        }
        r.push(b);
        j = j + 1;
    }
    proof {
        assert(bits@.subrange(0, 8 * n as int) =~= bits@);
        assert(r@ =~= bytes_of_bits(bits@));
    }
    r
}

/// A copy of the bytes in [a, b).
pub fn bytes_range(v: &Vec<u8>, a: usize, b: usize) -> (r: Vec<u8>)
    requires
        a <= b <= v@.len(),
    ensures
        r@ == v@.subrange(a as int, b as int),
{
    let mut r: Vec<u8> = Vec::new();
    let mut i: usize = a;
    proof {
        assert(v@.subrange(a as int, a as int) =~= Seq::<u8>::empty());
    }
    while i < b
        invariant
            a <= i <= b <= v@.len(),
            r@ == v@.subrange(a as int, i as int),
        decreases b - i,
    {
        proof {
            assert(v@.subrange(a as int, i + 1) =~= v@.subrange(a as int, i as int).push(
                v@[i as int],
            ));
        }
        r.push(v[i]);
        i = i + 1;
    }
    r
}

/// A copy of the bits in [a, b).
pub fn bools_sub(v: &Vec<bool>, a: usize, b: usize) -> (r: Vec<bool>)
    requires
        a <= b <= v@.len(),
    ensures
        r@ == v@.subrange(a as int, b as int),
{
    let mut r: Vec<bool> = Vec::new();
    let mut i: usize = a;
    proof {
        assert(v@.subrange(a as int, a as int) =~= Seq::<bool>::empty());
    }
    while i < b
        invariant
            a <= i <= b <= v@.len(),
            r@ == v@.subrange(a as int, i as int),
        decreases b - i,
    {
        proof {
            assert(v@.subrange(a as int, i + 1) =~= v@.subrange(a as int, i as int).push(
                v@[i as int],
            ));
        }
        r.push(v[i]);
        i = i + 1;
    }
    r
}

} // verus!
