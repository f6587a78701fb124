use vstd::prelude::*;

verus! {

use crate::bits::{
    lemma_bits_exp_val, lemma_bits_val_bound,
    bits_exp, bits_of_bytes, bits_range_val, bits_to_bytes, bits_val, bools_sub, bytes_of_bits,
    bytes_to_bits, lemma_bits_exp_index, lemma_bits_of_bytes_len, p2, push_bits_11,
};
use crate::hashes::{pbkdf2_sha512, pbkdf2_sha512_of, sha256, sha256_of};
use crate::words::{is_word, word_at, word_index, word_of};

/// Supported phrase lengths.
pub open spec fn valid_word_count(wc: int) -> bool {
    wc == 12 || wc == 15 || wc == 18 || wc == 21 || wc == 24
}

/// Supported entropy sizes in bytes (128 to 256 bits, multiples of 32 bits).
pub open spec fn valid_entropy_len(n: int) -> bool {
    n == 16 || n == 20 || n == 24 || n == 28 || n == 32
}

/// The checksum of an entropy string: the first len/4 bits of its SHA-256.
pub open spec fn checksum_bits(e: Seq<u8>) -> Seq<bool> {
    bits_of_bytes(sha256_of(e)).take(e.len() as int / 4)
}

/// The entropy bits followed by the checksum bits.
pub open spec fn mnemonic_bits(e: Seq<u8>) -> Seq<bool> {
    bits_of_bytes(e) + checksum_bits(e)
}

/// How many words encode n bytes of entropy (one word per 11 bits).
pub open spec fn word_count_of(n: int) -> int {
    (n * 8 + n / 4) / 11
}

/// The word indices of an entropy string: its checksummed bits, 11 at a time.
pub open spec fn indices_of_entropy(e: Seq<u8>) -> Seq<u16> {
    Seq::new(
        word_count_of(e.len() as int) as nat,
        |j: int| bits_val(mnemonic_bits(e).subrange(11 * j, 11 * j + 11)) as u16,
    )
}

/// The concatenation of the 11-bit expansions of a sequence of indices.
pub open spec fn concat_idx_bits(s: Seq<u16>) -> Seq<bool>
    decreases s.len(),
{
    if s.len() == 0 {
        Seq::empty()
    } else {
        concat_idx_bits(s.drop_last()) + bits_exp(s.last() as nat, 11)
    }
}

/// The index of the first space, or -1 when there is none.
pub open spec fn find_sp(s: Seq<u8>) -> int
    decreases s.len(),
{
    if s.len() == 0 {
        -1
    } else if s[0] == 32 {
        0
    } else {
        let r = find_sp(s.skip(1));
        if r < 0 {
            -1
        } else {
            r + 1
        }
    }
}

/// The space-separated parts of a byte string.
pub open spec fn split_sp(s: Seq<u8>) -> Seq<Seq<u8>>
    decreases s.len(),
{
    let f = find_sp(s);
    if f < 0 || f >= s.len() {
        seq![s]
    } else {
        seq![s.take(f)] + split_sp(s.skip(f + 1))
    }
}

/// The parts joined back with single spaces.
pub open spec fn join_words(ws: Seq<Seq<u8>>) -> Seq<u8>
    decreases ws.len(),
{
    if ws.len() == 0 {
        Seq::empty()
    } else if ws.len() == 1 {
        ws[0]
    } else {
        join_words(ws.drop_last()) + seq![32u8] + ws.last()
    }
}

/// The index a word stands for in the word list.
pub open spec fn widx(w: Seq<u8>) -> int {
    choose|i: int| 0 <= i < 2048 && word_of(i) == w
}

/// The phrase encoding an entropy string.
pub open spec fn phrase_of_entropy(e: Seq<u8>) -> Seq<u8> {
    join_words(indices_of_entropy(e).map(|j: int, i: u16| word_of(i as int)))
}

/// What validation yields: the entropy of a well-formed checksummed phrase,
/// and None on a bad word count, an unknown word or a checksum mismatch.
pub open spec fn validate_spec(s: Seq<u8>) -> Option<Seq<u8>> {
    let parts = split_sp(s);
    if !valid_word_count(parts.len() as int) {
        None
    } else if !(forall|p: int| 0 <= p < parts.len() ==> is_word(#[trigger] parts[p])) {
        None
    } else {
        let mbits = concat_idx_bits(Seq::new(parts.len(), |p: int| widx(parts[p]) as u16));
        let elen = (parts.len() as int / 3) * 4;
        let ebits = mbits.take(8 * elen);
        let e = bytes_of_bits(ebits);
        if bits_of_bytes(e) == ebits && mbits.skip(8 * elen) == checksum_bits(e) {
            Some(e)
        } else {
            None
        }
    }
}

/// The salt used for seed stretching: "mnemonic" then the passphrase.
pub open spec fn mnemonic_salt(pass: Seq<u8>) -> Seq<u8> {
    seq![109u8, 110u8, 101u8, 109u8, 111u8, 110u8, 105u8, 99u8] + pass
}

/// The 64-byte seed of a phrase and a passphrase: 2048 rounds of
/// PBKDF2-HMAC-SHA512.
pub open spec fn seed_of(phrase: Seq<u8>, pass: Seq<u8>) -> Seq<u8> {
    pbkdf2_sha512_of(phrase, mnemonic_salt(pass), 2048)
}

pub proof fn lemma_concat_idx_push(s: Seq<u16>, v: u16)
    ensures
        concat_idx_bits(s.push(v)) == concat_idx_bits(s) + bits_exp(v as nat, 11),
{
    assert(s.push(v).drop_last() =~= s);
    assert(s.push(v).last() == v);
}

pub proof fn lemma_find_sp(s: Seq<u8>)
    ensures
        find_sp(s) == -1 ==> forall|i: int| 0 <= i < s.len() ==> s[i] != 32,
        find_sp(s) >= 0 ==> 0 <= find_sp(s) < s.len() && s[find_sp(s)] == 32 && (forall|i: int|
            0 <= i < find_sp(s) ==> s[i] != 32),
    decreases s.len(),
{
    if s.len() > 0 && s[0] != 32 {
        lemma_find_sp(s.skip(1));
        let r = find_sp(s.skip(1));
        assert(forall|i: int| 0 <= i < s.skip(1).len() ==> #[trigger] s.skip(1)[i] == s[i + 1]);
        if r < 0 {
            assert(find_sp(s) == -1);
            assert forall|i: int| 0 <= i < s.len() implies s[i] != 32 by {
                if i > 0 {
                    assert(s.skip(1)[i - 1] != 32);
                }
            }
        } else {
            assert(find_sp(s) == r + 1);
            assert(s.skip(1)[r] == 32);
            assert forall|i: int| 0 <= i < r + 1 implies s[i] != 32 by {
                if i > 0 {
                    assert(s.skip(1)[i - 1] != 32);
                }
            }
        }
    }
}

/// Concatenating the 11-bit groups of a bit string gives the string back.
proof fn lemma_chunks_concat(b: Seq<bool>, k: nat)
    requires
        b.len() == 11 * k,
    ensures
        concat_idx_bits(Seq::new(k, |j: int| bits_val(b.subrange(11 * j, 11 * j + 11)) as u16))
            == b,
    decreases k,
{
    let s = Seq::new(k, |j: int| bits_val(b.subrange(11 * j, 11 * j + 11)) as u16);
    if k == 0 {
        assert(concat_idx_bits(s) =~= b);
    } else {
        let b0 = b.take(11 * (k - 1) as int);
        let s0 = Seq::new(
            (k - 1) as nat,
            |j: int| bits_val(b0.subrange(11 * j, 11 * j + 11)) as u16,
        );
        lemma_chunks_concat(b0, (k - 1) as nat);
        assert(s.drop_last() =~= s0) by {
            assert forall|j: int| 0 <= j < k - 1 implies s.drop_last()[j] == s0[j] by {
                assert(b0.subrange(11 * j, 11 * j + 11) =~= b.subrange(11 * j, 11 * j + 11));
            }
        }
        let chunk = b.subrange(11 * (k - 1) as int, 11 * k as int);
        lemma_bits_val_bound(chunk);
        assert(p2(11) == 2048) by {
            reveal_with_fuel(p2, 12);
        }
        lemma_bits_exp_val(chunk);
        assert(s.last() as nat == bits_val(chunk));
        assert(concat_idx_bits(s) == concat_idx_bits(s0) + bits_exp(s.last() as nat, 11));
        assert(concat_idx_bits(s) =~= b);
    }
}

/// Law: encoding round trip. The word indices of an entropy string carry
/// exactly its checksummed bits, and reassembling the leading bits gives
/// the entropy back; the digest is 32 bytes, as the hash ensures.
pub proof fn lemma_phrase_encoding_round_trip(e: Seq<u8>)
    requires
        valid_entropy_len(e.len() as int),
        sha256_of(e).len() == 32,
    ensures
        concat_idx_bits(indices_of_entropy(e)) == mnemonic_bits(e),
        bytes_of_bits(bits_of_bytes(e)) == e,
        mnemonic_bits(e).take(8 * e.len() as int) == bits_of_bytes(e),
{
    let n = e.len() as int;
    let mb = mnemonic_bits(e);
    lemma_bits_of_bytes_len(e);
    lemma_bits_of_bytes_len(sha256_of(e));
    let wc = word_count_of(n);
    assert(mb.len() == 11 * wc);
    lemma_chunks_concat(mb, wc as nat);
    assert(indices_of_entropy(e) =~= Seq::new(
        wc as nat,
        |j: int| bits_val(mb.subrange(11 * j, 11 * j + 11)) as u16,
    ));
    crate::bits::lemma_bytes_of_bits_of_bytes(e);
    assert(mb.take(8 * n) =~= bits_of_bytes(e));
}

/// Joining from the front: the first word, a space, then the rest.
proof fn lemma_join_front(ws: Seq<Seq<u8>>)
    requires
        ws.len() >= 2,
    ensures
        join_words(ws) == ws[0] + seq![32u8] + join_words(ws.skip(1)),
    decreases ws.len(),
{
    if ws.len() == 2 {
        assert(ws.drop_last() =~= seq![ws[0]]);
        assert(ws.skip(1) =~= seq![ws[1]]);
        assert(join_words(seq![ws[0]]) == ws[0]);
        assert(join_words(seq![ws[1]]) == ws[1]);
        assert(join_words(ws) =~= ws[0] + seq![32u8] + join_words(ws.skip(1)));
    } else {
        let wd = ws.drop_last();
        lemma_join_front(wd);
        assert(ws.skip(1).drop_last() =~= wd.skip(1));
        assert(ws.skip(1).last() == ws.last());
        assert(ws.skip(1).len() >= 2);
        assert(join_words(ws.skip(1)) == join_words(wd.skip(1)) + seq![32u8] + ws.last());
        assert(wd[0] == ws[0]);
        assert(join_words(ws) =~= ws[0] + seq![32u8] + join_words(ws.skip(1)));
    }
}

/// Splitting a joined phrase at its spaces gives back the words, when no
/// word is empty or holds a space.
proof fn lemma_split_join(ws: Seq<Seq<u8>>)
    requires
        ws.len() >= 1,
        forall|i: int| 0 <= i < ws.len() ==> (#[trigger] ws[i]).len() >= 1,
        forall|i: int, k: int|
            0 <= i < ws.len() && 0 <= k < ws[i].len() ==> #[trigger] ws[i][k] != 32,
    ensures
        split_sp(join_words(ws)) == ws,
    decreases ws.len(),
{
    let s = join_words(ws);
    lemma_find_sp(s);
    if ws.len() == 1 {
        assert(s == ws[0]);
        assert(find_sp(s) == -1) by {
            if find_sp(s) >= 0 {
                assert(ws[0][find_sp(s)] != 32);
            }
        }
        assert(split_sp(s) =~= ws);
    } else {
        lemma_join_front(ws);
        let w0 = ws[0];
        let rest = join_words(ws.skip(1));
        let f0 = w0.len() as int;
        assert(s.len() == f0 + 1 + rest.len());
        assert(s[f0] == 32) by {
            assert(s[f0] == (w0 + seq![32u8])[f0]);
        }
        assert forall|t: int| 0 <= t < f0 implies s[t] != 32 by {
            assert(s[t] == w0[t]);
            assert(ws[0][t] != 32);
        }
        assert(find_sp(s) == f0) by {
            if find_sp(s) < 0 {
                assert(s[f0] != 32);
            } else if find_sp(s) < f0 {
                assert(s[find_sp(s)] != 32);
            } else if find_sp(s) > f0 {
                assert(s[f0] != 32);
            }
        }
        assert(s.take(f0) =~= w0);
        assert(s.skip(f0 + 1) =~= rest);
        assert forall|i: int| 0 <= i < ws.skip(1).len() implies (#[trigger] ws.skip(1)[i]).len()
            >= 1 by {
            assert(ws.skip(1)[i] == ws[i + 1]);
        }
        assert forall|i: int, k: int|
            0 <= i < ws.skip(1).len() && 0 <= k < ws.skip(1)[i].len() implies #[trigger] ws.skip(
            1,
        )[i][k] != 32 by {
            assert(ws.skip(1)[i] == ws[i + 1]);
            assert(ws[i + 1][k] != 32);
        }
        lemma_split_join(ws.skip(1));
        assert(split_sp(s) == seq![w0] + split_sp(rest));
        assert(split_sp(s) =~= ws);
    }
}

/// Law: the phrase encoding an entropy value validates back to exactly
/// that value. The hypotheses name what the callers hold from the trusted
/// wrappers: the digest length, and each index's word being a nonempty
/// lowercase word that no other index shares.
pub proof fn lemma_phrase_validates(e: Seq<u8>)
    requires
        valid_entropy_len(e.len() as int),
        sha256_of(e).len() == 32,
        forall|t: int|
            0 <= t < indices_of_entropy(e).len() ==> word_fact(#[trigger] indices_of_entropy(e)[t]),
    ensures
        validate_spec(phrase_of_entropy(e)) == Some(e),
{
    let n = e.len() as int;
    let idxs = indices_of_entropy(e);
    let ws = idxs.map(|j: int, i: u16| word_of(i as int));
    let s = phrase_of_entropy(e);
    lemma_phrase_encoding_round_trip(e);
    lemma_bits_of_bytes_len(e);
    lemma_bits_of_bytes_len(sha256_of(e));
    let wc = word_count_of(n);
    assert(idxs.len() == wc);
    assert(valid_word_count(wc));
    assert forall|i: int| 0 <= i < ws.len() implies (#[trigger] ws[i]).len() >= 1 by {
        assert(word_fact(idxs[i]));
    }
    assert forall|i: int, k: int|
        0 <= i < ws.len() && 0 <= k < ws[i].len() implies #[trigger] ws[i][k] != 32 by {
        assert(word_fact(idxs[i]));
        assert(97 <= word_of(idxs[i] as int)[k] <= 122);
    }
    lemma_split_join(ws);
    assert(split_sp(s) == ws);
    assert forall|p: int| 0 <= p < ws.len() implies is_word(#[trigger] ws[p]) by {
        assert(word_fact(idxs[p]));
        lemma_bits_val_bound(mnemonic_bits(e).subrange(11 * p, 11 * p + 11));
        assert(p2(11) == 2048) by {
            reveal_with_fuel(p2, 12);
        }
        assert(idxs[p] == bits_val(mnemonic_bits(e).subrange(11 * p, 11 * p + 11)) as u16);
        assert(0 <= (idxs[p] as int) && (idxs[p] as int) < 2048 && word_of(idxs[p] as int)
            == ws[p]);
    }
    assert(Seq::new(ws.len(), |p: int| widx(ws[p]) as u16) =~= idxs) by {
        assert forall|p: int| 0 <= p < ws.len() implies widx(ws[p]) as u16 == idxs[p] by {
            assert(word_fact(idxs[p]));
        }
    }
    let mbits = concat_idx_bits(Seq::new(ws.len(), |p: int| widx(ws[p]) as u16));
    assert(mbits == mnemonic_bits(e));
    let elen = (wc / 3) * 4;
    assert(elen == n);
    let ebits = mbits.take(8 * elen);
    assert(ebits == bits_of_bytes(e));
    assert(bytes_of_bits(ebits) == e);
    assert(mbits.skip(8 * elen) =~= checksum_bits(e));
    assert(validate_spec(s) == Some(e));
}

/// The word indices encoding an entropy string, 11 checksummed bits each.
pub fn entropy_to_indices(e: &Vec<u8>) -> (r: Vec<u16>)
    requires
        valid_entropy_len(e@.len() as int),
    ensures
        r@ == indices_of_entropy(e@),
        r@.len() == word_count_of(e@.len() as int),
        forall|t: int| 0 <= t < r@.len() ==> #[trigger] r@[t] < 2048,
        sha256_of(e@).len() == 32,
{
    let elen = e.len();
    let cs: usize = elen / 4;
    let wc: usize = (elen * 8 + cs) / 11;
    let mut mb = bytes_to_bits(e);
    let h = sha256(e);
    let hb = bytes_to_bits(&h);
    proof {
        lemma_bits_of_bytes_len(e@);
        lemma_bits_of_bytes_len(h@);
    }
    let mut k: usize = 0;
    while k < cs
        invariant
            k <= cs,
            cs == e@.len() / 4,
            hb@ == bits_of_bytes(sha256_of(e@)),
            hb@.len() == 256,
            cs <= 8,
            mb@ == bits_of_bytes(e@) + hb@.take(k as int),
        decreases cs - k,
    {
        proof {
            assert(hb@.take(k as int).push(hb@[k as int]) =~= hb@.take(k + 1));
            assert((bits_of_bytes(e@) + hb@.take(k as int)).push(hb@[k as int]) =~= bits_of_bytes(
                e@,
            ) + hb@.take(k + 1));
        }
        mb.push(hb[k]);
        k = k + 1;
    }
    proof {
        assert(mb@ =~= mnemonic_bits(e@));
    }
    let mut r: Vec<u16> = Vec::new();
    let mut j: usize = 0;
    while j < wc
        invariant
            j <= wc,
            wc == word_count_of(e@.len() as int),
            valid_entropy_len(e@.len() as int),
            mb@ == mnemonic_bits(e@),
            mb@.len() == 11 * wc,
            r@.len() == j,
            forall|t: int| 0 <= t < j ==> r@[t] == indices_of_entropy(e@)[t],
            forall|t: int| 0 <= t < j ==> #[trigger] r@[t] < 2048,
        decreases wc - j,
    {
        let v = bits_range_val(&mb, 11 * j, 11);
        proof {
            assert(p2(11) == 2048) by {
                reveal_with_fuel(p2, 12);
            }
        }
        r.push(v);
        j = j + 1;
    }
    proof {
        assert(r@ =~= indices_of_entropy(e@));
    }
    r
}

/// The trusted shape of a word at a known index: nonempty lowercase
/// letters, and the unique word-list entry with those bytes.
pub open spec fn word_fact(i: u16) -> bool {
    let w = word_of(i as int);
    &&& w.len() >= 1
    &&& (forall|k: int| 0 <= k < w.len() ==> 97 <= #[trigger] w[k] <= 122)
    &&& widx(w) == i as int
}

/// The phrase spelling out a sequence of word indices, space separated.
pub fn indices_to_phrase(idx: &Vec<u16>) -> (r: Vec<u8>)
    requires
        forall|t: int| 0 <= t < idx@.len() ==> #[trigger] idx@[t] < 2048,
        idx@.len() >= 1,
    ensures
        r@ == join_words(idx@.map(|j: int, i: u16| word_of(i as int))),
        forall|t: int| 0 <= t < r@.len() ==> 32 <= #[trigger] r@[t] < 128,
        forall|t: int| 0 <= t < idx@.len() ==> word_fact(#[trigger] idx@[t]),
{
    let ghost target = idx@.map(|j: int, i: u16| word_of(i as int));
    let mut r: Vec<u8> = Vec::new();
    let mut j: usize = 0;
    let n = idx.len();
    while j < n
        invariant
            j <= n,
            n == idx@.len(),
            forall|t: int| 0 <= t < idx@.len() ==> #[trigger] idx@[t] < 2048,
            target == idx@.map(|jj: int, i: u16| word_of(i as int)),
            r@ == join_words(target.take(j as int)),
            forall|t: int| 0 <= t < r@.len() ==> 32 <= #[trigger] r@[t] < 128,
            forall|t: int| 0 <= t < j ==> word_fact(#[trigger] idx@[t]),
        decreases n - j,
    {
        let ghost pre = target.take(j as int);
        if j > 0 {
            r.push(32);
        }
        let mut w = word_at(idx[j]);
        proof {
            assert(target.take(j + 1).drop_last() =~= pre);
            assert(target.take(j + 1).last() == word_of(idx@[j as int] as int));
            assert(word_fact(idx@[j as int])) by {
                let i0 = idx@[j as int] as int;
                assert(0 <= i0 < 2048 && word_of(i0) == w@);
                let c = widx(word_of(i0));
                assert(0 <= c < 2048 && word_of(c) == w@);
                if c != i0 {
                    assert(word_of(c) != w@);
                }
            }
        }
        r.append(&mut w);
        j = j + 1;
    }
    proof {
        assert(target.take(n as int) =~= target);
    }
    r
}

/// One space-separated part: the bytes in [from, upto).
fn bytes_sub(v: &Vec<u8>, from: usize, upto: usize) -> (r: Vec<u8>)
    requires
        from <= upto <= v@.len(),
    ensures
        r@ == v@.subrange(from as int, upto as int),
{
    let mut r: Vec<u8> = Vec::new();
    let mut i: usize = from;
    proof {
        assert(v@.subrange(from as int, from as int) =~= Seq::<u8>::empty());
    }
    while i < upto
        invariant
            from <= i <= upto <= v@.len(),
            r@ == v@.subrange(from as int, i as int),
        decreases upto - i,
    {
        proof {
            assert(v@.subrange(from as int, i + 1) =~= v@.subrange(from as int, i as int).push(
                v@[i as int],
            ));
        }
        r.push(v[i]);
        i = i + 1;
    }
    r
}

/// Splits a byte string at its spaces, starting at `from`.
fn split_from(s: &Vec<u8>, from: usize) -> (r: Vec<Vec<u8>>)
    requires
        from <= s@.len(),
    ensures
        r@.len() == split_sp(s@.skip(from as int)).len(),
        forall|i: int| 0 <= i < r@.len() ==> #[trigger] r@[i]@ == split_sp(s@.skip(from as int))[i],
    decreases s@.len() - from,
{
    let ghost suffix = s@.skip(from as int);
    let n = s.len();
    let mut i: usize = from;
    while i < n && s[i] != 32
        invariant
            from <= i <= n,
            n == s@.len(),
            forall|t: int| from <= t < i ==> s@[t] != 32,
        decreases n - i,
    {
        i = i + 1;
    }
    proof {
        lemma_find_sp(suffix);
        assert(forall|t: int| 0 <= t < suffix.len() ==> suffix[t] == s@[from + t]);
    }
    let tok = bytes_sub(s, from, i);
    if i == n {
        proof {
            assert(find_sp(suffix) == -1) by {
                if find_sp(suffix) >= 0 {
                    assert(suffix[find_sp(suffix)] == 32);
                }
            }
            assert(tok@ =~= suffix);
        }
        let mut out: Vec<Vec<u8>> = Vec::new();
        out.push(tok);
        proof {
            assert(split_sp(suffix) =~= seq![suffix]);
        }
        out
    } else {
        proof {
            assert(s@[i as int] == 32);
            assert(suffix[i - from] == 32);
            assert(find_sp(suffix) == i - from) by {
                if find_sp(suffix) < 0 {
                    assert(suffix[i - from] != 32);
                } else if find_sp(suffix) < i - from {
                    assert(s@[from + find_sp(suffix)] != 32);
                    assert(suffix[find_sp(suffix)] == 32);
                } else if find_sp(suffix) > i - from {
                    assert(suffix[i - from] != 32);
                }
            }
            assert(tok@ =~= suffix.take(i - from));
            assert(s@.skip(i + 1) =~= suffix.skip(i - from + 1));
        }
        let mut rest = split_from(s, i + 1);
        let mut out: Vec<Vec<u8>> = Vec::new();
        out.push(tok);
        out.append(&mut rest);
        proof {
            assert(split_sp(suffix) == seq![suffix.take(i - from)] + split_sp(
                suffix.skip(i - from + 1),
            ));
        }
        out
    }
}

/// The space-separated parts of a byte string.
pub fn split_words(s: &Vec<u8>) -> (r: Vec<Vec<u8>>)
    ensures
        r@.len() == split_sp(s@).len(),
        forall|i: int| 0 <= i < r@.len() ==> #[trigger] r@[i]@ == split_sp(s@)[i],
{
    proof {
        assert(s@.skip(0) =~= s@);
    }
    split_from(s, 0)
}

/// Checks a phrase and recovers its entropy: the word count must be
/// supported, every word must be in the word list, and the embedded
/// checksum must match the entropy's SHA-256.
pub fn validate(s: &Vec<u8>) -> (r: Option<Vec<u8>>)
    ensures
        match r {
            Some(e) => validate_spec(s@) == Some(e@),
            None => validate_spec(s@) is None,
        },
{
    let ghost parts_spec = split_sp(s@);
    let parts = split_words(s);
    let wc = parts.len();
    if !(wc == 12 || wc == 15 || wc == 18 || wc == 21 || wc == 24) {
        return None;
    }
    let mut idxs: Vec<u16> = Vec::new();
    let mut p: usize = 0;
    while p < wc
        invariant
            p <= wc,
            wc == parts@.len(),
            parts_spec == split_sp(s@),
            parts@.len() == parts_spec.len(),
            forall|i: int| 0 <= i < parts@.len() ==> #[trigger] parts@[i]@ == parts_spec[i],
            idxs@.len() == p,
            forall|i: int| 0 <= i < p ==> is_word(#[trigger] parts_spec[i]),
            forall|i: int|
                0 <= i < p ==> #[trigger] idxs@[i] < 2048 && idxs@[i] as int == widx(parts_spec[i])
                    && word_of(idxs@[i] as int) == parts_spec[i],
        decreases wc - p,
    {
        match word_index(&parts[p]) {
            Some(i) => {
                proof {
                    assert(word_of(i as int) == parts_spec[p as int]);
                    assert(is_word(parts_spec[p as int]));
                    let c = widx(parts_spec[p as int]);
                    assert(0 <= c < 2048 && word_of(c) == parts_spec[p as int]);
                    assert(c == i as int);
                }
                idxs.push(i);
            },
            None => {
                proof {
                    assert(!is_word(parts_spec[p as int]));
                }
                return None;
            },
        }
        p = p + 1;
    }
    proof {
        assert(idxs@ =~= Seq::new(parts_spec.len(), |q: int| widx(parts_spec[q]) as u16));
    }
    let ghost mbits_spec = concat_idx_bits(
        Seq::new(parts_spec.len(), |q: int| widx(parts_spec[q]) as u16),
    );
    let mut mb: Vec<bool> = Vec::new();
    let mut j: usize = 0;
    while j < wc
        invariant
            j <= wc,
            wc == idxs@.len(),
            forall|i: int|
                0 <= i < idxs@.len() ==> #[trigger] idxs@[i] < 2048,
            mb@ == concat_idx_bits(idxs@.take(j as int)),
            mb@.len() == 11 * j,
        decreases wc - j,
    {
        proof {
            lemma_concat_idx_push(idxs@.take(j as int), idxs@[j as int]);
            assert(idxs@.take(j as int).push(idxs@[j as int]) =~= idxs@.take(j + 1));
            lemma_bits_exp_index(idxs@[j as int] as nat, 11);
        }
        push_bits_11(&mut mb, idxs[j]);
        j = j + 1;
    }
    proof {
        assert(idxs@.take(wc as int) =~= idxs@);
        assert(mb@ == mbits_spec);
    }
    let elen: usize = (wc / 3) * 4;
    let ebits = bools_sub(&mb, 0, 8 * elen);
    proof {
        assert(ebits@ =~= mbits_spec.take(8 * elen as int));
    }
    let e = bits_to_bytes(&ebits);
    let h = sha256(&e);
    let hb = bytes_to_bits(&h);
    proof {
        lemma_bits_of_bytes_len(h@);
    }
    let cs: usize = wc / 3;
    let mut k: usize = 0;
    let mut same: bool = true;
    while k < cs
        invariant
            k <= cs,
            cs == wc / 3,
            wc == parts_spec.len(),
            valid_word_count(wc as int),
            elen == (wc / 3) * 4,
            mb@ == mbits_spec,
            mb@.len() == 11 * wc,
            hb@ == bits_of_bytes(sha256_of(e@)),
            hb@.len() == 256,
            same == (forall|t: int| 0 <= t < k ==> mb@[8 * elen as int + t] == hb@[t]),
        decreases cs - k,
    {
        if mb[8 * elen + k] != hb[k] {
            same = false;
        }
        k = k + 1;
    }
    if same {
        proof {
            assert(mbits_spec.skip(8 * elen as int) =~= checksum_bits(e@));
            assert(validate_spec(s@) == Some(e@));
        }
        Some(e)
    } else {
        proof {
            let t = choose|t: int| 0 <= t < cs && mb@[8 * elen as int + t] != hb@[t];
            assert(mbits_spec.skip(8 * elen as int)[t] != checksum_bits(e@)[t]);
            assert(validate_spec(s@) is None);
        }
        None
    }
}

/// The 64-byte seed of a phrase and a passphrase, by key stretching.
pub fn to_seed(phrase: &Vec<u8>, pass: &Vec<u8>) -> (r: Vec<u8>)
    ensures
        r@ == seed_of(phrase@, pass@),
        r@.len() == 64,
{
    let mut salt: Vec<u8> = Vec::new();
    salt.push(109);
    salt.push(110);
    salt.push(101);
    salt.push(109);
    salt.push(111);
    salt.push(110);
    salt.push(105);
    salt.push(99);
    let mut i: usize = 0;
    let n = pass.len();
    let ghost prefix = salt@;
    while i < n
        invariant
            i <= n,
            n == pass@.len(),
            salt@ == prefix + pass@.take(i as int),
        decreases n - i,
    {
        proof {
            assert(prefix + pass@.take(i + 1) =~= (prefix + pass@.take(i as int)).push(
                pass@[i as int],
            ));
        }
        salt.push(pass[i]);
        i = i + 1;
    }
    proof {
        assert(salt@ =~= mnemonic_salt(pass@));
    }
    pbkdf2_sha512(phrase, &salt, 2048)
}

} // verus!
