use vstd::prelude::*;

verus! {

/// One step of a derivation path: a 31-bit child index, optionally hardened.
#[derive(Clone, Copy, Debug, PartialEq, Eq, Structural)]
pub struct PathStep {
    pub index: u32,
    pub hardened: bool,
}

/// The separators the path syntax tolerates between segments.
pub open spec fn is_sep(c: u8) -> bool {
    c == 47 || c == 46
}

pub open spec fn is_digit(c: u8) -> bool {
    48 <= c <= 57
}

/// The decimal value of a digit string.
pub open spec fn dec_val(s: Seq<u8>) -> nat
    decreases s.len(),
{
    if s.len() == 0 {
        0
    } else {
        dec_val(s.drop_last()) * 10 + (if is_digit(s.last()) {
            (s.last() - 48) as nat
        } else {
            0nat
        })
    }
}

/// The index of the first separator, or -1 when there is none.
pub open spec fn find_sep(s: Seq<u8>) -> int
    decreases s.len(),
{
    if s.len() == 0 {
        -1
    } else if is_sep(s[0]) {
        0
    } else {
        let r = find_sep(s.skip(1));
        if r < 0 {
            -1
        } else {
            r + 1
        }
    }
}

/// The separator-split segments of a byte string.
pub open spec fn split_segs(s: Seq<u8>) -> Seq<Seq<u8>>
    decreases s.len(),
{
    let f = find_sep(s);
    if f < 0 || f >= s.len() {
        seq![s]
    } else {
        seq![s.take(f)] + split_segs(s.skip(f + 1))
    }
}

/// The digits of a segment, with a trailing apostrophe stripped.
pub open spec fn seg_digits(seg: Seq<u8>) -> Seq<u8> {
    if seg.len() > 0 && seg.last() == 39 {
        seg.drop_last()
    } else {
        seg
    }
}

pub open spec fn seg_hardened(seg: Seq<u8>) -> bool {
    seg.len() > 0 && seg.last() == 39
}

/// A segment is one or more digits, optionally marked hardened, whose
/// value fits in 31 bits.
pub open spec fn seg_valid(seg: Seq<u8>) -> bool {
    &&& seg_digits(seg).len() > 0
    &&& (forall|i: int| 0 <= i < seg_digits(seg).len() ==> is_digit(#[trigger] seg_digits(seg)[i]))
    &&& dec_val(seg_digits(seg)) < 0x80000000
}

pub open spec fn seg_step(seg: Seq<u8>) -> PathStep {
    PathStep { index: dec_val(seg_digits(seg)) as u32, hardened: seg_hardened(seg) }
}

/// The path body after a conventional leading "m" (alone or followed by a
/// separator) is stripped.
pub open spec fn strip_m(s: Seq<u8>) -> Seq<u8> {
    if s.len() >= 1 && s[0] == 109 {
        if s.len() == 1 {
            Seq::empty()
        } else if is_sep(s[1]) {
            s.skip(2)
        } else {
            s
        }
    } else {
        s
    }
}

/// What path parsing yields: the steps of a well-formed path, and None on
/// malformed syntax or an index out of the 31-bit range. An empty body
/// stands for the master key itself.
pub open spec fn parse_path_spec(s: Seq<u8>) -> Option<Seq<PathStep>> {
    let body = strip_m(s);
    if body.len() == 0 {
        Some(Seq::empty())
    } else {
        let segs = split_segs(body);
        if forall|i: int| 0 <= i < segs.len() ==> seg_valid(#[trigger] segs[i]) {
            Some(Seq::new(segs.len(), |i: int| seg_step(segs[i])))
        } else {
            None
        }
    }
}

pub proof fn lemma_find_sep(s: Seq<u8>)
    ensures
        find_sep(s) == -1 ==> forall|i: int| 0 <= i < s.len() ==> !is_sep(#[trigger] s[i]),
        find_sep(s) >= 0 ==> 0 <= find_sep(s) < s.len() && is_sep(s[find_sep(s)]) && (forall|i: int|
            0 <= i < find_sep(s) ==> !is_sep(#[trigger] s[i])),
    decreases s.len(),
{
    if s.len() > 0 && !is_sep(s[0]) {
        lemma_find_sep(s.skip(1));
        let r = find_sep(s.skip(1));
        assert(forall|i: int| 0 <= i < s.skip(1).len() ==> #[trigger] s.skip(1)[i] == s[i + 1]);
        if r < 0 {
            assert(find_sep(s) == -1);
            assert forall|i: int| 0 <= i < s.len() implies !is_sep(s[i]) by {
                if i > 0 {
                    assert(!is_sep(s.skip(1)[i - 1]));
                }
            }
        } else {
            assert(find_sep(s) == r + 1);
            assert(is_sep(s.skip(1)[r]));
            assert forall|i: int| 0 <= i < r + 1 implies !is_sep(s[i]) by {
                if i > 0 {
                    assert(!is_sep(s.skip(1)[i - 1]));
                }
            }
        }
    }
}

/// A longer digit string never has a smaller value.
pub proof fn lemma_dec_val_prefix(s: Seq<u8>, j: int)
    requires
        0 <= j <= s.len(),
    ensures
        dec_val(s.take(j)) <= dec_val(s),
    decreases s.len() - j,
{
    if j < s.len() {
        lemma_dec_val_prefix(s, j + 1);
        assert(s.take(j + 1).drop_last() =~= s.take(j));
        assert(dec_val(s.take(j + 1)) >= dec_val(s.take(j)) * 10);
    } else {
        assert(s.take(j) =~= s);
    }
}

/// Parses one path segment.
fn parse_seg(seg: &Vec<u8>) -> (r: Option<PathStep>)
    ensures
        r is Some <==> seg_valid(seg@),
        r is Some ==> r.unwrap() == seg_step(seg@),
{
    let n = seg.len();
    let hardened = n > 0 && seg[n - 1] == 39;
    let dn: usize = if hardened {
        n - 1
    } else {
        n
    };
    let ghost digits = seg_digits(seg@);
    proof {
        assert(digits =~= seg@.take(dn as int));
    }
    if dn == 0 {
        return None;
    }
    let mut acc: u64 = 0;
    let mut i: usize = 0;
    proof {
        assert(digits.take(0) =~= Seq::<u8>::empty());
    }
    while i < dn
        invariant
            0 <= i <= dn,
            dn <= n,
            n == seg@.len(),
            digits == seg_digits(seg@),
            digits.len() == dn,
            digits == seg@.take(dn as int),
            acc as nat == dec_val(digits.take(i as int)),
            acc < 0x80000000,
            forall|t: int| 0 <= t < i ==> is_digit(#[trigger] digits[t]),
        decreases dn - i,
    {
        let c = seg[i];
        proof {
            assert(digits[i as int] == seg@[i as int]);
            assert(digits.take(i + 1).drop_last() =~= digits.take(i as int));
            assert(digits.take(i + 1).last() == digits[i as int]);
        }
        if !(48 <= c && c <= 57) {
            return None;
        }
        acc = acc * 10 + ((c - 48) as u64);
        if acc >= 0x80000000 {
            proof {
                lemma_dec_val_prefix(digits, i + 1);
            }
            return None;
        }
        i = i + 1;
    }
    proof {
        assert(digits.take(dn as int) =~= digits);
    }
    Some(PathStep { index: acc as u32, hardened })
}

/// Splits a byte string at its separators, starting at `from`.
fn split_segs_from(s: &Vec<u8>, from: usize) -> (r: Vec<Vec<u8>>)
    requires
        from <= s@.len(),
    ensures
        r@.len() == split_segs(s@.skip(from as int)).len(),
        forall|i: int|
            0 <= i < r@.len() ==> #[trigger] r@[i]@ == split_segs(s@.skip(from as int))[i],
    decreases s@.len() - from,
{
    let ghost suffix = s@.skip(from as int);
    let n = s.len();
    let mut i: usize = from;
    while i < n && s[i] != 47 && s[i] != 46
        invariant
            from <= i <= n,
            n == s@.len(),
            forall|t: int| from <= t < i ==> !is_sep(#[trigger] s@[t]),
        decreases n - i,
    {
        i = i + 1;
    }
    proof {
        lemma_find_sep(suffix);
        assert(forall|t: int| 0 <= t < suffix.len() ==> #[trigger] suffix[t] == s@[from + t]);
    }
    let tok = crate::bits::bytes_range(s, from, i);
    if i == n {
        proof {
            assert(find_sep(suffix) == -1) by {
                if find_sep(suffix) >= 0 {
                    assert(is_sep(suffix[find_sep(suffix)]));
                }
            }
            assert(tok@ =~= suffix);
            assert(split_segs(suffix) =~= seq![suffix]);
        }
        let mut out: Vec<Vec<u8>> = Vec::new();
        out.push(tok);
        out
    } else {
        proof {
            assert(is_sep(s@[i as int]));
            assert(is_sep(suffix[i - from]));
            assert(find_sep(suffix) == i - from) by {
                if find_sep(suffix) < 0 {
                    assert(!is_sep(suffix[i - from]));
                } else if find_sep(suffix) < i - from {
                    assert(!is_sep(s@[from + find_sep(suffix)]));
                    assert(is_sep(suffix[find_sep(suffix)]));
                } else if find_sep(suffix) > i - from {
                    assert(!is_sep(suffix[i - from]));
                }
            }
            assert(tok@ =~= suffix.take(i - from));
            assert(s@.skip(i + 1) =~= suffix.skip(i - from + 1));
        }
        let mut rest = split_segs_from(s, i + 1);
        let mut out: Vec<Vec<u8>> = Vec::new();
        out.push(tok);
        out.append(&mut rest);
        proof {
            assert(split_segs(suffix) == seq![suffix.take(i - from)] + split_segs(
                suffix.skip(i - from + 1),
            ));
        }
        out
    }
}

/// Parses a derivation path: an optional leading "m", then segments of
/// digits separated by '/' or '.', each optionally marked hardened by a
/// trailing apostrophe. Rejects malformed syntax and indices of 2^31 or
/// more before any derivation is attempted.
pub fn parse_path(s: &Vec<u8>) -> (r: Option<Vec<PathStep>>)
    ensures
        match r {
            Some(v) => parse_path_spec(s@) == Some(v@),
            None => parse_path_spec(s@) is None,
        },
{
    let n = s.len();
    let has_m = n >= 1 && s[0] == 109;
    let start: usize = if has_m {
        if n == 1 {
            1
        } else if s[1] == 47 || s[1] == 46 {
            2
        } else {
            0
        }
    } else {
        0
    };
    let ghost body = strip_m(s@);
    proof {
        assert(body =~= s@.skip(start as int));
    }
    if start >= n {
        proof {
            assert(body.len() == 0);
        }
        return Some(Vec::new());
    }
    if n == 0 {
        return Some(Vec::new());
    }
    let segs = split_segs_from(s, start);
    let ghost segs_spec = split_segs(body);
    let mut out: Vec<PathStep> = Vec::new();
    let mut i: usize = 0;
    let m = segs.len();
    while i < m
        invariant
            0 <= i <= m,
            m == segs@.len(),
            body == strip_m(s@),
            body.len() > 0,
            segs_spec == split_segs(body),
            segs@.len() == segs_spec.len(),
            forall|t: int| 0 <= t < segs@.len() ==> #[trigger] segs@[t]@ == segs_spec[t],
            out@.len() == i,
            forall|t: int| 0 <= t < i ==> seg_valid(#[trigger] segs_spec[t]),
            forall|t: int| 0 <= t < i ==> #[trigger] out@[t] == seg_step(segs_spec[t]),
        decreases m - i,
    {
        match parse_seg(&segs[i]) {
            Some(st) => {
                out.push(st);
            },
            None => {
                proof {
                    assert(0 <= i < split_segs(strip_m(s@)).len() && !seg_valid(
                        split_segs(strip_m(s@))[i as int],
                    ));
                    assert(strip_m(s@).len() > 0);
                    assert(parse_path_spec(s@) is None);
                }
                return None;
            },
        }
        i = i + 1;
    }
    proof {
        assert(body.len() > 0);
        assert(out@ =~= Seq::new(segs_spec.len(), |t: int| seg_step(segs_spec[t])));
    }
    Some(out)
}

} // verus!
