//! Canonical decimal numerals over bytes: writing a `u64` as ASCII digits
//! with no leading zero, and strictly parsing such a numeral back. Both
//! directions are pinned to the same digit-string specification, which makes
//! the encoding injective and round-trippable.

use vstd::prelude::*;

verus! {

/// ASCII decimal digit.
pub open spec fn is_digit(b: u8) -> bool {
    48 <= b <= 57
}

/// The canonical decimal numeral of `n`: its digits, most significant
/// first, with no leading zero (`0` itself is the single digit `0`).
pub open spec fn dec_str(n: nat) -> Seq<u8>
    decreases n,
{
    if n < 10 {
        seq![(48 + n) as u8]
    } else {
        dec_str(n / 10).push((48 + n % 10) as u8)
    }
}

/// The value of a digit string, most significant digit first.
pub open spec fn dec_val(s: Seq<u8>) -> int
    decreases s.len(),
{
    if s.len() == 0 {
        0
    } else {
        dec_val(s.drop_last()) * 10 + (s.last() - 48)
    }
}

/// Every byte of `s` is a decimal digit.
pub open spec fn all_digits(s: Seq<u8>) -> bool {
    forall|i: int| 0 <= i < s.len() ==> is_digit(#[trigger] s[i])
}

/// A canonical numeral: non-empty, all digits, and no leading zero except
/// for the single-digit numeral `0`.
pub open spec fn canonical_numeral(s: Seq<u8>) -> bool {
    &&& s.len() >= 1
    &&& all_digits(s)
    &&& (s.len() > 1 ==> s[0] != 48)
}

pub proof fn lemma_dec_str_canonical(n: nat)
    ensures
        canonical_numeral(dec_str(n)),
        n > 0 ==> dec_str(n)[0] != 48,
    decreases n,
{
    if n < 10 {
    } else {
        lemma_dec_str_canonical(n / 10);
        let s = dec_str(n);
        let p = dec_str(n / 10);
        assert(s == p.push((48 + n % 10) as u8));
        assert(forall|i: int| 0 <= i < p.len() ==> s[i] == p[i]);
        assert(is_digit(s[s.len() - 1]));
    }
}

pub proof fn lemma_dec_val_dec_str(n: nat)
    ensures
        dec_val(dec_str(n)) == n,
    decreases n,
{
    if n < 10 {
        assert(dec_str(n).drop_last() =~= Seq::<u8>::empty());
        assert(dec_val(Seq::<u8>::empty()) == 0);
    } else {
        lemma_dec_val_dec_str(n / 10);
        let s = dec_str(n);
        let p = dec_str(n / 10);
        assert(s.drop_last() =~= p);
        assert(s.last() == (48 + n % 10) as u8);
        assert(dec_val(s) == dec_val(p) * 10 + (s.last() - 48));
        assert(s.last() - 48 == n % 10);
        vstd::arithmetic::div_mod::lemma_fundamental_div_mod(n as int, 10);
    }
}

/// Two distinct values never share a numeral.
pub proof fn lemma_dec_str_injective(a: nat, b: nat)
    requires
        dec_str(a) == dec_str(b),
    ensures
        a == b,
{
    lemma_dec_val_dec_str(a);
    lemma_dec_val_dec_str(b);
}

proof fn lemma_dec_val_pos(s: Seq<u8>)
    requires
        s.len() >= 1,
        all_digits(s),
        s[0] != 48,
    ensures
        dec_val(s) >= 1,
    decreases s.len(),
{
    if s.len() == 1 {
        assert(s.drop_last() =~= Seq::<u8>::empty());
        assert(dec_val(Seq::<u8>::empty()) == 0);
        assert(is_digit(s[0]));
    } else {
        assert(all_digits(s.drop_last()) && s.drop_last()[0] == s[0]) by {
            assert(forall|i: int| 0 <= i < s.len() - 1 ==> s.drop_last()[i] == s[i]);
        }
        lemma_dec_val_pos(s.drop_last());
        assert(is_digit(s.last()));
    }
}

proof fn lemma_dec_val_nonneg(s: Seq<u8>)
    requires
        all_digits(s),
    ensures
        dec_val(s) >= 0,
    decreases s.len(),
{
    if s.len() > 0 {
        assert(all_digits(s.drop_last())) by {
            assert(forall|i: int| 0 <= i < s.len() - 1 ==> s.drop_last()[i] == s[i]);
        }
        lemma_dec_val_nonneg(s.drop_last());
        assert(is_digit(s.last()));
    }
}

/// A canonical numeral is the numeral of its own value.
pub proof fn lemma_dec_str_of_canonical(s: Seq<u8>)
    requires
        canonical_numeral(s),
    ensures
        dec_val(s) >= 0,
        dec_str(dec_val(s) as nat) == s,
    decreases s.len(),
{
    lemma_dec_val_nonneg(s);
    if s.len() == 1 {
        assert(s.drop_last() =~= Seq::<u8>::empty());
        assert(dec_val(Seq::<u8>::empty()) == 0);
        assert(is_digit(s[0]));
        assert(dec_val(s) == s[0] - 48);
        assert(dec_str(dec_val(s) as nat) =~= s);
    } else {
        let p = s.drop_last();
        assert(all_digits(p) && p[0] == s[0]) by {
            assert(forall|i: int| 0 <= i < s.len() - 1 ==> s.drop_last()[i] == s[i]);
        }
        lemma_dec_val_pos(p);
        lemma_dec_str_of_canonical(p);
        let v = dec_val(s);
        assert(is_digit(s.last()));
        assert(v == dec_val(p) * 10 + (s.last() - 48));
        assert(v >= 10);
        assert(v / 10 == dec_val(p) && v % 10 == s.last() - 48) by (nonlinear_arith)
            requires
                v == dec_val(p) * 10 + (s.last() - 48),
                dec_val(p) >= 1,
                0 <= s.last() - 48 <= 9,
        ;
        assert(dec_str(v as nat) == dec_str(dec_val(p) as nat).push((48 + v % 10) as u8));
        assert(dec_str(v as nat) =~= s);
    }
}

/// Appending digits never shrinks a digit string's value.
proof fn lemma_dec_val_prefix_le(s: Seq<u8>, k: int)
    requires
        all_digits(s),
        0 <= k <= s.len(),
    ensures
        dec_val(s.take(k)) <= dec_val(s),
    decreases s.len() - k,
{
    assert(all_digits(s.take(k))) by {
        assert(forall|i: int| 0 <= i < k ==> s.take(k)[i] == s[i]);
    }
    lemma_dec_val_nonneg(s.take(k));
    if k == s.len() {
        assert(s.take(k) =~= s);
    } else {
        lemma_dec_val_prefix_le(s, k + 1);
        assert(s.take(k + 1).drop_last() =~= s.take(k));
        assert(s.take(k + 1).last() == s[k]);
        assert(is_digit(s[k]));
        assert(dec_val(s.take(k + 1)) == dec_val(s.take(k)) * 10 + (s[k] - 48));
    }
}

/// Only one numeral, maximal against the byte that follows it, stands at
/// any one position: numerals at the same position have the same value and
/// the same end.
pub proof fn lemma_numeral_at_unique(s: Seq<u8>, from: int, v1: nat, j1: int, v2: nat, j2: int)
    requires
        0 <= from <= j1 <= s.len(),
        from <= j2 <= s.len(),
        s.subrange(from, j1) == dec_str(v1),
        j1 == s.len() || !is_digit(s[j1]),
        s.subrange(from, j2) == dec_str(v2),
        j2 == s.len() || !is_digit(s[j2]),
    ensures
        v1 == v2,
        j1 == j2,
{
    lemma_dec_str_canonical(v1);
    lemma_dec_str_canonical(v2);
    assert forall|t: int| from <= t < j1 implies is_digit(#[trigger] s[t]) by {
        assert(s.subrange(from, j1)[t - from] == s[t]);
        assert(is_digit(dec_str(v1)[t - from]));
    }
    assert forall|t: int| from <= t < j2 implies is_digit(#[trigger] s[t]) by {
        assert(s.subrange(from, j2)[t - from] == s[t]);
        assert(is_digit(dec_str(v2)[t - from]));
    }
    if j1 < j2 {
        assert(is_digit(s[j1]));
        assert(false);
    }
    if j2 < j1 {
        assert(is_digit(s[j2]));
        assert(false);
    }
    lemma_dec_str_injective(v1, v2);
}

/// Appends the canonical decimal numeral of `n` to `out`.
pub fn push_u64_dec(out: &mut Vec<u8>, n: u64)
    ensures
        final(out)@ == old(out)@ + dec_str(n as nat),
    decreases n,
{
    if n < 10 {
        out.push(48 + n as u8);
        assert(out@ =~= old(out)@ + dec_str(n as nat));
    } else {
        push_u64_dec(out, n / 10);
        out.push(48 + (n % 10) as u8);
        assert(out@ =~= old(out)@ + dec_str(n as nat));
    }
}

/// Strictly parses a canonical decimal numeral of a `u64` starting at
/// byte `from`: succeeds exactly when a canonical numeral that fits in a
/// `u64` stands there, maximal against the following byte, and returns its
/// value with the position just past it.
pub fn parse_u64_at(s: &Vec<u8>, from: usize) -> (r: Option<(u64, usize)>)
    requires
        from <= s@.len(),
    ensures
        r is Some ==> {
            let (v, j) = r.unwrap();
            &&& from < j <= s@.len()
            &&& s@.subrange(from as int, j as int) == dec_str(v as nat)
            &&& (j == s@.len() || !is_digit(s@[j as int]))
        },
        forall|v: u64, j: int|
            #![trigger s@.subrange(from as int, j), dec_str(v as nat)]
            from <= j <= s@.len() && s@.subrange(from as int, j) == dec_str(v as nat) && (j
                == s@.len() || !is_digit(s@[j])) ==> r == Some((v, j as usize)),
{
    let len = s.len();
    let ghost sv = s@;
    // Find the end of the digit run.
    let mut end: usize = from;
    while end < len
        invariant
            sv == s@,
            len == sv.len(),
            from <= end <= len,
            forall|i: int| from <= i < end ==> is_digit(#[trigger] sv[i]),
        ensures
            from <= end <= len,
            forall|i: int| from <= i < end ==> is_digit(#[trigger] sv[i]),
            end == len || !is_digit(sv[end as int]),
        decreases len - end,
    {
        let b = s[end];
        if !(48 <= b && b <= 57) {
            break ;
        }
        end += 1;
    }
    let ghost run = sv.subrange(from as int, end as int);
    assert(all_digits(run));
    proof {
        // Any valid numeral at `from` ends exactly at `end`.
        assert forall|v: u64, j: int|
            #![trigger sv.subrange(from as int, j), dec_str(v as nat)]
            from <= j <= sv.len() && sv.subrange(from as int, j) == dec_str(v as nat) && (j
                == sv.len() || !is_digit(sv[j])) implies j == end as int by {
            lemma_dec_str_canonical(v as nat);
            assert forall|t: int| from <= t < j implies is_digit(#[trigger] sv[t]) by {
                assert(sv.subrange(from as int, j)[t - from] == sv[t]);
                assert(is_digit(dec_str(v as nat)[t - from]));
            }
            if j < end as int {
                assert(is_digit(sv[j]));
            }
            if j > end as int {
                assert(is_digit(sv[end as int]));
            }
        }
    }
    if end == from {
        proof {
            assert forall|v: u64, j: int|
                #![trigger sv.subrange(from as int, j), dec_str(v as nat)]
                from <= j <= sv.len() && sv.subrange(from as int, j) == dec_str(v as nat) && (j
                    == sv.len() || !is_digit(sv[j])) implies false by {
                lemma_dec_str_canonical(v as nat);
            }
        }
        return None;
    }
    if s[from] == 48 && end > from + 1 {
        // A leading zero is canonical only for the single digit `0`.
        proof {
            assert forall|v: u64, j: int|
                #![trigger sv.subrange(from as int, j), dec_str(v as nat)]
                from <= j <= sv.len() && sv.subrange(from as int, j) == dec_str(v as nat) && (j
                    == sv.len() || !is_digit(sv[j])) implies false by {
                lemma_dec_str_canonical(v as nat);
                assert(dec_str(v as nat)[0] == sv[from as int]);
                assert(dec_str(v as nat).len() == end - from);
            }
        }
        return None;
    }
    // Accumulate the value, watching for overflow.
    let mut v: u64 = 0;
    let mut i: usize = from;
    while i < end
        invariant
            sv == s@,
            len == sv.len(),
            from <= i <= end <= len,
            forall|k: int| from <= k < end ==> is_digit(#[trigger] sv[k]),
            end == len || !is_digit(sv[end as int]),
            run == sv.subrange(from as int, end as int),
            v as int == dec_val(sv.subrange(from as int, i as int)),
        decreases end - i,
    {
        let d = s[i] - 48;
        assert(sv.subrange(from as int, i as int + 1).drop_last() =~= sv.subrange(
            from as int,
            i as int,
        ));
        assert(sv.subrange(from as int, i as int + 1).last() == sv[i as int]);
        if v > (u64::MAX - d as u64) / 10 {
            // The run's value exceeds `u64`, so no `u64` numeral stands here.
            proof {
                let pre = sv.subrange(from as int, i as int + 1);
                vstd::arithmetic::div_mod::lemma_fundamental_div_mod(
                    u64::MAX - d as u64 as int,
                    10,
                );
                assert(v * 10 + d > u64::MAX);
                assert(dec_val(pre) == v * 10 + d);
                assert(all_digits(run));
                assert forall|w: u64, j: int|
                    #![trigger sv.subrange(from as int, j), dec_str(w as nat)]
                    from <= j <= sv.len() && sv.subrange(from as int, j) == dec_str(w as nat) && (
                    j == sv.len() || !is_digit(sv[j])) implies false by {
                    lemma_dec_str_canonical(w as nat);
                    assert forall|t: int| from <= t < j implies is_digit(#[trigger] sv[t]) by {
                        assert(sv.subrange(from as int, j)[t - from] == sv[t]);
                        assert(is_digit(dec_str(w as nat)[t - from]));
                    }
                    if j < end as int {
                        assert(is_digit(sv[j]));
                    }
                    if j > end as int {
                        assert(is_digit(sv[end as int]));
                    }
                    assert(j == end as int);
                    assert(sv.subrange(from as int, j) == run);
                    lemma_dec_val_dec_str(w as nat);
                    assert(dec_val(run) == w);
                    assert(pre =~= run.take(i + 1 - from));
                    lemma_dec_val_prefix_le(run, i + 1 - from);
                }
            }
            return None;
        }
        v = v * 10 + d as u64;
        i += 1;
    }
    assert(run =~= sv.subrange(from as int, end as int));
    proof {
        assert(run[0] == sv[from as int]);
        assert(canonical_numeral(run));
        lemma_dec_str_of_canonical(run);
        assert(v as int == dec_val(run));
        assert(dec_str(v as nat) == run);
        assert forall|w: u64, j: int|
            #![trigger sv.subrange(from as int, j), dec_str(w as nat)]
            from <= j <= sv.len() && sv.subrange(from as int, j) == dec_str(w as nat) && (j
                == sv.len() || !is_digit(sv[j])) implies (w == v && j == end as int) by {
            assert(sv.subrange(from as int, j) == run);
            lemma_dec_str_injective(w as nat, v as nat);
        }
    }
    Some((v, end))
}

} // verus!
