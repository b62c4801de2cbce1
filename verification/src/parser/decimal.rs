//! ASCII decimal numerals, as bencode writes integers and string lengths.

use vstd::prelude::*;

verus! {

/// The ASCII digit `0`.
pub const ZERO: u8 = 0x30;

/// The ASCII digit `9`.
pub const NINE: u8 = 0x39;

/// The byte `-`, the sign of a negative integer.
pub const INTEGER_MINUS_SIGN: u8 = 0x2d;

/// `b` is one of the ASCII digits `0` to `9`.
pub open spec fn is_digit(b: u8) -> bool {
    ZERO <= b <= NINE
}

/// Every byte of `s` is an ASCII digit.
pub open spec fn all_digits(s: Seq<u8>) -> bool {
    forall|i: int| 0 <= i < s.len() ==> is_digit(#[trigger] s[i])
}

/// The number that the digit string `s` denotes, most significant digit first.
pub open spec fn digits_value(s: Seq<u8>) -> nat
    decreases s.len(),
{
    if s.len() == 0 {
        0
    } else {
        digits_value(s.drop_last()) * 10 + (s.last() - ZERO) as nat
    }
}

/// `s` is the shortest decimal numeral of a natural number: at least one
/// digit, and no leading zero unless the numeral is `0` itself.
pub open spec fn canonical_nat(s: Seq<u8>) -> bool {
    &&& s.len() >= 1
    &&& all_digits(s)
    &&& (s.len() > 1 ==> s[0] != ZERO)
}

/// The shortest decimal numeral of `n`.
pub open spec fn nat_text(n: nat) -> Seq<u8>
    decreases n,
{
    if n < 10 {
        seq![(ZERO + n) as u8]
    } else {
        nat_text(n / 10).push((ZERO + n % 10) as u8)
    }
}

/// `s` is the shortest decimal numeral of an integer: an optional minus sign
/// before a canonical natural numeral, where `-0` is excluded.
pub open spec fn canonical_int(s: Seq<u8>) -> bool {
    if s.len() > 0 && s[0] == INTEGER_MINUS_SIGN {
        canonical_nat(s.skip(1)) && s[1] != ZERO
    } else {
        canonical_nat(s)
    }
}

/// The integer that the signed numeral `s` denotes.
pub open spec fn int_value(s: Seq<u8>) -> int {
    if s.len() > 0 && s[0] == INTEGER_MINUS_SIGN {
        -(digits_value(s.skip(1)) as int)
    } else {
        digits_value(s) as int
    }
}

/// The shortest signed decimal numeral of `n`.
pub open spec fn int_text(n: int) -> Seq<u8> {
    if n < 0 {
        seq![INTEGER_MINUS_SIGN] + nat_text((-n) as nat)
    } else {
        nat_text(n as nat)
    }
}

/// A numeral with a digit appended denotes ten times the old number plus the digit.
pub proof fn lemma_digits_value_push(s: Seq<u8>, d: u8)
    ensures
        digits_value(s.push(d)) == digits_value(s) * 10 + (d - ZERO) as nat,
{
    assert(s.push(d).drop_last() =~= s);
}

/// A non-empty canonical numeral that is not `0` denotes a positive number,
/// and a numeral of `k` digits denotes at least `10^(k-1)`: here stated as
/// much as the codec needs, that the value of a longer numeral is at least 10.
pub proof fn lemma_canonical_value_bounds(s: Seq<u8>)
    requires
        canonical_nat(s),
    ensures
        s.len() > 1 ==> digits_value(s) >= 10,
        s.len() == 1 ==> digits_value(s) < 10,
        s[0] != ZERO ==> digits_value(s) >= 1,
    decreases s.len(),
{
    if s.len() == 1 {
        assert(s.drop_last().len() == 0);
        assert(digits_value(s.drop_last()) == 0);
    } else {
        let t = s.drop_last();
        assert(t[0] == s[0]);
        assert(canonical_nat(t)) by {
            assert forall|i: int| 0 <= i < t.len() implies is_digit(#[trigger] t[i]) by {
                assert(t[i] == s[i]);
            }
        }
        lemma_canonical_value_bounds(t);
    }
}

/// `nat_text` writes a canonical numeral, and that numeral denotes `n`.
pub proof fn lemma_nat_text_value(n: nat)
    ensures
        canonical_nat(nat_text(n)),
        digits_value(nat_text(n)) == n,
        n >= 1 ==> nat_text(n)[0] != ZERO,
    decreases n,
{
    if n < 10 {
        let s = nat_text(n);
        assert(s.len() == 1);
        assert(s.drop_last().len() == 0);
        assert(digits_value(s.drop_last()) == 0);
    } else {
        lemma_nat_text_value(n / 10);
        let t = nat_text(n / 10);
        let d = (ZERO + n % 10) as u8;
        lemma_digits_value_push(t, d);
        assert(nat_text(n) == t.push(d));
        assert(t.push(d)[0] == t[0]);
    }
}

/// A canonical numeral is the one that `nat_text` writes for its value.
pub proof fn lemma_canonical_nat_text(s: Seq<u8>)
    requires
        canonical_nat(s),
    ensures
        nat_text(digits_value(s)) == s,
    decreases s.len(),
{
    lemma_canonical_value_bounds(s);
    if s.len() == 1 {
        assert(s.drop_last().len() == 0);
        assert(digits_value(s.drop_last()) == 0);
        assert(nat_text(digits_value(s)) =~= s);
    } else {
        let t = s.drop_last();
        assert(t[0] == s[0]);
        assert(canonical_nat(t)) by {
            assert forall|i: int| 0 <= i < t.len() implies is_digit(#[trigger] t[i]) by {
                assert(t[i] == s[i]);
            }
        }
        lemma_canonical_nat_text(t);
        let v = digits_value(s);
        assert(is_digit(s.last()));
        assert(v / 10 == digits_value(t));
        assert(v % 10 == (s.last() - ZERO) as nat);
        assert(nat_text(v) == nat_text(v / 10).push((ZERO + v % 10) as u8));
        assert(t.push(s.last()) =~= s);
    }
}

/// Writing an integer and reading the numeral back gives the integer, and the
/// numeral written is canonical.
pub proof fn lemma_int_text_value(n: int)
    ensures
        canonical_int(int_text(n)),
        int_value(int_text(n)) == n,
{
    if n < 0 {
        let m = (-n) as nat;
        lemma_nat_text_value(m);
        let s = int_text(n);
        assert(s.skip(1) =~= nat_text(m));
        assert(s[1] == nat_text(m)[0]);
    } else {
        lemma_nat_text_value(n as nat);
        let s = nat_text(n as nat);
        assert(is_digit(s[0]));
    }
}

/// A canonical signed numeral is the one that `int_text` writes for its value.
pub proof fn lemma_canonical_int_text(s: Seq<u8>)
    requires
        canonical_int(s),
    ensures
        int_text(int_value(s)) == s,
{
    if s.len() > 0 && s[0] == INTEGER_MINUS_SIGN {
        let t = s.skip(1);
        lemma_canonical_nat_text(t);
        lemma_canonical_value_bounds(t);
        assert(t[0] == s[1]);
        assert(digits_value(t) >= 1);
        assert(seq![INTEGER_MINUS_SIGN] + t =~= s);
    } else {
        lemma_canonical_nat_text(s);
    }
}

/// The value of a numeral is at least the value of each of its prefixes.
pub proof fn lemma_digits_prefix_le(s: Seq<u8>, k: int)
    requires
        0 <= k <= s.len(),
    ensures
        digits_value(s.subrange(0, k)) <= digits_value(s),
    decreases s.len() - k,
{
    if k == s.len() {
        assert(s.subrange(0, k) =~= s);
    } else {
        lemma_digits_prefix_le(s.drop_last(), k);
        assert(s.drop_last().subrange(0, k) =~= s.subrange(0, k));
    }
}

/// Reads the digits `input[start..end]` as a number, or `None` when the
/// number does not fit in 64 bits.
pub fn read_decimal(input: &[u8], start: usize, end: usize) -> (r: Option<u64>)
    requires
        start <= end <= input.len(),
        all_digits(input@.subrange(start as int, end as int)),
    ensures
        r == if digits_value(input@.subrange(start as int, end as int)) <= u64::MAX {
            Some(digits_value(input@.subrange(start as int, end as int)) as u64)
        } else {
            None
        },
{
    let ghost text = input@.subrange(start as int, end as int);
    let mut acc: u64 = 0;
    let mut i: usize = start;
    assert(text.subrange(0, 0).len() == 0);
    while i < end
        invariant
            start <= i <= end <= input.len(),
            text == input@.subrange(start as int, end as int),
            all_digits(text),
            acc == digits_value(text.subrange(0, i - start)),
        decreases end - i,
    {
        let b: u8 = input[i];
        proof {
            assert(text[i - start] == b);
            assert(is_digit(text[i - start]));
            assert(text.subrange(0, i - start).push(b) =~= text.subrange(0, i + 1 - start));
            lemma_digits_value_push(text.subrange(0, i - start), b);
            lemma_digits_prefix_le(text, i + 1 - start);
        }
        let d: u64 = (b - ZERO) as u64;
        if acc > (u64::MAX - d) / 10 {
            return None;
        }
        acc = acc * 10 + d;
        i = i + 1;
    }
    assert(text.subrange(0, end - start) =~= text);
    Some(acc)
}

/// Appends the shortest decimal numeral of `n` to `out`.
pub fn push_decimal(out: &mut Vec<u8>, n: usize)
    ensures
        final(out)@ == old(out)@ + nat_text(n as nat),
    decreases n,
{
    if n >= 10 {
        push_decimal(out, n / 10);
    }
    let d: u8 = (n % 10) as u8;
    out.push(ZERO + d);
    proof {
        if n >= 10 {
            assert(final(out)@ =~= old(out)@ + nat_text((n / 10) as nat).push((ZERO + n % 10) as u8));
        } else {
            assert(final(out)@ =~= old(out)@ + seq![(ZERO + n) as u8]);
        }
    }
}

/// The value of a canonical signed numeral, or `None` when it lies outside
/// the range of a 64-bit signed integer.
pub fn decimal_to_i64(text: &[u8]) -> (r: Option<i64>)
    requires
        canonical_int(text@),
    ensures
        r == if i64::MIN <= int_value(text@) <= i64::MAX {
            Some(int_value(text@) as i64)
        } else {
            None
        },
{
    let negative: bool = text[0] == INTEGER_MINUS_SIGN;
    let start: usize = if negative { 1 } else { 0 };
    proof {
        if negative {
            assert(text@.subrange(1, text@.len() as int) =~= text@.skip(1));
        } else {
            assert(text@.subrange(0, text@.len() as int) =~= text@);
        }
    }
    match read_decimal(text, start, text.len()) {
        None => None,
        Some(magnitude) => {
            if negative {
                if magnitude > 0x8000_0000_0000_0000u64 {
                    None
                } else if magnitude == 0x8000_0000_0000_0000u64 {
                    Some(i64::MIN)
                } else {
                    Some(-(magnitude as i64))
                }
            } else if magnitude > 0x7fff_ffff_ffff_ffffu64 {
                None
            } else {
                Some(magnitude as i64)
            }
        },
    }
}

} // verus!
