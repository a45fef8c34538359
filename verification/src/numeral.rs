//! Decimal numerals on the wire.
//!
//! Every field of an encoded command is the base-10 digit string of a number,
//! written as ASCII bytes. This module defines what those digit strings are,
//! produces them, and parses them back, with proofs that printing and parsing
//! are mutually inverse.

use vstd::prelude::*;
use vstd::arithmetic::div_mod::lemma_fundamental_div_mod;

verus! {

pub open spec fn is_digit(b: u8) -> bool {
    48 <= b <= 57
}

/// The base-10 digit string of `n`, most significant digit first.
pub open spec fn dec_digits(n: nat) -> Seq<u8>
    decreases n,
{
    if n < 10 {
        seq![(48 + n) as u8]
    } else {
        dec_digits(n / 10).push((48 + n % 10) as u8)
    }
}

/// The number denoted by a digit string (reading every byte as a digit).
pub open spec fn digits_value(s: Seq<u8>) -> int
    decreases s.len(),
{
    if s.len() == 0 {
        0
    } else {
        digits_value(s.drop_last()) * 10 + (s.last() - 48)
    }
}

/// The base-10 digit string of `n`, as text.
pub open spec fn dec_chars(n: nat) -> Seq<char>
    decreases n,
{
    if n < 10 {
        seq![(48 + n) as char]
    } else {
        dec_chars(n / 10).push((48 + n % 10) as char)
    }
}

/// `dec_chars` is `dec_digits` read as text, character for character.
pub proof fn lemma_dec_chars(n: nat)
    ensures
        dec_chars(n).len() == dec_digits(n).len(),
        forall|j: int|
            0 <= j < dec_digits(n).len() ==> #[trigger] dec_chars(n)[j] == dec_digits(n)[j] as char,
    decreases n,
{
    if n < 10 {
    } else {
        lemma_dec_chars(n / 10);
        assert forall|j: int|
            0 <= j < dec_digits(n).len() implies #[trigger] dec_chars(n)[j] == dec_digits(
            n,
        )[j] as char by {
            if j < dec_digits(n / 10).len() {
                assert(dec_chars(n)[j] == dec_chars(n / 10)[j]);
                assert(dec_digits(n)[j] == dec_digits(n / 10)[j]);
            }
        }
    }
}

/// A well-formed numeral token: non-empty and all digits.
pub open spec fn is_dec_token(s: Seq<u8>) -> bool {
    s.len() > 0 && forall|j: int| 0 <= j < s.len() ==> is_digit(#[trigger] s[j])
}

pub open spec fn pow10(n: nat) -> nat
    decreases n,
{
    if n == 0 {
        1
    } else {
        10 * pow10((n - 1) as nat)
    }
}

/// What a numeral token parses to: its value, if it is well formed and fits.
pub open spec fn spec_parse_u64(s: Seq<u8>) -> Option<u64> {
    if is_dec_token(s) && digits_value(s) <= u64::MAX {
        Some(digits_value(s) as u64)
    } else {
        None
    }
}

pub open spec fn spec_parse_usize(s: Seq<u8>) -> Option<usize> {
    if is_dec_token(s) && digits_value(s) <= usize::MAX {
        Some(digits_value(s) as usize)
    } else {
        None
    }
}

/// The digit string of `n` is a well-formed token.
pub proof fn lemma_dec_digits_token(n: nat)
    ensures
        is_dec_token(dec_digits(n)),
        dec_digits(n).len() >= 1,
    decreases n,
{
    if n < 10 {
    } else {
        lemma_dec_digits_token(n / 10);
        let prev = dec_digits(n / 10);
        let whole = dec_digits(n);
        assert forall|j: int| 0 <= j < whole.len() implies is_digit(whole[j]) by {
            if j < prev.len() {
                assert(whole[j] == prev[j]);
            }
        }
    }
}

/// Printing then reading gives the number back.
pub proof fn lemma_dec_digits_value(n: nat)
    ensures
        digits_value(dec_digits(n)) == n,
    decreases n,
{
    if n < 10 {
        let s = dec_digits(n);
        assert(s.drop_last() =~= Seq::<u8>::empty());
        assert(s.last() == (48 + n) as u8);
        assert(digits_value(s) == digits_value(s.drop_last()) * 10 + (s.last() - 48));
    } else {
        lemma_dec_digits_value(n / 10);
        let prev = dec_digits(n / 10);
        let d = (48 + n % 10) as u8;
        assert(dec_digits(n).drop_last() =~= prev);
        assert(dec_digits(n).last() == d);
        assert(digits_value(dec_digits(n)) == digits_value(prev) * 10 + (d - 48));
        lemma_fundamental_div_mod(n as int, 10);
    }
}

/// A digit string of length `l` denotes a value below `pow10(l)`.
pub proof fn lemma_digits_value_bound(s: Seq<u8>)
    requires
        forall|j: int| 0 <= j < s.len() ==> is_digit(#[trigger] s[j]),
    ensures
        0 <= digits_value(s) < pow10(s.len()),
    decreases s.len(),
{
    if s.len() == 0 {
    } else {
        assert forall|j: int| 0 <= j < s.drop_last().len() implies is_digit(
            #[trigger] s.drop_last()[j],
        ) by {
            assert(s.drop_last()[j] == s[j]);
        }
        lemma_digits_value_bound(s.drop_last());
        assert(is_digit(s.last()));
    }
}

/// Reading a longer prefix of a digit string never shrinks the value.
pub proof fn lemma_digits_value_take_le(s: Seq<u8>, j: int)
    requires
        0 <= j <= s.len(),
        forall|k: int| 0 <= k < s.len() ==> is_digit(#[trigger] s[k]),
    ensures
        digits_value(s) >= digits_value(s.take(j)),
        digits_value(s.take(j)) >= 0,
    decreases s.len() - j,
{
    assert forall|k: int| 0 <= k < s.take(j).len() implies is_digit(#[trigger] s.take(j)[k]) by {
        assert(s.take(j)[k] == s[k]);
    }
    lemma_digits_value_bound(s.take(j));
    if j == s.len() {
        assert(s.take(j) =~= s);
    } else {
        lemma_digits_value_take_le(s, j + 1);
        assert(s.take(j + 1).drop_last() =~= s.take(j));
        assert(s.take(j + 1).last() == s[j]);
        assert(digits_value(s.take(j + 1)) == digits_value(s.take(j)) * 10 + (s[j] - 48));
    }
}

/// Leading zeros do not change the value of a digit string.
pub proof fn lemma_digits_value_leading_zeros(z: Seq<u8>, s: Seq<u8>)
    requires
        forall|j: int| 0 <= j < z.len() ==> #[trigger] z[j] == 48,
    ensures
        digits_value(z + s) == digits_value(s),
    decreases s.len(),
{
    if s.len() == 0 {
        assert(z + s =~= z);
        lemma_digits_value_zeros(z);
    } else {
        assert((z + s).drop_last() =~= z + s.drop_last());
        assert((z + s).last() == s.last());
        lemma_digits_value_leading_zeros(z, s.drop_last());
    }
}

/// A string of zero digits denotes zero.
pub proof fn lemma_digits_value_zeros(z: Seq<u8>)
    requires
        forall|j: int| 0 <= j < z.len() ==> #[trigger] z[j] == 48,
    ensures
        digits_value(z) == 0,
    decreases z.len(),
{
    if z.len() == 0 {
    } else {
        assert forall|j: int| 0 <= j < z.drop_last().len() implies #[trigger] z.drop_last()[j]
            == 48 by {
            assert(z.drop_last()[j] == z[j]);
        }
        lemma_digits_value_zeros(z.drop_last());
    }
}

/// `s` padded with leading zero digits to length `n` (or `s` itself if it is
/// already at least that long).
pub open spec fn zero_pad(s: Seq<u8>, n: nat) -> Seq<u8> {
    if s.len() >= n {
        s
    } else {
        Seq::new((n - s.len()) as nat, |i: int| 48u8) + s
    }
}

/// A number below `pow10(l)` has at most `l` digits.
pub proof fn lemma_dec_digits_len(n: nat, l: nat)
    requires
        l >= 1,
        n < pow10(l),
    ensures
        dec_digits(n).len() <= l,
    decreases n,
{
    if n < 10 {
    } else {
        lemma_fundamental_div_mod(n as int, 10);
        assert(pow10(l) == 10 * pow10((l - 1) as nat));
        assert(n / 10 < pow10((l - 1) as nat));
        lemma_dec_digits_len(n / 10, (l - 1) as nat);
    }
}

/// The digit string of `n`, as bytes.
pub fn u64_to_dec(n: u64) -> (r: Vec<u8>)
    ensures
        r@ == dec_digits(n as nat),
    decreases n,
{
    if n < 10 {
        let mut r: Vec<u8> = Vec::new();
        r.push(48 + n as u8);
        proof {
            assert(r@ =~= dec_digits(n as nat));
        }
        r
    } else {
        let mut r = u64_to_dec(n / 10);
        r.push(48 + (n % 10) as u8);
        r
    }
}

/// Parse a numeral token as a `u64`; `None` on a malformed token or overflow.
pub fn parse_u64(token: &[u8]) -> (r: Option<u64>)
    ensures
        r == spec_parse_u64(token@),
{
    let n = token.len();
    if n == 0 {
        return None;
    }
    let mut acc: u64 = 0;
    let mut i: usize = 0;
    while i < n
        invariant
            n == token@.len(),
            0 <= i <= n,
            forall|j: int| 0 <= j < i ==> is_digit(#[trigger] token@[j]),
            acc == digits_value(token@.take(i as int)),
        decreases n - i,
    {
        let b = token[i];
        if !(48 <= b && b <= 57) {
            return None;
        }
        let d = (b - 48) as u64;
        proof {
            assert(token@.take(i + 1).drop_last() =~= token@.take(i as int));
            assert(token@.take(i + 1).last() == token@[i as int]);
        }
        let widened = match acc.checked_mul(10) {
            Some(w) => w,
            None => {
                proof {
                    lemma_parse_overflow(token@, i as int);
                }
                return None;
            },
        };
        acc = match widened.checked_add(d) {
            Some(a) => a,
            None => {
                proof {
                    lemma_parse_overflow(token@, i as int);
                }
                return None;
            },
        };
        i = i + 1;
    }
    proof {
        assert(token@.take(n as int) =~= token@);
    }
    Some(acc)
}

/// If the value of the first `i + 1` bytes already exceeds `u64::MAX`,
/// no `u64` parse of the whole token can succeed.
proof fn lemma_parse_overflow(s: Seq<u8>, i: int)
    requires
        0 <= i < s.len(),
        forall|j: int| 0 <= j <= i ==> is_digit(#[trigger] s[j]),
        digits_value(s.take(i + 1)) > u64::MAX,
    ensures
        spec_parse_u64(s) is None,
{
    if is_dec_token(s) {
        lemma_digits_value_take_le(s, i + 1);
    }
}

/// Parse a numeral token as a `usize`; `None` on a malformed token or overflow.
pub fn parse_usize(token: &[u8]) -> (r: Option<usize>)
    ensures
        r == spec_parse_usize(token@),
{
    proof {
        if is_dec_token(token@) {
            lemma_digits_value_bound(token@);
        }
        assert(usize::MAX <= u64::MAX);
    }
    match parse_u64(token) {
        Some(v) => {
            if v <= usize::MAX as u64 {
                Some(v as usize)
            } else {
                None
            }
        },
        None => None,
    }
}

} // verus!
