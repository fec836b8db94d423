//! Decimal numbers as they stand on the wire: how a field of bytes is read as a
//! number, how a number is written, and that reading undoes writing.

use vstd::prelude::*;
use crate::bytes::{first_crlf, has_crlf, lemma_scan_crlf};

verus! {

/// The plus sign.
pub const PLUS: u8 = 43;

/// The minus sign.
pub const MINUS: u8 = 45;

/// The digit zero.
pub const ZERO: u8 = 48;

/// The digit nine.
pub const NINE: u8 = 57;

/// True for the ten decimal digits.
pub open spec fn is_digit(b: u8) -> bool {
    ZERO <= b <= NINE
}

/// True when every byte of `s` is a decimal digit.
pub open spec fn all_digits(s: Seq<u8>) -> bool {
    forall|i: int| 0 <= i < s.len() ==> is_digit(#[trigger] s[i])
}

/// The number that a run of digits denotes, most significant digit first.
pub open spec fn digits_value(s: Seq<u8>) -> nat
    decreases s.len(),
{
    if s.len() == 0 {
        0
    } else {
        digits_value(s.drop_last()) * 10 + (s.last() - ZERO) as nat
    }
}

/// The digits of an unsigned field: the field without its optional plus sign.
pub open spec fn unsigned_digits(s: Seq<u8>) -> Seq<u8> {
    if s.len() > 0 && s[0] == PLUS {
        s.skip(1)
    } else {
        s
    }
}

/// The number that an unsigned field denotes. A field is an optional plus sign
/// followed by one or more digits; anything else denotes nothing.
pub open spec fn unsigned_field(s: Seq<u8>) -> Option<nat> {
    let d = unsigned_digits(s);
    if d.len() > 0 && all_digits(d) {
        Some(digits_value(d))
    } else {
        None
    }
}

/// The unsigned field `s` as a `u64`, if it denotes a number that fits.
pub open spec fn u64_field(s: Seq<u8>) -> Option<u64> {
    match unsigned_field(s) {
        Some(v) => if v <= u64::MAX {
            Some(v as u64)
        } else {
            None
        },
        None => None,
    }
}

/// The unsigned field `s` as a `usize`, if it denotes a number that fits.
pub open spec fn usize_field(s: Seq<u8>) -> Option<usize> {
    match unsigned_field(s) {
        Some(v) => if v <= usize::MAX {
            Some(v as usize)
        } else {
            None
        },
        None => None,
    }
}

/// The number that a signed field denotes: a minus sign followed by digits is
/// the negative of their value, and every unsigned field is also a signed one.
pub open spec fn signed_field(s: Seq<u8>) -> Option<int> {
    if s.len() > 0 && s[0] == MINUS {
        let d = s.skip(1);
        if d.len() > 0 && all_digits(d) {
            Some(-(digits_value(d) as int))
        } else {
            None
        }
    } else {
        match unsigned_field(s) {
            Some(v) => Some(v as int),
            None => None,
        }
    }
}

/// The signed field `s` as an `i64`, if it denotes a number that fits.
pub open spec fn i64_field(s: Seq<u8>) -> Option<i64> {
    match signed_field(s) {
        Some(v) => if i64::MIN <= v <= i64::MAX {
            Some(v as i64)
        } else {
            None
        },
        None => None,
    }
}

/// The digits of `n`, without leading zeros.
pub open spec fn decimal(n: nat) -> Seq<u8>
    decreases n,
{
    if n < 10 {
        seq![(ZERO + n) as u8]
    } else {
        decimal(n / 10).push((ZERO + n % 10) as u8)
    }
}

/// The digits of `i`, behind a minus sign when `i` is negative.
pub open spec fn signed_decimal(i: int) -> Seq<u8> {
    if i < 0 {
        seq![MINUS] + decimal((-i) as nat)
    } else {
        decimal(i as nat)
    }
}

/// A run of digits denotes at least what any of its prefixes denotes.
pub proof fn lemma_digits_value_prefix(s: Seq<u8>, k: int)
    requires
        0 <= k <= s.len(),
        all_digits(s),
    ensures
        digits_value(s.take(k)) <= digits_value(s),
    decreases s.len(),
{
    if k == s.len() {
        assert(s.take(k) == s);
    } else {
        let front = s.drop_last();
        assert(front.take(k) == s.take(k));
        assert(all_digits(front)) by {
            assert forall|i: int| 0 <= i < front.len() implies is_digit(#[trigger] front[i]) by {
                assert(front[i] == s[i]);
            }
        }
        lemma_digits_value_prefix(front, k);
        assert(is_digit(s[s.len() - 1]));
    }
}

/// What is written for `n` is one or more digits that denote `n`.
pub proof fn lemma_decimal(n: nat)
    ensures
        decimal(n).len() >= 1,
        all_digits(decimal(n)),
        digits_value(decimal(n)) == n,
    decreases n,
{
    if n < 10 {
        let s = decimal(n);
        assert(s.drop_last().len() == 0);
        assert(digits_value(s.drop_last()) == 0);
    } else {
        lemma_decimal(n / 10);
        let front = decimal(n / 10);
        let s = decimal(n);
        assert(s.drop_last() == front);
        assert(s.last() == (ZERO + n % 10) as u8);
        assert forall|i: int| 0 <= i < s.len() implies is_digit(#[trigger] s[i]) by {
            if i < front.len() {
                assert(s[i] == front[i]);
            }
        }
    }
}

/// Reading what was written for `n` gives `n` back.
pub proof fn lemma_unsigned_field_of_decimal(n: nat)
    ensures
        unsigned_field(decimal(n)) == Some(n),
{
    lemma_decimal(n);
    assert(is_digit(decimal(n)[0]));
}

/// Reading what was written for `i` gives `i` back.
pub proof fn lemma_signed_field_of_decimal(i: int)
    ensures
        signed_field(signed_decimal(i)) == Some(i),
{
    if i < 0 {
        let d = decimal((-i) as nat);
        lemma_decimal((-i) as nat);
        let s = signed_decimal(i);
        assert(s[0] == MINUS);
        assert(s.skip(1) == d);
    } else {
        lemma_unsigned_field_of_decimal(i as nat);
        assert(is_digit(decimal(i as nat)[0])) by {
            lemma_decimal(i as nat);
        }
    }
}

/// Digits hold no line terminator.
pub proof fn lemma_digits_hold_no_terminator(digits: Seq<u8>)
    requires
        all_digits(digits),
    ensures
        !has_crlf(digits),
{
    lemma_scan_crlf(digits, 0);
    if first_crlf(digits) is Some {
        let p = first_crlf(digits)->0;
        assert(is_digit(digits[p]));
    }
}

/// A number written in decimal holds no line terminator.
pub proof fn lemma_signed_decimal_holds_no_terminator(i: int)
    ensures
        !has_crlf(signed_decimal(i)),
{
    let s = signed_decimal(i);
    lemma_scan_crlf(s, 0);
    if i < 0 {
        lemma_decimal((-i) as nat);
        if first_crlf(s) is Some {
            let p = first_crlf(s)->0;
            if p > 0 {
                assert(s[p] == decimal((-i) as nat)[p - 1]);
                assert(is_digit(decimal((-i) as nat)[p - 1]));
            }
        }
    } else {
        lemma_decimal(i as nat);
        lemma_digits_hold_no_terminator(s);
    }
}

/// Reads an unsigned field as a `u64`.
pub fn parse_u64(s: &[u8]) -> (r: Option<u64>)
    ensures
        r == u64_field(s@),
{
    let n = s.len();
    let start: usize = if n > 0 && s[0] == PLUS {
        1
    } else {
        0
    };
    let ghost d = unsigned_digits(s@);
    assert(d == s@.skip(start as int));
    if start == n {
        return None;
    }
    let mut acc: u64 = 0;
    let mut i: usize = start;
    assert(d.take(0).len() == 0);
    while i < n
        invariant
            n == s@.len(),
            start <= i <= n,
            d == s@.skip(start as int),
            d.len() == n - start,
            d.len() > 0,
            all_digits(d.take(i - start)),
            acc == digits_value(d.take(i - start)),
            unsigned_digits(s@) == d,
        decreases n - i,
    {
        let b = s[i];
        let ghost k = i - start;
        assert(d[k] == b);
        if b < ZERO || b > NINE {
            assert(!all_digits(d)) by {
                assert(!is_digit(d[k]));
            }
            return None;
        }
        let digit: u64 = (b - ZERO) as u64;
        proof {
            let next = d.take(k + 1);
            assert(next.drop_last() == d.take(k));
            assert(next.last() == b);
            assert(digits_value(next) == acc * 10 + digit);
            assert(all_digits(next)) by {
                assert forall|j: int| 0 <= j < next.len() implies is_digit(#[trigger] next[j]) by {
                    if j < k {
                        assert(next[j] == d.take(k)[j]);
                    }
                }
            }
            if all_digits(d) {
                lemma_digits_value_prefix(d, k + 1);
            }
        }
        if acc > (u64::MAX - digit) / 10 {
            return None;
        }
        acc = acc * 10 + digit;
        i += 1;
    }
    assert(d.take(i - start) == d);
    Some(acc)
}

/// Reads an unsigned field as a `usize`.
pub fn parse_usize(s: &[u8]) -> (r: Option<usize>)
    ensures
        r == usize_field(s@),
{
    match parse_u64(s) {
        Some(v) => {
            if v <= usize::MAX as u64 {
                Some(v as usize)
            } else {
                None
            }
        },
        None => None,
    }
}

/// Writes `n` in decimal.
pub fn render_u64(n: u64) -> (out: Vec<u8>)
    ensures
        out@ == decimal(n as nat),
    decreases n,
{
    if n < 10 {
        let mut out: Vec<u8> = Vec::new();
        out.push(ZERO + n as u8);
        assert(out@ == decimal(n as nat));
        out
    } else {
        let mut out = render_u64(n / 10);
        out.push(ZERO + (n % 10) as u8);
        out
    }
}

/// Writes `n` in decimal.
pub fn render_usize(n: usize) -> (out: Vec<u8>)
    ensures
        out@ == decimal(n as nat),
{
    render_u64(n as u64)
}

/// Writes `i` in decimal, with a minus sign when it is negative.
pub fn render_i64(i: i64) -> (out: Vec<u8>)
    ensures
        out@ == signed_decimal(i as int),
{
    if i < 0 {
        let magnitude: u64 = (-(i + 1)) as u64 + 1;
        let digits = render_u64(magnitude);
        let mut out: Vec<u8> = Vec::new();
        out.push(MINUS);
        let mut digits = digits;
        out.append(&mut digits);
        out
    } else {
        render_u64(i as u64)
    }
}

} // verus!
