//! Decimal numbers as they stand in a header.
//!
//! A number token is an optional sign, `+` or `-`, and then one or more of
//! the digits `0` to `9`. It stands for a value only where that value fits
//! in an `i32`. Numbers are written without sign and without leading
//! zeros.

use vstd::prelude::*;

verus! {

/// The byte `0`.
pub const ZERO: u8 = 48;

/// The byte `+`.
pub const PLUS: u8 = 43;

/// The byte `-`.
pub const MINUS: u8 = 45;

/// One of the bytes `0` to `9`.
pub open spec fn is_digit(b: u8) -> bool {
    48 <= b <= 57
}

/// Every byte of `s` is a digit.
pub open spec fn all_digits(s: Seq<u8>) -> bool {
    forall|i: int| 0 <= i < s.len() ==> is_digit(#[trigger] s[i])
}

/// The number that a run of digits stands for, the first digit weighing
/// most. No digits stand for zero.
pub open spec fn digits_value(s: Seq<u8>) -> nat
    decreases s.len(),
{
    if s.len() == 0 {
        0
    } else {
        (10 * digits_value(s.drop_last()) + (s.last() - ZERO)) as nat
    }
}

/// Whether `s` opens with a sign.
pub open spec fn has_sign(s: Seq<u8>) -> bool {
    s.len() > 0 && (s[0] == PLUS || s[0] == MINUS)
}

/// The digits of `s`: all of it but the sign.
pub open spec fn digits_of(s: Seq<u8>) -> Seq<u8> {
    if has_sign(s) {
        s.subrange(1, s.len() as int)
    } else {
        s
    }
}

/// The integer that `s` stands for, if it is a number at all.
pub open spec fn number_value(s: Seq<u8>) -> Option<int> {
    let digits = digits_of(s);
    if digits.len() == 0 || !all_digits(digits) {
        None
    } else if s[0] == MINUS {
        Some(-(digits_value(digits) as int))
    } else {
        Some(digits_value(digits) as int)
    }
}

/// The `i32` that `s` stands for: its value, where `s` is a number and the
/// value fits.
pub open spec fn parse_number(s: Seq<u8>) -> Option<i32> {
    match number_value(s) {
        Some(v) => if i32::MIN <= v <= i32::MAX {
            Some(v as i32)
        } else {
            None
        },
        None => None,
    }
}

/// How `n` is written: in decimal, without leading zeros.
pub open spec fn decimal(n: nat) -> Seq<u8>
    decreases n,
{
    if n < 10 {
        seq![(ZERO + n) as u8]
    } else {
        decimal(n / 10).push((ZERO + n % 10) as u8)
    }
}

/// Reading more digits never gives less: the value of the first `k` digits
/// is at most the value of them all.
pub proof fn lemma_digits_value_prefix(s: Seq<u8>, k: int)
    requires
        0 <= k <= s.len(),
        all_digits(s),
    ensures
        digits_value(s.subrange(0, k)) <= digits_value(s),
    decreases s.len() - k,
{
    if k == s.len() {
        assert(s.subrange(0, k) =~= s);
    } else {
        lemma_digits_value_prefix(s, k + 1);
        let longer = s.subrange(0, k + 1);
        assert(longer.drop_last() =~= s.subrange(0, k));
        assert(is_digit(s[k]));
        assert(longer.last() == s[k]);
    }
}

/// What is written can be read: the decimal form of `n` is a non-empty run
/// of digits that stands for `n`.
pub proof fn lemma_decimal_is_number(n: nat)
    ensures
        decimal(n).len() > 0,
        all_digits(decimal(n)),
        digits_value(decimal(n)) == n,
        number_value(decimal(n)) == Some(n as int),
    decreases n,
{
    let d = decimal(n);
    if n < 10 {
        assert(d.drop_last() =~= Seq::<u8>::empty());
        assert(digits_value(d.drop_last()) == 0);
    } else {
        lemma_decimal_is_number(n / 10);
        assert(d.drop_last() =~= decimal(n / 10));
        assert(d[0] == decimal(n / 10)[0]);
    }
    assert(is_digit(d[0]));
    assert(!has_sign(d));
}

/// Reads a number token.
pub fn parse_i32(token: &[u8]) -> (value: Option<i32>)
    ensures
        value == parse_number(token@),
{
    let n: usize = token.len();
    if n == 0 {
        return None;
    }
    let negative: bool = token[0] == MINUS;
    let first: usize = if negative || token[0] == PLUS {
        1
    } else {
        0
    };
    if first == n {
        return None;
    }
    let ghost digits = digits_of(token@);
    assert(digits =~= token@.subrange(first as int, n as int));
    let mut magnitude: i64 = 0;
    let mut at: usize = first;
    proof {
        assert(digits.subrange(0, 0) =~= Seq::<u8>::empty());
    }
    while at < n
        invariant
            first <= at <= n,
            n == token.len(),
            digits == token@.subrange(first as int, n as int),
            digits == digits_of(token@),
            all_digits(digits.subrange(0, at - first)),
            magnitude == digits_value(digits.subrange(0, at - first)),
            0 <= magnitude <= 0x8000_0000,
        decreases n - at,
    {
        let b: u8 = token[at];
        let ghost seen = digits.subrange(0, at - first);
        let ghost longer = digits.subrange(0, at - first + 1);
        assert(b == digits[at - first]);
        if b < 48 || b > 57 {
            return None;
        }
        magnitude = magnitude * 10 + (b - ZERO) as i64;
        proof {
            assert(longer.drop_last() =~= seen);
            assert(longer.last() == b);
            assert forall|i: int| 0 <= i < longer.len() implies is_digit(#[trigger] longer[i]) by {
                if i < seen.len() {
                    assert(longer[i] == seen[i]);
                }
            }
        }
        if magnitude > 0x8000_0000 {
            proof {
                if all_digits(digits) {
                    lemma_digits_value_prefix(digits, at - first + 1);
                }
            }
            return None;
        }
        at += 1;
    }
    assert(digits.subrange(0, at - first) =~= digits);
    if negative {
        Some((-magnitude) as i32)
    } else if magnitude > 0x7fff_ffff {
        None
    } else {
        Some(magnitude as i32)
    }
}

/// Appends the decimal form of `n` to `out`.
pub fn push_decimal(out: &mut Vec<u8>, n: u32)
    ensures
        final(out)@ == old(out)@ + decimal(n as nat),
    decreases n,
{
    if n >= 10 {
        push_decimal(out, n / 10);
    }
    out.push(ZERO + (n % 10) as u8);
    proof {
        let before = old(out)@;
        let digit = (ZERO + n % 10) as u8;
        if n >= 10 {
            assert((before + decimal(n as nat / 10)).push(digit) =~= before + decimal(n as nat));
        } else {
            assert(before.push(digit) =~= before + decimal(n as nat));
        }
    }
}

} // verus!
