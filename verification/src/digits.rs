//! Numbers written as digits in a radix.

use crate::error::IntErrorKind;
use vstd::prelude::*;
use vstd::std_specs::iter::IteratorSpec;

verus! {

/// The value of `c` as a digit in `radix`: `0`-`9`, then the letters in
/// either case from ten upwards.
pub open spec fn digit_value(c: char, radix: u32) -> Option<u32> {
    let v: int = if '0' <= c <= '9' {
        c as u32 - '0' as u32
    } else if 'a' <= c <= 'z' {
        c as u32 - 'a' as u32 + 10
    } else if 'A' <= c <= 'Z' {
        c as u32 - 'A' as u32 + 10
    } else {
        36
    };
    if v < radix {
        Some(v as u32)
    } else {
        None
    }
}

/// Every character of `s` is a digit in `radix`.
pub open spec fn all_digits(s: Seq<char>, radix: u32) -> bool {
    forall|i: int| 0 <= i < s.len() ==> (#[trigger] digit_value(s[i], radix)) is Some
}

/// The number that the digits `s` denote in `radix`, most significant digit
/// first. A character that is no digit counts as zero.
pub open spec fn number(s: Seq<char>, radix: u32) -> nat
    decreases s.len(),
{
    if s.len() == 0 {
        0
    } else {
        let d: nat = match digit_value(s.last(), radix) {
            Some(d) => d as nat,
            None => 0,
        };
        number(s.drop_last(), radix) * (radix as nat) + d
    }
}

/// The number that `s` denotes in `radix`, where it is a non-empty run of
/// digits and the number fits in 32 bits.
pub open spec fn parse_number(s: Seq<char>, radix: u32) -> Result<u32, IntErrorKind> {
    if s.len() == 0 {
        Err(IntErrorKind::Empty)
    } else if !all_digits(s, radix) {
        Err(IntErrorKind::InvalidDigit)
    } else if number(s, radix) > u32::MAX {
        Err(IntErrorKind::PosOverflow)
    } else {
        Ok(number(s, radix) as u32)
    }
}

/// Adding digits never makes the number smaller.
pub proof fn lemma_number_grows(s: Seq<char>, n: int, radix: u32)
    requires
        0 <= n <= s.len(),
        radix >= 1,
    ensures
        number(s.take(n), radix) <= number(s, radix),
    decreases s.len() - n,
{
    if n < s.len() {
        assert(s.take(n + 1).drop_last() == s.take(n));
        assert(number(s.take(n), radix) * (radix as nat) >= number(s.take(n), radix))
            by (nonlinear_arith)
            requires
                radix >= 1,
        ;
        lemma_number_grows(s, n + 1, radix);
    } else {
        assert(s.take(n) == s);
    }
}

/// The value of `c` as a digit in `radix`.
pub fn to_digit(c: char, radix: u32) -> (r: Option<u32>)
    requires
        radix <= 36,
    ensures
        r == digit_value(c, radix),
{
    let v: u32 = if '0' <= c && c <= '9' {
        c as u32 - '0' as u32
    } else if 'a' <= c && c <= 'z' {
        c as u32 - 'a' as u32 + 10
    } else if 'A' <= c && c <= 'Z' {
        c as u32 - 'A' as u32 + 10
    } else {
        36
    };
    if v < radix {
        Some(v)
    } else {
        None
    }
}

/// Reads `digits` as a number in `radix`.
pub fn parse_radix(digits: &str, radix: u32) -> (r: Result<u32, IntErrorKind>)
    requires
        2 <= radix <= 36,
    ensures
        r == parse_number(digits@, radix),
{
    if digits.is_empty() {
        return Err(IntErrorKind::Empty);
    }
    let mut it = digits.chars();
    let mut value: u32 = 0;
    let mut fits = true;
    let ghost mut n: int = 0;
    loop
        invariant_except_break
            it.remaining() == digits@.skip(n),
        invariant
            2 <= radix <= 36,
            0 <= n <= digits@.len(),
            all_digits(digits@.take(n), radix),
            fits ==> value == number(digits@.take(n), radix),
            !fits ==> number(digits@.take(n), radix) > u32::MAX,
        ensures
            n == digits@.len(),
        decreases digits@.len() - n,
    {
        match it.next() {
            Some(c) => {
                let ghost before = digits@.take(n);
                let ghost after = digits@.take(n + 1);
                assert(after.drop_last() == before);
                match to_digit(c, radix) {
                    Some(d) => {
                        if fits {
                            assert(value as u64 * radix as u64 <= 0xffff_ffff * 36)
                                by (nonlinear_arith)
                                requires
                                    value <= 0xffff_ffff,
                                    radix <= 36,
                            ;
                            let wide: u64 = value as u64 * radix as u64 + d as u64;
                            if wide > u32::MAX as u64 {
                                fits = false;
                            } else {
                                value = wide as u32;
                            }
                        } else {
                            proof {
                                lemma_number_grows(after, n, radix);
                            }
                        }
                        proof {
                            n = n + 1;
                        }
                    },
                    None => {
                        return Err(IntErrorKind::InvalidDigit);
                    },
                }
            },
            None => {
                break ;
            },
        }
    }
    assert(digits@.take(n) == digits@);
    if fits {
        Ok(value)
    } else {
        Err(IntErrorKind::PosOverflow)
    }
}

} // verus!
