//! Decoding of one escape sequence: the text that follows a backslash.

use crate::digits::{parse_number, parse_radix};
use crate::error::Error;
use crate::text::{lemma_run_len, run_len, split_chars, split_first, split_run};
use vstd::prelude::*;

verus! {

/// `code` is a Unicode scalar value: a code point that is no surrogate.
pub open spec fn is_scalar_value(code: u32) -> bool {
    code <= 0xD7FF || 0xE000 <= code <= 0x10FFFF
}

/// The character that a run of digits stands for: the digits are read as a
/// number in `radix`, and the number must be a Unicode scalar value.
pub open spec fn code_point(digits: Seq<char>, radix: u32) -> Result<char, Error> {
    match parse_number(digits, radix) {
        Ok(code) => if is_scalar_value(code) {
            Ok(code as char)
        } else {
            Err(Error::InvalidUnicode(code))
        },
        Err(kind) => Err(Error::ParseIntError(kind)),
    }
}

/// An escape of fixed width: the first `width` characters of `s` are
/// hexadecimal digits of the character's code.
pub open spec fn fixed_escape(s: Seq<char>, width: nat) -> Result<(char, Seq<char>), Error> {
    if s.len() < width {
        Err(Error::IncompleteUnicode)
    } else {
        match code_point(s.take(width as int), 16) {
            Ok(c) => Ok((c, s.skip(width as int))),
            Err(e) => Err(e),
        }
    }
}

/// An escape in braces, `s` being the text after the opening brace: the
/// hexadecimal digits of the code go up to the closing brace, which is taken
/// too. Where no brace closes the escape, the digits go up to the end of `s`.
pub open spec fn braced_escape(s: Seq<char>) -> Result<(char, Seq<char>), Error> {
    let n = run_len(s, '}') as int;
    match code_point(s.take(n), 16) {
        Ok(c) => Ok(
            (
                c,
                if n < s.len() {
                    s.skip(n + 1)
                } else {
                    s.skip(n)
                },
            ),
        ),
        Err(e) => Err(e),
    }
}

/// `c` is one of the digits `0` to `7`.
pub open spec fn is_octal(c: char) -> bool {
    '0' <= c <= '7'
}

/// Number of octal digits at the front of `s`, three at most.
pub open spec fn octal_len(s: Seq<char>) -> nat {
    if s.len() == 0 || !is_octal(s[0]) {
        0
    } else if s.len() == 1 || !is_octal(s[1]) {
        1
    } else if s.len() == 2 || !is_octal(s[2]) {
        2
    } else {
        3
    }
}

/// An octal escape: up to three octal digits at the front of `s` give the
/// character's code.
pub open spec fn octal_escape(s: Seq<char>) -> Result<(char, Seq<char>), Error> {
    let n = octal_len(s) as int;
    match code_point(s.take(n), 8) {
        Ok(c) => Ok((c, s.skip(n))),
        Err(e) => Err(e),
    }
}

/// The character that a backslash and the one character `c` stand for, where
/// `c` begins an escape sequence of one character.
pub open spec fn simple_escape(c: char) -> Option<char> {
    if c == 'a' {
        Some('\x07')
    } else if c == 'b' {
        Some('\x08')
    } else if c == 'f' {
        Some('\x0C')
    } else if c == 'n' {
        Some('\n')
    } else if c == 'r' {
        Some('\r')
    } else if c == 't' {
        Some('\t')
    } else if c == 'v' {
        Some('\x0B')
    } else if c == '\\' || c == '\'' || c == '"' || c == '/' || c == '\r' || c == '\n' {
        Some(c)
    } else {
        None
    }
}

/// The escape sequence at the front of `s`, the text after a backslash: the
/// character it stands for, and the rest of `s` behind it.
pub open spec fn decode_escape(s: Seq<char>) -> Result<(char, Seq<char>), Error> {
    if s.len() == 0 {
        Err(Error::IncompleteSequence)
    } else if simple_escape(s[0]) is Some {
        Ok((simple_escape(s[0])->0, s.skip(1)))
    } else if s[0] == 'x' {
        fixed_escape(s.skip(1), 2)
    } else if s[0] == 'u' {
        if s.len() > 1 && s[1] == '{' {
            braced_escape(s.skip(2))
        } else {
            fixed_escape(s.skip(1), 4)
        }
    } else if s[0] == 'U' {
        fixed_escape(s.skip(1), 8)
    } else if is_octal(s[0]) {
        octal_escape(s)
    } else {
        Err(Error::UnknownSequence(s[0]))
    }
}

/// What a decoded escape says, the rest of the text taken as its characters.
pub open spec fn decoded_view(r: Result<(char, &str), Error>) -> Result<(char, Seq<char>), Error> {
    match r {
        Ok((c, rest)) => Ok((c, rest@)),
        Err(e) => Err(e),
    }
}

/// The character whose code the digits give.
pub fn char_from_digits(digits: &str, radix: u32) -> (r: Result<char, Error>)
    requires
        2 <= radix <= 36,
    ensures
        r == code_point(digits@, radix),
{
    match parse_radix(digits, radix) {
        Ok(code) => match char::from_u32(code) {
            Some(c) => Ok(c),
            None => Err(Error::InvalidUnicode(code)),
        },
        Err(kind) => Err(Error::from(kind)),
    }
}

/// Decodes an escape of `chars` hexadecimal digits at the front of `s`.
pub fn unicode_char<'a>(s: &'a str, chars: usize) -> (r: Result<(char, &'a str), Error>)
    ensures
        decoded_view(r) == fixed_escape(s@, chars as nat),
{
    match split_chars(s, chars) {
        None => Err(Error::IncompleteUnicode),
        Some((digits, rest)) => match char_from_digits(digits, 16) {
            Ok(c) => Ok((c, rest)),
            Err(e) => Err(e),
        },
    }
}

/// Splits `s` behind the octal digits at its front, three at most.
pub fn split_octal<'a>(s: &'a str) -> (r: (&'a str, &'a str))
    ensures
        r.0@ == s@.take(octal_len(s@) as int),
        r.1@ == s@.skip(octal_len(s@) as int),
{
    let mut rest = s;
    let mut n: usize = 0;
    while n < 3
        invariant
            n <= 3,
            n <= s@.len(),
            rest@ == s@.skip(n as int),
            forall|i: int| 0 <= i < n ==> is_octal(s@[i]),
        ensures
            n == octal_len(s@),
            rest@ == s@.skip(n as int),
        decreases 3 - n,
    {
        match split_first(rest) {
            Some((c, tail)) => {
                if '0' <= c && c <= '7' {
                    rest = tail;
                    n = n + 1;
                } else {
                    break ;
                }
            },
            None => {
                break ;
            },
        }
    }
    (s.substring_char(0, n), rest)
}

/// Decodes the escape sequence at the front of `s`, the text that follows a
/// backslash, and gives the character together with the rest of `s`.
pub fn escape_sequence<'a>(s: &'a str) -> (r: Result<(char, &'a str), Error>)
    ensures
        decoded_view(r) == decode_escape(s@),
{
    let (next, rest) = match split_first(s) {
        Some(pair) => pair,
        None => {
            return Err(Error::IncompleteSequence);
        },
    };
    if next == 'a' {
        Ok(('\x07', rest))
    } else if next == 'b' {
        Ok(('\x08', rest))
    } else if next == 'f' {
        Ok(('\x0C', rest))
    } else if next == 'n' {
        Ok(('\n', rest))
    } else if next == 'r' {
        Ok(('\r', rest))
    } else if next == 't' {
        Ok(('\t', rest))
    } else if next == 'v' {
        Ok(('\x0B', rest))
    } else if next == '\\' || next == '\'' || next == '"' || next == '/' {
        Ok((next, rest))
    } else if next == '\r' || next == '\n' {
        Ok((next, rest))
    } else if next == 'x' {
        unicode_char(rest, 2)
    } else if next == 'u' {
        match split_first(rest) {
            Some(('{', inner)) => {
                assert(inner@ == s@.skip(2));
                let (digits, tail) = split_run(inner, '}');
                let after = match split_first(tail) {
                    Some((_, after)) => after,
                    None => tail,
                };
                proof {
                    let n = run_len(inner@, '}') as int;
                    lemma_run_len(inner@, '}');
                    if n < inner@.len() {
                        assert(inner@.skip(n).skip(1) == inner@.skip(n + 1));
                    }
                }
                match char_from_digits(digits, 16) {
                    Ok(c) => Ok((c, after)),
                    Err(e) => Err(e),
                }
            },
            _ => unicode_char(rest, 4),
        }
    } else if next == 'U' {
        unicode_char(rest, 8)
    } else {
        let (digits, after) = split_octal(s);
        if digits.is_empty() {
            Err(Error::UnknownSequence(next))
        } else {
            match char_from_digits(digits, 8) {
                Ok(c) => Ok((c, after)),
                Err(e) => Err(e),
            }
        }
    }
}

} // verus!
