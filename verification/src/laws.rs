//! Laws that relate the decoder's functions to each other and to an escaper.

use crate::decode::{lemma_unescaped_raw, prepend, unescaped};
use crate::digits::{all_digits, digit_value, number, parse_number};
use crate::error::{Error, IntErrorKind};
use crate::escape::{
    braced_escape, code_point, decode_escape, fixed_escape, is_octal, is_scalar_value,
    octal_len, simple_escape,
};
use crate::fragments::{char_step, escape_at, fragment_step, Fragment};
use crate::text::{
    lemma_run_is_free, lemma_run_len, lemma_run_len_concat, lemma_run_len_whole, run_len,
};
use vstd::prelude::*;

verus! {

/// The hexadecimal digit for `d`, a number below sixteen, in lower case.
pub open spec fn hex_digit(d: nat) -> char {
    if d < 10 {
        ('0' as u8 + d) as char
    } else {
        ('a' as u8 + d - 10) as char
    }
}

/// `n` in hexadecimal, without leading zeros.
pub open spec fn hex(n: nat) -> Seq<char>
    decreases n,
{
    if n < 16 {
        seq![hex_digit(n)]
    } else {
        hex(n / 16).push(hex_digit(n % 16))
    }
}

/// The canonical escaped form of one character: a backslash and a letter for
/// tab, carriage return and line feed, a backslash in front of a quote or a
/// backslash, the character itself where it is printable ASCII, and the code
/// in braces otherwise.
pub open spec fn escape_char(c: char) -> Seq<char> {
    if c == '\t' {
        seq!['\\', 't']
    } else if c == '\r' {
        seq!['\\', 'r']
    } else if c == '\n' {
        seq!['\\', 'n']
    } else if c == '\'' || c == '"' || c == '\\' {
        seq!['\\', c]
    } else if ' ' <= c <= '~' {
        seq![c]
    } else {
        seq!['\\', 'u', '{'] + hex(c as nat) + seq!['}']
    }
}

/// The canonical escaped form of a text.
pub open spec fn escape(s: Seq<char>) -> Seq<char>
    decreases s.len(),
{
    if s.len() == 0 {
        Seq::empty()
    } else {
        escape_char(s[0]) + escape(s.skip(1))
    }
}

/// The hexadecimal form of a number is a run of digits that denotes it.
pub proof fn lemma_hex(n: nat)
    ensures
        hex(n).len() > 0,
        all_digits(hex(n), 16),
        number(hex(n), 16) == n,
        !hex(n).contains('}'),
        !hex(n).contains('\\'),
    decreases n,
{
    if n < 16 {
        assert(number(hex(n).drop_last(), 16) == 0);
    } else {
        let h = hex(n / 16);
        lemma_hex(n / 16);
        assert(hex(n).drop_last() == h);
        assert forall|i: int| 0 <= i < hex(n).len() implies (#[trigger] digit_value(
            hex(n)[i],
            16,
        )) is Some && hex(n)[i] != '}' && hex(n)[i] != '\\' by {
            if i < h.len() {
                assert(h.contains(h[i]));
            }
        }
    }
}

/// Round trip: the canonical escaped form of any text is decoded to that
/// text.
pub proof fn law_round_trip(s: Seq<char>)
    ensures
        unescaped(escape(s)) == Ok::<Seq<char>, Error>(s),
    decreases s.len(),
{
    if s.len() == 0 {
        assert(s == Seq::<char>::empty());
    } else {
        let c = s[0];
        let tail = escape(s.skip(1));
        law_round_trip(s.skip(1));
        lemma_escaped_char(c, tail);
        assert(seq![c] + s.skip(1) == s);
    }
}

/// The escape behind a backslash is looked for in the text up to the next
/// backslash: with `head` free of backslashes, the token is `head` and the
/// raw text at the front of `tail`.
pub proof fn lemma_escape_at(head: Seq<char>, tail: Seq<char>)
    requires
        head.len() > 0,
        !head.contains('\\'),
    ensures
        escape_at(seq!['\\'] + head + tail) == ({
            let m = run_len(tail, '\\') as int;
            match decode_escape(head + tail.take(m)) {
                Ok((c, rest)) => Ok((c, rest + tail.skip(m))),
                Err(e) => Err(e),
            }
        }),
{
    let after = (seq!['\\'] + head + tail).skip(1);
    let m = run_len(tail, '\\') as int;
    assert(after == head + tail);
    assert(head.contains(head[0]));
    lemma_run_len(tail, '\\');
    lemma_run_len_concat(head, tail, '\\');
    assert(after.take(head.len() + m) == head + tail.take(m));
    assert(after.skip(head.len() + m) == tail.skip(m));
}

/// An escape in braces whose digits are free of braces ends at the closing
/// brace behind them.
pub proof fn lemma_braced_escape(digits: Seq<char>, rest: Seq<char>)
    requires
        !digits.contains('}'),
    ensures
        braced_escape(digits + seq!['}'] + rest) == match code_point(digits, 16) {
            Ok(c) => Ok::<(char, Seq<char>), Error>((c, rest)),
            Err(e) => Err(e),
        },
{
    let s = digits + seq!['}'] + rest;
    let n = digits.len() as int;
    assert(s == digits + (seq!['}'] + rest));
    lemma_run_len_concat(digits, seq!['}'] + rest, '}');
    assert(run_len(seq!['}'] + rest, '}') == 0);
    assert(s.take(n) == digits);
    assert(s.skip(n + 1) == rest);
}

/// A backslash and a letter that stands for the character `c` by itself, in
/// front of any text: one step hands out `c` and leaves that text.
pub proof fn lemma_escaped_letter(letter: char, c: char, tail: Seq<char>)
    requires
        letter != '\\',
        simple_escape(letter) == Some(c),
    ensures
        char_step(seq!['\\', letter] + tail) == (Some(Ok::<char, Error>(c)), tail),
{
    let head = seq![letter];
    let m = run_len(tail, '\\') as int;
    let token = head + tail.take(m);
    lemma_run_len(tail, '\\');
    assert(seq!['\\', letter] + tail == seq!['\\'] + head + tail);
    assert(head[0] == letter);
    lemma_escape_at(head, tail);
    assert(token.skip(1) == tail.take(m));
    assert(token[0] == letter);
    assert(decode_escape(token) == Ok::<(char, Seq<char>), Error>((c, tail.take(m))));
    assert(tail.take(m) + tail.skip(m) == tail);
}

/// A backslash and the code of `c` in braces, in front of any text: one step
/// hands out `c` and leaves that text.
pub proof fn lemma_escaped_code(c: char, tail: Seq<char>)
    ensures
        char_step(seq!['\\', 'u', '{'] + hex(c as nat) + seq!['}'] + tail) == (
            Some(Ok::<char, Error>(c)),
            tail,
        ),
{
    let h = hex(c as nat);
    let head = seq!['u', '{'] + h + seq!['}'];
    let m = run_len(tail, '\\') as int;
    let token = head + tail.take(m);
    lemma_run_len(tail, '\\');
    lemma_hex(c as nat);
    assert(seq!['\\', 'u', '{'] + h + seq!['}'] + tail == seq!['\\'] + head + tail);
    assert forall|i: int| 0 <= i < head.len() implies head[i] != '\\' by {
        if 2 <= i < 2 + h.len() {
            assert(h.contains(h[i - 2]));
        }
    }
    lemma_escape_at(head, tail);
    assert(token[0] == 'u' && token[1] == '{');
    assert(token.skip(2) == h + seq!['}'] + tail.take(m));
    lemma_braced_escape(h, tail.take(m));
    assert(parse_number(h, 16) == Ok::<u32, IntErrorKind>(c as u32));
    assert(code_point(h, 16) == Ok::<char, Error>(c));
    assert(decode_escape(token) == Ok::<(char, Seq<char>), Error>((c, tail.take(m))));
    assert(tail.take(m) + tail.skip(m) == tail);
}

/// One step over the escaped form of `c` in front of any text hands out `c`
/// and leaves that text.
pub proof fn lemma_escaped_char(c: char, tail: Seq<char>)
    ensures
        char_step(escape_char(c) + tail) == (Some(Ok::<char, Error>(c)), tail),
{
    let text = escape_char(c) + tail;
    if c == '\\' {
        assert(text.skip(1).skip(1) == tail);
    } else if c == '\t' {
        lemma_escaped_letter('t', c, tail);
    } else if c == '\r' {
        lemma_escaped_letter('r', c, tail);
    } else if c == '\n' {
        lemma_escaped_letter('n', c, tail);
    } else if c == '\'' || c == '"' {
        lemma_escaped_letter(c, c, tail);
    } else if ' ' <= c <= '~' {
        assert(text.skip(1) == tail);
    } else {
        lemma_escaped_code(c, tail);
    }
}

/// Fused: once a step has handed out the end or an error, every later step
/// hands out the end.
pub proof fn law_fused(s: Seq<char>)
    ensures
        !(char_step(s).0 matches Some(Ok(_))) ==> char_step(char_step(s).1).0 is None,
        !(fragment_step(s).0 matches Some(Ok(_))) ==> fragment_step(fragment_step(s).1).0 is None,
{
}

/// A raw fragment is never empty and goes as far as it can: it is free of
/// backslashes, and behind it the text ends or a backslash follows.
pub proof fn law_raw_fragment(s: Seq<char>)
    ensures
        fragment_step(s).0 matches Some(Ok(Fragment::Raw(raw))) ==> {
            let rest = fragment_step(s).1;
            &&& raw.len() > 0
            &&& !raw.contains('\\')
            &&& raw + rest == s
            &&& rest.len() == 0 || rest[0] == '\\'
        },
{
    if s.len() > 0 && s[0] != '\\' {
        lemma_run_len(s, '\\');
        lemma_run_is_free(s, '\\');
    }
}

/// The characters that a fragment stands for.
pub open spec fn fragment_text(f: Fragment) -> Seq<char> {
    match f {
        Fragment::Raw(raw) => raw,
        Fragment::Escaped(c) => seq![c],
    }
}

/// What a text stands for is what its fragments stand for, one behind the
/// other, up to the first error.
pub proof fn law_fragments_concatenate(s: Seq<char>)
    ensures
        unescaped(s) == match fragment_step(s) {
            (None, _) => Ok(Seq::empty()),
            (Some(Err(e)), _) => Err(e),
            (Some(Ok(f)), rest) => prepend(fragment_text(f), unescaped(rest)),
        },
{
    if s.len() > 0 && s[0] != '\\' {
        lemma_unescaped_raw(s, run_len(s, '\\') as int);
    }
}

/// A text without a backslash stands for itself.
pub proof fn law_plain_text(s: Seq<char>)
    requires
        !s.contains('\\'),
    ensures
        unescaped(s) == Ok::<Seq<char>, Error>(s),
{
    lemma_run_len_whole(s, '\\');
    lemma_unescaped_raw(s, s.len() as int);
    assert(s.take(s.len() as int) == s);
}

/// Two backslashes stand for one, whatever follows.
pub proof fn law_double_backslash(rest: Seq<char>)
    ensures
        unescaped(seq!['\\', '\\'] + rest) == prepend(seq!['\\'], unescaped(rest)),
{
    let s = seq!['\\', '\\'] + rest;
    assert(s.skip(1).skip(1) == rest);
}

/// A text that ends in a backslash with nothing behind it fails with
/// `IncompleteSequence`, where the text in front of that backslash is free of
/// backslashes.
pub proof fn law_trailing_backslash(head: Seq<char>)
    requires
        !head.contains('\\'),
    ensures
        unescaped(head.push('\\')) == Err::<Seq<char>, Error>(Error::IncompleteSequence),
{
    let s = head.push('\\');
    assert(s == head + seq!['\\']);
    lemma_run_len_concat(head, seq!['\\'], '\\');
    lemma_unescaped_raw(s, head.len() as int);
}

/// Up to three octal digits denote a number below 512.
pub proof fn lemma_octal_number(s: Seq<char>)
    requires
        1 <= s.len() <= 3,
        forall|i: int| 0 <= i < s.len() ==> is_octal(s[i]),
    ensures
        all_digits(s, 8),
        number(s, 8) < 512,
        parse_number(s, 8) == Ok::<u32, IntErrorKind>(number(s, 8) as u32),
{
    reveal_with_fuel(number, 4);
    assert forall|i: int| 0 <= i < s.len() implies (#[trigger] digit_value(s[i], 8)) is Some by {
        assert(is_octal(s[i]));
    }
}

/// Octal escapes: where the text after the backslash begins with an octal
/// digit, the escape takes the octal digits at its front, three at most and
/// none behind a character that is no octal digit, and stands for the
/// character whose code they denote. It never fails.
pub proof fn law_octal_escape(s: Seq<char>)
    requires
        s.len() > 0,
        is_octal(s[0]),
    ensures
        1 <= octal_len(s) <= 3,
        octal_len(s) <= s.len(),
        forall|i: int| 0 <= i < octal_len(s) ==> is_octal(s[i]),
        octal_len(s) < 3 ==> octal_len(s) == s.len() || !is_octal(s[octal_len(s) as int]),
        number(s.take(octal_len(s) as int), 8) < 512,
        decode_escape(s) == Ok::<(char, Seq<char>), Error>(
            (number(s.take(octal_len(s) as int), 8) as char, s.skip(octal_len(s) as int)),
        ),
{
    lemma_octal_number(s.take(octal_len(s) as int));
}

/// The escape is in error, and the error is `e`.
pub open spec fn fails_with(r: Result<(char, Seq<char>), Error>, e: Error) -> bool {
    r == Err::<(char, Seq<char>), Error>(e)
}

/// Invalid code points: where the hexadecimal digits of an escape denote a
/// number that is no Unicode scalar value, a surrogate or a number above
/// `0x10FFFF`, the escape fails with `InvalidUnicode` and that number. This
/// holds of the escapes of four and of eight digits and of those in braces;
/// two hexadecimal digits and three octal digits cannot reach such a number.
pub proof fn law_invalid_code_point(digits: Seq<char>, rest: Seq<char>, code: u32)
    requires
        parse_number(digits, 16) == Ok::<u32, IntErrorKind>(code),
        !is_scalar_value(code),
    ensures
        code_point(digits, 16) == Err::<char, Error>(Error::InvalidUnicode(code)),
        digits.len() == 4 ==> fails_with(
            decode_escape(seq!['u'] + (digits + rest)),
            Error::InvalidUnicode(code),
        ),
        digits.len() == 8 ==> fails_with(
            decode_escape(seq!['U'] + (digits + rest)),
            Error::InvalidUnicode(code),
        ),
        rest.len() == 0 || rest[0] == '}' ==> fails_with(
            decode_escape(seq!['u', '{'] + (digits + rest)),
            Error::InvalidUnicode(code),
        ),
{
    assert(digit_value(digits[0], 16) is Some);
    lemma_fixed_escape(digits, rest);
    lemma_escape_forms(digits + rest);
    if rest.len() == 0 || rest[0] == '}' {
        assert(!digits.contains('}')) by {
            if digits.contains('}') {
                let i = choose|i: int| 0 <= i < digits.len() && digits[i] == '}';
                assert(digit_value(digits[i], 16) is None);
            }
        }
        lemma_run_len_concat(digits, rest, '}');
        assert((digits + rest).take(digits.len() as int) == digits);
    }
}

/// The escapes that begin with `u` and `U`, by what follows the letter.
pub proof fn lemma_escape_forms(s: Seq<char>)
    ensures
        decode_escape(seq!['U'] + s) == fixed_escape(s, 8),
        decode_escape(seq!['u', '{'] + s) == braced_escape(s),
        s.len() == 0 || s[0] != '{' ==> decode_escape(seq!['u'] + s) == fixed_escape(s, 4),
{
    assert((seq!['U'] + s).skip(1) == s);
    assert((seq!['u'] + s).skip(1) == s);
    assert((seq!['u', '{'] + s).skip(2) == s);
}

/// An escape of fixed width takes the digits in front of the rest.
pub proof fn lemma_fixed_escape(digits: Seq<char>, rest: Seq<char>)
    ensures
        fixed_escape(digits + rest, digits.len()) == match code_point(digits, 16) {
            Ok(c) => Ok::<(char, Seq<char>), Error>((c, rest)),
            Err(e) => Err(e),
        },
{
    let n = digits.len() as int;
    assert((digits + rest).take(n) == digits);
    assert((digits + rest).skip(n) == rest);
}

/// An escape fails with `InvalidUnicode` only where it is one of those that
/// begin with `u` or `U`, and the number that the error carries is no Unicode
/// scalar value.
pub proof fn law_invalid_unicode_only(s: Seq<char>, code: u32)
    requires
        fails_with(decode_escape(s), Error::InvalidUnicode(code)),
    ensures
        !is_scalar_value(code),
        s.len() > 0 && (s[0] == 'u' || s[0] == 'U'),
{
    if s.len() > 0 && is_octal(s[0]) {
        law_octal_escape(s);
    }
    if s.len() >= 3 && s[0] == 'x' {
        lemma_two_hex_digits(s.skip(1).take(2));
    }
}

/// Two hexadecimal digits denote a number below 256.
pub proof fn lemma_two_hex_digits(s: Seq<char>)
    requires
        s.len() == 2,
    ensures
        number(s, 16) < 256,
{
    reveal_with_fuel(number, 3);
}

} // verus!
