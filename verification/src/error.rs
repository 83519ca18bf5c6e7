//! The ways in which decoding can fail.

use vstd::prelude::*;

verus! {

/// Why a run of digits is not a number that fits in 32 bits.
#[derive(Debug, Clone, Copy, PartialEq, Eq)]
pub enum IntErrorKind {
    /// There is no digit at all.
    Empty,
    /// Some character is not a digit of the radix.
    InvalidDigit,
    /// The digits are valid, but the number is above `u32::MAX`.
    PosOverflow,
}

/// Errors which may be returned by the unescaper.
#[derive(Debug, Clone, Copy, PartialEq, Eq)]
pub enum Error {
    /// The text ends in a backslash without a following escape sequence.
    IncompleteSequence,
    /// A Unicode escape sequence of fixed width (such as `\x`) is followed by
    /// fewer characters than it takes.
    IncompleteUnicode,
    /// The digits of an escape sequence give a number that is no Unicode
    /// scalar value.
    InvalidUnicode(u32),
    /// The character after the backslash begins no known escape sequence.
    UnknownSequence(char),
    /// The digits of an escape sequence could not be read as a number.
    ParseIntError(IntErrorKind),
}

impl From<IntErrorKind> for Error {
    fn from(kind: IntErrorKind) -> (r: Error) {
        Error::ParseIntError(kind)
    }
}

impl vstd::std_specs::convert::FromSpecImpl<IntErrorKind> for Error {
    open spec fn obeys_from_spec() -> bool {
        true
    }

    open spec fn from_spec(kind: IntErrorKind) -> Error {
        Error::ParseIntError(kind)
    }
}

/// The decimal digit for `d`, a number below ten.
pub open spec fn decimal_digit(d: nat) -> char {
    ('0' as u8 + d) as char
}

/// `n` in decimal, without leading zeros.
pub open spec fn decimal(n: nat) -> Seq<char>
    decreases n,
{
    if n < 10 {
        seq![decimal_digit(n)]
    } else {
        decimal(n / 10).push(decimal_digit(n % 10))
    }
}

/// Writes `n` in decimal behind what `out` holds.
fn push_decimal(out: &mut String, n: u32)
    ensures
        final(out)@ == old(out)@ + decimal(n as nat),
    decreases n,
{
    if n >= 10 {
        push_decimal(out, n / 10);
    }
    let digit: u8 = (n % 10) as u8;
    out.push((48u8 + digit) as char);
    proof {
        let d = decimal_digit((n % 10) as nat);
        if n >= 10 {
            let front = decimal((n / 10) as nat);
            assert(old(out)@ + front.push(d) == (old(out)@ + front).push(d));
        }
    }
}

impl IntErrorKind {
    /// What went wrong, in words.
    pub open spec fn description(self) -> Seq<char> {
        match self {
            IntErrorKind::Empty => "cannot parse integer from empty string"@,
            IntErrorKind::InvalidDigit => "invalid digit found in string"@,
            IntErrorKind::PosOverflow => "number too large to fit in target type"@,
        }
    }
}

impl Error {
    /// The message of this error.
    pub open spec fn message(self) -> Seq<char> {
        match self {
            Error::IncompleteSequence => "unexpected end of string after `\\`"@,
            Error::IncompleteUnicode => "unexpected end of string in Unicode escape sequence"@,
            Error::InvalidUnicode(code) => "invalid Unicode character code "@ + decimal(
                code as nat,
            ),
            Error::UnknownSequence(ch) => "unknown escape sequence starting with `"@.push(ch)
                + "`"@,
            Error::ParseIntError(kind) => "error parsing integer: "@ + kind.description(),
        }
    }

    /// A message for the reader that says what went wrong.
    pub fn to_string(&self) -> (r: String)
        ensures
            r@ == self.message(),
    {
        match *self {
            Error::IncompleteSequence => "unexpected end of string after `\\`".to_owned(),
            Error::IncompleteUnicode => {
                "unexpected end of string in Unicode escape sequence".to_owned()
            },
            Error::InvalidUnicode(code) => {
                let mut text = "invalid Unicode character code ".to_owned();
                push_decimal(&mut text, code);
                text
            },
            Error::UnknownSequence(ch) => {
                let mut text = "unknown escape sequence starting with `".to_owned();
                text.push(ch);
                text.append("`");
                text
            },
            Error::ParseIntError(kind) => {
                let mut text = "error parsing integer: ".to_owned();
                match kind {
                    IntErrorKind::Empty => text.append("cannot parse integer from empty string"),
                    IntErrorKind::InvalidDigit => text.append("invalid digit found in string"),
                    IntErrorKind::PosOverflow => text.append(
                        "number too large to fit in target type",
                    ),
                }
                text
            },
        }
    }
}

} // verus!
