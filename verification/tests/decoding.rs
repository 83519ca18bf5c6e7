use std::borrow::Cow;
use unescaper::digits::{parse_radix, to_digit};
use unescaper::escape::{escape_sequence, split_octal, unicode_char};
use unescaper::text::{split_chars, split_first, split_run};
use unescaper::{unescape, Error, IntErrorKind, StringFragment, Unescaped};

fn chars(text: &str) -> Vec<Result<char, Error>> {
    let mut it = Unescaped::new(text);
    let mut out = Vec::new();
    while let Some(item) = it.next() {
        out.push(item);
    }
    assert_eq!(it.next(), None);
    out
}

fn fragments(text: &str) -> Vec<Result<StringFragment<'_>, Error>> {
    let mut it = Unescaped::new(text);
    let mut out = Vec::new();
    while let Some(item) = it.next_fragment() {
        out.push(item);
    }
    assert_eq!(it.next_fragment(), None);
    out
}

#[test]
fn empty_input_yields_nothing() {
    assert!(matches!(unescape("").unwrap(), Cow::Borrowed("")));
    assert_eq!(chars(""), vec![]);
    assert_eq!(fragments(""), vec![]);
}

#[test]
fn owned_when_a_backslash_occurs() {
    assert!(matches!(unescape(r"a\nb").unwrap(), Cow::Owned(_)));
    assert!(matches!(unescape(r"\\").unwrap(), Cow::Owned(_)));
    assert_eq!(unescape(r"a\nb").unwrap(), "a\nb");
}

#[test]
fn double_backslash() {
    assert_eq!(unescape("\\\\").unwrap(), "\\");
    assert_eq!(unescape("\\\\\\\\").unwrap(), "\\\\");
    assert_eq!(unescape("\\\\\\n").unwrap(), "\\\n");
    assert_eq!(unescape("a\\\\b\\\\").unwrap(), "a\\b\\");
}

#[test]
fn trailing_lone_backslash_fails() {
    assert_eq!(unescape("a\\"), Err(Error::IncompleteSequence));
    assert_eq!(unescape("\\"), Err(Error::IncompleteSequence));
    assert_eq!(unescape("\\n\\"), Err(Error::IncompleteSequence));
}

#[test]
fn fixed_hex_escapes() {
    assert_eq!(unescape("\\u1234").unwrap(), "\u{1234}");
    assert_eq!(unescape("\\u{1234}").unwrap(), "\u{1234}");
    assert_eq!(unescape("\\U0010FFFF").unwrap(), "\u{10FFFF}");
    assert_eq!(unescape("\\x20").unwrap(), " ");
    assert_eq!(unescape("\\x41bc").unwrap(), "Abc");
    assert_eq!(unescape("\\u00e9!").unwrap(), "\u{e9}!");
    assert_eq!(unescape("\\xfF").unwrap(), "\u{ff}");
}

#[test]
fn simple_escapes() {
    assert_eq!(
        unescape(r#"\a\b\f\n\r\t\v\'\"\/"#).unwrap(),
        "\x07\x08\x0C\n\r\t\x0B'\"/"
    );
    assert_eq!(unescape("a\\\nb").unwrap(), "a\nb");
    assert_eq!(unescape("a\\\rb").unwrap(), "a\rb");
}

#[test]
fn octal_decoding() {
    assert_eq!(unescape(r"\101").unwrap(), "A");
    assert_eq!(unescape(r"\1010").unwrap(), "A0");
    assert_eq!(unescape(r"\18").unwrap(), "\u{1}8");
    assert_eq!(unescape(r"\7").unwrap(), "\u{7}");
    assert_eq!(unescape(r"\0").unwrap(), "\0");
    assert_eq!(unescape(r"\777").unwrap(), "\u{1ff}");
    assert_eq!(unescape(r"\12\3").unwrap(), "\n\u{3}");
    assert_eq!(escape_sequence("101rest"), Ok(('A', "rest")));
    assert_eq!(escape_sequence("7x"), Ok(('\u{7}', "x")));
    assert_eq!(split_octal("1234"), ("123", "4"));
    assert_eq!(split_octal("12a"), ("12", "a"));
    assert_eq!(split_octal("8"), ("", "8"));
    assert_eq!(split_octal(""), ("", ""));
}

#[test]
fn invalid_code_point() {
    assert_eq!(unescape(r"\uD800"), Err(Error::InvalidUnicode(0xD800)));
    assert_eq!(unescape(r"\uDFFF"), Err(Error::InvalidUnicode(0xDFFF)));
    assert_eq!(unescape(r"\U00110000"), Err(Error::InvalidUnicode(0x110000)));
    assert_eq!(unescape(r"\UFFFFFFFF"), Err(Error::InvalidUnicode(0xFFFFFFFF)));
    assert_eq!(unescape(r"\u{d800}"), Err(Error::InvalidUnicode(0xD800)));
    assert_eq!(unescape(r"\u{110000}"), Err(Error::InvalidUnicode(0x110000)));
    assert_eq!(unescape(r"\uD7FF").unwrap(), "\u{D7FF}");
    assert_eq!(unescape(r"\uE000").unwrap(), "\u{E000}");
}

#[test]
fn unknown_escape() {
    assert_eq!(unescape(r"\q"), Err(Error::UnknownSequence('q')));
    assert_eq!(unescape(r"\8"), Err(Error::UnknownSequence('8')));
    assert_eq!(unescape("ab\\ cd"), Err(Error::UnknownSequence(' ')));
    assert_eq!(unescape("\\\u{e9}"), Err(Error::UnknownSequence('\u{e9}')));
}

#[test]
fn incomplete_unicode() {
    assert_eq!(unescape(r"\x"), Err(Error::IncompleteUnicode));
    assert_eq!(unescape(r"\x4"), Err(Error::IncompleteUnicode));
    assert_eq!(unescape(r"\u123"), Err(Error::IncompleteUnicode));
    assert_eq!(unescape(r"\U0010FFF"), Err(Error::IncompleteUnicode));
    assert_eq!(unescape(r"\x4\n"), Err(Error::IncompleteUnicode));
    assert_eq!(unescape("\\x\u{e9}"), Err(Error::IncompleteUnicode));
}

#[test]
fn digits_that_are_no_number() {
    assert_eq!(
        unescape(r"\xZZ"),
        Err(Error::ParseIntError(IntErrorKind::InvalidDigit))
    );
    assert_eq!(
        unescape(r"\x+1"),
        Err(Error::ParseIntError(IntErrorKind::InvalidDigit))
    );
    assert_eq!(
        unescape(r"\u{}"),
        Err(Error::ParseIntError(IntErrorKind::Empty))
    );
    assert_eq!(
        unescape(r"\u{12g}"),
        Err(Error::ParseIntError(IntErrorKind::InvalidDigit))
    );
    assert_eq!(
        unescape(r"\u{100000000}"),
        Err(Error::ParseIntError(IntErrorKind::PosOverflow))
    );
    assert_eq!(unescape(r"\u{0000000041}").unwrap(), "A");
}

#[test]
fn brace_escape_without_closing_brace() {
    assert_eq!(unescape(r"\u{41").unwrap(), "A");
    assert_eq!(unescape(r"\u{41\n}").unwrap(), "A\n}");
    assert_eq!(
        unescape(r"\u{"),
        Err(Error::ParseIntError(IntErrorKind::Empty))
    );
    assert_eq!(unescape(r"\u{41}}").unwrap(), "A}");
}

#[test]
fn error_discards_partial_output() {
    assert_eq!(unescape(r"good\n\qbad"), Err(Error::UnknownSequence('q')));
    assert_eq!(unescape(r"\q\x"), Err(Error::UnknownSequence('q')));
}

#[test]
fn fragments_in_order() {
    assert_eq!(
        fragments(r"ab\ncd\\ef\u{41}gh\"),
        vec![
            Ok(StringFragment::Raw("ab")),
            Ok(StringFragment::Escaped('\n')),
            Ok(StringFragment::Raw("cd")),
            Ok(StringFragment::Escaped('\\')),
            Ok(StringFragment::Raw("ef")),
            Ok(StringFragment::Escaped('A')),
            Ok(StringFragment::Raw("gh")),
            Err(Error::IncompleteSequence),
        ]
    );
    assert_eq!(fragments("plain"), vec![Ok(StringFragment::Raw("plain"))]);
    assert_eq!(
        fragments(r"\t\t"),
        vec![
            Ok(StringFragment::Escaped('\t')),
            Ok(StringFragment::Escaped('\t')),
        ]
    );
}

#[test]
fn characters_in_order() {
    assert_eq!(
        chars(r"a\tb\x41\q"),
        vec![
            Ok('a'),
            Ok('\t'),
            Ok('b'),
            Ok('A'),
            Err(Error::UnknownSequence('q')),
        ]
    );
    assert_eq!(chars("\u{e9}\u{1234}"), vec![Ok('\u{e9}'), Ok('\u{1234}')]);
}

#[test]
fn fused_after_end_and_after_error() {
    let mut it = Unescaped::new(r"a\qrest");
    assert_eq!(it.next(), Some(Ok('a')));
    assert_eq!(it.next(), Some(Err(Error::UnknownSequence('q'))));
    assert_eq!(it.next(), None);
    assert_eq!(it.next_fragment(), None);
    assert_eq!(it.next(), None);

    let mut it = Unescaped::new("a");
    assert_eq!(it.next_fragment(), Some(Ok(StringFragment::Raw("a"))));
    assert_eq!(it.next_fragment(), None);
    assert_eq!(it.next(), None);
    assert_eq!(it.next_fragment(), None);
}

#[test]
fn characters_and_fragments_mixed() {
    let mut it = Unescaped::new(r"abc\ndef");
    assert_eq!(it.next(), Some(Ok('a')));
    assert_eq!(it.next_fragment(), Some(Ok(StringFragment::Raw("bc"))));
    assert_eq!(it.next(), Some(Ok('\n')));
    assert_eq!(it.next(), Some(Ok('d')));
    assert_eq!(it.next(), Some(Ok('e')));
    assert_eq!(it.next(), Some(Ok('f')));
    assert_eq!(it.next_fragment(), None);

    let mut it = Unescaped::new(r"ab\n");
    assert_eq!(it.next(), Some(Ok('a')));
    assert_eq!(it.next(), Some(Ok('b')));
    assert_eq!(it.next_fragment(), Some(Ok(StringFragment::Escaped('\n'))));
    assert_eq!(it.next_fragment(), None);
}

#[test]
fn escape_sequence_gives_the_rest() {
    assert_eq!(escape_sequence(""), Err(Error::IncompleteSequence));
    assert_eq!(escape_sequence("nabc"), Ok(('\n', "abc")));
    assert_eq!(escape_sequence("\\abc"), Ok(('\\', "abc")));
    assert_eq!(escape_sequence("x41bc"), Ok(('A', "bc")));
    assert_eq!(escape_sequence("u{1F600}!"), Ok(('\u{1F600}', "!")));
    assert_eq!(escape_sequence("u00e9\u{e9}"), Ok(('\u{e9}', "\u{e9}")));
    assert_eq!(escape_sequence("U0001F600"), Ok(('\u{1F600}', "")));
    assert_eq!(escape_sequence("q"), Err(Error::UnknownSequence('q')));
}

#[test]
fn unicode_char_takes_its_width() {
    assert_eq!(unicode_char("41bc", 2), Ok(('A', "bc")));
    assert_eq!(unicode_char("41", 4), Err(Error::IncompleteUnicode));
    assert_eq!(unicode_char("0041", 4), Ok(('A', "")));
    assert_eq!(
        unicode_char("", 0),
        Err(Error::ParseIntError(IntErrorKind::Empty))
    );
    assert_eq!(
        unicode_char("4\u{e9}", 2),
        Err(Error::ParseIntError(IntErrorKind::InvalidDigit))
    );
    assert_eq!(unicode_char("dc00", 4), Err(Error::InvalidUnicode(0xDC00)));
}

#[test]
fn numbers_in_a_radix() {
    assert_eq!(parse_radix("ff", 16), Ok(255));
    assert_eq!(parse_radix("FF", 16), Ok(255));
    assert_eq!(parse_radix("777", 8), Ok(511));
    assert_eq!(parse_radix("0", 8), Ok(0));
    assert_eq!(parse_radix("ffffffff", 16), Ok(u32::MAX));
    assert_eq!(parse_radix("100000000", 16), Err(IntErrorKind::PosOverflow));
    assert_eq!(parse_radix("8", 8), Err(IntErrorKind::InvalidDigit));
    assert_eq!(parse_radix("1000000000g", 16), Err(IntErrorKind::InvalidDigit));
    assert_eq!(parse_radix("", 16), Err(IntErrorKind::Empty));
    assert_eq!(parse_radix("zz", 36), Ok(35 * 36 + 35));
    assert_eq!(to_digit('7', 8), Some(7));
    assert_eq!(to_digit('8', 8), None);
    assert_eq!(to_digit('a', 16), Some(10));
    assert_eq!(to_digit('F', 16), Some(15));
    assert_eq!(to_digit('g', 16), None);
    assert_eq!(to_digit('z', 36), Some(35));
    assert_eq!(to_digit('\u{e9}', 36), None);
}

#[test]
fn slices_by_character() {
    assert_eq!(split_first(""), None);
    assert_eq!(split_first("\u{e9}a"), Some(('\u{e9}', "a")));
    assert_eq!(split_chars("\u{e9}\u{1234}z", 2), Some(("\u{e9}\u{1234}", "z")));
    assert_eq!(split_chars("ab", 3), None);
    assert_eq!(split_chars("ab", 0), Some(("", "ab")));
    assert_eq!(split_chars("ab", 2), Some(("ab", "")));
    assert_eq!(split_run("a\u{e9}b\\c\\d", '\\'), ("a\u{e9}b", "\\c\\d"));
    assert_eq!(split_run("abc", '\\'), ("abc", ""));
    assert_eq!(split_run("\\abc", '\\'), ("", "\\abc"));
    assert_eq!(split_run("", '}'), ("", ""));
}

#[test]
fn inverts_escape_default() {
    let texts = [
        "",
        "plain",
        "tab\there",
        "line\nfeed\r\n",
        "quote ' and \" and \\ backslash",
        "bell \u{7} and escape \u{1b} and null \0 and del \u{7f}",
        "\u{e9}t\u{e9} \u{1234} \u{1F600} \u{10FFFF} \u{D7FF} \u{E000}",
        "\\\\\\",
        "}{u",
        "\u{80}123",
    ];
    for text in texts {
        let escaped: String = text.escape_default().collect();
        assert_eq!(unescape(&escaped).unwrap(), text, "{escaped}");
    }
}

#[test]
fn messages() {
    assert_eq!(
        Error::IncompleteSequence.to_string(),
        "unexpected end of string after `\\`"
    );
    assert_eq!(
        Error::IncompleteUnicode.to_string(),
        "unexpected end of string in Unicode escape sequence"
    );
    assert_eq!(
        Error::InvalidUnicode(0xD800).to_string(),
        "invalid Unicode character code 55296"
    );
    assert_eq!(
        Error::InvalidUnicode(0).to_string(),
        "invalid Unicode character code 0"
    );
    assert_eq!(
        Error::InvalidUnicode(u32::MAX).to_string(),
        "invalid Unicode character code 4294967295"
    );
    assert_eq!(
        Error::UnknownSequence('q').to_string(),
        "unknown escape sequence starting with `q`"
    );
    assert_eq!(
        Error::ParseIntError(IntErrorKind::Empty).to_string(),
        "error parsing integer: cannot parse integer from empty string"
    );
    assert_eq!(
        Error::ParseIntError(IntErrorKind::InvalidDigit).to_string(),
        "error parsing integer: invalid digit found in string"
    );
    assert_eq!(
        Error::ParseIntError(IntErrorKind::PosOverflow).to_string(),
        "error parsing integer: number too large to fit in target type"
    );
    assert_eq!(
        Error::from(IntErrorKind::Empty),
        Error::ParseIntError(IntErrorKind::Empty)
    );
}
