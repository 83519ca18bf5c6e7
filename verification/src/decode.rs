//! Decoding of a whole text at once.

use crate::error::Error;
use crate::fragments::{
    char_step, fragment_step, lemma_escape_leaves_suffix, StringFragment, Unescaped,
};
use crate::text::{lemma_run_is_free, lemma_run_len, run_len};
use std::borrow::Cow;
use vstd::prelude::*;

verus! {

/// `head` in front of a decoded text; an error stays as it is.
pub open spec fn prepend(head: Seq<char>, tail: Result<Seq<char>, Error>) -> Result<
    Seq<char>,
    Error,
> {
    match tail {
        Ok(t) => Ok(head + t),
        Err(e) => Err(e),
    }
}

/// Putting two texts in front, one after the other, puts their concatenation
/// in front; putting nothing in front changes nothing.
pub proof fn lemma_prepend(a: Seq<char>, b: Seq<char>, tail: Result<Seq<char>, Error>)
    ensures
        prepend(a, prepend(b, tail)) == prepend(a + b, tail),
        prepend(Seq::empty(), tail) == tail,
{
    match tail {
        Ok(t) => {
            assert(a + (b + t) == (a + b) + t);
            assert(Seq::<char>::empty() + t == t);
        },
        Err(_) => {},
    }
}

/// The text that `s` stands for: each character that is no backslash stands
/// for itself, each backslash begins an escape, and the first error is the
/// result.
pub open spec fn unescaped(s: Seq<char>) -> Result<Seq<char>, Error>
    decreases s.len(),
    via unescaped_decreases
{
    match char_step(s) {
        (None, _) => Ok(Seq::empty()),
        (Some(Err(e)), _) => Err(e),
        (Some(Ok(c)), rest) => prepend(seq![c], unescaped(rest)),
    }
}

#[via_fn]
proof fn unescaped_decreases(s: Seq<char>) {
    lemma_step_shortens(s);
}

/// Each step that hands out a character leaves a shorter text.
pub proof fn lemma_step_shortens(s: Seq<char>)
    ensures
        char_step(s).0 is Some ==> char_step(s).1.len() < s.len(),
        fragment_step(s).0 is Some ==> fragment_step(s).1.len() < s.len(),
{
    if s.len() > 0 {
        lemma_run_len(s, '\\');
        let after = s.skip(1);
        lemma_run_len(after, '\\');
        lemma_escape_leaves_suffix(after.take(run_len(after, '\\') as int));
    }
}

/// A run of characters that stand for themselves is decoded to itself.
pub proof fn lemma_unescaped_raw(s: Seq<char>, n: int)
    requires
        0 <= n <= run_len(s, '\\'),
    ensures
        unescaped(s) == prepend(s.take(n), unescaped(s.skip(n))),
    decreases n,
{
    lemma_run_len(s, '\\');
    if n == 0 {
        assert(s.skip(0) == s);
        lemma_prepend(s.take(0), s.take(0), unescaped(s));
    } else {
        let t = s.skip(1);
        lemma_unescaped_raw(t, n - 1);
        lemma_prepend(seq![s[0]], t.take(n - 1), unescaped(t.skip(n - 1)));
        assert(t.skip(n - 1) == s.skip(n));
        assert(seq![s[0]] + t.take(n - 1) == s.take(n));
    }
}

/// `out` with the raw text `raw` behind it. Nothing is copied while `out` is
/// empty.
fn append_raw<'a>(out: Cow<'a, str>, raw: &'a str) -> (r: Cow<'a, str>)
    ensures
        r@ == out@ + raw@,
        r is Borrowed <==> out is Borrowed && out@.len() == 0,
{
    match out {
        Cow::Borrowed(held) => {
            if held.is_empty() {
                Cow::Borrowed(raw)
            } else {
                let mut text = held.to_owned();
                text.append(raw);
                Cow::Owned(text)
            }
        },
        Cow::Owned(text) => {
            let mut text = text;
            text.append(raw);
            Cow::Owned(text)
        },
    }
}

/// `out` with the character `c` behind it, in a buffer of its own.
fn append_char<'a>(out: Cow<'a, str>, c: char) -> (r: Cow<'a, str>)
    ensures
        r@ == out@.push(c),
        r is Owned,
{
    let mut text = match out {
        Cow::Borrowed(held) => held.to_owned(),
        Cow::Owned(text) => text,
    };
    text.push(c);
    Cow::Owned(text)
}

/// Unescape the string into a [`Cow`] string which only allocates if a
/// backslash was found; otherwise, the given string is returned unchanged.
pub fn unescape<'a>(s: &'a str) -> (r: Result<Cow<'a, str>, Error>)
    ensures
        match unescaped(s@) {
            Ok(text) => r is Ok && r->Ok_0@ == text,
            Err(e) => r == Err::<Cow<'a, str>, Error>(e),
        },
        !s@.contains('\\') ==> r == Ok::<Cow<'a, str>, Error>(Cow::Borrowed(s)),
        s@.contains('\\') ==> !(r matches Ok(Cow::Borrowed(_))),
{
    let mut unescaped = Unescaped::new(s);
    let mut out: Cow<'a, str> = Cow::Borrowed("");
    proof {
        reveal_strlit("");
        lemma_prepend(out@, out@, self::unescaped(s@));
    }
    loop
        invariant
            self::unescaped(s@) == prepend(out@, self::unescaped(unescaped.remaining())),
            out is Borrowed ==> out@ + unescaped.remaining() == s@ && !out@.contains('\\'),
            out is Borrowed && out@.len() > 0 ==> unescaped.remaining().len() == 0
                || unescaped.remaining()[0] == '\\',
            out is Owned ==> s@.contains('\\'),
        decreases unescaped.remaining().len(),
    {
        let ghost left = unescaped.remaining();
        let ghost before = out@;
        proof {
            lemma_step_shortens(left);
            lemma_run_len(left, '\\');
            if left.len() > 0 && left[0] == '\\' && out is Borrowed {
                assert(s@[before.len() as int] == '\\');
            }
        }
        match unescaped.next_fragment() {
            None => {
                return Ok(
                    match out {
                        Cow::Borrowed(_) => Cow::Borrowed(s),
                        Cow::Owned(text) => Cow::Owned(text),
                    },
                );
            },
            Some(Err(e)) => {
                return Err(e);
            },
            Some(Ok(StringFragment::Raw(raw))) => {
                proof {
                    lemma_unescaped_raw(left, run_len(left, '\\') as int);
                    lemma_prepend(before, raw@, self::unescaped(unescaped.remaining()));
                    lemma_run_is_free(left, '\\');
                }
                out = append_raw(out, raw);
            },
            Some(Ok(StringFragment::Escaped(c))) => {
                proof {
                    lemma_prepend(before, seq![c], self::unescaped(unescaped.remaining()));
                    assert(before + seq![c] == before.push(c));
                }
                out = append_char(out, c);
            },
        }
    }
}

} // verus!
