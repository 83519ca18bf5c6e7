//! Slicing of string slices by character position.
//!
//! Everything here is stated over the view of a `&str` as a sequence of
//! characters. The functions walk the text once from the left and hand out
//! sub-slices of their argument, so nothing is copied.

use vstd::prelude::*;
use vstd::std_specs::iter::IteratorSpec;
use vstd::utf8::encode_utf8;

verus! {

/// Number of characters at the front of `s` before the first occurrence of
/// `stop` (all of `s` where `stop` does not occur).
pub open spec fn run_len(s: Seq<char>, stop: char) -> nat
    decreases s.len(),
{
    if s.len() == 0 || s[0] == stop {
        0
    } else {
        1 + run_len(s.skip(1), stop)
    }
}

/// `n` is the place of the first `stop` in `s`, or the length of `s` where
/// there is none.
pub open spec fn is_run(s: Seq<char>, stop: char, n: int) -> bool {
    &&& 0 <= n <= s.len()
    &&& forall|i: int| 0 <= i < n ==> s[i] != stop
    &&& n < s.len() ==> s[n] == stop
}

/// `run_len` is the one number that `is_run` accepts.
pub proof fn lemma_run_len(s: Seq<char>, stop: char)
    ensures
        is_run(s, stop, run_len(s, stop) as int),
        forall|n: int| is_run(s, stop, n) ==> n == run_len(s, stop),
    decreases s.len(),
{
    if s.len() > 0 && s[0] != stop {
        let t = s.skip(1);
        lemma_run_len(t, stop);
        let k = run_len(t, stop) as int;
        assert forall|i: int| 0 <= i < k + 1 implies s[i] != stop by {
            if i > 0 {
                assert(s[i] == t[i - 1]);
            }
        }
        assert forall|n: int| is_run(s, stop, n) implies n == k + 1 by {
            assert(is_run(t, stop, n - 1));
        }
    }
}

/// A text in which `stop` does not occur is one run.
pub proof fn lemma_run_len_whole(s: Seq<char>, stop: char)
    ensures
        !s.contains(stop) <==> run_len(s, stop) == s.len(),
{
    lemma_run_len(s, stop);
}

/// The run of a concatenation whose first part is free of `stop` goes on into
/// the second part.
pub proof fn lemma_run_len_concat(a: Seq<char>, b: Seq<char>, stop: char)
    requires
        !a.contains(stop),
    ensures
        run_len(a + b, stop) == a.len() + run_len(b, stop),
{
    lemma_run_len(b, stop);
    lemma_run_len(a + b, stop);
    assert(is_run(a + b, stop, (a.len() + run_len(b, stop)) as int));
}

/// The characters in front of the first `stop` are free of `stop`.
pub proof fn lemma_run_is_free(s: Seq<char>, stop: char)
    ensures
        !s.take(run_len(s, stop) as int).contains(stop),
{
    lemma_run_len(s, stop);
}

/// A part of a text that is free of `stop` is free of it too.
pub proof fn lemma_part_is_free(s: Seq<char>, from: int, to: int, stop: char)
    requires
        !s.contains(stop),
        0 <= from <= to <= s.len(),
    ensures
        !s.subrange(from, to).contains(stop),
{
    let part = s.subrange(from, to);
    if part.contains(stop) {
        let i = choose|i: int| 0 <= i < part.len() && part[i] == stop;
        assert(s[from + i] == stop);
    }
}

/// A text has no more characters than its UTF-8 encoding has bytes.
pub proof fn lemma_chars_within_bytes(chars: Seq<char>)
    ensures
        chars.len() <= encode_utf8(chars).len(),
    decreases chars.len(),
{
    if chars.len() > 0 {
        lemma_chars_within_bytes(chars.drop_first());
    }
}

/// The number of characters of a string slice fits in `usize`, since the
/// number of its bytes does.
fn note_length_fits(s: &str)
    ensures
        s@.len() <= usize::MAX,
{
    let bytes = s.as_bytes();
    proof {
        lemma_chars_within_bytes(s@);
        assert(bytes@.len() == bytes.len());
    }
}

/// Splits off the first character.
pub fn split_first<'a>(s: &'a str) -> (r: Option<(char, &'a str)>)
    ensures
        s@.len() == 0 ==> r is None,
        s@.len() > 0 ==> (r matches Some((c, rest)) && c == s@[0] && rest@ == s@.skip(1)),
{
    let mut it = s.chars();
    match it.next() {
        Some(c) => Some((c, it.as_str())),
        None => None,
    }
}

/// Splits `s` after its first `n` characters; `None` where `s` is shorter.
pub fn split_chars<'a>(s: &'a str, n: usize) -> (r: Option<(&'a str, &'a str)>)
    ensures
        s@.len() < n ==> r is None,
        s@.len() >= n ==> (r matches Some((head, tail)) && head@ == s@.take(n as int) && tail@
            == s@.skip(n as int)),
{
    let mut it = s.chars();
    let mut i: usize = 0;
    while i < n
        invariant
            i <= n,
            i <= s@.len(),
            it.remaining() == s@.skip(i as int),
        decreases n - i,
    {
        match it.next() {
            Some(_) => {
                i = i + 1;
            },
            None => {
                return None;
            },
        }
    }
    let head = s.substring_char(0, n);
    Some((head, it.as_str()))
}

/// Splits `s` in front of the first `stop`: the first part is free of `stop`,
/// the second is empty or begins with it.
pub fn split_run<'a>(s: &'a str, stop: char) -> (r: (&'a str, &'a str))
    ensures
        r.0@ == s@.take(run_len(s@, stop) as int),
        r.1@ == s@.skip(run_len(s@, stop) as int),
{
    note_length_fits(s);
    let mut it = s.chars();
    let mut tail = s;
    let mut i: usize = 0;
    loop
        invariant_except_break
            it.remaining() == s@.skip(i as int),
        invariant
            i <= s@.len(),
            s@.len() <= usize::MAX,
            tail@ == s@.skip(i as int),
            forall|j: int| 0 <= j < i ==> s@[j] != stop,
        ensures
            is_run(s@, stop, i as int),
            tail@ == s@.skip(i as int),
        decreases s@.len() - i,
    {
        match it.next() {
            Some(c) => {
                if c == stop {
                    break ;
                }
                i = i + 1;
                tail = it.as_str();
            },
            None => {
                break ;
            },
        }
    }
    proof {
        lemma_run_len(s@, stop);
    }
    let head = s.substring_char(0, i);
    (head, tail)
}

} // verus!
