//! The cursor that walks over a text and hands out its decoded pieces.

use crate::error::Error;
use crate::escape::{decode_escape, escape_sequence};
use crate::text::{
    lemma_part_is_free, lemma_run_is_free, lemma_run_len, lemma_run_len_concat, run_len,
    split_first, split_run,
};
use vstd::prelude::*;

verus! {

/// A fragment of a string, either an escaped character or the largest string
/// slice before the next escape sequence.
#[derive(Debug, Clone, Copy, PartialEq, Eq)]
pub enum StringFragment<'a> {
    /// A string slice between escape sequences.
    Raw(&'a str),
    /// An unescaped character from an escape sequence.
    Escaped(char),
}

/// A fragment as a mathematical value.
pub enum Fragment {
    /// A run of characters that stand for themselves.
    Raw(Seq<char>),
    /// The character that an escape sequence stands for.
    Escaped(char),
}

impl<'a> View for StringFragment<'a> {
    type V = Fragment;

    open spec fn view(&self) -> Fragment {
        match *self {
            StringFragment::Raw(s) => Fragment::Raw(s@),
            StringFragment::Escaped(c) => Fragment::Escaped(c),
        }
    }
}

/// The escape at the front of `s`, a text that begins with a backslash: the
/// character it stands for and the text behind it.
///
/// Two backslashes stand for one. Otherwise the escape sequence is looked for
/// in the text between this backslash and the next, and an error is final.
pub open spec fn escape_at(s: Seq<char>) -> Result<(char, Seq<char>), Error> {
    let after = s.skip(1);
    if after.len() == 0 {
        Err(Error::IncompleteSequence)
    } else if after[0] == '\\' {
        Ok(('\\', after.skip(1)))
    } else {
        let n = run_len(after, '\\') as int;
        match decode_escape(after.take(n)) {
            Ok((c, rest)) => Ok((c, rest + after.skip(n))),
            Err(e) => Err(e),
        }
    }
}

/// One step over the text `s`, character by character: what is handed out,
/// and the text that is left. After an error nothing is left.
pub open spec fn char_step(s: Seq<char>) -> (Option<Result<char, Error>>, Seq<char>) {
    if s.len() == 0 {
        (None, s)
    } else if s[0] != '\\' {
        (Some(Ok(s[0])), s.skip(1))
    } else {
        match escape_at(s) {
            Ok((c, rest)) => (Some(Ok(c)), rest),
            Err(e) => (Some(Err(e)), Seq::empty()),
        }
    }
}

/// One step over the text `s`, fragment by fragment: what is handed out, and
/// the text that is left. A raw fragment goes up to the next backslash or to
/// the end. After an error nothing is left.
pub open spec fn fragment_step(s: Seq<char>) -> (Option<Result<Fragment, Error>>, Seq<char>) {
    if s.len() == 0 {
        (None, s)
    } else if s[0] != '\\' {
        let n = run_len(s, '\\') as int;
        (Some(Ok(Fragment::Raw(s.take(n)))), s.skip(n))
    } else {
        match escape_at(s) {
            Ok((c, rest)) => (Some(Ok(Fragment::Escaped(c))), rest),
            Err(e) => (Some(Err(e)), Seq::empty()),
        }
    }
}

/// What `next_fragment` hands out, as a mathematical value.
pub open spec fn fragment_view(r: Option<Result<StringFragment<'_>, Error>>) -> Option<
    Result<Fragment, Error>,
> {
    match r {
        None => None,
        Some(Ok(f)) => Some(Ok(f@)),
        Some(Err(e)) => Some(Err(e)),
    }
}

/// An iterator producing unescaped characters of a string.
pub struct Unescaped<'a> {
    /// Raw text that is still to be handed out; free of backslashes.
    pending: &'a str,
    /// The text behind `pending`: empty, or beginning with a backslash.
    rest: &'a str,
}

impl<'a> Unescaped<'a> {
    #[verifier::type_invariant]
    spec fn well_formed(self) -> bool {
        &&& !self.pending@.contains('\\')
        &&& self.rest@.len() > 0 ==> self.rest@[0] == '\\'
    }

    /// The part of the text that has not been decoded yet.
    pub closed spec fn remaining(self) -> Seq<char> {
        self.pending@ + self.rest@
    }

    /// Make a new unescaper over the given string.
    pub fn new(from: &'a str) -> (r: Self)
        ensures
            r.remaining() == from@,
    {
        let (pending, rest) = split_run(from, '\\');
        proof {
            lemma_run_len(from@, '\\');
            lemma_run_is_free(from@, '\\');
        }
        Unescaped { pending, rest }
    }

    /// Decodes the escape at the front of `rest`, which begins with a
    /// backslash, and moves on behind it.
    fn next_escape_sequence(&mut self) -> (r: Result<char, Error>)
        requires
            old(self).pending@.len() == 0,
            old(self).rest@.len() > 0,
        ensures
            match escape_at(old(self).remaining()) {
                Ok((c, left)) => r == Ok::<char, Error>(c) && final(self).remaining() == left,
                Err(e) => r == Err::<char, Error>(e) && final(self).remaining().len() == 0,
            },
    {
        proof {
            use_type_invariant(&*self);
        }
        let after = match split_first(self.rest) {
            Some((_, after)) => after,
            None => self.rest,
        };
        match split_first(after) {
            None => {
                proof {
                    reveal_strlit("");
                }
                *self = Unescaped { pending: "", rest: "" };
                Err(Error::IncompleteSequence)
            },
            Some(('\\', tail)) => {
                let (pending, rest) = split_run(tail, '\\');
                proof {
                    lemma_run_len(tail@, '\\');
                    lemma_run_is_free(tail@, '\\');
                }
                *self = Unescaped { pending, rest };
                Ok('\\')
            },
            Some(_) => {
                let (token, rest) = split_run(after, '\\');
                proof {
                    lemma_run_len(after@, '\\');
                }
                match escape_sequence(token) {
                    Ok((c, pending)) => {
                        proof {
                            let from = token@.len() - pending@.len();
                            lemma_escape_leaves_suffix(token@);
                            lemma_run_is_free(after@, '\\');
                            lemma_part_is_free(token@, from, token@.len() as int, '\\');
                            assert(token@.subrange(from, token@.len() as int) == pending@);
                        }
                        *self = Unescaped { pending, rest };
                        Ok(c)
                    },
                    Err(e) => {
                        proof {
                            reveal_strlit("");
                        }
                        *self = Unescaped { pending: "", rest: "" };
                        Err(e)
                    },
                }
            },
        }
    }

    /// Get the next character of the decoded text, either one that stands for
    /// itself or one that an escape sequence stands for. Advances the
    /// iterator accordingly. After the end or an error, `None` comes forever.
    pub fn next(&mut self) -> (r: Option<Result<char, Error>>)
        ensures
            (r, final(self).remaining()) == char_step(old(self).remaining()),
    {
        proof {
            use_type_invariant(&*self);
        }
        match split_first(self.pending) {
            Some((c, pending)) => {
                proof {
                    let len = self.pending@.len() as int;
                    assert(self.pending@.contains(self.pending@[0]));
                    lemma_part_is_free(self.pending@, 1, len, '\\');
                    assert(self.pending@.subrange(1, len) == pending@);
                    assert(pending@ + self.rest@ == (self.pending@ + self.rest@).skip(1));
                }
                *self = Unescaped { pending, rest: self.rest };
                Some(Ok(c))
            },
            None => {
                if self.rest.is_empty() {
                    None
                } else {
                    Some(self.next_escape_sequence())
                }
            },
        }
    }

    /// Get the next string fragment rather than just the next character.
    /// Advances the iterator accordingly.
    pub fn next_fragment(&mut self) -> (r: Option<Result<StringFragment<'a>, Error>>)
        ensures
            (fragment_view(r), final(self).remaining()) == fragment_step(old(self).remaining()),
    {
        proof {
            use_type_invariant(&*self);
        }
        if !self.pending.is_empty() {
            let raw = self.pending;
            proof {
                let s = self.pending@ + self.rest@;
                lemma_run_len_concat(raw@, self.rest@, '\\');
                lemma_run_len(self.rest@, '\\');
                assert(s.take(raw@.len() as int) == raw@);
                assert(s.skip(raw@.len() as int) == self.rest@);
                reveal_strlit("");
            }
            *self = Unescaped { pending: "", rest: self.rest };
            Some(Ok(StringFragment::Raw(raw)))
        } else {
            if self.rest.is_empty() {
                None
            } else {
                match self.next_escape_sequence() {
                    Ok(c) => Some(Ok(StringFragment::Escaped(c))),
                    Err(e) => Some(Err(e)),
                }
            }
        }
    }
}

/// What is left behind an escape sequence is the end of the text it was
/// found in, and shorter than that text.
pub proof fn lemma_escape_leaves_suffix(s: Seq<char>)
    ensures
        decode_escape(s) matches Ok((_, rest)) ==> rest.len() < s.len() && rest == s.skip(
            s.len() - rest.len(),
        ),
{
    if s.len() > 1 {
        lemma_run_len(s.skip(2), '}');
    }
}

} // verus!
