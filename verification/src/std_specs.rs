//! Contracts for the functions of the standard library that the decoder
//! calls and that `vstd` does not specify. They are taken on trust: each
//! says what the documentation of the standard library says of its function.

use std::str::Chars;
use vstd::prelude::*;
use vstd::std_specs::iter::IteratorSpec;

verus! {

/// `Chars::as_str` of the standard library: the part of the underlying string
/// slice that the iterator has not yet walked over. The contract equates its
/// characters with the items that the iterator is still going to yield.
pub assume_specification<'a>[ Chars::<'a>::as_str ](chars: &Chars<'a>) -> (rest: &'a str)
    ensures
        rest@ == chars.remaining(),
;

/// `String::push` of the standard library: appends one character to the end of
/// the string and leaves what was there before in place.
pub assume_specification[ String::push ](s: &mut String, ch: char)
    ensures
        final(s)@ == old(s)@.push(ch),
;

/// `char::from_u32` of the standard library: the character with the given
/// code, or `None` where the code is no Unicode scalar value, that is a
/// surrogate or a number above `0x10FFFF`.
pub assume_specification[ char::from_u32 ](code: u32) -> (r: Option<char>)
    ensures
        r == (if code <= 0xD7FF || 0xE000 <= code <= 0x10FFFF {
            Some(code as char)
        } else {
            None::<char>
        }),
;

} // verus!
