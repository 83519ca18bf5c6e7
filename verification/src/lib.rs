//! Small library to unescape strings. Tries to support a variety of languages,
//! though it mainly supports C-style escape sequences.
//!
//! Escape sequences supported:
//! * `\a` to a bell character.
//! * `\b` to a backspace.
//! * `\f` to a form feed.
//! * `\n` to a line feed.
//! * `\r` to a carriage return.
//! * `\t` to a (horizontal) tab.
//! * `\v` to a vertical tab.
//! * `\\` to a backslash.
//! * `\'` to a single quote.
//! * `\"` to a double quote.
//! * `\/` to a slash.
//! * `\` followed by a new line keeps the same new line.
//! * `\xNN` to the Unicode character in the two hex digits.
//! * `\uNNNN` as above, but with four hex digits.
//! * `\UNNNNNNNN` as above, but with eight hex digits.
//! * `\u{NN...}` as above, but with variable hex digits.
//! * octal sequences are decoded to the Unicode character.
//!
//! Every function is specified over the text as a sequence of characters:
//! [`decode::unescaped`] says what a whole text stands for,
//! [`fragments::char_step`] and [`fragments::fragment_step`] what one step of
//! the iterator does, and [`escape::decode_escape`] what one escape sequence
//! stands for.

pub mod decode;
pub mod digits;
pub mod error;
pub mod escape;
pub mod fragments;
pub mod laws;
pub mod std_specs;
pub mod text;

pub use decode::unescape;
pub use error::{Error, IntErrorKind};
pub use fragments::{StringFragment, Unescaped};
