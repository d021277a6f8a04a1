//! What a refusal says: the message, the byte offset it stopped at, and the
//! text around that offset.

use vstd::prelude::*;

use crate::emit::{decimal_text, push_decimal};
use crate::quoting::owned;
use crate::text::{around, byte_len, byte_off, byte_offset, chars_of, debug_quoted, debug_str, fits, snippet};

verus! {

#[derive(Debug, Clone, PartialEq)]
pub struct ParseError {
    pub message: String,
    pub at: usize,
    pub snippet: String,
}

impl ParseError {
    /// This error reports `message` at character `pos` of `text`: the byte
    /// offset of that character, and the text around it.
    pub open spec fn reports(&self, text: Seq<char>, pos: int, message: Seq<char>) -> bool {
        &&& self.message@ == message
        &&& self.at == byte_off(text, pos)
        &&& self.snippet@ == around(text, self.at as int)
    }

    /// A refusal at byte offset `at` of `input`. The snippet is the text
    /// around `at`, widened to character boundaries.
    pub fn new<M: Into<String>>(input: &str, at: usize, message: M) -> (e: Self)
        requires
            fits(input@),
            at + 20 <= usize::MAX,
        ensures
            e.at == at,
            e.snippet@ == around(input@, at as int),
            call_ensures(M::into, (message,), e.message),
    {
        let chars = chars_of(input);
        ParseError { message: message.into(), at, snippet: snippet(&chars, at) }
    }

    /// How the error reads to a person: the offset, the message, and the
    /// text around the offset.
    pub open spec fn text(&self) -> Seq<char> {
        "bash value parse error at byte "@ + decimal_text(self.at as nat) + ": "@ + self.message@
            + " \u{2014} near "@ + debug_str(self.snippet@)
    }

    /// The error as a person reads it.
    pub fn describe(&self) -> (s: String)
        ensures
            s@ == self.text(),
    {
        let mut s = owned("bash value parse error at byte ");
        push_decimal(&mut s, self.at);
        s.append(": ");
        s.append(self.message.as_str());
        s.append(" \u{2014} near ");
        s.append(debug_quoted(self.snippet.as_str()).as_str());
        s
    }

    /// The same refusal, its text around the offset taken from `chars`: for
    /// a refusal made over a beginning of that text.
    pub(crate) fn within(self, chars: &Vec<char>) -> (e: Self)
        requires
            fits(chars@),
            self.at <= byte_len(chars@),
        ensures
            e.message == self.message,
            e.at == self.at,
            e.snippet@ == around(chars@, self.at as int),
    {
        let at = self.at;
        ParseError { message: self.message, at, snippet: snippet(chars, at) }
    }

    /// A refusal at character `pos` of `chars`.
    pub(crate) fn at_char(chars: &Vec<char>, pos: usize, message: String) -> (e: Self)
        requires
            fits(chars@),
            pos <= chars.len(),
        ensures
            e.reports(chars@, pos as int, message@),
            e.message == message,
    {
        let at = byte_offset(chars, pos);
        proof {
            crate::text::lemma_byte_off_mono(chars@, pos as int, chars.len() as int);
        }
        ParseError { message, at, snippet: snippet(chars, at) }
    }
}

} // verus!
